//! Authenticated-encryption codec.
//!
//! A channel key is derived once per session from a passphrase and the
//! channel name; a message is sealed into a self-contained frame — a fresh
//! random 24-byte nonce followed by the ciphertext with its 128-bit
//! authentication tag — and opened back into the plaintext.  A frame that is
//! too short, was tampered with, or was sealed under another key opens to
//! nothing, with no distinction between those outcomes.

use vstd::prelude::*;

use base64::Engine;
use base64::engine::general_purpose::STANDARD_NO_PAD;
use blake2::{Blake2b512, Digest};
use chacha20poly1305::{KeyInit, XChaCha20Poly1305, XNonce, aead::Aead};
use rand::{RngCore, rngs::OsRng};
use scrypt::Scrypt;
use scrypt::password_hash::{PasswordHasher, SaltString};
use vstd::utf8::decode_utf8;
use vstd::utf8::encode_utf8;
use vstd::utf8::encode_utf8_decode_utf8;
use vstd::utf8::encode_utf8_valid_utf8;
use vstd::utf8::valid_utf8;

verus! {

/// Length of the random nonce that opens every frame.
pub const NONCE_LEN: usize = 24;

/// Length of the authentication tag that closes every frame.
pub const TAG_LEN: usize = 16;

/// Plaintexts shorter than this always seal; at this many bytes the stream
/// cipher's block counter would overflow and sealing refuses the input.
pub const MAX_PLAINTEXT_LEN: u64 = 0x3f_ffff_ffc0;

/// The 512-bit BLAKE2b digest of a byte sequence.
pub uninterp spec fn blake2b512_of(data: Seq<u8>) -> Seq<u8>;

/// The 256-bit key scrypt derives from a password and a 16-byte salt.
pub uninterp spec fn scrypt_key_of(password: Seq<u8>, salt: Seq<u8>) -> Seq<u8>;

/// What XChaCha20-Poly1305 opens a ciphertext to under a key and nonce:
/// the plaintext when the tag authenticates, nothing otherwise.
pub uninterp spec fn xchacha_open(key: Seq<u8>, nonce: Seq<u8>, ciphertext: Seq<u8>) -> Option<
    Seq<u8>,
>;

/// Relies on blake2's `Blake2b512`: the digest is a function of the input
/// bytes alone and is 64 bytes long.
#[verifier::external_body]
fn blake2b512(data: &[u8]) -> (digest: Vec<u8>)
    ensures
        digest@ == blake2b512_of(data@),
        digest@.len() == 64,
{
    let mut hasher = Blake2b512::new();
    hasher.update(data);
    hasher.finalize().to_vec()
}

/// Relies on scrypt's `Scrypt::hash_password` with its recommended
/// parameters, which produce a 32-byte key: the key is a function of the
/// password and the salt alone.  The 16-byte salt is handed over in the
/// unpadded-base64 form the password-hash API expects (22 characters, within
/// its 4..=64 bound), so neither the salt conversion nor the hash can fail.
#[verifier::external_body]
fn scrypt_derive(password: &[u8], salt: &[u8]) -> (key: [u8; 32])
    requires
        salt@.len() == 16,
    ensures
        key@ == scrypt_key_of(password@, salt@),
{
    let encoded = STANDARD_NO_PAD.encode(salt);
    let salt_string = SaltString::from_b64(&encoded).unwrap();
    let hashed = Scrypt.hash_password(password, salt_string.as_salt()).unwrap();
    let mut key = [0u8; 32];
    key.copy_from_slice(hashed.hash.unwrap().as_bytes());
    key
}

/// Relies on rand's `OsRng` to fill the nonce; nothing is assumed of the
/// bytes beyond their count.
#[verifier::external_body]
fn random_nonce() -> (nonce: Vec<u8>)
    ensures
        nonce@.len() == NONCE_LEN,
{
    let mut nonce = [0u8; 24];
    OsRng.fill_bytes(&mut nonce);
    nonce.to_vec()
}

/// Relies on chacha20poly1305's `XChaCha20Poly1305::encrypt`: the ciphertext
/// is the plaintext's length plus the 16-byte tag, and opens back to the
/// plaintext under the same key and nonce.  Below the block-counter bound the
/// call cannot fail.
#[verifier::external_body]
fn aead_seal(key: &[u8; 32], nonce: &[u8], plaintext: &[u8]) -> (ciphertext: Vec<u8>)
    requires
        nonce@.len() == NONCE_LEN,
        plaintext@.len() < MAX_PLAINTEXT_LEN,
    ensures
        ciphertext@.len() == plaintext@.len() + TAG_LEN,
        xchacha_open(key@, nonce@, ciphertext@) == Some(plaintext@),
{
    let cipher = XChaCha20Poly1305::new_from_slice(key).unwrap();
    cipher.encrypt(XNonce::from_slice(nonce), plaintext).unwrap()
}

/// Relies on chacha20poly1305's `XChaCha20Poly1305::decrypt`: opening is a
/// function of key, nonce and ciphertext alone; a failed authentication is
/// reported as an error, which this wrapper maps to `None`.
#[verifier::external_body]
fn aead_open(key: &[u8; 32], nonce: &[u8], ciphertext: &[u8]) -> (plaintext: Option<Vec<u8>>)
    requires
        nonce@.len() == NONCE_LEN,
    ensures
        match plaintext {
            Some(p) => xchacha_open(key@, nonce@, ciphertext@) == Some(p@),
            None => xchacha_open(key@, nonce@, ciphertext@) is None,
        },
{
    let cipher = XChaCha20Poly1305::new_from_slice(key).unwrap();
    cipher.decrypt(XNonce::from_slice(nonce), ciphertext).ok()
}

/// Relies on std's `String::from_utf8`: it succeeds exactly on valid UTF-8
/// and returns the decoded characters.
#[verifier::external_body]
pub(crate) fn bytes_to_string(bytes: Vec<u8>) -> (text: Option<String>)
    ensures
        match text {
            Some(s) => valid_utf8(bytes@) && s@ == decode_utf8(bytes@),
            None => !valid_utf8(bytes@),
        },
{
    String::from_utf8(bytes).ok()
}

/// Copies `data[start..end]` into a fresh vector.
fn copy_range(data: &[u8], start: usize, end: usize) -> (out: Vec<u8>)
    requires
        start <= end <= data@.len(),
    ensures
        out@ == data@.subrange(start as int, end as int),
{
    let mut out: Vec<u8> = Vec::new();
    let mut i: usize = start;
    while i < end
        invariant
            start <= i <= end <= data@.len(),
            out@ == data@.subrange(start as int, i as int),
        decreases end - i,
    {
        out.push(*vstd::slice::slice_index_get(data, i));
        proof {
            assert(data@.subrange(start as int, i + 1) =~= data@.subrange(start as int, i as int)
                .push(data@[i as int]));
        }
        i = i + 1;
    }
    out
}

/// The channel key: scrypt over the passphrase, salted with the first 16
/// bytes of the BLAKE2b digest of the channel name.
pub open spec fn channel_key_of(password: Seq<char>, channel: Seq<char>) -> Seq<u8> {
    scrypt_key_of(encode_utf8(password), blake2b512_of(encode_utf8(channel)).subrange(0, 16))
}

/// What a frame opens to under a key: nothing when it is shorter than a
/// nonce, otherwise whatever the cipher opens its remainder to under the
/// leading 24-byte nonce.
pub open spec fn frame_open(key: Seq<u8>, frame: Seq<u8>) -> Option<Seq<u8>> {
    if frame.len() < NONCE_LEN {
        None
    } else {
        xchacha_open(
            key,
            frame.subrange(0, NONCE_LEN as int),
            frame.subrange(NONCE_LEN as int, frame.len() as int),
        )
    }
}

/// What a frame opens to as text: the decoded plaintext when the frame
/// authenticates and its plaintext is valid UTF-8, nothing otherwise.
pub open spec fn message_open(key: Seq<u8>, frame: Seq<u8>) -> Option<Seq<char>> {
    match frame_open(key, frame) {
        Some(plaintext) => if valid_utf8(plaintext) {
            Some(decode_utf8(plaintext))
        } else {
            None
        },
        None => None,
    }
}

/// Derives the 256-bit channel encryption key from a passphrase and the
/// channel name.  Deterministic: the same pair always yields the same key.
pub fn derive_key(password: &str, channel: &str) -> (key: [u8; 32])
    ensures
        key@ == channel_key_of(password@, channel@),
{
    let digest = blake2b512(channel.as_bytes());
    let salt = copy_range(digest.as_slice(), 0, 16);
    scrypt_derive(password.as_bytes(), salt.as_slice())
}

/// Seals a message under a channel key: a fresh random 24-byte nonce is
/// drawn and the frame `nonce ‖ ciphertext-with-tag` is returned.  Whatever
/// nonce was drawn, the frame opens back to the message under the same key.
pub fn encrypt_message(key: &[u8; 32], plaintext: &str) -> (frame: Vec<u8>)
    requires
        encode_utf8(plaintext@).len() < MAX_PLAINTEXT_LEN,
    ensures
        frame@.len() == encode_utf8(plaintext@).len() + NONCE_LEN + TAG_LEN,
        frame_open(key@, frame@) == Some(encode_utf8(plaintext@)),
        message_open(key@, frame@) == Some(plaintext@),
{
    let mut frame = random_nonce();
    let ghost nonce = frame@;
    let mut ciphertext = aead_seal(key, frame.as_slice(), plaintext.as_bytes());
    let ghost sealed = ciphertext@;
    frame.append(&mut ciphertext);
    proof {
        assert(frame@.subrange(0, NONCE_LEN as int) =~= nonce);
        assert(frame@.subrange(NONCE_LEN as int, frame@.len() as int) =~= sealed);
        lemma_round_trip(key@, plaintext@, frame@);
    }
    frame
}

/// Opens a received frame.  Returns the plaintext exactly when the frame is
/// at least a nonce long, its tag authenticates under the key, and the
/// sealed bytes are valid UTF-8; returns nothing otherwise, with no
/// distinction between a short frame, a wrong key and a corrupted frame.
pub fn decrypt_message(key: &[u8; 32], encrypted: &[u8]) -> (message: Option<String>)
    ensures
        match message {
            Some(s) => message_open(key@, encrypted@) == Some(s@),
            None => message_open(key@, encrypted@) is None,
        },
        encrypted@.len() < NONCE_LEN ==> message is None,
{
    if encrypted.len() < NONCE_LEN {
        return None;
    }
    let nonce = copy_range(encrypted, 0, NONCE_LEN);
    let ciphertext = copy_range(encrypted, NONCE_LEN, encrypted.len());
    match aead_open(key, nonce.as_slice(), ciphertext.as_slice()) {
        Some(plaintext) => bytes_to_string(plaintext),
        None => None,
    }
}

/// Round trip: a frame that opens to the encoding of a plaintext — as every
/// frame sealed by `encrypt_message` does under its key — opens as text to
/// that very plaintext.
pub proof fn lemma_round_trip(key: Seq<u8>, plaintext: Seq<char>, frame: Seq<u8>)
    requires
        frame_open(key, frame) == Some(encode_utf8(plaintext)),
    ensures
        message_open(key, frame) == Some(plaintext),
{
    broadcast use encode_utf8_valid_utf8, encode_utf8_decode_utf8;

}

/// Determinism of derivation: two keys derived from the same passphrase and
/// channel name are the same key.
pub proof fn lemma_derive_key_deterministic(
    password: Seq<char>,
    channel: Seq<char>,
    key1: Seq<u8>,
    key2: Seq<u8>,
)
    requires
        key1 == channel_key_of(password, channel),
        key2 == channel_key_of(password, channel),
    ensures
        key1 == key2,
{
}

} // verus!
