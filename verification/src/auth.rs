//! Session admission token and the control message that carries it.
//!
//! At connect time a client sends one JSON control message naming its uid,
//! the channel, and a 64-bit keyed-hash token over uid, channel and an
//! optional shared secret.  The token is a shared-channel admission value,
//! not a signature.

use vstd::prelude::*;

use crate::codec::bytes_to_string;
use crate::dupdet::sip_hash_bytes;
use crate::dupdet::sip_hash_of;
use vstd::utf8::decode_utf8;
use vstd::utf8::encode_utf8;
use vstd::utf8::encode_utf8_decode_utf8;
use vstd::utf8::encode_utf8_valid_utf8;
use vstd::utf8::is_ascii_chars;
use vstd::utf8::is_ascii_chars_encode_utf8;
use vstd::utf8::valid_utf8;

verus! {

/// The byte of the lowercase hexadecimal digit for a value below 16.
pub open spec fn hex_digit(nibble: u8) -> u8
    recommends
        nibble < 16,
{
    if nibble < 10 {
        (0x30 + nibble) as u8
    } else {
        (0x57 + nibble) as u8
    }
}

/// The nibble of `value` at hexadecimal position `i`, most significant first.
pub open spec fn nibble_at(value: u64, i: int) -> u8 {
    ((value >> (((15 - i) * 4) as u64)) & 0xf) as u8
}

/// The 16 lowercase hexadecimal digits of a 64-bit value, as bytes.
pub open spec fn hex16_bytes(value: u64) -> Seq<u8> {
    Seq::new(16, |i: int| hex_digit(nibble_at(value, i)))
}

/// The 16 lowercase hexadecimal digits of a 64-bit value, as characters.
pub open spec fn hex16_chars(value: u64) -> Seq<char> {
    hex16_bytes(value).map_values(|b: u8| b as char)
}

/// Writes the 16 hex digits of `value`, most significant first.
fn hex16(value: u64) -> (out: Vec<u8>)
    ensures
        out@ == hex16_bytes(value),
{
    let mut out: Vec<u8> = Vec::new();
    let mut i: usize = 0;
    while i < 16
        invariant
            0 <= i <= 16,
            out@ == hex16_bytes(value).take(i as int),
        decreases 16 - i,
    {
        let shift: u64 = 60 - 4 * (i as u64);
        let masked: u64 = (value >> shift) & 0xf;
        proof {
            assert((value >> shift) & 0xf < 16) by (bit_vector);
        }
        let nib: u8 = masked as u8;
        proof {
            assert((((15 - i as int) * 4) as u64) == shift);
            assert(nib == nibble_at(value, i as int));
        }
        let digit: u8 = if nib < 10 {
            0x30 + nib
        } else {
            0x57 + nib
        };
        out.push(digit);
        proof {
            assert(hex16_bytes(value).take(i + 1) =~= hex16_bytes(value).take(i as int).push(
                digit,
            ));
        }
        i = i + 1;
    }
    proof {
        assert(out@ =~= hex16_bytes(value));
    }
    out
}

/// Every nibble is below 16.
proof fn lemma_nibble_bound(value: u64, i: int)
    ensures
        nibble_at(value, i) < 16,
{
    let shift: u64 = ((15 - i) * 4) as u64;
    assert((value >> shift) & 0xf < 16) by (bit_vector);
}

/// Bytes below 0x80 are valid UTF-8 and decode to themselves as characters.
proof fn lemma_ascii_bytes_decode(bytes: Seq<u8>)
    requires
        forall|i: int| 0 <= i < bytes.len() ==> bytes[i] < 0x80,
    ensures
        valid_utf8(bytes),
        decode_utf8(bytes) == bytes.map_values(|b: u8| b as char),
{
    let chars = bytes.map_values(|b: u8| b as char);
    assert forall|i: int| 0 <= i < chars.len() implies '\0' <= #[trigger] chars[i] <= '\u{7f}' by {
        assert(chars[i] == bytes[i] as char);
    }
    assert(is_ascii_chars(chars));
    is_ascii_chars_encode_utf8(chars);
    assert forall|i: int| 0 <= i < chars.len() implies #[trigger] encode_utf8(chars)[i]
        == bytes[i] by {
        assert(chars[i] as u8 == encode_utf8(chars)[i]);
    }
    assert(encode_utf8(chars) =~= bytes);
    encode_utf8_valid_utf8(chars);
    encode_utf8_decode_utf8(chars);
}

/// The view of an optional string slice.
pub open spec fn view_opt(text: Option<&str>) -> Option<Seq<char>> {
    match text {
        Some(s) => Some(s@),
        None => None,
    }
}

/// The bytes hashed into the admission token: uid, channel and the optional
/// shared secret, UTF-8 encoded and concatenated.
pub open spec fn auth_input(uid: Seq<char>, channel: Seq<char>, secret: Option<Seq<char>>) -> Seq<
    u8,
> {
    encode_utf8(uid) + encode_utf8(channel) + (match secret {
        Some(s) => encode_utf8(s),
        None => Seq::<u8>::empty(),
    })
}

/// The session admission token: the 16 lowercase hex digits of the SipHash
/// digest over uid ‖ channel ‖ optional shared secret.
pub open spec fn auth_token_of(
    uid: Seq<char>,
    channel: Seq<char>,
    secret: Option<Seq<char>>,
) -> Seq<char> {
    hex16_chars(sip_hash_of(auth_input(uid, channel, secret)))
}

/// Appends every byte of `data` to `out`.
fn push_all(out: &mut Vec<u8>, data: &[u8])
    ensures
        final(out)@ == old(out)@ + data@,
{
    let ghost start = out@;
    let mut i: usize = 0;
    while i < data.len()
        invariant
            0 <= i <= data@.len(),
            out@ == start + data@.take(i as int),
        decreases data@.len() - i,
    {
        out.push(*vstd::slice::slice_index_get(data, i));
        proof {
            assert(data@.take(i + 1) =~= data@.take(i as int).push(data@[i as int]));
            assert(out@ =~= start + data@.take(i + 1));
        }
        i = i + 1;
    }
    proof {
        assert(out@ =~= start + data@);
    }
}

/// Builds the session admission token for a uid, a channel name and an
/// optional shared secret.  Deterministic: the same three inputs always
/// yield the same 16-character lowercase hex token.
pub fn auth_token(uid: &str, channel: &str, secret: Option<&str>) -> (token: String)
    ensures
        token@ == auth_token_of(uid@, channel@, view_opt(secret)),
{
    let mut data: Vec<u8> = Vec::new();
    push_all(&mut data, uid.as_bytes());
    push_all(&mut data, channel.as_bytes());
    match secret {
        Some(s) => push_all(&mut data, s.as_bytes()),
        None => (),
    }
    proof {
        assert(data@ =~= auth_input(uid@, channel@, view_opt(secret)));
    }
    let digest = sip_hash_bytes(data.as_slice());
    let hex = hex16(digest);
    proof {
        assert forall|i: int| 0 <= i < hex@.len() implies hex@[i] < 0x80 by {
            lemma_nibble_bound(digest, i);
            assert(hex@[i] == hex_digit(nibble_at(digest, i)));
        }
        lemma_ascii_bytes_decode(hex@);
    }
    match bytes_to_string(hex) {
        Some(token) => token,
        None => vstd::pervasive::unreached(),
    }
}

/// Auth token determinism: the same uid, channel and optional secret always
/// yield the same token.
pub proof fn lemma_auth_token_deterministic(
    uid: Seq<char>,
    channel: Seq<char>,
    secret: Option<Seq<char>>,
    token1: Seq<char>,
    token2: Seq<char>,
)
    requires
        token1 == auth_token_of(uid, channel, secret),
        token2 == auth_token_of(uid, channel, secret),
    ensures
        token1 == token2,
{
}

/// The bytes of the two lowercase hex digits of a byte.
pub open spec fn hex2_bytes(value: u8) -> Seq<u8> {
    seq![hex_digit(value / 16), hex_digit(value % 16)]
}

/// The JSON escape of one byte of UTF-8 text: quote and backslash get a
/// backslash escape, control bytes become `\u00XX`, and every other byte
/// stands unchanged (bytes of multi-byte characters are all above 0x7f and
/// pass through).
pub open spec fn escape_byte(b: u8) -> Seq<u8> {
    if b == 0x22 {
        seq![0x5cu8, 0x22u8]
    } else if b == 0x5c {
        seq![0x5cu8, 0x5cu8]
    } else if b < 0x20 {
        seq![0x5cu8, 0x75u8, 0x30u8, 0x30u8] + hex2_bytes(b)
    } else {
        seq![b]
    }
}

/// UTF-8 text escaped for the inside of a JSON string, byte by byte.
pub open spec fn json_escaped(bytes: Seq<u8>) -> Seq<u8>
    decreases bytes.len(),
{
    if bytes.len() == 0 {
        Seq::<u8>::empty()
    } else {
        escape_byte(bytes[0]) + json_escaped(bytes.drop_first())
    }
}

/// A JSON string: quoted, escaped content.
pub open spec fn json_quoted(bytes: Seq<u8>) -> Seq<u8> {
    seq![0x22u8] + json_escaped(bytes) + seq![0x22u8]
}

/// The JSON control message `{"uid":…,"channel":…,"auth":…}` over the UTF-8
/// bytes of its three fields.
pub open spec fn auth_message_bytes(uid: Seq<u8>, channel: Seq<u8>, token: Seq<u8>) -> Seq<u8> {
    seq![0x7bu8, 0x22u8, 0x75u8, 0x69u8, 0x64u8, 0x22u8, 0x3au8] + json_quoted(uid) + seq![
        0x2cu8,
        0x22u8,
        0x63u8,
        0x68u8,
        0x61u8,
        0x6eu8,
        0x6eu8,
        0x65u8,
        0x6cu8,
        0x22u8,
        0x3au8,
    ] + json_quoted(channel) + seq![0x2cu8, 0x22u8, 0x61u8, 0x75u8, 0x74u8, 0x68u8, 0x22u8, 0x3au8]
        + json_quoted(token) + seq![0x7du8]
}

/// Escaping distributes over concatenation.
proof fn lemma_json_escaped_concat(a: Seq<u8>, b: Seq<u8>)
    ensures
        json_escaped(a + b) == json_escaped(a) + json_escaped(b),
    decreases a.len(),
{
    if a.len() == 0 {
        assert(a + b =~= b);
        assert(json_escaped(a) + json_escaped(b) =~= json_escaped(b));
    } else {
        assert((a + b).drop_first() =~= a.drop_first() + b);
        lemma_json_escaped_concat(a.drop_first(), b);
        assert(json_escaped(a + b) =~= json_escaped(a) + json_escaped(b));
    }
}

/// Appends the JSON escape of every byte of `data` to `out`.
fn push_escaped(out: &mut Vec<u8>, data: &[u8])
    ensures
        final(out)@ == old(out)@ + json_escaped(data@),
{
    let ghost start = out@;
    let mut i: usize = 0;
    while i < data.len()
        invariant
            0 <= i <= data@.len(),
            out@ == start + json_escaped(data@.take(i as int)),
        decreases data@.len() - i,
    {
        let b = *vstd::slice::slice_index_get(data, i);
        if b == 0x22 {
            out.push(0x5c);
            out.push(0x22);
        } else if b == 0x5c {
            out.push(0x5c);
            out.push(0x5c);
        } else if b < 0x20 {
            out.push(0x5c);
            out.push(0x75);
            out.push(0x30);
            out.push(0x30);
            let hi: u8 = b >> 4;
            let lo: u8 = b & 0xf;
            proof {
                assert(b >> 4 == b / 16 && b & 0xf == b % 16) by (bit_vector);
                assert(b >> 4 < 16 && b & 0xf < 16) by (bit_vector);
            }
            out.push(if hi < 10 {
                0x30 + hi
            } else {
                0x57 + hi
            });
            out.push(if lo < 10 {
                0x30 + lo
            } else {
                0x57 + lo
            });
        } else {
            out.push(b);
        }
        proof {
            assert(data@.take(i + 1) =~= data@.take(i as int).push(b));
            lemma_json_escaped_concat(data@.take(i as int), seq![b]);
            assert(seq![b].drop_first() =~= Seq::<u8>::empty());
            assert(json_escaped(seq![b]) =~= escape_byte(b) + json_escaped(Seq::<u8>::empty()));
            assert(json_escaped(seq![b]) =~= escape_byte(b));
            assert(data@.take(i as int) + seq![b] =~= data@.take(i + 1));
            assert(out@ =~= start + json_escaped(data@.take(i + 1)));
        }
        i = i + 1;
    }
    proof {
        assert(data@.take(i as int) =~= data@);
    }
}

/// Appends `data` as a JSON string — quoted and escaped — to `out`.
fn push_json_string(out: &mut Vec<u8>, data: &[u8])
    ensures
        final(out)@ == old(out)@ + json_quoted(data@),
{
    let ghost start = out@;
    out.push(0x22);
    push_escaped(out, data);
    out.push(0x22);
    proof {
        assert(out@ =~= start + json_quoted(data@));
    }
}

/// Builds the JSON control message sent once per connection, immediately
/// after connect and before any data frame: an object with the fields
/// `uid`, `channel` and `auth`, the latter holding the admission token.
/// Returned as UTF-8 bytes, ready to be sent as a text frame.
pub fn auth_message(uid: &str, channel: &str, token: &str) -> (msg: Vec<u8>)
    ensures
        msg@ == auth_message_bytes(
            encode_utf8(uid@),
            encode_utf8(channel@),
            encode_utf8(token@),
        ),
{
    let mut out: Vec<u8> = Vec::new();
    out.push(0x7b);
    out.push(0x22);
    out.push(0x75);
    out.push(0x69);
    out.push(0x64);
    out.push(0x22);
    out.push(0x3a);
    let ghost head = out@;
    proof {
        assert(head =~= seq![0x7bu8, 0x22u8, 0x75u8, 0x69u8, 0x64u8, 0x22u8, 0x3au8]);
    }
    push_json_string(&mut out, uid.as_bytes());
    out.push(0x2c);
    out.push(0x22);
    out.push(0x63);
    out.push(0x68);
    out.push(0x61);
    out.push(0x6e);
    out.push(0x6e);
    out.push(0x65);
    out.push(0x6c);
    out.push(0x22);
    out.push(0x3a);
    push_json_string(&mut out, channel.as_bytes());
    out.push(0x2c);
    out.push(0x22);
    out.push(0x61);
    out.push(0x75);
    out.push(0x74);
    out.push(0x68);
    out.push(0x22);
    out.push(0x3a);
    push_json_string(&mut out, token.as_bytes());
    out.push(0x7d);
    proof {
        assert(out@ =~= auth_message_bytes(
            encode_utf8(uid@),
            encode_utf8(channel@),
            encode_utf8(token@),
        ));
    }
    out
}

} // verus!
