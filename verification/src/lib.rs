//! Core of an encrypted group-messaging relay.
//!
//! The library is organised around three leaf components and one
//! orchestrating component:
//!
//! * [`codec`] — channel-key derivation and authenticated encryption of a
//!   single message into a self-contained frame, and back.
//! * [`dupdet`] — a bounded, insertion-ordered set of message fingerprints
//!   with FIFO eviction, used to suppress redelivered frames.
//! * [`auth`] — the per-session admission token and the JSON control
//!   message that carries it.
//! * [`relay`] — the forwarding decisions of a two-endpoint bridge, its
//!   counters, and the session lifecycle.
//!
//! All I/O (sockets, the broker client, the terminal) lives outside this
//! crate; the library only makes the decisions and transformations that
//! every frame passes through.

pub mod auth;
pub mod codec;
pub mod dupdet;
pub mod relay;
