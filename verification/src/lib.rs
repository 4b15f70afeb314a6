//! The core of a caching DNS stub resolver.
//!
//! The crate holds the three parts that a stub resolver is made of, each
//! with its contract:
//!
//! - the codec of DNS messages ([`name`], [`message`]), which reads
//!   compressed names without ever following a pointer forwards and reads
//!   nothing past the end of a buffer;
//! - the cache ([`cache`]), a trie of labels that is walked from the
//!   right-most label of a name;
//! - the resolver ([`resolver`]), a state machine that is fed datagrams
//!   and says what to send.
//!
//! What the contracts are stated over stands in [`wire`], [`label`] and
//! [`trie`]; what follows from them, in [`roundtrip`] and [`decoded`].
//! The crate does no input or output: whoever owns the socket brings
//! the datagrams and sends what the resolver asks for.

pub mod wire;
pub mod label;
pub mod name;
pub mod message;
pub mod roundtrip;
pub mod decoded;
pub mod trie;
pub mod cache;
pub mod resolver;
