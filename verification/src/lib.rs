//! A verified Bencode codec and torrent-metadata extractor.
//!
//! The wire grammar is modelled by pure specification functions
//! ([`grammar::spec_parse`] and [`grammar::spec_encode`]); the executable
//! decoder and canonical encoder are proved to follow them exactly, and the
//! two are related by proved round-trip laws.  On top of the codec, the
//! torrent layer turns a decoded value tree into validated torrent metadata,
//! including the SHA-1 info-hash over the canonical encoding of the `info`
//! sub-dictionary.

pub mod decode;
pub mod encode;
pub mod grammar;
pub mod hashing;
pub mod id;
pub mod laws;
pub mod text;
pub mod torrent;
pub mod value;
