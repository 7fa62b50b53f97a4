//! A bencode codec and BitTorrent metainfo extractor.
//!
//! Bencode is the length-prefixed binary serialization format used by the
//! BitTorrent metainfo (".torrent") format.  This crate decodes bencode
//! documents into a value tree, re-encodes value trees in canonical form
//! (dictionary keys in ascending byte order), and derives from a decoded
//! metainfo document the identifiers a client needs: the SHA-1 digest of the
//! `info` dictionary and the per-piece SHA-1 hashes.
//!
//! The central guarantees are proved as theorems: decoding an encoding gives
//! the value back ([`roundtrip::lemma_round_trip`]), two dictionaries with
//! the same bindings encode identically whatever order their entries were
//! inserted in ([`model::lemma_canonical_encoding`]), equal `info`
//! dictionaries yield equal SHA-1 hex digests
//! ([`torrent::lemma_digest_deterministic`]), and the per-piece hex digests
//! reproduce the `pieces` bytes exactly
//! ([`torrent::lemma_piece_hashes_reconstruct`]).
pub mod decode;
pub mod display;
pub mod hex;
pub mod model;
pub mod numerals;
pub mod order;
pub mod roundtrip;
pub mod torrent;
pub mod value;

pub use decode::{
    decode, decode_dict, decode_integer, decode_list, decode_raw_string, decode_string,
    DecodeError,
};
pub use torrent::{Torrent, TorrentError, TorrentInfo};
pub use value::{dict_get, dict_insert, Bencode};
