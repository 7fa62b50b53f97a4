//! The metainfo extractor.
//!
//! A decoded metainfo document is a bencode dictionary.  `from_bencode`
//! validates its required fields, re-encodes the `info` sub-dictionary in
//! canonical form to compute the torrent's SHA-1 content identity, and
//! slices the `pieces` byte string into per-piece hex digests.
use vstd::prelude::*;
use vstd::slice::{slice_subrange, slice_to_vec};
use vstd::utf8::encode_utf8;

use crate::hex::{hex_of, hex_string};
use crate::model::{enc, lookup, sorted_entries, BItem};
use crate::value::{bview, dict_get, Bencode};

verus! {

/// A schema or consistency error found while reading a metainfo document.
#[derive(Debug, Clone, Copy, PartialEq, Eq, Structural)]
pub enum TorrentError {
    /// The document is not a dictionary.
    NotADict,
    /// `announce` is absent or not a text string.
    MissingAnnounce,
    /// `info` is absent.
    MissingInfo,
    /// `info` is present but not a dictionary.
    InfoNotDict,
    /// `info.name` is absent or not a text string.
    MissingName,
    /// `info.piece length` is absent or not an integer.
    MissingPieceLength,
    /// `info.pieces` is absent or not a byte string.
    MissingPieces,
    /// `info.length` is absent or not an integer.
    MissingLength,
    /// The `pieces` byte string's length is not a multiple of twenty.
    PiecesLength,
}

/// The SHA-1 digest of a byte string: a function of the bytes alone.
pub uninterp spec fn sha1_of(data: Seq<u8>) -> Seq<u8>;

/// Relies on `sha1::Sha1` through the `Digest` interface: the returned
/// vector is the 20-byte SHA-1 digest of the input, a function of the
/// input bytes alone.
#[verifier::external_body]
fn sha1_digest(data: &Vec<u8>) -> (r: Vec<u8>)
    ensures
        r@ == sha1_of(data@),
        r@.len() == 20,
{
    let mut hasher = <sha1::Sha1 as sha1::Digest>::new();
    sha1::Digest::update(&mut hasher, data.as_slice());
    sha1::Digest::finalize(hasher).as_slice().to_vec()
}

/// The model of an extracted metainfo record.
pub struct TorrentItem {
    /// Tracker URL.
    pub announce: Seq<char>,
    /// Suggested file name.
    pub name: Seq<char>,
    /// Bytes per piece.
    pub piece_length: int,
    /// Total content length.
    pub length: int,
    /// Concatenated 20-byte piece digests, as stored in the document.
    pub pieces: Seq<u8>,
    /// Hex rendering of each 20-byte window of `pieces`, in piece order.
    pub pieces_hash: Seq<Seq<char>>,
    /// Hex SHA-1 digest of the canonical encoding of the `info` dictionary.
    pub info_hash: Seq<char>,
}

/// The per-piece hex digests of a `pieces` byte string of length `20 * k`.
pub open spec fn piece_hashes(pieces: Seq<u8>) -> Seq<Seq<char>> {
    Seq::new((pieces.len() / 20) as nat, |i: int| hex_of(pieces.subrange(20 * i, 20 * i + 20)))
}

/// Specification of metainfo extraction: which documents are accepted,
/// which error each rejected document earns, and every field of the record
/// an accepted document produces.
pub open spec fn spec_from_bencode(m: BItem) -> Result<TorrentItem, TorrentError> {
    match m {
        BItem::Dict(top) => match lookup(top, "announce"@) {
            Some(BItem::Str(announce)) => match lookup(top, "info"@) {
                Some(BItem::Dict(info)) => match lookup(info, "name"@) {
                    Some(BItem::Str(name)) => match lookup(info, "piece length"@) {
                        Some(BItem::Int(piece_length)) => match lookup(info, "pieces"@) {
                            Some(BItem::Raw(pieces)) => spec_assemble(
                                m,
                                announce,
                                info,
                                name,
                                piece_length,
                                pieces,
                            ),
                            Some(BItem::Str(pieces_text)) => spec_assemble(
                                m,
                                announce,
                                info,
                                name,
                                piece_length,
                                encode_utf8(pieces_text),
                            ),
                            _ => Err(TorrentError::MissingPieces),
                        },
                        _ => Err(TorrentError::MissingPieceLength),
                    },
                    _ => Err(TorrentError::MissingName),
                },
                Some(_) => Err(TorrentError::InfoNotDict),
                None => Err(TorrentError::MissingInfo),
            },
            _ => Err(TorrentError::MissingAnnounce),
        },
        _ => Err(TorrentError::NotADict),
    }
}

/// The record assembled once all required fields are present, provided the
/// `length` field is an integer and `pieces` splits into 20-byte windows.
pub open spec fn spec_assemble(
    m: BItem,
    announce: Seq<char>,
    info: Seq<(Seq<char>, BItem)>,
    name: Seq<char>,
    piece_length: int,
    pieces: Seq<u8>,
) -> Result<TorrentItem, TorrentError> {
    match lookup(info, "length"@) {
        Some(BItem::Int(length)) => if pieces.len() % 20 != 0 {
            Err(TorrentError::PiecesLength)
        } else {
            Ok(
                TorrentItem {
                    announce: announce,
                    name: name,
                    piece_length: piece_length,
                    length: length,
                    pieces: pieces,
                    pieces_hash: piece_hashes(pieces),
                    info_hash: hex_of(sha1_of(enc(BItem::Dict(info)))),
                },
            )
        },
        _ => Err(TorrentError::MissingLength),
    }
}

/// The `info` sub-dictionary of a metainfo record.
pub struct TorrentInfo {
    /// Total content length.
    pub length: i64,
    /// Suggested file name.
    pub name: String,
    /// Bytes per piece.
    pub piece_length: i64,
    /// Concatenated 20-byte piece digests, as stored in the document.
    pub pieces: Vec<u8>,
    /// Hex rendering of each 20-byte window of `pieces`, in piece order.
    pub pieces_hash: Vec<String>,
}

/// An extracted metainfo record.
pub struct Torrent {
    /// Tracker URL.
    pub announce: String,
    /// The `info` sub-dictionary's fields.
    pub info: TorrentInfo,
    /// Hex SHA-1 digest of the canonical encoding of the `info` dictionary.
    pub info_hash_sha1: String,
}

impl View for Torrent {
    type V = TorrentItem;

    open spec fn view(&self) -> TorrentItem {
        TorrentItem {
            announce: self.announce@,
            name: self.info.name@,
            piece_length: self.info.piece_length as int,
            length: self.info.length as int,
            pieces: self.info.pieces@,
            pieces_hash: Seq::new(
                self.info.pieces_hash@.len(),
                |i: int| self.info.pieces_hash@[i]@,
            ),
            info_hash: self.info_hash_sha1@,
        }
    }
}

impl Torrent {
    /// Builds a metainfo record from a decoded document, exactly as
    /// `spec_from_bencode` specifies: it succeeds on precisely the
    /// documents with all required fields well typed and a `pieces` length
    /// divisible by twenty, and then every field of the record — the info
    /// hash included — is the one the specification names.
    pub fn from_bencode(value: &Bencode) -> (r: Result<Self, TorrentError>)
        ensures
            match r {
                Ok(t) => spec_from_bencode(value@) == Ok::<TorrentItem, TorrentError>(t@),
                Err(e) => spec_from_bencode(value@) == Err::<TorrentItem, TorrentError>(e),
            },
    {
        let dict = match value {
            Bencode::Dict(dict) => dict,
            _ => {
                return Err(TorrentError::NotADict);
            },
        };
        let announce = match dict_get(dict, "announce") {
            Some(Bencode::Str(s)) => s.clone(),
            _ => {
                return Err(TorrentError::MissingAnnounce);
            },
        };
        let bencode_info = match dict_get(dict, "info") {
            Some(v) => v,
            None => {
                return Err(TorrentError::MissingInfo);
            },
        };
        let info = match bencode_info {
            Bencode::Dict(info) => info,
            _ => {
                return Err(TorrentError::InfoNotDict);
            },
        };
        let name = match dict_get(info, "name") {
            Some(Bencode::Str(s)) => s.clone(),
            _ => {
                return Err(TorrentError::MissingName);
            },
        };
        let piece_length = match dict_get(info, "piece length") {
            Some(Bencode::Int(n)) => *n,
            _ => {
                return Err(TorrentError::MissingPieceLength);
            },
        };
        let pieces: Vec<u8> = match dict_get(info, "pieces") {
            Some(Bencode::RawStr(b)) => slice_to_vec(b.as_slice()),
            Some(Bencode::Str(t)) => slice_to_vec(t.as_str().as_bytes()),
            _ => {
                return Err(TorrentError::MissingPieces);
            },
        };
        let length = match dict_get(info, "length") {
            Some(Bencode::Int(n)) => *n,
            _ => {
                return Err(TorrentError::MissingLength);
            },
        };
        if pieces.len() % 20 != 0 {
            return Err(TorrentError::PiecesLength);
        }
        let encoded_info = bencode_info.encode();
        let digest = sha1_digest(&encoded_info);
        let hash = hex_string(digest.as_slice());

        let mut pieces_hash: Vec<String> = Vec::new();
        let mut off: usize = 0;
        while off < pieces.len()
            invariant
                off % 20 == 0,
                off <= pieces@.len(),
                pieces@.len() % 20 == 0,
                pieces_hash@.len() * 20 == off,
                forall|j: int|
                    0 <= j < pieces_hash@.len() ==> (#[trigger] pieces_hash@[j])@ == hex_of(
                        pieces@.subrange(20 * j, 20 * j + 20),
                    ),
            decreases pieces@.len() - off,
        {
            proof {
                assert((pieces@.len() - off) % 20 == 0);
                assert(off + 20 <= pieces@.len());
            }
            let chunk = slice_subrange(pieces.as_slice(), off, off + 20);
            let piece_hex = hex_string(chunk);
            pieces_hash.push(piece_hex);
            off = off + 20;
        }
        proof {
            assert(off == pieces@.len());
            assert(pieces_hash@.len() == pieces@.len() / 20);
        }
        let torrent = Torrent {
            announce: announce,
            info: TorrentInfo {
                name: name,
                piece_length: piece_length,
                pieces: pieces,
                length: length,
                pieces_hash: pieces_hash,
            },
            info_hash_sha1: hash,
        };
        proof {
            assert(torrent@.pieces_hash =~= piece_hashes(torrent@.pieces));
        }
        Ok(torrent)
    }
}

/// Digest determinism: encoding the same logical `info` dictionary — the
/// same bindings, however its entries were gathered — yields the same SHA-1
/// hex digest.
pub proof fn lemma_digest_deterministic(
    d1: Seq<(Seq<char>, BItem)>,
    d2: Seq<(Seq<char>, BItem)>,
)
    requires
        sorted_entries(d1),
        sorted_entries(d2),
        forall|k: Seq<char>| #[trigger] lookup(d1, k) == lookup(d2, k),
    ensures
        hex_of(sha1_of(enc(BItem::Dict(d1)))) == hex_of(sha1_of(enc(BItem::Dict(d2)))),
{
    crate::model::lemma_canonical_encoding(d1, d2);
}

/// Concatenation of the bytes each hex string in a sequence denotes.
pub open spec fn unhex_concat(hashes: Seq<Seq<char>>) -> Seq<u8>
    decreases hashes.len(),
{
    if hashes.len() == 0 {
        Seq::empty()
    } else {
        unhex_concat(hashes.drop_last()) + crate::hex::unhex(hashes.last())
    }
}

/// Piece slicing loses nothing: a `pieces` byte string of length `20 * k`
/// yields exactly `k` hex digests of forty characters each, and their
/// hex-decoded concatenation reproduces the original bytes exactly.
pub proof fn lemma_piece_hashes_reconstruct(pieces: Seq<u8>)
    requires
        pieces.len() % 20 == 0,
    ensures
        piece_hashes(pieces).len() == pieces.len() / 20,
        forall|i: int|
            0 <= i < piece_hashes(pieces).len() ==> (#[trigger] piece_hashes(pieces)[i]).len()
                == 40,
        unhex_concat(piece_hashes(pieces)) == pieces,
    decreases pieces.len(),
{
    let hs = piece_hashes(pieces);
    assert forall|i: int| 0 <= i < hs.len() implies (#[trigger] hs[i]).len() == 40 by {
        crate::hex::lemma_unhex_hex_of(pieces.subrange(20 * i, 20 * i + 20));
    }
    if pieces.len() == 0 {
        assert(hs =~= Seq::<Seq<char>>::empty());
        assert(unhex_concat(hs) =~= pieces);
    } else {
        let len = pieces.len() as int;
        let head = pieces.subrange(0, len - 20);
        assert(head.len() % 20 == 0);
        lemma_piece_hashes_reconstruct(head);
        assert forall|i: int|
            0 <= i < piece_hashes(head).len() implies #[trigger] piece_hashes(head)[i]
            == hs.drop_last()[i] by {
            assert(head.subrange(20 * i, 20 * i + 20) =~= pieces.subrange(20 * i, 20 * i + 20));
        }
        assert(piece_hashes(head) =~= hs.drop_last());
        let last_chunk = pieces.subrange(len - 20, len);
        assert((len / 20) * 20 == len);
        assert(hs.last() == hex_of(pieces.subrange(20 * (len / 20 - 1), 20 * (len / 20 - 1) + 20)));
        assert(pieces.subrange(20 * (len / 20 - 1), 20 * (len / 20 - 1) + 20) =~= last_chunk);
        crate::hex::lemma_unhex_hex_of(last_chunk);
        assert(unhex_concat(hs) == unhex_concat(hs.drop_last()) + crate::hex::unhex(hs.last()));
        assert(unhex_concat(hs) =~= head + last_chunk);
        assert(head + last_chunk =~= pieces);
    }
}

} // verus!
