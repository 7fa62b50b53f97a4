use bencodec::{dict_insert, Bencode, Torrent, TorrentError};

fn info_dict(pieces: Bencode) -> Bencode {
    let mut info = Vec::new();
    dict_insert(&mut info, "name".to_string(), Bencode::Str("a".to_string()));
    dict_insert(&mut info, "piece length".to_string(), Bencode::Int(256));
    dict_insert(&mut info, "pieces".to_string(), pieces);
    dict_insert(&mut info, "length".to_string(), Bencode::Int(512));
    Bencode::Dict(info)
}

fn document(info: Bencode) -> Bencode {
    let mut top = Vec::new();
    dict_insert(
        &mut top,
        "announce".to_string(),
        Bencode::Str("http://tracker.example/announce".to_string()),
    );
    dict_insert(&mut top, "info".to_string(), info);
    Bencode::Dict(top)
}

fn sha1_hex(data: &[u8]) -> String {
    let mut hasher = <sha1::Sha1 as sha1::Digest>::new();
    sha1::Digest::update(&mut hasher, data);
    let digest = sha1::Digest::finalize(hasher);
    let mut out = String::new();
    for byte in digest.as_slice() {
        out.push_str(&format!("{:02x}", byte));
    }
    out
}

fn unhex_str(s: &str) -> Vec<u8> {
    let chars: Vec<char> = s.chars().collect();
    let mut out = Vec::new();
    for pair in chars.chunks(2) {
        let hi = pair[0].to_digit(16).expect("hex digit");
        let lo = pair[1].to_digit(16).expect("hex digit");
        out.push((hi * 16 + lo) as u8);
    }
    out
}

#[test]
fn test_extracts_all_fields() {
    let mut pieces = vec![0xffu8; 20];
    pieces.extend(vec![0x00u8; 20]);
    let doc = document(info_dict(Bencode::RawStr(pieces.clone())));
    let torrent = Torrent::from_bencode(&doc).expect("Should extract");
    assert_eq!(
        torrent.announce,
        "http://tracker.example/announce".to_string()
    );
    assert_eq!(torrent.info.name, "a".to_string());
    assert_eq!(torrent.info.piece_length, 256);
    assert_eq!(torrent.info.length, 512);
    assert_eq!(torrent.info.pieces, pieces);
    assert_eq!(torrent.info.pieces_hash.len(), 2);
    for hash in &torrent.info.pieces_hash {
        assert_eq!(hash.len(), 40);
    }
    assert_eq!(torrent.info.pieces_hash[0], "ff".repeat(20));
    assert_eq!(torrent.info.pieces_hash[1], "00".repeat(20));
}

#[test]
fn test_info_hash_is_sha1_of_canonical_info_encoding() {
    let pieces = vec![0xffu8; 20];
    let info = info_dict(Bencode::RawStr(pieces));
    let encoded_info = info.encode();
    let doc = document(info);
    let torrent = Torrent::from_bencode(&doc).expect("Should extract");
    assert_eq!(torrent.info_hash_sha1, sha1_hex(&encoded_info));
    assert_eq!(torrent.info_hash_sha1.len(), 40);
}

#[test]
fn test_digest_is_deterministic_across_insertion_orders() {
    let mut info_a = Vec::new();
    dict_insert(&mut info_a, "name".to_string(), Bencode::Str("a".to_string()));
    dict_insert(&mut info_a, "piece length".to_string(), Bencode::Int(256));
    dict_insert(
        &mut info_a,
        "pieces".to_string(),
        Bencode::RawStr(vec![0xffu8; 20]),
    );
    dict_insert(&mut info_a, "length".to_string(), Bencode::Int(512));

    let mut info_b = Vec::new();
    dict_insert(&mut info_b, "length".to_string(), Bencode::Int(512));
    dict_insert(
        &mut info_b,
        "pieces".to_string(),
        Bencode::RawStr(vec![0xffu8; 20]),
    );
    dict_insert(&mut info_b, "piece length".to_string(), Bencode::Int(256));
    dict_insert(&mut info_b, "name".to_string(), Bencode::Str("a".to_string()));

    let t_a = Torrent::from_bencode(&document(Bencode::Dict(info_a))).expect("Should extract");
    let t_b = Torrent::from_bencode(&document(Bencode::Dict(info_b))).expect("Should extract");
    assert_eq!(t_a.info_hash_sha1, t_b.info_hash_sha1);
}

#[test]
fn test_piece_hashes_reconstruct_pieces() {
    let mut pieces = Vec::new();
    for i in 0..60u8 {
        pieces.push(i.wrapping_mul(37).wrapping_add(200));
    }
    let doc = document(info_dict(Bencode::RawStr(pieces.clone())));
    let torrent = Torrent::from_bencode(&doc).expect("Should extract");
    assert_eq!(torrent.info.pieces_hash.len(), 3);
    let mut rebuilt = Vec::new();
    for hash in &torrent.info.pieces_hash {
        assert_eq!(hash.len(), 40);
        rebuilt.extend(unhex_str(hash));
    }
    assert_eq!(rebuilt, pieces);
}

#[test]
fn test_pieces_accepts_text_payload() {
    let pieces_text = "A".repeat(20);
    let doc = document(info_dict(Bencode::Str(pieces_text.clone())));
    let torrent = Torrent::from_bencode(&doc).expect("Should extract");
    assert_eq!(torrent.info.pieces, pieces_text.into_bytes());
}

#[test]
fn test_pieces_length_must_be_multiple_of_twenty() {
    for bad_len in [19usize, 21] {
        let doc = document(info_dict(Bencode::RawStr(vec![0xffu8; bad_len])));
        assert!(matches!(
        Torrent::from_bencode(&doc),
        Err(TorrentError::PiecesLength)
    ));
    }
    let doc = document(info_dict(Bencode::RawStr(Vec::new())));
    assert!(Torrent::from_bencode(&doc).is_ok());
}

#[test]
fn test_schema_errors() {
    assert!(matches!(
        Torrent::from_bencode(&Bencode::Int(1)),
        Err(TorrentError::NotADict)
    ));

    let empty = Bencode::Dict(Vec::new());
    assert!(matches!(
        Torrent::from_bencode(&empty),
        Err(TorrentError::MissingAnnounce)
    ));

    let mut top = Vec::new();
    dict_insert(&mut top, "announce".to_string(), Bencode::Int(7));
    assert!(matches!(
        Torrent::from_bencode(&Bencode::Dict(top.clone())),
        Err(TorrentError::MissingAnnounce)
    ));

    let mut top = Vec::new();
    dict_insert(
        &mut top,
        "announce".to_string(),
        Bencode::Str("http://t".to_string()),
    );
    assert!(matches!(
        Torrent::from_bencode(&Bencode::Dict(top.clone())),
        Err(TorrentError::MissingInfo)
    ));

    dict_insert(&mut top, "info".to_string(), Bencode::Int(9));
    assert!(matches!(
        Torrent::from_bencode(&Bencode::Dict(top.clone())),
        Err(TorrentError::InfoNotDict)
    ));

    let mut info = Vec::new();
    dict_insert(&mut top, "info".to_string(), Bencode::Dict(info.clone()));
    assert!(matches!(
        Torrent::from_bencode(&Bencode::Dict(top.clone())),
        Err(TorrentError::MissingName)
    ));

    dict_insert(&mut info, "name".to_string(), Bencode::Str("a".to_string()));
    dict_insert(&mut top, "info".to_string(), Bencode::Dict(info.clone()));
    assert!(matches!(
        Torrent::from_bencode(&Bencode::Dict(top.clone())),
        Err(TorrentError::MissingPieceLength)
    ));

    dict_insert(&mut info, "piece length".to_string(), Bencode::Int(256));
    dict_insert(&mut top, "info".to_string(), Bencode::Dict(info.clone()));
    assert!(matches!(
        Torrent::from_bencode(&Bencode::Dict(top.clone())),
        Err(TorrentError::MissingPieces)
    ));

    dict_insert(
        &mut info,
        "pieces".to_string(),
        Bencode::RawStr(vec![0xffu8; 20]),
    );
    dict_insert(&mut top, "info".to_string(), Bencode::Dict(info.clone()));
    assert!(matches!(
        Torrent::from_bencode(&Bencode::Dict(top.clone())),
        Err(TorrentError::MissingLength)
    ));

    dict_insert(&mut info, "length".to_string(), Bencode::Int(512));
    dict_insert(&mut top, "info".to_string(), Bencode::Dict(info));
    assert!(Torrent::from_bencode(&Bencode::Dict(top)).is_ok());
}

#[test]
fn test_extracts_from_decoded_document() {
    let doc_bytes = document(info_dict(Bencode::RawStr(vec![0xabu8; 20]))).encode();
    let (decoded, consumed) = bencodec::decode(&doc_bytes).expect("Should decode");
    assert_eq!(consumed, doc_bytes.len());
    let torrent = Torrent::from_bencode(&decoded).expect("Should extract");
    assert_eq!(torrent.info.pieces_hash[0], "ab".repeat(20));
}
