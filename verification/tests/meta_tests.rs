use bittorrent::download::assemble_file;
use bittorrent::errors::TorrentError;
use bittorrent::meta_info_file::{
    build_extension_handshake, build_metadata_request, from_info_dict_bytes, from_torrent_bytes,
    parse_extension_handshake, parse_metadata_response,
};
use bittorrent::pieces::finish_piece;

fn digest(data: &[u8]) -> Vec<u8> {
    <sha1::Sha1 as sha1::Digest>::digest(data).to_vec()
}

/// The canonical bencoding of an `info` dictionary for a two-piece file.
fn info_bytes(data: &[u8], piece_length: usize, name: &str) -> Vec<u8> {
    let mut hashes = Vec::new();
    for chunk in data.chunks(piece_length) {
        hashes.extend_from_slice(&digest(chunk));
    }
    let mut b = Vec::new();
    b.extend_from_slice(b"d6:lengthi");
    b.extend_from_slice(data.len().to_string().as_bytes());
    b.extend_from_slice(b"e4:name");
    b.extend_from_slice(format!("{}:{}", name.len(), name).as_bytes());
    b.extend_from_slice(b"12:piece lengthi");
    b.extend_from_slice(piece_length.to_string().as_bytes());
    b.extend_from_slice(b"e6:pieces");
    b.extend_from_slice(format!("{}:", hashes.len()).as_bytes());
    b.extend_from_slice(&hashes);
    b.push(b'e');
    b
}

fn torrent_bytes(announce: &str, info: &[u8]) -> Vec<u8> {
    let mut b = Vec::new();
    b.extend_from_slice(b"d8:announce");
    b.extend_from_slice(format!("{}:{}", announce.len(), announce).as_bytes());
    b.extend_from_slice(b"4:info");
    b.extend_from_slice(info);
    b.push(b'e');
    b
}

fn sample_data() -> Vec<u8> {
    (0..32768u32).map(|i| (i % 251) as u8).collect()
}

#[test]
fn metainfo_fields_come_from_the_torrent_file() {
    let data = sample_data();
    let info = info_bytes(&data, 16384, "test.bin");
    let torrent = torrent_bytes("http://tracker.example/announce", &info);
    let m = from_torrent_bytes(&torrent).unwrap();
    assert_eq!(m.tracker_url, "http://tracker.example/announce");
    assert_eq!(m.length, 32768);
    assert_eq!(m.piece_length, 16384);
    assert_eq!(m.piece_hashes.len(), 2);
    assert_eq!(m.piece_hashes[0], digest(&data[..16384]));
    assert_eq!(m.piece_hashes[1], digest(&data[16384..]));
}

#[test]
fn info_hash_is_the_digest_of_the_info_dictionary() {
    let data = sample_data();
    let info = info_bytes(&data, 16384, "test.bin");
    let torrent = torrent_bytes("http://tracker.example/announce", &info);
    let m = from_torrent_bytes(&torrent).unwrap();
    // The info-hash is SHA-1 of the canonical bencoding of `info`, computed
    // here independently of the library.
    assert_eq!(m.info_hash, digest(&info));
    assert_eq!(hex::encode(&m.info_hash), hex::encode(digest(&info)));
}

#[test]
fn a_torrent_without_announce_or_info_is_rejected() {
    assert_eq!(
        from_torrent_bytes(&b"d4:infod6:lengthi1eee".to_vec()),
        Err(TorrentError::MetainfoError)
    );
    assert_eq!(
        from_torrent_bytes(&b"d8:announce3:urle".to_vec()),
        Err(TorrentError::MetainfoError)
    );
    assert_eq!(
        from_torrent_bytes(&b"i7e".to_vec()),
        Err(TorrentError::MetainfoError)
    );
}

#[test]
fn a_wrong_piece_count_is_rejected() {
    // One 20-byte digest for a file that needs two pieces.
    let mut b = b"d8:announce3:url4:infod6:lengthi32768e12:piece lengthi16384e6:pieces20:"
        .to_vec();
    b.extend_from_slice(&[0u8; 20]);
    b.extend_from_slice(b"ee");
    assert_eq!(from_torrent_bytes(&b), Err(TorrentError::MetainfoError));
}

#[test]
fn metainfo_from_fetched_info_dictionary() {
    let data = sample_data();
    let info = info_bytes(&data, 16384, "test.bin");
    let h = digest(&info);
    let m = from_info_dict_bytes(&info, "http://t/a".to_string(), &h).unwrap();
    assert_eq!(m.tracker_url, "http://t/a");
    assert_eq!(m.info_hash, h);
    assert_eq!(m.file_name, Some("test.bin".to_string()));
    assert_eq!(m.length, 32768);

    let wrong = digest(b"something else");
    assert_eq!(
        from_info_dict_bytes(&info, "http://t/a".to_string(), &wrong),
        Err(TorrentError::MetainfoError)
    );
}

#[test]
fn extension_handshake_payload_bytes() {
    assert_eq!(
        build_extension_handshake(),
        b"\x00d1:md11:ut_metadatai1eee".to_vec()
    );
}

#[test]
fn metadata_request_payload_bytes() {
    assert_eq!(
        build_metadata_request(3),
        b"\x03d8:msg_typei0e5:piecei0ee".to_vec()
    );
}

#[test]
fn extension_handshake_reply_names_the_metadata_id() {
    let payload = b"\x00d1:md11:ut_metadatai4eee".to_vec();
    assert_eq!(parse_extension_handshake(&payload), Ok(4));
    let missing = b"\x00d1:xd11:ut_metadatai4eee".to_vec();
    assert_eq!(
        parse_extension_handshake(&missing),
        Err(TorrentError::UnexpectedMessage)
    );
}

#[test]
fn metadata_response_splits_off_the_raw_info_bytes() {
    let mut payload = b"\x01d8:msg_typei1e5:piecei0e10:total_sizei5ee".to_vec();
    payload.extend_from_slice(b"hello");
    assert_eq!(parse_metadata_response(&payload), Ok(b"hello".to_vec()));

    let mut short = b"\x01d8:msg_typei1e5:piecei0e10:total_sizei9ee".to_vec();
    short.extend_from_slice(b"hello");
    assert_eq!(
        parse_metadata_response(&short),
        Err(TorrentError::UnexpectedMessage)
    );
}

#[test]
fn two_piece_download_writes_pieces_in_order() {
    // A full-download scenario against mock peer data: two pieces of 16384
    // bytes, blocks served in reverse order, hashes checked, and the file
    // written as piece 0 then piece 1.
    let data = sample_data();
    let info = info_bytes(&data, 16384, "out.bin");
    let torrent = torrent_bytes("http://tracker.example/announce", &info);
    let m = from_torrent_bytes(&torrent).unwrap();

    let mut finished = Vec::new();
    // Workers finish out of order.
    for piece_index in [1usize, 0usize] {
        let piece = &data[piece_index * 16384..(piece_index + 1) * 16384];
        // The mock peer serves two 8 KiB blocks, last block first.
        let blocks = vec![
            (8192u32, piece[8192..].to_vec()),
            (0u32, piece[..8192].to_vec()),
        ];
        let bytes = finish_piece(&blocks, 16384, &m.piece_hashes[piece_index]).unwrap();
        finished.push((piece_index, bytes));
    }
    let out = assemble_file(&finished, 2).unwrap();
    assert_eq!(out, data);
    assert_eq!(digest(&out), digest(&data));
}
