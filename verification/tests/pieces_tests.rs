use bittorrent::errors::TorrentError;
use bittorrent::pieces::{
    assemble_piece, block_requests, finish_piece, parse_piece_payload, piece_size,
    request_payload, verify_piece, BlockRequest,
};
// Expected digests come straight from the sha1 crate, so these tests would
// catch a digest helper that did not hash at all.
fn digest(data: &[u8]) -> Vec<u8> {
    <sha1::Sha1 as sha1::Digest>::digest(data).to_vec()
}

#[test]
fn piece_size_is_nominal_except_for_the_last() {
    assert_eq!(piece_size(32768, 16384, 0), 16384);
    assert_eq!(piece_size(32768, 16384, 1), 16384);
    assert_eq!(piece_size(100_000, 16384, 6), 100_000 - 6 * 16384);
    assert_eq!(piece_size(1, 16384, 0), 1);
}

#[test]
fn blocks_cover_a_piece_in_16kib_steps() {
    let blocks = block_requests(3, 16384);
    assert_eq!(
        blocks,
        vec![BlockRequest { piece_index: 3, begin_offset: 0, length: 16384 }]
    );

    let blocks = block_requests(0, 16385);
    assert_eq!(
        blocks,
        vec![
            BlockRequest { piece_index: 0, begin_offset: 0, length: 16384 },
            BlockRequest { piece_index: 0, begin_offset: 16384, length: 1 },
        ]
    );
}

#[test]
fn request_payload_is_three_big_endian_words() {
    let req = BlockRequest { piece_index: 1, begin_offset: 16384, length: 300 };
    assert_eq!(
        request_payload(&req),
        vec![0, 0, 0, 1, 0, 0, 0x40, 0, 0, 0, 1, 44]
    );
}

#[test]
fn piece_payload_splits_into_index_begin_and_block() {
    let mut payload = vec![0, 0, 0, 2, 0, 0, 0x40, 0];
    payload.extend_from_slice(b"data");
    let (idx, begin, block) = parse_piece_payload(&payload).unwrap();
    assert_eq!(idx, 2);
    assert_eq!(begin, 16384);
    assert_eq!(block, b"data".to_vec());

    assert_eq!(
        parse_piece_payload(&vec![1, 2, 3]),
        Err(TorrentError::UnexpectedMessage)
    );
}

#[test]
fn blocks_reassemble_in_order() {
    let blocks = vec![(0u32, b"hell".to_vec()), (4u32, b"o!".to_vec())];
    assert_eq!(assemble_piece(&blocks, 6), Some(b"hello!".to_vec()));
}

#[test]
fn blocks_reassemble_in_reverse_order() {
    // Blocks may arrive in any order; reassembly is by begin offset.
    let blocks = vec![(4u32, b"o!".to_vec()), (0u32, b"hell".to_vec())];
    assert_eq!(assemble_piece(&blocks, 6), Some(b"hello!".to_vec()));
}

#[test]
fn reassembly_rejects_gaps_overlaps_and_overruns() {
    // Gap: nothing covers offset 4.
    assert_eq!(assemble_piece(&vec![(0u32, b"hell".to_vec())], 6), None);
    // Overlap at offset 3.
    assert_eq!(
        assemble_piece(&vec![(0u32, b"hell".to_vec()), (3u32, b"lo!".to_vec())], 6),
        None
    );
    // Past the end of the piece.
    assert_eq!(assemble_piece(&vec![(4u32, b"o!!".to_vec())], 6), None);
}

#[test]
fn verify_piece_checks_the_digest() {
    let data = b"piece of data".to_vec();
    let good = digest(b"piece of data");
    let bad = digest(b"other data");
    assert!(verify_piece(&data, &good));
    assert!(!verify_piece(&data, &bad));
}

#[test]
fn finish_piece_returns_the_verified_bytes() {
    let blocks = vec![(4u32, b"o!".to_vec()), (0u32, b"hell".to_vec())];
    let good = digest(b"hello!");
    assert_eq!(finish_piece(&blocks, 6, &good), Ok(b"hello!".to_vec()));
}

#[test]
fn finish_piece_reports_a_wrong_digest() {
    let blocks = vec![(0u32, b"hello!".to_vec())];
    let bad = digest(b"goodbye");
    assert_eq!(
        finish_piece(&blocks, 6, &bad),
        Err(TorrentError::PieceHashMismatch)
    );
}

#[test]
fn finish_piece_reports_blocks_that_do_not_tile() {
    let blocks = vec![(0u32, b"hel".to_vec())];
    let d = digest(b"hello!");
    assert_eq!(
        finish_piece(&blocks, 6, &d),
        Err(TorrentError::UnexpectedMessage)
    );
}
