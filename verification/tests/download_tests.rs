use bittorrent::download::{assemble_file, int_div_with_ceil, plan_chunks};
use bittorrent::errors::TorrentError;

#[test]
fn ceiling_division() {
    assert_eq!(int_div_with_ceil(0, 3), 0);
    assert_eq!(int_div_with_ceil(1, 3), 1);
    assert_eq!(int_div_with_ceil(3, 3), 1);
    assert_eq!(int_div_with_ceil(4, 3), 2);
    assert_eq!(int_div_with_ceil(32768, 16384), 2);
    assert_eq!(int_div_with_ceil(32769, 16384), 3);
}

#[test]
fn chunks_partition_the_piece_indexes() {
    // 5 pieces over 3 peers: chunk size 2.
    assert_eq!(
        plan_chunks(5, 3),
        Ok(vec![(0, 2), (2, 4), (4, 5)])
    );
    // One peer takes everything.
    assert_eq!(plan_chunks(4, 1), Ok(vec![(0, 4)]));
    // More peers than pieces: one piece each, the rest idle.
    assert_eq!(plan_chunks(2, 5), Ok(vec![(0, 1), (1, 2)]));
}

#[test]
fn no_peers_fails_the_download() {
    assert_eq!(plan_chunks(5, 0), Err(TorrentError::NoPeersAvailable));
}

#[test]
fn pieces_are_written_in_index_order() {
    let pieces = vec![
        (1usize, b"world".to_vec()),
        (0usize, b"hello ".to_vec()),
        (2usize, b"!".to_vec()),
    ];
    assert_eq!(assemble_file(&pieces, 3), Some(b"hello world!".to_vec()));
}

#[test]
fn a_missing_or_duplicated_piece_fails_assembly() {
    let missing = vec![(0usize, b"a".to_vec()), (2usize, b"c".to_vec())];
    assert_eq!(assemble_file(&missing, 3), None);
    let duplicated = vec![(0usize, b"a".to_vec()), (0usize, b"b".to_vec())];
    assert_eq!(assemble_file(&duplicated, 1), None);
}
