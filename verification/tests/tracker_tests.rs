use bittorrent::discover_peers::{announce_query, parse_peer_address, parse_tracker_response};
use bittorrent::errors::TorrentError;

#[test]
fn peer_entries_format_as_ip_and_port() {
    assert_eq!(
        parse_peer_address(&[192, 168, 0, 1, 0x1a, 0xe1]),
        "192.168.0.1:6881"
    );
    assert_eq!(parse_peer_address(&[0, 0, 0, 0, 0, 0]), "0.0.0.0:0");
    assert_eq!(
        parse_peer_address(&[255, 255, 255, 255, 255, 255]),
        "255.255.255.255:65535"
    );
}

#[test]
fn tracker_response_lists_both_peers() {
    // d5:peers12:<12 raw bytes>e
    let mut body = b"d5:peers12:".to_vec();
    body.extend_from_slice(&[192, 168, 0, 1, 0x1a, 0xe1, 10, 0, 0, 2, 0x1a, 0xe2]);
    body.push(b'e');
    let peers = parse_tracker_response(&body).unwrap();
    assert_eq!(peers, vec!["192.168.0.1:6881".to_string(), "10.0.0.2:6882".to_string()]);
}

#[test]
fn tracker_response_with_ragged_peers_is_rejected() {
    let mut body = b"d5:peers7:".to_vec();
    body.extend_from_slice(&[1, 2, 3, 4, 5, 6, 7]);
    body.push(b'e');
    assert_eq!(
        parse_tracker_response(&body),
        Err(TorrentError::MalformedPeerList)
    );
}

#[test]
fn tracker_response_that_is_not_bencode_is_rejected() {
    assert_eq!(
        parse_tracker_response(&b"not bencode".to_vec()),
        Err(TorrentError::TrackerDecodeError)
    );
    // A well-formed dictionary without `peers` is also a decode failure.
    assert_eq!(
        parse_tracker_response(&b"d8:intervali900ee".to_vec()),
        Err(TorrentError::TrackerDecodeError)
    );
}

#[test]
fn announce_query_escapes_the_info_hash_byte_by_byte() {
    let info_hash = vec![0xabu8; 20];
    let q = announce_query(&info_hash, 32768, 6881);
    let expected = format!(
        "info_hash={}&peer_id=00112233445566778899&port=6881&uploaded=0&downloaded=0&left=32768&compact=1",
        "%AB".repeat(20)
    );
    assert_eq!(q, expected);
}

#[test]
fn announce_query_renders_counters_in_decimal() {
    let mut info_hash = vec![0u8; 20];
    info_hash[0] = 0x01;
    info_hash[19] = 0xff;
    let q = announce_query(&info_hash, 0, 80);
    assert!(q.starts_with("info_hash=%01"));
    assert!(q.contains("%FF&peer_id="));
    assert!(q.ends_with("&port=80&uploaded=0&downloaded=0&left=0&compact=1"));
}
