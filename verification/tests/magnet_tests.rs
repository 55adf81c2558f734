use bittorrent::errors::TorrentError;
use bittorrent::magnet_link::{magnet_from_params, parse_magnet_link_url};

const HASH_HEX: &str = "c0ffee00c0ffee11c0ffee22c0ffee33c0ffee44";

fn hash_bytes() -> Vec<u8> {
    vec![
        0xc0, 0xff, 0xee, 0x00, 0xc0, 0xff, 0xee, 0x11, 0xc0, 0xff, 0xee, 0x22, 0xc0, 0xff, 0xee,
        0x33, 0xc0, 0xff, 0xee, 0x44,
    ]
}

#[test]
fn parses_a_full_magnet_link() {
    let uri = format!(
        "magnet:?xt=urn:btih:{}&dn=sample.torrent&tr=http%3A%2F%2Ftracker.example%2Fannounce",
        HASH_HEX
    );
    let m = parse_magnet_link_url(&uri).unwrap();
    assert_eq!(m.hash, hash_bytes());
    assert_eq!(m.tracker_url, "http://tracker.example/announce");
    assert_eq!(m.file_name, "sample.torrent");
}

#[test]
fn accepts_uppercase_hex_digests() {
    let uri = format!(
        "magnet:?xt=urn:btih:{}&dn=n&tr=u",
        HASH_HEX.to_uppercase()
    );
    let m = parse_magnet_link_url(&uri).unwrap();
    assert_eq!(m.hash, hash_bytes());
}

#[test]
fn rejects_a_uri_without_the_magnet_scheme() {
    assert_eq!(
        parse_magnet_link_url("http://example/"),
        Err(TorrentError::MalformedMagnet)
    );
    assert_eq!(parse_magnet_link_url(""), Err(TorrentError::MalformedMagnet));
}

#[test]
fn rejects_a_missing_parameter() {
    let no_tr = format!("magnet:?xt=urn:btih:{}&dn=n", HASH_HEX);
    assert_eq!(
        parse_magnet_link_url(&no_tr),
        Err(TorrentError::MalformedMagnet)
    );
    let no_xt = "magnet:?dn=n&tr=u";
    assert_eq!(
        parse_magnet_link_url(no_xt),
        Err(TorrentError::MalformedMagnet)
    );
}

#[test]
fn rejects_a_malformed_digest() {
    // Too short.
    let short = "magnet:?xt=urn:btih:c0ffee&dn=n&tr=u";
    assert_eq!(
        parse_magnet_link_url(short),
        Err(TorrentError::MalformedMagnet)
    );
    // Right length, not hex.
    let bad = format!("magnet:?xt=urn:btih:{}&dn=n&tr=u", "zz".repeat(20));
    assert_eq!(
        parse_magnet_link_url(&bad),
        Err(TorrentError::MalformedMagnet)
    );
    // Wrong urn prefix.
    let wrong = format!("magnet:?xt=urn:sha1:{}&dn=n&tr=u", HASH_HEX);
    assert_eq!(
        parse_magnet_link_url(&wrong),
        Err(TorrentError::MalformedMagnet)
    );
}

#[test]
fn builds_from_decoded_parameters() {
    let mut xt = b"urn:btih:".to_vec();
    xt.extend_from_slice(HASH_HEX.as_bytes());
    let pairs = vec![
        (b"xt".to_vec(), xt),
        (b"tr".to_vec(), b"http://t/a".to_vec()),
        (b"dn".to_vec(), b"file.bin".to_vec()),
    ];
    let m = magnet_from_params(&pairs).unwrap();
    assert_eq!(m.hash, hash_bytes());
    assert_eq!(m.tracker_url, "http://t/a");
    assert_eq!(m.file_name, "file.bin");
}
