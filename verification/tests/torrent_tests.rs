use bittorrent::codec::bdecode;
use bittorrent::torrent::{peer_endpoints, InfoHash, SchemaError, Torrent};

fn sample_torrent_bytes() -> Vec<u8> {
    let mut buf = b"d8:announce18:http://t.example/a4:infod6:lengthi16384e12:piece lengthi16384e6:pieces20:".to_vec();
    buf.extend_from_slice(&[
        0, 1, 2, 3, 4, 5, 6, 7, 8, 9, 10, 11, 12, 13, 14, 15, 16, 17, 18, 19,
    ]);
    buf.extend_from_slice(b"ee");
    buf
}

fn sample_torrent() -> Torrent {
    let buf = sample_torrent_bytes();
    let (v, used) = bdecode(&buf).unwrap();
    assert_eq!(used, buf.len());
    Torrent::new(&v).unwrap()
}

#[test]
fn torrent_new_reads_all_fields() {
    let t = sample_torrent();
    assert_eq!(t.url, "http://t.example/a");
    assert_eq!(t.length, 16384);
    assert_eq!(t.piece_length, 16384);
    assert_eq!(
        t.piece_hashes,
        "000102030405060708090a0b0c0d0e0f10111213"
    );
    assert_eq!(
        t.info_hash.as_text(),
        "c0c4646aea74b0baf05dbca75159955d8aa84974"
    );
    assert_eq!(t.peer_id, b"00112233445566778899".to_vec());
}

#[test]
fn torrent_new_rejects_non_map() {
    let (v, _) = bdecode(&b"i5e".to_vec()).unwrap();
    assert!(matches!(Torrent::new(&v), Err(SchemaError::Root)));
}

#[test]
fn torrent_new_rejects_missing_announce() {
    let (v, _) = bdecode(&b"d4:infod6:lengthi5eee".to_vec()).unwrap();
    assert!(matches!(Torrent::new(&v), Err(SchemaError::Announce)));
}

#[test]
fn torrent_new_rejects_missing_info_hash() {
    let (v, _) = bdecode(&b"d8:announce4:httpe".to_vec()).unwrap();
    assert!(matches!(Torrent::new(&v), Err(SchemaError::InfoHash)));
}

#[test]
fn torrent_new_rejects_non_map_info() {
    let (v, _) = bdecode(&b"d8:announce4:http4:infoi5ee".to_vec()).unwrap();
    assert!(matches!(Torrent::new(&v), Err(SchemaError::Info)));
}

#[test]
fn torrent_new_rejects_bad_length() {
    let mut buf = b"d8:announce4:http4:infod6:lengthi-5e12:piece lengthi1e6:pieces20:".to_vec();
    buf.extend_from_slice(&[0u8; 20]);
    buf.extend_from_slice(b"ee");
    let (v, _) = bdecode(&buf).unwrap();
    assert!(matches!(Torrent::new(&v), Err(SchemaError::Length)));
}

#[test]
fn torrent_new_rejects_zero_piece_length() {
    let mut buf = b"d8:announce4:http4:infod6:lengthi5e12:piece lengthi0e6:pieces20:".to_vec();
    buf.extend_from_slice(&[0u8; 20]);
    buf.extend_from_slice(b"ee");
    let (v, _) = bdecode(&buf).unwrap();
    assert!(matches!(Torrent::new(&v), Err(SchemaError::PieceLength)));
}

#[test]
fn info_hash_to_url_percent_encodes_pairs() {
    let ih = InfoHash::from_text(b"c0c4646aea74b0baf05dbca75159955d8aa84974".to_vec()).unwrap();
    assert_eq!(
        ih.to_url(),
        "%c0%c4%64%6a%ea%74%b0%ba%f0%5d%bc%a7%51%59%95%5d%8a%a8%49%74"
    );
}

#[test]
fn info_hash_to_hex_decodes_raw_bytes() {
    let ih = InfoHash::from_text(b"ff27ad3e1e1c42b3e45645120ac37c72113515fd".to_vec()).unwrap();
    let raw = ih.to_hex();
    assert_eq!(raw.len(), 20);
    assert_eq!(raw[0], 0xff);
    assert_eq!(raw[1], 0x27);
    assert_eq!(raw[19], 0xfd);
}

#[test]
fn info_hash_rejects_bad_text() {
    assert!(InfoHash::from_text(b"zz".to_vec()).is_none());
    assert!(InfoHash::from_text(b"ff27".to_vec()).is_none());
}

#[test]
fn tracker_url_lists_fixed_query() {
    let t = sample_torrent();
    assert_eq!(
        t.tracker_url(),
        "http://t.example/a?uploaded=0&downloaded=0&compact=1&left=16384&peer_id=00112233445566778899&port=6881&info_hash=%c0%c4%64%6a%ea%74%b0%ba%f0%5d%bc%a7%51%59%95%5d%8a%a8%49%74"
    );
}

#[test]
fn peer_endpoints_formats_ip_and_port() {
    let mut buf = b"d8:intervali60e5:peers12:".to_vec();
    buf.extend_from_slice(&[127, 0, 0, 1, 0x1f, 0x90, 10, 0, 0, 2, 0, 80]);
    buf.extend_from_slice(b"e");
    let (v, _) = bdecode(&buf).unwrap();
    let eps = peer_endpoints(&v).unwrap();
    assert_eq!(eps, vec!["127.0.0.1:8080".to_string(), "10.0.0.2:80".to_string()]);
}

#[test]
fn peer_endpoints_rejects_missing_list() {
    let (v, _) = bdecode(&b"d8:intervali60ee".to_vec()).unwrap();
    assert!(matches!(peer_endpoints(&v), Err(SchemaError::Peers)));
}
