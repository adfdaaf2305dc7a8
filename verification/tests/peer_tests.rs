use bittorrent::codec::bdecode;
use bittorrent::download::{chunk_count, chunk_size, expect_bitfield, expect_unchoke, PieceDownload};
use bittorrent::peer::{
    HandShake, MessageType, PeerMessage, ProtocolError, ToHandShake, ToPeerMessage,
};
use bittorrent::torrent::{InfoHash, Torrent};

fn sample_torrent() -> Torrent {
    let mut buf = b"d8:announce18:http://t.example/a4:infod6:lengthi16384e12:piece lengthi16384e6:pieces20:".to_vec();
    buf.extend_from_slice(&[
        0, 1, 2, 3, 4, 5, 6, 7, 8, 9, 10, 11, 12, 13, 14, 15, 16, 17, 18, 19,
    ]);
    buf.extend_from_slice(b"ee");
    let (v, _) = bdecode(&buf).unwrap();
    Torrent::new(&v).unwrap()
}

#[test]
fn handshake_message_layout() {
    let ih = InfoHash::from_text(b"ff27ad3e1e1c42b3e45645120ac37c72113515fd".to_vec()).unwrap();
    let hs = HandShake {
        info_hash: ih,
        peer_id: b"00112233445566778899".to_vec(),
    };
    let m = hs.to_message();
    assert_eq!(m.len(), 68);
    assert_eq!(m[0], 19);
    assert_eq!(&m[1..20], b"BitTorrent protocol");
    assert_eq!(&m[20..28], &[0u8; 8]);
    assert_eq!(m[28], 0xff);
    assert_eq!(m[47], 0xfd);
    assert_eq!(&m[48..68], b"00112233445566778899");
}

#[test]
fn handshake_round_trip() {
    let t = sample_torrent();
    let hs = t.to_handshake().unwrap();
    let wire = hs.to_message();
    let back = wire.to_handshake().unwrap();
    assert_eq!(
        back.info_hash.as_text(),
        "c0c4646aea74b0baf05dbca75159955d8aa84974"
    );
    assert_eq!(back.peer_id, b"00112233445566778899".to_vec());
}

#[test]
fn handshake_rejects_short_input() {
    let short = vec![0u8; 67];
    assert!(matches!(
        short.to_handshake(),
        Err(ProtocolError::ShortHandshake)
    ));
}

#[test]
fn peer_id_renders_as_hex() {
    let ih = InfoHash::from_text(b"ff27ad3e1e1c42b3e45645120ac37c72113515fd".to_vec()).unwrap();
    let hs = HandShake {
        info_hash: ih,
        peer_id: vec![0x00, 0x11, 0xab, 0xcd, 0xef, 0, 0, 0, 0, 0, 0, 0, 0, 0, 0, 0, 0, 0, 0, 1],
    };
    assert_eq!(hs.peer_id_as_str(), "0011abcdef000000000000000000000000000001");
}

#[test]
fn message_round_trip() {
    let m = PeerMessage::new(MessageType::Request, 3, 0, 16384).to_message();
    assert_eq!(
        m,
        vec![0, 0, 0, 13, 6, 0, 0, 0, 3, 0, 0, 0, 0, 0, 0, 0x40, 0]
    );
    let back = m.to_peer_message().unwrap();
    match back {
        PeerMessage::Request(msg) => {
            assert_eq!(msg.length, [0, 0, 0, 13]);
            assert_eq!(msg.payload, vec![0, 0, 0, 3, 0, 0, 0, 0, 0, 0, 0x40, 0]);
        }
        _ => panic!("wrong message kind"),
    }
}

#[test]
fn empty_payload_message() {
    let m = PeerMessage::new(MessageType::Interested, 0, 0, 0).to_message();
    assert_eq!(m, vec![0, 0, 0, 1, 2]);
    assert!(matches!(
        m.to_peer_message(),
        Ok(PeerMessage::Interested(_))
    ));
}

#[test]
fn message_rejects_short_frames() {
    assert!(matches!(
        vec![0u8, 0, 0].to_peer_message(),
        Err(ProtocolError::IncompleteFrame)
    ));
    assert!(matches!(
        vec![0u8, 0, 0, 5, 1].to_peer_message(),
        Err(ProtocolError::IncompleteFrame)
    ));
}

#[test]
fn message_rejects_unknown_id() {
    assert!(matches!(
        vec![0u8, 0, 0, 1, 9].to_peer_message(),
        Err(ProtocolError::UnknownMessageId)
    ));
}

#[test]
fn chunk_partition_sums_to_total() {
    // pieces of a 45-byte file cut in tens: 10+10+10+10+5
    assert_eq!(chunk_count(45, 10), 5);
    let mut total = 0;
    for i in 0..5 {
        let s = chunk_size(45, 10, i);
        assert!(s > 0 && s <= 10);
        total += s;
    }
    assert_eq!(total, 45);
    // an exact multiple has only full chunks
    assert_eq!(chunk_count(32768, 16384), 2);
    assert_eq!(chunk_size(32768, 16384, 1), 16384);
    // blocks of a 20000-byte piece in 16384-byte chunks: 16384 + 3616
    assert_eq!(chunk_count(20000, 16384), 2);
    assert_eq!(chunk_size(20000, 16384, 0), 16384);
    assert_eq!(chunk_size(20000, 16384, 1), 3616);
}

fn piece_reply(index: u32, begin: u32, block: &[u8]) -> Vec<u8> {
    let l = (9 + block.len()) as u32;
    let mut r = l.to_be_bytes().to_vec();
    r.push(7);
    r.extend_from_slice(&index.to_be_bytes());
    r.extend_from_slice(&begin.to_be_bytes());
    r.extend_from_slice(block);
    r
}

#[test]
fn piece_download_collects_blocks_in_order() {
    let mut dl = PieceDownload::new(0, 20000);
    assert!(!dl.is_complete());

    let req = dl.next_request();
    assert_eq!(
        req,
        vec![0, 0, 0, 13, 6, 0, 0, 0, 0, 0, 0, 0, 0, 0, 0, 0x40, 0]
    );
    assert_eq!(dl.expected_reply_len(), 13 + 16384);
    let block0 = vec![0xaa; 16384];
    dl.on_block(&piece_reply(0, 0, &block0)).unwrap();
    assert!(!dl.is_complete());

    let req = dl.next_request();
    // second block: begin 16384, length 3616
    assert_eq!(
        req,
        vec![0, 0, 0, 13, 6, 0, 0, 0, 0, 0, 0, 0x40, 0, 0, 0, 0x0e, 0x20]
    );
    assert_eq!(dl.expected_reply_len(), 13 + 3616);
    let block1 = vec![0xbb; 3616];
    dl.on_block(&piece_reply(0, 16384, &block1)).unwrap();
    assert!(dl.is_complete());

    let piece = dl.take_piece();
    assert_eq!(piece.len(), 20000);
    assert!(piece[..16384].iter().all(|&b| b == 0xaa));
    assert!(piece[16384..].iter().all(|&b| b == 0xbb));
}

#[test]
fn piece_download_rejects_wrong_reply() {
    let mut dl = PieceDownload::new(0, 100);
    // an Unchoke frame instead of a Piece
    assert!(matches!(
        dl.on_block(&vec![0, 0, 0, 1, 1]),
        Err(ProtocolError::UnexpectedMessage)
    ));
    // a Piece frame with a short block
    assert!(matches!(
        dl.on_block(&piece_reply(0, 0, &[1, 2, 3])),
        Err(ProtocolError::UnexpectedMessage)
    ));
    // the right reply still goes through afterwards
    dl.on_block(&piece_reply(0, 0, &vec![7u8; 100])).unwrap();
    assert!(dl.is_complete());
}

#[test]
fn expected_control_messages() {
    let bitfield = vec![0, 0, 0, 2, 5, 0xff];
    assert!(expect_bitfield(&bitfield).is_ok());
    assert!(matches!(
        expect_unchoke(&bitfield),
        Err(ProtocolError::UnexpectedMessage)
    ));
    let unchoke = vec![0, 0, 0, 1, 1];
    assert!(expect_unchoke(&unchoke).is_ok());
    assert!(matches!(
        expect_bitfield(&unchoke),
        Err(ProtocolError::UnexpectedMessage)
    ));
}
