use torrent_tracker::wire::{
    decode_announce_response, decode_connect_response, encode_announce_request,
    encode_connect_request, AnnounceRequest, Peer, WireError,
};

#[test]
fn connect_request_layout() {
    let r = encode_connect_request(0xCAFE);
    assert_eq!(
        r,
        vec![0, 0, 0x04, 0x17, 0x27, 0x10, 0x19, 0x80, 0, 0, 0, 0, 0, 0, 0xCA, 0xFE]
    );
}

#[test]
fn connect_response_fields() {
    let b = [0, 0, 0, 0, 0, 0, 0xBE, 0xEF, 1, 2, 3, 4, 5, 6, 7, 8];
    let c = decode_connect_response(&b).unwrap();
    assert_eq!(c.action, 0);
    assert_eq!(c.transaction_id, 0xBEEF);
    assert_eq!(c.connection_id, 0x0102030405060708);
}

#[test]
fn connect_response_errors() {
    assert_eq!(decode_connect_response(&[0; 15]), Err(WireError::TruncatedMessage));
    let mut b = [0u8; 16];
    b[3] = 3;
    assert_eq!(decode_connect_response(&b), Err(WireError::MalformedResponse));
}

fn announce_response(extra: &[u8]) -> Vec<u8> {
    let mut b = vec![0, 0, 0, 1, 0, 0, 0xCA, 0xFE];
    b.extend_from_slice(&1800u32.to_be_bytes());
    b.extend_from_slice(&3u32.to_be_bytes());
    b.extend_from_slice(&7u32.to_be_bytes());
    b.extend_from_slice(extra);
    b
}

#[test]
fn announce_response_with_one_peer() {
    let b = announce_response(&[1, 2, 3, 4, 0x1A, 0xE1]);
    assert_eq!(b.len(), 26);
    let r = decode_announce_response(&b).unwrap();
    assert_eq!(r.transaction_id, 0xCAFE);
    assert_eq!(r.interval, 1800);
    assert_eq!(r.leechers, 3);
    assert_eq!(r.seeders, 7);
    assert_eq!(r.peers, vec![Peer { ip: 0x01020304, port: 6881 }]);
}

#[test]
fn announce_response_partial_peer_is_malformed() {
    let b = announce_response(&[1, 2, 3]);
    assert_eq!(b.len(), 23);
    assert!(matches!(decode_announce_response(&b), Err(WireError::MalformedResponse)));
}

#[test]
fn announce_response_errors() {
    assert!(matches!(decode_announce_response(&[0; 19]), Err(WireError::TruncatedMessage)));
    let mut b = announce_response(&[]);
    b[3] = 0;
    assert!(matches!(decode_announce_response(&b), Err(WireError::MalformedResponse)));
}

#[test]
fn announce_request_layout() {
    let q = AnnounceRequest {
        connection_id: 0x0102030405060708,
        transaction_id: 9,
        info_hash: [0xAA; 20],
        peer_id: [0xBB; 20],
        downloaded: 1,
        left: 350,
        uploaded: 2,
        event: 2,
        ip_address: 0,
        key: 0x11223344,
        num_want: -1,
        port: 6881,
    };
    let r = encode_announce_request(&q);
    assert_eq!(r.len(), 98);
    assert_eq!(&r[0..8], &[1, 2, 3, 4, 5, 6, 7, 8]);
    assert_eq!(&r[8..12], &[0, 0, 0, 1]);
    assert_eq!(&r[12..16], &[0, 0, 0, 9]);
    assert_eq!(&r[16..36], &[0xAA; 20]);
    assert_eq!(&r[36..56], &[0xBB; 20]);
    assert_eq!(&r[56..64], &1u64.to_be_bytes());
    assert_eq!(&r[64..72], &350u64.to_be_bytes());
    assert_eq!(&r[72..80], &2u64.to_be_bytes());
    assert_eq!(&r[80..84], &[0, 0, 0, 2]);
    assert_eq!(&r[84..88], &[0, 0, 0, 0]);
    assert_eq!(&r[88..92], &[0x11, 0x22, 0x33, 0x44]);
    assert_eq!(&r[92..96], &[0xFF, 0xFF, 0xFF, 0xFF]);
    assert_eq!(&r[96..98], &[0x1A, 0xE1]);
}
