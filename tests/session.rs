use torrent_tracker::session::{
    attempt_timeout, AnnounceParams, FailureReason, Retry, SessionState, Step, TrackerSession,
    MAX_ATTEMPTS,
};
use torrent_tracker::torrent::Torrent;
use torrent_tracker::wire::{encode_connect_request, Peer};

fn params() -> AnnounceParams {
    AnnounceParams {
        info_hash: [7; 20],
        peer_id: [9; 20],
        downloaded: 0,
        left: 350,
        uploaded: 0,
        event: 2,
        key: 42,
        port: 6881,
    }
}

fn connect_response(tid: u32, conn: u64) -> Vec<u8> {
    let mut b = vec![0, 0, 0, 0];
    b.extend_from_slice(&tid.to_be_bytes());
    b.extend_from_slice(&conn.to_be_bytes());
    b
}

fn connected_session(now: u64) -> TrackerSession {
    let mut s = TrackerSession::new(params());
    s.start_connect(0xCAFE);
    assert!(matches!(s.on_connect_packet(&connect_response(0xCAFE, 77), now), Step::Connected));
    s
}

#[test]
fn stray_transaction_is_ignored() {
    let mut s = TrackerSession::new(params());
    let req = s.start_connect(0xCAFE);
    assert_eq!(req, encode_connect_request(0xCAFE));
    assert_eq!(s.state, SessionState::Connecting);
    let step = s.on_connect_packet(&connect_response(0xBEEF, 5), 0);
    assert!(matches!(step, Step::Ignored));
    assert_eq!(s.state, SessionState::Connecting);
    assert_eq!(s.connection_id, None);
    assert_eq!(s.attempt, 0);
    match s.on_timeout(15, 0xD00D) {
        Retry::Send(resend) => assert_eq!(resend, encode_connect_request(0xD00D)),
        other => panic!("unexpected {:?}", other),
    }
    assert_eq!(s.state, SessionState::Connecting);
    assert_eq!(s.attempt, 1);
}

#[test]
fn matching_connect_response_connects() {
    let s = connected_session(100);
    assert_eq!(s.state, SessionState::Connected);
    assert_eq!(s.connection_id, Some(77));
    assert_eq!(s.connected_at, 100);
}

#[test]
fn malformed_connect_response_fails() {
    let mut s = TrackerSession::new(params());
    s.start_connect(1);
    let step = s.on_connect_packet(&[0, 0, 0], 0);
    assert!(matches!(step, Step::Failed(FailureReason::MalformedResponse)));
    assert_eq!(s.state, SessionState::Failed);
}

#[test]
fn timeouts_double_then_fail() {
    let expected = [15u64, 30, 60, 120, 240, 480, 960, 1920];
    for (n, t) in expected.iter().enumerate() {
        assert_eq!(attempt_timeout(n as u32), *t);
    }
    let mut s = TrackerSession::new(params());
    s.start_connect(0);
    let mut sent = 1;
    while let Retry::Send(_) = s.on_timeout(0, sent) {
        assert_eq!(s.state, SessionState::Connecting);
        sent += 1;
    }
    assert_eq!(sent, MAX_ATTEMPTS);
    assert_eq!(sent, 8);
    assert_eq!(s.state, SessionState::Failed);
    assert_eq!(s.failure, Some(FailureReason::TimeoutExhausted));
}

#[test]
fn announce_returns_peers() {
    let mut s = connected_session(100);
    let req = s.start_announce(130, 0xCAFE).unwrap();
    assert_eq!(req.len(), 98);
    assert_eq!(&req[0..8], &77u64.to_be_bytes());
    assert_eq!(&req[16..36], &[7; 20]);
    assert_eq!(&req[64..72], &350u64.to_be_bytes());
    assert_eq!(s.state, SessionState::Announcing);
    let mut resp = vec![0, 0, 0, 1, 0, 0, 0xCA, 0xFE];
    resp.extend_from_slice(&1800u32.to_be_bytes());
    resp.extend_from_slice(&3u32.to_be_bytes());
    resp.extend_from_slice(&7u32.to_be_bytes());
    resp.extend_from_slice(&[1, 2, 3, 4, 0x1A, 0xE1]);
    match s.on_announce_packet(&resp) {
        Step::Peers(r) => assert_eq!(r.peers, vec![Peer { ip: 0x01020304, port: 6881 }]),
        other => panic!("unexpected {:?}", other),
    }
    assert_eq!(s.state, SessionState::Connected);
}

#[test]
fn announce_ignores_stray_and_fails_on_partial_peer() {
    let mut s = connected_session(0);
    s.start_announce(10, 5).unwrap();
    let mut stray = vec![0, 0, 0, 1, 0, 0, 0, 6];
    stray.extend_from_slice(&[0; 12]);
    assert!(matches!(s.on_announce_packet(&stray), Step::Ignored));
    assert_eq!(s.state, SessionState::Announcing);
    let mut bad = vec![0, 0, 0, 1, 0, 0, 0, 5];
    bad.extend_from_slice(&[0; 15]);
    assert!(matches!(
        s.on_announce_packet(&bad),
        Step::Failed(FailureReason::MalformedResponse)
    ));
    assert_eq!(s.state, SessionState::Failed);
}

#[test]
fn old_connection_id_forces_reconnect() {
    let mut s = connected_session(100);
    assert!(s.connection_valid(159));
    assert!(!s.connection_valid(160));
    assert_eq!(s.start_announce(160, 1), None);
    assert_eq!(s.state, SessionState::Disconnected);
    assert_eq!(s.connection_id, None);
    let mut t = connected_session(100);
    t.expire(200);
    assert_eq!(t.state, SessionState::Disconnected);
}

#[test]
fn transport_error_fails_session() {
    let mut s = connected_session(0);
    s.on_transport_error();
    assert_eq!(s.state, SessionState::Failed);
    assert_eq!(s.failure, Some(FailureReason::TransportError));
}

#[test]
fn announce_retry_with_old_connection_id_reconnects() {
    let mut s = connected_session(100);
    s.start_announce(110, 3).unwrap();
    match s.on_timeout(125, 4) {
        Retry::Send(req) => {
            assert_eq!(&req[0..8], &77u64.to_be_bytes());
            assert_eq!(&req[12..16], &[0, 0, 0, 4]);
        }
        other => panic!("unexpected {:?}", other),
    }
    assert_eq!(s.attempt, 1);
    assert!(matches!(s.on_timeout(160, 5), Retry::Reconnect));
    assert_eq!(s.state, SessionState::Disconnected);
    assert_eq!(s.connection_id, None);
    assert_eq!(s.attempt, 2);
    let again = s.start_connect(6);
    assert_eq!(again, encode_connect_request(6));
    assert_eq!(s.attempt, 2);
    assert!(matches!(s.on_connect_packet(&connect_response(6, 88), 161), Step::Connected));
    let req = s.start_announce(161, 7).unwrap();
    assert_eq!(&req[0..8], &88u64.to_be_bytes());
    assert_eq!(s.attempt, 2);
}

#[test]
fn params_for_torrent() {
    let b = b"d8:announce11:udp://x:8014:infod6:lengthi350e4:name1:a12:piece lengthi1e6:pieces0:ee".to_vec();
    let t = Torrent::parse(&b).unwrap();
    let p = AnnounceParams::for_torrent(&t, [1; 20], 100, 5, 2, 9, 6881);
    assert_eq!(p.info_hash, t.info_hash);
    assert_eq!(p.left, 250);
    assert_eq!(p.downloaded, 100);
    assert_eq!(p.uploaded, 5);
    assert_eq!(p.peer_id, [1; 20]);
    assert_eq!(p.port, 6881);
}

#[test]
fn unanswered_announce_fails_after_eight_timeouts() {
    let mut s = connected_session(0);
    let mut now = 0u64;
    let mut tid = 100u32;
    s.start_announce(now, tid).unwrap();
    let mut timeouts = 0;
    loop {
        now += attempt_timeout(s.attempt);
        tid += 1;
        timeouts += 1;
        match s.on_timeout(now, tid) {
            Retry::Send(_) => assert_eq!(s.state, SessionState::Announcing),
            Retry::Reconnect => {
                s.start_connect(tid);
                let step = s.on_connect_packet(&connect_response(tid, 5), now);
                assert!(matches!(step, Step::Connected));
                tid += 1;
                s.start_announce(now, tid).unwrap();
            }
            Retry::GiveUp => break,
        }
        assert!(timeouts < 8);
    }
    assert_eq!(timeouts, 8);
    assert_eq!(s.state, SessionState::Failed);
    assert_eq!(s.failure, Some(FailureReason::TimeoutExhausted));
}

#[test]
fn stale_malformed_packet_is_ignored() {
    let mut s = connected_session(0);
    s.start_announce(1, 5).unwrap();
    let stale = vec![0, 0, 0, 0, 0, 0, 0, 9, 1, 2, 3];
    assert!(matches!(s.on_announce_packet(&stale), Step::Ignored));
    assert_eq!(s.state, SessionState::Announcing);
    let mut c = TrackerSession::new(params());
    c.start_connect(0xCAFE);
    let mut foreign = vec![0, 0, 0, 1, 0, 0, 0xBE, 0xEF];
    foreign.extend_from_slice(&[0; 12]);
    assert!(matches!(c.on_connect_packet(&foreign, 0), Step::Ignored));
    assert_eq!(c.state, SessionState::Connecting);
}
