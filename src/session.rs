//! The client side of the UDP tracker protocol as a state machine. Each method
//! takes one event (a packet, a timeout, the time now) and says what to do
//! next; sending, receiving and sleeping are left to the caller.
use vstd::prelude::*;

use crate::wire::{
    announce_request_bytes, announce_response_error, connect_request_bytes, connect_response_result, field, decode_announce_response,
    decode_connect_response, encode_announce_request, peek_transaction_id, encode_connect_request,
    AnnounceRequest, AnnounceResponse,
};

use crate::torrent::{sum_lengths, Torrent};

verus! {

/// How many times a request is sent before the session gives up.
pub const MAX_ATTEMPTS: u32 = 8;

/// Seconds for which a connection id may be used.
pub const CONNECTION_ID_LIFETIME: u64 = 60;

/// Seconds waited for the answer to the first attempt; each later attempt waits twice as long.
pub const BASE_TIMEOUT: u64 = 15;

#[derive(Clone, Copy, Debug, PartialEq, Eq, Structural)]
pub enum SessionState {
    Disconnected,
    Connecting,
    Connected,
    Announcing,
    Failed,
}

/// Why a session ended without a peer list.
#[derive(Clone, Copy, Debug, PartialEq, Eq, Structural)]
pub enum FailureReason {
    /// Every attempt timed out.
    TimeoutExhausted,
    /// The tracker answered with a packet that cannot be read.
    MalformedResponse,
    /// The socket failed.
    TransportError,
}

/// What stays the same across the announces of one session.
#[derive(Clone, Copy, Debug)]
pub struct AnnounceParams {
    pub info_hash: [u8; 20],
    pub peer_id: [u8; 20],
    pub downloaded: u64,
    pub left: u64,
    pub uploaded: u64,
    pub event: u32,
    pub key: u32,
    pub port: u16,
}

impl AnnounceParams {
    /// The announce fields for `t`: its info-hash, and what is left of it
    /// after `downloaded` bytes.
    pub fn for_torrent(
        t: &Torrent,
        peer_id: [u8; 20],
        downloaded: u64,
        uploaded: u64,
        event: u32,
        key: u32,
        port: u16,
    ) -> (r: Self)
        requires
            t.wf(),
            downloaded <= sum_lengths(t.info.files@),
        ensures
            r.info_hash == t.info_hash,
            r.left == sum_lengths(t.info.files@) - downloaded,
            r.peer_id == peer_id,
            r.downloaded == downloaded,
            r.uploaded == uploaded,
            r.event == event,
            r.key == key,
            r.port == port,
    {
        let total = t.get_torrent_total_size() as u64;
        AnnounceParams {
            info_hash: t.info_hash,
            peer_id,
            downloaded,
            left: total - downloaded,
            uploaded,
            event,
            key,
            port,
        }
    }
}

pub open spec fn pow2(n: nat) -> nat
    decreases n,
{
    if n == 0 {
        1
    } else {
        2 * pow2((n - 1) as nat)
    }
}

/// Seconds to wait for the answer to attempt `n`, counted from 0.
pub open spec fn timeout_of(n: nat) -> nat {
    (BASE_TIMEOUT * pow2(n)) as nat
}

/// The timeout of attempt `n`: 15, 30, 60, 120, ... seconds.
pub fn attempt_timeout(n: u32) -> (r: u64)
    requires
        n < MAX_ATTEMPTS,
    ensures
        r as nat == timeout_of(n as nat),
{
    let mut t: u64 = BASE_TIMEOUT;
    let mut i: u32 = 0;
    while i < n
        invariant
            i <= n,
            n < MAX_ATTEMPTS,
            t as nat == timeout_of(i as nat),
        decreases n - i,
    {
        proof {
            reveal_with_fuel(pow2, 8);
            lemma_pow2_mono(i as nat, 7);
        }
        t = t * 2;
        i = i + 1;
    }
    t
}

proof fn lemma_pow2_mono(a: nat, b: nat)
    requires
        a <= b,
    ensures
        pow2(a) <= pow2(b),
    decreases b,
{
    if a < b {
        lemma_pow2_mono(a, (b - 1) as nat);
    }
}

/// What the caller does after a timeout.
#[derive(Clone, Debug)]
pub enum Retry {
    /// Send these bytes, then wait for the next timeout.
    Send(Vec<u8>),
    /// The connection id is too old: connect again before announcing.
    Reconnect,
    /// Every attempt timed out; the session has failed.
    GiveUp,
}

/// One tracker session.
#[derive(Clone, Copy, Debug)]
pub struct TrackerSession {
    pub state: SessionState,
    pub connection_id: Option<u64>,
    /// When the connection id came, in seconds.
    pub connected_at: u64,
    /// The transaction id of the request in flight.
    pub transaction_id: u32,
    /// Which attempt of the request in flight this is, counted from 0. An
    /// announce that has to connect again keeps counting across the new
    /// connect exchange, so it has one budget of attempts in all.
    pub attempt: u32,
    /// The connect exchange in flight serves an announce whose connection id
    /// grew too old.
    pub reconnecting: bool,
    pub failure: Option<FailureReason>,
    pub params: AnnounceParams,
}

/// What the caller does after a packet came.
#[derive(Clone, Debug)]
pub enum Step {
    /// The packet answers another request: drop it and keep waiting.
    Ignored,
    /// The connect handshake is done.
    Connected,
    /// The announce is done.
    Peers(AnnounceResponse),
    /// The session is over.
    Failed(FailureReason),
}

impl TrackerSession {
    /// The session's invariant.
    pub open spec fn wf(&self) -> bool {
        &&& self.attempt < MAX_ATTEMPTS
        &&& (self.state == SessionState::Connected || self.state == SessionState::Announcing)
            ==> self.connection_id is Some
        &&& (self.state == SessionState::Failed <==> self.failure is Some)
    }

    /// The announce request that carries `transaction_id`.
    pub open spec fn announce_request(&self, transaction_id: u32) -> AnnounceRequest {
        AnnounceRequest {
            connection_id: self.connection_id->Some_0,
            transaction_id,
            info_hash: self.params.info_hash,
            peer_id: self.params.peer_id,
            downloaded: self.params.downloaded,
            left: self.params.left,
            uploaded: self.params.uploaded,
            event: self.params.event,
            ip_address: 0,
            key: self.params.key,
            num_want: -1i32,
            port: self.params.port,
        }
    }

    /// The connection id is there and younger than its lifetime at `now`.
    pub open spec fn spec_connection_valid(&self, now: u64) -> bool {
        &&& self.connection_id is Some
        &&& self.connected_at <= now
        &&& now - self.connected_at < CONNECTION_ID_LIFETIME
    }

    /// A session that has not yet contacted its tracker.
    pub fn new(params: AnnounceParams) -> (r: Self)
        ensures
            r.wf(),
            r.state == SessionState::Disconnected,
            r.connection_id is None,
            r.attempt == 0,
            !r.reconnecting,
            r.params == params,
    {
        TrackerSession {
            state: SessionState::Disconnected,
            connection_id: None,
            connected_at: 0,
            transaction_id: 0,
            attempt: 0,
            reconnecting: false,
            failure: None,
            params,
        }
    }

    pub fn connection_valid(&self, now: u64) -> (r: bool)
        ensures
            r == self.spec_connection_valid(now),
    {
        self.connection_id.is_some() && self.connected_at <= now && now - self.connected_at
            < CONNECTION_ID_LIFETIME
    }

    /// Sends a connect request: the first attempt of a new exchange, or, when
    /// an announce is reconnecting, its next attempt.
    pub fn start_connect(&mut self, transaction_id: u32) -> (r: Vec<u8>)
        requires
            old(self).wf(),
            old(self).state == SessionState::Disconnected,
        ensures
            final(self).wf(),
            r@ == connect_request_bytes(transaction_id),
            *final(self) == (TrackerSession {
                state: SessionState::Connecting,
                transaction_id,
                attempt: if old(self).reconnecting {
                    old(self).attempt
                } else {
                    0
                },
                ..*old(self)
            }),
    {
        self.state = SessionState::Connecting;
        self.transaction_id = transaction_id;
        if !self.reconnecting {
            self.attempt = 0;
        }
        encode_connect_request(transaction_id)
    }

    /// Takes a packet that came while connecting. A packet of at least 8
    /// bytes for another transaction is stale or foreign: it changes nothing.
    /// Otherwise a packet that cannot be read ends the session.
    pub fn on_connect_packet(&mut self, b: &[u8], now: u64) -> (r: Step)
        requires
            old(self).wf(),
            old(self).state == SessionState::Connecting,
        ensures
            final(self).wf(),
            b@.len() >= 8 && field(b@, 4, 4) != old(self).transaction_id as nat ==> r is Ignored
                && *final(self) == *old(self),
            !(b@.len() >= 8 && field(b@, 4, 4) != old(self).transaction_id as nat) ==> match connect_response_result(b@) {
                Err(_) => r is Failed && r->Failed_0 == FailureReason::MalformedResponse
                    && *final(self) == (TrackerSession {
                    state: SessionState::Failed,
                    failure: Some(FailureReason::MalformedResponse),
                    ..*old(self)
                }),
                Ok(c) => r is Connected && *final(self) == (TrackerSession {
                    state: SessionState::Connected,
                    connection_id: Some(c.connection_id),
                    connected_at: now,
                    ..*old(self)
                }),
            },
    {
        if let Some(tid) = peek_transaction_id(b) {
            if tid != self.transaction_id {
                return Step::Ignored;
            }
        }
        match decode_connect_response(b) {
            Err(_) => {
                self.state = SessionState::Failed;
                self.failure = Some(FailureReason::MalformedResponse);
                Step::Failed(FailureReason::MalformedResponse)
            },
            Ok(c) => {
                self.state = SessionState::Connected;
                self.connection_id = Some(c.connection_id);
                self.connected_at = now;
                Step::Connected
            },
        }
    }

    /// Drops a connection id that has grown too old, so that the next
    /// announce connects again first.
    pub fn expire(&mut self, now: u64)
        requires
            old(self).wf(),
        ensures
            final(self).wf(),
            old(self).state == SessionState::Connected && !old(self).spec_connection_valid(now)
                ==> *final(self) == (TrackerSession {
                state: SessionState::Disconnected,
                connection_id: None,
                ..*old(self)
            }),
            !(old(self).state == SessionState::Connected && !old(self).spec_connection_valid(now))
                ==> *final(self) == *old(self),
    {
        if self.state == SessionState::Connected && !self.connection_valid(now) {
            self.state = SessionState::Disconnected;
            self.connection_id = None;
        }
    }

    /// Sends an announce request, if the connection id is still valid at
    /// `now`: the first attempt of a new announce, or, after reconnecting, the
    /// announce's next attempt. Otherwise goes back to `Disconnected` and
    /// sends nothing.
    pub fn start_announce(&mut self, now: u64, transaction_id: u32) -> (r: Option<Vec<u8>>)
        requires
            old(self).wf(),
            old(self).state == SessionState::Connected,
        ensures
            final(self).wf(),
            old(self).spec_connection_valid(now) ==> {
                &&& r is Some
                &&& r->Some_0@ == announce_request_bytes(old(self).announce_request(transaction_id))
                &&& *final(self) == (TrackerSession {
                    state: SessionState::Announcing,
                    transaction_id,
                    attempt: if old(self).reconnecting {
                        old(self).attempt
                    } else {
                        0
                    },
                    reconnecting: false,
                    ..*old(self)
                })
            },
            !old(self).spec_connection_valid(now) ==> r is None && *final(self) == (TrackerSession {
                state: SessionState::Disconnected,
                connection_id: None,
                ..*old(self)
            }),
    {
        if !self.connection_valid(now) {
            self.state = SessionState::Disconnected;
            self.connection_id = None;
            return None;
        }
        self.state = SessionState::Announcing;
        self.transaction_id = transaction_id;
        if !self.reconnecting {
            self.attempt = 0;
        }
        self.reconnecting = false;
        Some(self.build_announce())
    }

    fn build_announce(&self) -> (r: Vec<u8>)
        requires
            self.connection_id is Some,
        ensures
            r@ == announce_request_bytes(self.announce_request(self.transaction_id)),
    {
        let q = AnnounceRequest {
            connection_id: self.connection_id.unwrap(),
            transaction_id: self.transaction_id,
            info_hash: self.params.info_hash,
            peer_id: self.params.peer_id,
            downloaded: self.params.downloaded,
            left: self.params.left,
            uploaded: self.params.uploaded,
            event: self.params.event,
            ip_address: 0,
            key: self.params.key,
            num_want: -1,
            port: self.params.port,
        };
        encode_announce_request(&q)
    }

    /// Takes a packet that came while announcing. A packet of at least 8
    /// bytes for another transaction is stale or foreign: it changes nothing.
    /// Otherwise a packet that cannot be read ends the session.
    pub fn on_announce_packet(&mut self, b: &[u8]) -> (r: Step)
        requires
            old(self).wf(),
            old(self).state == SessionState::Announcing,
        ensures
            final(self).wf(),
            b@.len() >= 8 && field(b@, 4, 4) != old(self).transaction_id as nat ==> r is Ignored
                && *final(self) == *old(self),
            !(b@.len() >= 8 && field(b@, 4, 4) != old(self).transaction_id as nat)
                && announce_response_error(b@) is Some ==> r is Failed && r->Failed_0
                == FailureReason::MalformedResponse && *final(self) == (TrackerSession {
                state: SessionState::Failed,
                failure: Some(FailureReason::MalformedResponse),
                ..*old(self)
            }),
            !(b@.len() >= 8 && field(b@, 4, 4) != old(self).transaction_id as nat)
                && announce_response_error(b@) is None ==> {
                &&& r is Peers
                &&& crate::wire::announce_response_matches(r->Peers_0, b@)
                &&& *final(self) == (TrackerSession { state: SessionState::Connected, ..*old(self) })
            },
    {
        if let Some(tid) = peek_transaction_id(b) {
            if tid != self.transaction_id {
                return Step::Ignored;
            }
        }
        match decode_announce_response(b) {
            Err(_) => {
                self.state = SessionState::Failed;
                self.failure = Some(FailureReason::MalformedResponse);
                Step::Failed(FailureReason::MalformedResponse)
            },
            Ok(resp) => {
                self.state = SessionState::Connected;
                Step::Peers(resp)
            },
        }
    }

    /// The request in flight got no answer in time. After the last attempt
    /// (the 8th timeout of a connect, or of an announce counted across its
    /// reconnects) the session fails. An announce whose connection id has
    /// grown too old by `now` is not sent again: its next attempt is a new
    /// connect exchange, after which the announce goes on with the attempt
    /// after that. Otherwise the request is sent again under
    /// `transaction_id`, with the next timeout.
    pub fn on_timeout(&mut self, now: u64, transaction_id: u32) -> (r: Retry)
        requires
            old(self).wf(),
            old(self).state == SessionState::Connecting || old(self).state
                == SessionState::Announcing,
        ensures
            final(self).wf(),
            old(self).attempt + 1 >= MAX_ATTEMPTS ==> r is GiveUp && *final(self) == (
            TrackerSession {
                state: SessionState::Failed,
                failure: Some(FailureReason::TimeoutExhausted),
                ..*old(self)
            }),
            old(self).attempt + 1 < MAX_ATTEMPTS && old(self).state == SessionState::Announcing
                && !old(self).spec_connection_valid(now) ==> r is Reconnect && *final(self) == (
            TrackerSession {
                state: SessionState::Disconnected,
                connection_id: None,
                attempt: (old(self).attempt + 1) as u32,
                reconnecting: true,
                ..*old(self)
            }),
            old(self).attempt + 1 < MAX_ATTEMPTS && (old(self).state == SessionState::Connecting
                || old(self).spec_connection_valid(now)) ==> {
                &&& *final(self) == (TrackerSession {
                    transaction_id,
                    attempt: (old(self).attempt + 1) as u32,
                    ..*old(self)
                })
                &&& r is Send
                &&& old(self).state == SessionState::Connecting ==> r->Send_0@
                    == connect_request_bytes(transaction_id)
                &&& old(self).state == SessionState::Announcing ==> r->Send_0@
                    == announce_request_bytes(old(self).announce_request(transaction_id))
            },
    {
        if self.attempt + 1 >= MAX_ATTEMPTS {
            self.state = SessionState::Failed;
            self.failure = Some(FailureReason::TimeoutExhausted);
            return Retry::GiveUp;
        }
        if self.state == SessionState::Announcing && !self.connection_valid(now) {
            self.state = SessionState::Disconnected;
            self.connection_id = None;
            self.attempt = self.attempt + 1;
            self.reconnecting = true;
            return Retry::Reconnect;
        }
        self.attempt = self.attempt + 1;
        self.transaction_id = transaction_id;
        if self.state == SessionState::Connecting {
            Retry::Send(encode_connect_request(transaction_id))
        } else {
            Retry::Send(self.build_announce())
        }
    }

    /// The socket failed: the session ends at once.
    pub fn on_transport_error(&mut self)
        requires
            old(self).wf(),
        ensures
            final(self).wf(),
            *final(self) == (TrackerSession {
                state: SessionState::Failed,
                failure: Some(FailureReason::TransportError),
                ..*old(self)
            }),
    {
        self.state = SessionState::Failed;
        self.failure = Some(FailureReason::TransportError);
    }
}

} // verus!
