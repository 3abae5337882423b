//! Fixed-layout big-endian messages of the UDP tracker protocol.
use vstd::prelude::*;

verus! {

/// The magic number that opens every connect request.
pub const PROTOCOL_ID: u64 = 0x41727101980;

pub const ACTION_CONNECT: u32 = 0;

pub const ACTION_ANNOUNCE: u32 = 1;

/// `n` bytes holding `v` most significant byte first (only the low `8 * n` bits of `v`).
pub open spec fn be_bytes(v: nat, n: nat) -> Seq<u8>
    decreases n,
{
    if n == 0 {
        Seq::empty()
    } else {
        be_bytes(v / 256, (n - 1) as nat).push((v % 256) as u8)
    }
}

/// The number that the bytes `b` spell, most significant byte first.
pub open spec fn be_value(b: Seq<u8>) -> nat
    decreases b.len(),
{
    if b.len() == 0 {
        0
    } else {
        be_value(b.drop_last()) * 256 + b.last() as nat
    }
}

pub open spec fn pow256(n: nat) -> nat
    decreases n,
{
    if n == 0 {
        1
    } else {
        256 * pow256((n - 1) as nat)
    }
}

proof fn lemma_be_value_bound(b: Seq<u8>)
    ensures
        be_value(b) < pow256(b.len()),
    decreases b.len(),
{
    if b.len() > 0 {
        let x = be_value(b.drop_last());
        let p = pow256(b.drop_last().len());
        lemma_be_value_bound(b.drop_last());
        let l = b.last() as nat;
        assert(x * 256 + l < 256 * p) by (nonlinear_arith)
            requires
                x < p,
                l < 256,
        ;
    }
}

/// Appends `v` as `n` big-endian bytes.
fn put_be(out: &mut Vec<u8>, v: u64, n: usize)
    requires
        n <= 8,
    ensures
        final(out)@ == old(out)@ + be_bytes(v as nat, n as nat),
    decreases n,
{
    if n > 0 {
        put_be(out, v / 256, n - 1);
        out.push((v % 256) as u8);
        assert(be_bytes(v as nat, n as nat) == be_bytes((v / 256) as nat, (n - 1) as nat).push(
            (v % 256) as u8,
        ));
    }
}

/// Reads `n` big-endian bytes at `pos`.
fn get_be(b: &[u8], pos: usize, n: usize) -> (r: u64)
    requires
        n <= 8,
        pos + n <= b@.len(),
    ensures
        r as nat == be_value(b@.subrange(pos as int, pos + n)),
    decreases n,
{
    if n == 0 {
        0
    } else {
        let len = b.len();
        let hi = get_be(b, pos, n - 1);
        proof {
            let s = b@.subrange(pos as int, pos + n);
            assert(s.drop_last() =~= b@.subrange(pos as int, pos + n - 1));
            lemma_be_value_bound(s.drop_last());
            reveal_with_fuel(pow256, 8);
            assert(pow256(7) == 0x100000000000000);
            lemma_pow256_mono((n - 1) as nat, 7);
            assert(hi * 256 + 255 <= 0xffff_ffff_ffff_ffff) by (nonlinear_arith)
                requires
                    hi < 0x100000000000000,
            ;
        }
        let last: u8 = b[pos + (n - 1)];
        hi * 256 + last as u64
    }
}

proof fn lemma_pow256_mono(a: nat, b: nat)
    requires
        a <= b,
    ensures
        pow256(a) <= pow256(b),
    decreases b,
{
    if a < b {
        lemma_pow256_mono(a, (b - 1) as nat);
    }
}

/// The 16 bytes of a connect request.
pub open spec fn connect_request_bytes(transaction_id: u32) -> Seq<u8> {
    be_bytes(PROTOCOL_ID as nat, 8) + be_bytes(ACTION_CONNECT as nat, 4) + be_bytes(
        transaction_id as nat,
        4,
    )
}

/// Builds the connect request that carries `transaction_id`.
pub fn encode_connect_request(transaction_id: u32) -> (r: Vec<u8>)
    ensures
        r@ == connect_request_bytes(transaction_id),
        r@.len() == 16,
{
    let mut out: Vec<u8> = Vec::new();
    put_be(&mut out, PROTOCOL_ID, 8);
    put_be(&mut out, ACTION_CONNECT as u64, 4);
    put_be(&mut out, transaction_id as u64, 4);
    proof {
        reveal_with_fuel(be_bytes, 9);
    }
    out
}

/// Appends the bytes of `b`.
fn put_bytes(out: &mut Vec<u8>, b: &[u8])
    ensures
        final(out)@ == old(out)@ + b@,
{
    let ghost start = out@;
    let mut i: usize = 0;
    while i < b.len()
        invariant
            i <= b@.len(),
            out@ == start + b@.subrange(0, i as int),
        decreases b@.len() - i,
    {
        out.push(b[i]);
        i = i + 1;
        assert(b@.subrange(0, i as int) =~= b@.subrange(0, i - 1).push(b@[i - 1]));
    }
    assert(b@.subrange(0, i as int) =~= b@);
}

/// What the tracker answers to a connect request.
#[derive(Clone, Copy, Debug, PartialEq, Eq, Structural)]
pub struct ConnectResponse {
    pub action: u32,
    pub transaction_id: u32,
    pub connection_id: u64,
}

/// Why a tracker's packet could not be read.
#[derive(Clone, Copy, Debug, PartialEq, Eq, Structural)]
pub enum WireError {
    /// Fewer bytes than the fixed header needs.
    TruncatedMessage,
    /// A wrong action code, or a peer list that is not whole.
    MalformedResponse,
}

/// The big-endian number in `b[from..from + n]`.
pub open spec fn field(b: Seq<u8>, from: int, n: int) -> nat {
    be_value(b.subrange(from, from + n))
}

/// What a connect response of at least 16 bytes reads as.
pub open spec fn connect_response_of(b: Seq<u8>) -> ConnectResponse {
    ConnectResponse {
        action: field(b, 0, 4) as u32,
        transaction_id: field(b, 4, 4) as u32,
        connection_id: field(b, 8, 8) as u64,
    }
}

/// What reading `b` as a connect response gives.
pub open spec fn connect_response_result(b: Seq<u8>) -> Result<ConnectResponse, WireError> {
    if b.len() < 16 {
        Err(WireError::TruncatedMessage)
    } else if field(b, 0, 4) != ACTION_CONNECT {
        Err(WireError::MalformedResponse)
    } else {
        Ok(connect_response_of(b))
    }
}

/// Reads a connect response: at least 16 bytes, and the connect action.
pub fn decode_connect_response(b: &[u8]) -> (r: Result<ConnectResponse, WireError>)
    ensures
        r == connect_response_result(b@),
{
    if b.len() < 16 {
        return Err(WireError::TruncatedMessage);
    }
    let action = get_be(b, 0, 4);
    if action != ACTION_CONNECT as u64 {
        return Err(WireError::MalformedResponse);
    }
    proof {
        lemma_be_value_bound(b@.subrange(4, 8));
        lemma_be_value_bound(b@.subrange(8, 16));
        reveal_with_fuel(pow256, 9);
    }
    let transaction_id = get_be(b, 4, 4) as u32;
    let connection_id = get_be(b, 8, 8);
    Ok(ConnectResponse { action: ACTION_CONNECT, transaction_id, connection_id })
}

/// The fields of an announce request.
#[derive(Clone, Copy, Debug)]
pub struct AnnounceRequest {
    pub connection_id: u64,
    pub transaction_id: u32,
    pub info_hash: [u8; 20],
    pub peer_id: [u8; 20],
    pub downloaded: u64,
    pub left: u64,
    pub uploaded: u64,
    /// 0 none, 1 completed, 2 started, 3 stopped.
    pub event: u32,
    /// 0 lets the tracker use the sender's address.
    pub ip_address: u32,
    pub key: u32,
    /// -1 asks for the tracker's default count.
    pub num_want: i32,
    pub port: u16,
}

/// The 98 bytes of an announce request.
pub open spec fn announce_request_bytes(q: AnnounceRequest) -> Seq<u8> {
    be_bytes(q.connection_id as nat, 8) + be_bytes(ACTION_ANNOUNCE as nat, 4) + be_bytes(
        q.transaction_id as nat,
        4,
    ) + q.info_hash@ + q.peer_id@ + be_bytes(q.downloaded as nat, 8) + be_bytes(
        q.left as nat,
        8,
    ) + be_bytes(q.uploaded as nat, 8) + be_bytes(q.event as nat, 4) + be_bytes(
        q.ip_address as nat,
        4,
    ) + be_bytes(q.key as nat, 4) + be_bytes((q.num_want as u32) as nat, 4) + be_bytes(
        q.port as nat,
        2,
    )
}

proof fn lemma_be_bytes_len(v: nat, n: nat)
    ensures
        be_bytes(v, n).len() == n,
    decreases n,
{
    if n > 0 {
        lemma_be_bytes_len(v / 256, (n - 1) as nat);
    }
}

/// Builds an announce request.
pub fn encode_announce_request(q: &AnnounceRequest) -> (r: Vec<u8>)
    ensures
        r@ == announce_request_bytes(*q),
        r@.len() == 98,
{
    let mut out: Vec<u8> = Vec::new();
    put_be(&mut out, q.connection_id, 8);
    put_be(&mut out, ACTION_ANNOUNCE as u64, 4);
    put_be(&mut out, q.transaction_id as u64, 4);
    put_bytes(&mut out, &q.info_hash);
    put_bytes(&mut out, &q.peer_id);
    put_be(&mut out, q.downloaded, 8);
    put_be(&mut out, q.left, 8);
    put_be(&mut out, q.uploaded, 8);
    put_be(&mut out, q.event as u64, 4);
    put_be(&mut out, q.ip_address as u64, 4);
    put_be(&mut out, q.key as u64, 4);
    put_be(&mut out, (q.num_want as u32) as u64, 4);
    put_be(&mut out, q.port as u64, 2);
    proof {
        lemma_be_bytes_len(0, 8);
        lemma_be_bytes_len(0, 4);
        lemma_be_bytes_len(0, 2);
        assert forall|v: nat, n: nat| #[trigger] be_bytes(v, n).len() == n by {
            lemma_be_bytes_len(v, n);
        }
    }
    out
}

/// One peer: an IPv4 address (most significant octet first) and a port.
#[derive(Clone, Copy, Debug, PartialEq, Eq, Structural)]
pub struct Peer {
    pub ip: u32,
    pub port: u16,
}

/// The peer whose six bytes start at `off`.
pub open spec fn peer_at(b: Seq<u8>, off: int) -> Peer {
    Peer { ip: field(b, off, 4) as u32, port: field(b, off + 4, 2) as u16 }
}

/// What the tracker answers to an announce request.
#[derive(Clone, Debug)]
pub struct AnnounceResponse {
    pub action: u32,
    pub transaction_id: u32,
    pub interval: u32,
    pub leechers: u32,
    pub seeders: u32,
    pub peers: Vec<Peer>,
}

/// `r` holds the header fields of `b` and one peer for each six bytes after them.
pub open spec fn announce_response_matches(r: AnnounceResponse, b: Seq<u8>) -> bool {
    &&& r.action == ACTION_ANNOUNCE
    &&& r.transaction_id as nat == field(b, 4, 4)
    &&& r.interval as nat == field(b, 8, 4)
    &&& r.leechers as nat == field(b, 12, 4)
    &&& r.seeders as nat == field(b, 16, 4)
    &&& r.peers@.len() == (b.len() - 20) / 6
    &&& forall|i: int| 0 <= i < r.peers@.len() ==> #[trigger] r.peers@[i] == peer_at(b, 20 + 6 * i)
}

/// The error of reading `b` as an announce response, if there is one.
pub open spec fn announce_response_error(b: Seq<u8>) -> Option<WireError> {
    if b.len() < 20 {
        Some(WireError::TruncatedMessage)
    } else if field(b, 0, 4) != ACTION_ANNOUNCE || (b.len() - 20) % 6 != 0 {
        Some(WireError::MalformedResponse)
    } else {
        None
    }
}

/// Reads an announce response: a 20-byte header, the announce action, then
/// whole six-byte peer entries.
pub fn decode_announce_response(b: &[u8]) -> (r: Result<AnnounceResponse, WireError>)
    ensures
        announce_response_error(b@) matches Some(e) ==> r == Err::<AnnounceResponse, WireError>(e),
        announce_response_error(b@) is None ==> r is Ok && announce_response_matches(r->Ok_0, b@),
{
    if b.len() < 20 {
        return Err(WireError::TruncatedMessage);
    }
    let action = get_be(b, 0, 4);
    if action != ACTION_ANNOUNCE as u64 || (b.len() - 20) % 6 != 0 {
        return Err(WireError::MalformedResponse);
    }
    proof {
        reveal_with_fuel(pow256, 5);
        lemma_be_value_bound(b@.subrange(4, 8));
        lemma_be_value_bound(b@.subrange(8, 12));
        lemma_be_value_bound(b@.subrange(12, 16));
        lemma_be_value_bound(b@.subrange(16, 20));
    }
    let transaction_id = get_be(b, 4, 4) as u32;
    let interval = get_be(b, 8, 4) as u32;
    let leechers = get_be(b, 12, 4) as u32;
    let seeders = get_be(b, 16, 4) as u32;
    let len = b.len();
    let count = (len - 20) / 6;
    let mut peers: Vec<Peer> = Vec::new();
    let mut k: usize = 0;
    while k < count
        invariant
            count == (b@.len() - 20) / 6,
            len == b@.len(),
            b@.len() >= 20,
            k <= count,
            peers@.len() == k,
            forall|i: int| 0 <= i < k ==> #[trigger] peers@[i] == peer_at(b@, 20 + 6 * i),
        decreases count - k,
    {
        proof {
            assert(20 + 6 * k + 6 <= len) by (nonlinear_arith)
                requires
                    k < count,
                    count == (len - 20) / 6,
                    len >= 20,
            ;
        }
        let off = 20 + 6 * k;
        proof {
            reveal_with_fuel(pow256, 5);
            lemma_be_value_bound(b@.subrange(off as int, off + 4));
            lemma_be_value_bound(b@.subrange(off + 4, off + 6));
        }
        let ip = get_be(b, off, 4) as u32;
        let port = get_be(b, off + 4, 2) as u16;
        peers.push(Peer { ip, port });
        k = k + 1;
    }
    Ok(AnnounceResponse { action: ACTION_ANNOUNCE, transaction_id, interval, leechers, seeders, peers })
}

/// The transaction id of a tracker packet: bytes 4 to 8 of any reply.
pub fn peek_transaction_id(b: &[u8]) -> (r: Option<u32>)
    ensures
        b@.len() < 8 ==> r is None,
        b@.len() >= 8 ==> r == Some(field(b@, 4, 4) as u32) && field(b@, 4, 4) < 0x1_0000_0000,
{
    if b.len() < 8 {
        return None;
    }
    proof {
        reveal_with_fuel(pow256, 5);
        lemma_be_value_bound(b@.subrange(4, 8));
    }
    Some(get_be(b, 4, 4) as u32)
}

} // verus!
