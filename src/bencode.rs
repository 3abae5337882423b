//! Bencode: byte strings, integers, lists and dictionaries, read and written
//! in their one canonical form.
use vstd::prelude::*;

verus! {

broadcast use vstd::std_specs::vec::group_vec_axioms;

/// A bencoded value. A dictionary holds its entries with their keys in
/// strictly ascending byte order (see `wf`).
#[derive(Debug)]
pub enum Value {
    Bytes(Vec<u8>),
    Int(i64),
    List(Vec<Value>),
    Dict(Vec<(Vec<u8>, Value)>),
}

/// The decimal digits of `n`, with no leading zero.
pub open spec fn decimal(n: nat) -> Seq<u8>
    decreases n,
{
    if n < 10 {
        seq![(48 + n) as u8]
    } else {
        decimal(n / 10).push((48 + n % 10) as u8)
    }
}

/// An integer as bencode writes it: its digits, after `-` when negative.
pub open spec fn int_text(i: int) -> Seq<u8> {
    if i < 0 {
        seq![45u8] + decimal((-i) as nat)
    } else {
        decimal(i as nat)
    }
}

/// A byte string as bencode writes it: its length, `:`, then the bytes.
pub open spec fn bytes_text(b: Seq<u8>) -> Seq<u8> {
    decimal(b.len()) + seq![58u8] + b
}

/// The bytes that stand for `v`.
pub open spec fn encoding(v: Value) -> Seq<u8>
    decreases v, 0nat,
{
    match v {
        Value::Bytes(b) => bytes_text(b@),
        Value::Int(i) => seq![105u8] + int_text(i as int) + seq![101u8],
        Value::List(items) => seq![108u8] + items_encoding(items, items.len() as nat) + seq![
            101u8,
        ],
        Value::Dict(es) => seq![100u8] + entries_encoding(es, es.len() as nat) + seq![101u8],
    }
}

/// The encodings of the first `n` items, one after another.
pub open spec fn items_encoding(items: Vec<Value>, n: nat) -> Seq<u8>
    decreases items, n,
{
    if n == 0 || n > items.len() {
        Seq::empty()
    } else {
        items_encoding(items, (n - 1) as nat) + encoding(items[n - 1])
    }
}

/// The first `n` entries, each key then its value.
pub open spec fn entries_encoding(es: Vec<(Vec<u8>, Value)>, n: nat) -> Seq<u8>
    decreases es, n,
{
    if n == 0 || n > es.len() {
        Seq::empty()
    } else {
        entries_encoding(es, (n - 1) as nat) + bytes_text(es[n - 1].0@) + encoding(es[n - 1].1)
    }
}

/// `a` comes before `b` in byte order (a proper prefix comes first).
pub open spec fn key_lt(a: Seq<u8>, b: Seq<u8>) -> bool
    decreases a.len(),
{
    if a.len() == 0 {
        b.len() > 0
    } else if b.len() == 0 {
        false
    } else if a[0] != b[0] {
        a[0] < b[0]
    } else {
        key_lt(a.drop_first(), b.drop_first())
    }
}

/// The keys of `es` ascend strictly.
pub open spec fn keys_ascending(es: Seq<(Vec<u8>, Value)>) -> bool {
    forall|i: int| 0 < i < es.len() ==> key_lt(#[trigger] es[i - 1].0@, es[i].0@)
}

/// Every dictionary in `v`, at any depth, has strictly ascending keys.
pub open spec fn wf(v: Value) -> bool
    decreases v, 0nat,
{
    match v {
        Value::List(items) => items_wf(items, items.len() as nat),
        Value::Dict(es) => keys_ascending(es@) && entries_wf(es, es.len() as nat),
        _ => true,
    }
}

pub open spec fn items_wf(items: Vec<Value>, n: nat) -> bool
    decreases items, n,
{
    if n == 0 || n > items.len() {
        true
    } else {
        items_wf(items, (n - 1) as nat) && wf(items[n - 1])
    }
}

pub open spec fn entries_wf(es: Vec<(Vec<u8>, Value)>, n: nat) -> bool
    decreases es, n,
{
    if n == 0 || n > es.len() {
        true
    } else {
        entries_wf(es, (n - 1) as nat) && wf(es[n - 1].1)
    }
}

proof fn lemma_items_encoding_prefix(a: Vec<Value>, b: Vec<Value>, n: nat)
    requires
        n <= a.len(),
        n <= b.len(),
        forall|k: int| 0 <= k < n ==> a@[k] == b@[k],
    ensures
        items_encoding(a, n) == items_encoding(b, n),
        items_wf(a, n) == items_wf(b, n),
    decreases n,
{
    if n > 0 {
        lemma_items_encoding_prefix(a, b, (n - 1) as nat);
    }
}

proof fn lemma_entries_encoding_prefix(a: Vec<(Vec<u8>, Value)>, b: Vec<(Vec<u8>, Value)>, n: nat)
    requires
        n <= a.len(),
        n <= b.len(),
        forall|k: int| 0 <= k < n ==> a@[k] == b@[k],
    ensures
        entries_encoding(a, n) == entries_encoding(b, n),
        entries_wf(a, n) == entries_wf(b, n),
    decreases n,
{
    if n > 0 {
        lemma_entries_encoding_prefix(a, b, (n - 1) as nat);
    }
}

/// Appends the decimal digits of `n`.
fn put_decimal(out: &mut Vec<u8>, n: u64)
    ensures
        final(out)@ == old(out)@ + decimal(n as nat),
    decreases n,
{
    if n >= 10 {
        put_decimal(out, n / 10);
    }
    out.push((48 + n % 10) as u8);
    proof {
        if n < 10 {
            assert(n % 10 == n);
        }
    }
}

/// Appends a byte string with its length prefix.
fn put_bytes_text(out: &mut Vec<u8>, b: &Vec<u8>)
    ensures
        final(out)@ == old(out)@ + bytes_text(b@),
{
    put_decimal(out, b.len() as u64);
    out.push(58u8);
    let ghost mid = out@;
    let mut i: usize = 0;
    while i < b.len()
        invariant
            i <= b@.len(),
            out@ == mid + b@.subrange(0, i as int),
        decreases b@.len() - i,
    {
        out.push(b[i]);
        i = i + 1;
        assert(b@.subrange(0, i as int) =~= b@.subrange(0, i - 1).push(b@[i - 1]));
    }
    assert(b@.subrange(0, i as int) =~= b@);
    assert(out@ =~= old(out)@ + bytes_text(b@));
}

/// Appends the encoding of `v`.
fn encode_into(v: &Value, out: &mut Vec<u8>)
    ensures
        final(out)@ == old(out)@ + encoding(*v),
    decreases v,
{
    let ghost start = out@;
    match v {
        Value::Bytes(b) => {
            put_bytes_text(out, b);
        },
        Value::Int(i) => {
            out.push(105u8);
            if *i < 0 {
                out.push(45u8);
                put_decimal(out, (-(*i as i128)) as u64);
            } else {
                put_decimal(out, *i as u64);
            }
            out.push(101u8);
            assert(out@ =~= start + encoding(*v));
        },
        Value::List(items) => {
            out.push(108u8);
            let mut k: usize = 0;
            while k < items.len()
                invariant
                    k <= items@.len(),
                    *v == Value::List(*items),
                    out@ == start + seq![108u8] + items_encoding(*items, k as nat),
                decreases items@.len() - k,
            {
                proof {
                    vstd::std_specs::vec::axiom_vec_index_decreases(*items, k as int);
                    assert(decreases_to!(*v => v->List_0));
                }
                encode_into(&items[k], out);
                k = k + 1;
                assert(out@ =~= start + seq![108u8] + items_encoding(*items, k as nat));
            }
            out.push(101u8);
            assert(out@ =~= start + encoding(*v));
        },
        Value::Dict(es) => {
            out.push(100u8);
            let mut k: usize = 0;
            while k < es.len()
                invariant
                    k <= es@.len(),
                    *v == Value::Dict(*es),
                    out@ == start + seq![100u8] + entries_encoding(*es, k as nat),
                decreases es@.len() - k,
            {
                put_bytes_text(out, &es[k].0);
                proof {
                    vstd::std_specs::vec::axiom_vec_index_decreases(*es, k as int);
                    assert(decreases_to!(*v => v->Dict_0));
                    assert(decreases_to!(es[k as int] => es[k as int].1));
                }
                encode_into(&es[k].1, out);
                k = k + 1;
                assert(out@ =~= start + seq![100u8] + entries_encoding(*es, k as nat));
            }
            out.push(101u8);
            assert(out@ =~= start + encoding(*v));
        },
    }
}

/// The canonical bytes of `v`. With well-formed dictionaries their keys come
/// out in ascending byte order, so equal values always give equal bytes.
pub fn encode(v: &Value) -> (r: Vec<u8>)
    requires
        wf(*v),
    ensures
        r@ == encoding(*v),
{
    let mut out: Vec<u8> = Vec::new();
    encode_into(v, &mut out);
    assert(out@ =~= encoding(*v));
    out
}

/// What rule a malformed input broke.
#[derive(Clone, Copy, Debug, PartialEq, Eq, Structural)]
pub enum DecodeErrorKind {
    /// The input ends inside a value.
    UnexpectedEnd,
    /// A byte that cannot stand where it stands.
    UnexpectedByte,
    /// A byte string claims more bytes than the input has left.
    LengthBeyondInput,
    /// A number written with a leading zero.
    LeadingZero,
    /// The integer `-0`.
    NegativeZero,
    /// A number too large for its type.
    Overflow,
    /// A dictionary key that is not a byte string.
    KeyNotString,
    /// Dictionary keys out of ascending byte order, or repeated.
    UnsortedKeys,
    /// Bytes after the end of the value.
    TrailingBytes,
}

/// A malformed input: where, and which rule it broke.
#[derive(Clone, Copy, Debug, PartialEq, Eq, Structural)]
pub struct DecodeError {
    pub offset: usize,
    pub kind: DecodeErrorKind,
}

/// The error of kind `kind` at `offset`.
pub open spec fn error_at(offset: int, kind: DecodeErrorKind) -> DecodeError {
    DecodeError { offset: offset as usize, kind }
}

/// `b[i]` exists and is an ASCII digit.
pub open spec fn digit_at(b: Seq<u8>, i: int) -> bool {
    0 <= i < b.len() && 48 <= b[i] <= 57
}

/// Reads the digits of a number from `i` on, `acc` being the value of those
/// before `i`; fails once the value would pass `u64::MAX`.
pub open spec fn scan_digits(b: Seq<u8>, pos: int, i: int, acc: nat) -> Result<(u64, int), DecodeError>
    decreases b.len() - i,
{
    if digit_at(b, i) {
        let d = (b[i] - 48) as nat;
        if acc > (0xffff_ffff_ffff_ffffu64 - d) / 10 {
            Err(error_at(pos, DecodeErrorKind::Overflow))
        } else {
            scan_digits(b, pos, i + 1, acc * 10 + d)
        }
    } else {
        Ok((acc as u64, i))
    }
}

/// Reads a number without a leading zero at `pos`: its value and where it ends.
pub open spec fn scan_decimal(b: Seq<u8>, pos: int) -> Result<(u64, int), DecodeError> {
    if pos >= b.len() {
        Err(error_at(pos, DecodeErrorKind::UnexpectedEnd))
    } else if !digit_at(b, pos) {
        Err(error_at(pos, DecodeErrorKind::UnexpectedByte))
    } else if b[pos] == 48 {
        if digit_at(b, pos + 1) {
            Err(error_at(pos, DecodeErrorKind::LeadingZero))
        } else {
            Ok((0, pos + 1))
        }
    } else {
        scan_digits(b, pos, pos + 1, (b[pos] - 48) as nat)
    }
}

/// Reads a byte string at `pos`: where its bytes start and where it ends.
pub open spec fn scan_bytes(b: Seq<u8>, pos: int) -> Result<(int, int), DecodeError> {
    match scan_decimal(b, pos) {
        Err(e) => Err(e),
        Ok((n, p)) => if p >= b.len() {
            Err(error_at(p, DecodeErrorKind::UnexpectedEnd))
        } else if b[p] != 58 {
            Err(error_at(p, DecodeErrorKind::UnexpectedByte))
        } else if n > b.len() - (p + 1) {
            Err(error_at(pos, DecodeErrorKind::LengthBeyondInput))
        } else {
            Ok((p + 1, p + 1 + n))
        },
    }
}

/// Reads an integer at `pos`, where `i` stands: where it ends.
pub open spec fn scan_int(b: Seq<u8>, pos: int) -> Result<int, DecodeError> {
    let neg = pos + 1 < b.len() && b[pos + 1] == 45;
    let p = if neg { pos + 2 } else { pos + 1 };
    match scan_decimal(b, p) {
        Err(e) => Err(e),
        Ok((n, q)) => if neg && n == 0 {
            Err(error_at(pos, DecodeErrorKind::NegativeZero))
        } else if q >= b.len() {
            Err(error_at(q, DecodeErrorKind::UnexpectedEnd))
        } else if b[q] != 101 {
            Err(error_at(q, DecodeErrorKind::UnexpectedByte))
        } else if (neg && n > 0x8000_0000_0000_0000u64) || (!neg && n > 0x7fff_ffff_ffff_ffffu64) {
            Err(error_at(pos, DecodeErrorKind::Overflow))
        } else {
            Ok(q + 1)
        },
    }
}

/// How reading one value at `pos` goes: where the value ends, or the first
/// rule broken and where.
pub open spec fn scan(b: Seq<u8>, pos: int) -> Result<int, DecodeError>
    decreases b.len() - pos, 0nat,
{
    if pos < 0 || pos >= b.len() {
        Err(error_at(pos, DecodeErrorKind::UnexpectedEnd))
    } else if b[pos] == 105 {
        scan_int(b, pos)
    } else if digit_at(b, pos) {
        match scan_bytes(b, pos) {
            Ok((_, e)) => Ok(e),
            Err(x) => Err(x),
        }
    } else if b[pos] == 108 {
        scan_list(b, pos + 1)
    } else if b[pos] == 100 {
        scan_dict(b, pos + 1, None)
    } else {
        Err(error_at(pos, DecodeErrorKind::UnexpectedByte))
    }
}

/// How reading the rest of a list from `p` goes.
pub open spec fn scan_list(b: Seq<u8>, p: int) -> Result<int, DecodeError>
    decreases b.len() - p, 1nat,
{
    if p < 0 || p >= b.len() {
        Err(error_at(p, DecodeErrorKind::UnexpectedEnd))
    } else if b[p] == 101 {
        Ok(p + 1)
    } else {
        match scan(b, p) {
            Err(x) => Err(x),
            Ok(q) => if q <= p || q > b.len() {
                Err(error_at(p, DecodeErrorKind::UnexpectedEnd))
            } else {
                scan_list(b, q)
            },
        }
    }
}

/// How reading the rest of a dictionary from `p` goes, `prev` being the key
/// before `p`, if any.
pub open spec fn scan_dict(b: Seq<u8>, p: int, prev: Option<Seq<u8>>) -> Result<int, DecodeError>
    decreases b.len() - p, 1nat,
{
    if p < 0 || p >= b.len() {
        Err(error_at(p, DecodeErrorKind::UnexpectedEnd))
    } else if b[p] == 101 {
        Ok(p + 1)
    } else if !digit_at(b, p) {
        Err(error_at(p, DecodeErrorKind::KeyNotString))
    } else {
        match scan_bytes(b, p) {
            Err(x) => Err(x),
            Ok((ks, q)) => if q <= p || q > b.len() || ks < 0 || ks > q {
                Err(error_at(p, DecodeErrorKind::UnexpectedEnd))
            } else if prev is Some && !key_lt(prev->Some_0, b.subrange(ks, q)) {
                Err(error_at(p, DecodeErrorKind::UnsortedKeys))
            } else {
                match scan(b, q) {
                    Err(x) => Err(x),
                    Ok(t) => if t <= q || t > b.len() {
                        Err(error_at(p, DecodeErrorKind::UnexpectedEnd))
                    } else {
                        scan_dict(b, t, Some(b.subrange(ks, q)))
                    },
                }
            },
        }
    }
}

/// The error that decoding `b` gives, or `None` when `b` is one canonical value.
pub open spec fn decode_error(b: Seq<u8>) -> Option<DecodeError> {
    match scan(b, 0) {
        Err(e) => Some(e),
        Ok(end) => if end != b.len() {
            Some(error_at(end, DecodeErrorKind::TrailingBytes))
        } else {
            None
        },
    }
}

fn malformed(offset: usize, kind: DecodeErrorKind) -> (r: DecodeError)
    ensures
        r.offset == offset && r.kind == kind,
{
    DecodeError { offset, kind }
}

fn is_digit(c: u8) -> (r: bool)
    ensures
        r <==> 48 <= c <= 57,
{
    48 <= c && c <= 57
}

proof fn lemma_decimal_step(n: nat, d: nat)
    requires
        n > 0,
        d < 10,
    ensures
        decimal(n * 10 + d) == decimal(n).push((48 + d) as u8),
{
    let x = n * 10 + d;
    assert(x / 10 == n && x % 10 == d && x >= 10) by (nonlinear_arith)
        requires
            x == n * 10 + d,
            n > 0,
            d < 10,
    ;
}

/// Reads the digits of a number at `pos`.
fn parse_decimal(b: &[u8], pos: usize) -> (r: Result<(u64, usize), DecodeError>)
    requires
        pos <= b@.len(),
    ensures
        r matches Ok((n, end)) ==> pos < end <= b@.len() && decimal(n as nat) == b@.subrange(
            pos as int,
            end as int,
        ),
        r matches Ok((n, end)) ==> scan_decimal(b@, pos as int) == Ok::<(u64, int), DecodeError>(
            (n, end as int),
        ),
        r matches Err(e) ==> scan_decimal(b@, pos as int) == Err::<(u64, int), DecodeError>(e),
{
    let len = b.len();
    if pos >= len {
        return Err(malformed(pos, DecodeErrorKind::UnexpectedEnd));
    }
    let c = b[pos];
    if !is_digit(c) {
        return Err(malformed(pos, DecodeErrorKind::UnexpectedByte));
    }
    assert(b@.subrange(pos as int, pos + 1) =~= seq![c]);
    if c == 48 {
        if pos + 1 < len && is_digit(b[pos + 1]) {
            return Err(malformed(pos, DecodeErrorKind::LeadingZero));
        }
        return Ok((0, pos + 1));
    }
    let mut acc: u64 = (c - 48) as u64;
    let mut i: usize = pos + 1;
    while i < len && is_digit(b[i])
        invariant
            pos < i <= len,
            len == b@.len(),
            acc > 0,
            decimal(acc as nat) == b@.subrange(pos as int, i as int),
            scan_decimal(b@, pos as int) == scan_digits(b@, pos as int, i as int, acc as nat),
        decreases len - i,
    {
        let d = (b[i] - 48) as u64;
        if acc > (0xffff_ffff_ffff_ffffu64 - d) / 10 {
            return Err(malformed(pos, DecodeErrorKind::Overflow));
        }
        proof {
            lemma_decimal_step(acc as nat, d as nat);
            assert(acc * 10 + d <= 0xffff_ffff_ffff_ffff) by (nonlinear_arith)
                requires
                    acc <= (0xffff_ffff_ffff_ffffu64 - d) / 10,
                    d < 10,
            ;
            assert(b@.subrange(pos as int, i + 1) =~= b@.subrange(pos as int, i as int).push(
                b@[i as int],
            ));
        }
        acc = acc * 10 + d;
        i = i + 1;
    }
    Ok((acc, i))
}

/// A copy of `b[from..to]`.
pub(crate) fn copy_range(b: &[u8], from: usize, to: usize) -> (r: Vec<u8>)
    requires
        from <= to <= b@.len(),
    ensures
        r@ == b@.subrange(from as int, to as int),
{
    let mut out: Vec<u8> = Vec::new();
    let mut i: usize = from;
    while i < to
        invariant
            from <= i <= to,
            to <= b@.len(),
            out@ == b@.subrange(from as int, i as int),
        decreases to - i,
    {
        out.push(b[i]);
        i = i + 1;
        assert(out@ =~= b@.subrange(from as int, i as int));
    }
    out
}

/// Reads a byte string at `pos`. A length beyond the input fails before
/// anything is copied.
fn decode_bytes_at(b: &[u8], pos: usize) -> (r: Result<(Vec<u8>, usize), DecodeError>)
    requires
        pos <= b@.len(),
    ensures
        r matches Ok((s, end)) ==> pos < end <= b@.len() && bytes_text(s@) == b@.subrange(
            pos as int,
            end as int,
        ),
        r matches Ok((s, end)) ==> scan_bytes(b@, pos as int) == Ok::<(int, int), DecodeError>(
            (end - s@.len(), end as int),
        ) && s@ == b@.subrange(end - s@.len(), end as int),
        r matches Err(e) ==> scan_bytes(b@, pos as int) == Err::<(int, int), DecodeError>(e),
{
    let len = b.len();
    let (n, p) = match parse_decimal(b, pos) {
        Ok(x) => x,
        Err(e) => {
            return Err(e);
        },
    };
    if p >= len {
        return Err(malformed(p, DecodeErrorKind::UnexpectedEnd));
    }
    if b[p] != 58 {
        return Err(malformed(p, DecodeErrorKind::UnexpectedByte));
    }
    let start = p + 1;
    if n > (len - start) as u64 {
        return Err(malformed(pos, DecodeErrorKind::LengthBeyondInput));
    }
    let stop = start + n as usize;
    let s = copy_range(b, start, stop);
    assert(b@.subrange(pos as int, stop as int) =~= b@.subrange(pos as int, p as int) + seq![58u8]
        + b@.subrange(start as int, stop as int));
    Ok((s, stop))
}

/// Reads an integer at `pos`, where `i` stands.
fn decode_int_at(b: &[u8], pos: usize) -> (r: Result<(Value, usize), DecodeError>)
    requires
        pos < b@.len(),
        b@[pos as int] == 105,
    ensures
        r matches Ok((v, end)) ==> pos < end <= b@.len() && wf(v) && encoding(v) == b@.subrange(
            pos as int,
            end as int,
        ),
        r matches Ok((v, end)) ==> scan_int(b@, pos as int) == Ok::<int, DecodeError>(end as int),
        r matches Err(e) ==> scan_int(b@, pos as int) == Err::<int, DecodeError>(e),
{
    let len = b.len();
    let mut p = pos + 1;
    let neg = p < len && b[p] == 45;
    if neg {
        p = p + 1;
    }
    let (n, q) = match parse_decimal(b, p) {
        Ok(x) => x,
        Err(e) => {
            return Err(e);
        },
    };
    if neg && n == 0 {
        return Err(malformed(pos, DecodeErrorKind::NegativeZero));
    }
    if q >= len {
        return Err(malformed(q, DecodeErrorKind::UnexpectedEnd));
    }
    if b[q] != 101 {
        return Err(malformed(q, DecodeErrorKind::UnexpectedByte));
    }
    let v: i64;
    if neg {
        if n > 0x8000_0000_0000_0000u64 {
            return Err(malformed(pos, DecodeErrorKind::Overflow));
        }
        v = (-(n as i128)) as i64;
        assert(b@.subrange(pos as int, q + 1) =~= seq![105u8] + (seq![45u8] + b@.subrange(
            p as int,
            q as int,
        )) + seq![101u8]);
    } else {
        if n > 0x7fff_ffff_ffff_ffffu64 {
            return Err(malformed(pos, DecodeErrorKind::Overflow));
        }
        v = n as i64;
        assert(b@.subrange(pos as int, q + 1) =~= seq![105u8] + b@.subrange(p as int, q as int)
            + seq![101u8]);
    }
    Ok((Value::Int(v), q + 1))
}

/// `a` comes before `b` in byte order.
pub fn bytes_lt(a: &[u8], b: &[u8]) -> (r: bool)
    ensures
        r == key_lt(a@, b@),
{
    let mut i: usize = 0;
    assert(a@.skip(0) =~= a@);
    assert(b@.skip(0) =~= b@);
    loop
        invariant
            i <= a@.len(),
            i <= b@.len(),
            key_lt(a@, b@) == key_lt(a@.skip(i as int), b@.skip(i as int)),
        decreases a@.len() - i,
    {
        if i == a.len() {
            return i < b.len();
        }
        if i == b.len() {
            return false;
        }
        if a[i] != b[i] {
            assert(a@.skip(i as int)[0] == a@[i as int]);
            assert(b@.skip(i as int)[0] == b@[i as int]);
            return a[i] < b[i];
        }
        assert(a@.skip(i as int).drop_first() =~= a@.skip(i + 1));
        assert(b@.skip(i as int).drop_first() =~= b@.skip(i + 1));
        assert(a@.skip(i as int)[0] == a@[i as int]);
        assert(b@.skip(i as int)[0] == b@[i as int]);
        i = i + 1;
    }
}

/// Reads one value at `pos`; on success also gives where it ends.
#[verifier::rlimit(60)]
fn decode_at(b: &[u8], pos: usize) -> (r: Result<(Value, usize), DecodeError>)
    requires
        pos <= b@.len(),
    ensures
        r matches Ok((v, end)) ==> pos < end <= b@.len() && wf(v) && encoding(v) == b@.subrange(
            pos as int,
            end as int,
        ),
        r matches Ok((v, end)) ==> scan(b@, pos as int) == Ok::<int, DecodeError>(end as int),
        r matches Err(e) ==> scan(b@, pos as int) == Err::<int, DecodeError>(e),
    decreases b@.len() - pos,
{
    let len = b.len();
    if pos >= len {
        return Err(malformed(pos, DecodeErrorKind::UnexpectedEnd));
    }
    let c = b[pos];
    if c == 105 {
        decode_int_at(b, pos)
    } else if is_digit(c) {
        match decode_bytes_at(b, pos) {
            Ok((s, end)) => Ok((Value::Bytes(s), end)),
            Err(e) => Err(e),
        }
    } else if c == 108 {
        let mut items: Vec<Value> = Vec::new();
        let mut p: usize = pos + 1;
        assert(b@.subrange(pos as int, p as int) =~= seq![108u8]);
        loop
            invariant
                pos < p <= len,
                len == b@.len(),
                b@.subrange(pos as int, p as int) == seq![108u8] + items_encoding(
                    items,
                    items.len() as nat,
                ),
                items_wf(items, items.len() as nat),
                scan(b@, pos as int) == scan_list(b@, p as int),
            decreases len - p,
        {
            if p >= len {
                return Err(malformed(p, DecodeErrorKind::UnexpectedEnd));
            }
            if b[p] == 101 {
                let v = Value::List(items);
                assert(b@.subrange(pos as int, p + 1) =~= b@.subrange(pos as int, p as int).push(
                    101u8,
                ));
                return Ok((v, p + 1));
            }
            let (item, q) = match decode_at(b, p) {
                Ok(x) => x,
                Err(e) => {
                    return Err(e);
                },
            };
            let ghost before = items;
            items.push(item);
            proof {
                lemma_items_encoding_prefix(before, items, before.len() as nat);
                assert(b@.subrange(pos as int, q as int) =~= b@.subrange(pos as int, p as int)
                    + b@.subrange(p as int, q as int));
            }
            p = q;
        }
    } else if c == 100 {
        let mut es: Vec<(Vec<u8>, Value)> = Vec::new();
        let mut p: usize = pos + 1;
        assert(b@.subrange(pos as int, p as int) =~= seq![100u8]);
        loop
            invariant
                pos < p <= len,
                len == b@.len(),
                b@.subrange(pos as int, p as int) == seq![100u8] + entries_encoding(
                    es,
                    es.len() as nat,
                ),
                keys_ascending(es@),
                entries_wf(es, es.len() as nat),
                scan(b@, pos as int) == scan_dict(
                    b@,
                    p as int,
                    if es@.len() == 0 {
                        None
                    } else {
                        Some(es@.last().0@)
                    },
                ),
            decreases len - p,
        {
            if p >= len {
                return Err(malformed(p, DecodeErrorKind::UnexpectedEnd));
            }
            if b[p] == 101 {
                let v = Value::Dict(es);
                assert(b@.subrange(pos as int, p + 1) =~= b@.subrange(pos as int, p as int).push(
                    101u8,
                ));
                return Ok((v, p + 1));
            }
            if !is_digit(b[p]) {
                return Err(malformed(p, DecodeErrorKind::KeyNotString));
            }
            let (key, q) = match decode_bytes_at(b, p) {
                Ok(x) => x,
                Err(e) => {
                    return Err(e);
                },
            };
            let n = es.len();
            if n > 0 && !bytes_lt(es[n - 1].0.as_slice(), key.as_slice()) {
                return Err(malformed(p, DecodeErrorKind::UnsortedKeys));
            }
            proof {
                assert(bytes_text(key@).len() == q - p);
                let ks = q - key@.len();
                assert(0 <= ks <= q);
                assert(b@.subrange(ks, q as int) == key@);
                if n > 0 {
                    assert(es@.last() == es@[n - 1]);
                    assert(key_lt(es@.last().0@, b@.subrange(ks, q as int)));
                }
            }
            let (val, t) = match decode_at(b, q) {
                Ok(x) => x,
                Err(e) => {
                    return Err(e);
                },
            };
            let ghost before = es;
            es.push((key, val));
            assert(es@.last().0@ == key@);
            proof {
                lemma_entries_encoding_prefix(before, es, before.len() as nat);
                assert(b@.subrange(pos as int, t as int) =~= b@.subrange(pos as int, p as int)
                    + b@.subrange(p as int, q as int) + b@.subrange(q as int, t as int));
                assert forall|i: int| 0 < i < es@.len() implies key_lt(
                    #[trigger] es@[i - 1].0@,
                    es@[i].0@,
                ) by {
                    if i < n {
                        assert(before@[i - 1] == es@[i - 1]);
                    }
                }
            }
            p = t;
        }
    } else {
        Err(malformed(pos, DecodeErrorKind::UnexpectedByte))
    }
}

/// Reads the one value that `b` holds, in canonical form: every length and
/// integer without a leading zero, no `-0`, dictionary keys that are byte
/// strings in strictly ascending order, and nothing after the value. What it
/// reads encodes back to exactly `b`.
pub fn decode(b: &[u8]) -> (r: Result<Value, DecodeError>)
    ensures
        decode_error(b@) matches Some(e) ==> r == Err::<Value, DecodeError>(e),
        decode_error(b@) is None ==> r is Ok,
        (exists|v: Value| wf(v) && #[trigger] encoding(v) == b@) ==> r is Ok,
        r matches Ok(v) ==> wf(v) && encoding(v) == b@,
{
    proof {
        if exists|v: Value| wf(v) && #[trigger] encoding(v) == b@ {
            let v = choose|v: Value| wf(v) && #[trigger] encoding(v) == b@;
            assert(b@.len() <= 0xffff_ffff_ffff_ffff) by {
                assert(b.len() as int == b@.len());
            }
            lemma_encoding_decodes(v);
        }
    }
    match decode_at(b, 0) {
        Ok((v, end)) => {
            if end != b.len() {
                return Err(malformed(end, DecodeErrorKind::TrailingBytes));
            }
            assert(b@.subrange(0, end as int) =~= b@);
            Ok(v)
        },
        Err(e) => Err(e),
    }
}

proof fn lemma_key_lt_total(a: Seq<u8>, b: Seq<u8>)
    requires
        a != b,
    ensures
        key_lt(a, b) || key_lt(b, a),
    decreases a.len(),
{
    if a.len() == 0 && b.len() == 0 {
        assert(a =~= b);
    }
    if a.len() > 0 && b.len() > 0 && a[0] == b[0] {
        if a.drop_first() == b.drop_first() {
            assert(a =~= seq![a[0]] + a.drop_first());
            assert(b =~= seq![b[0]] + b.drop_first());
        }
        lemma_key_lt_total(a.drop_first(), b.drop_first());
    }
}

proof fn lemma_key_lt_irreflexive(a: Seq<u8>)
    ensures
        !key_lt(a, a),
    decreases a.len(),
{
    if a.len() > 0 {
        lemma_key_lt_irreflexive(a.drop_first());
    }
}

proof fn lemma_key_lt_trans(a: Seq<u8>, b: Seq<u8>, c: Seq<u8>)
    requires
        key_lt(a, b),
        key_lt(b, c),
    ensures
        key_lt(a, c),
    decreases a.len(),
{
    if a.len() > 0 && a[0] == b[0] && b[0] == c[0] {
        lemma_key_lt_trans(a.drop_first(), b.drop_first(), c.drop_first());
    }
}

/// Keys that ascend from one entry to the next ascend across the whole
/// dictionary: a dictionary holds its keys in strictly ascending byte order,
/// so its encoding lists them in that order.
pub proof fn lemma_dict_keys_sorted(es: Seq<(Vec<u8>, Value)>)
    requires
        keys_ascending(es),
    ensures
        forall|i: int, j: int| 0 <= i < j < es.len() ==> key_lt(#[trigger] es[i].0@, #[trigger] es[j].0@),
{
    assert forall|i: int, j: int| 0 <= i < j < es.len() implies key_lt(
        #[trigger] es[i].0@,
        #[trigger] es[j].0@,
    ) by {
        lemma_keys_sorted_from(es, i, j);
    }
}

proof fn lemma_keys_sorted_from(es: Seq<(Vec<u8>, Value)>, i: int, j: int)
    requires
        keys_ascending(es),
        0 <= i < j < es.len(),
    ensures
        key_lt(es[i].0@, es[j].0@),
    decreases j - i,
{
    let k = j;
    assert(key_lt(es[k - 1].0@, es[k].0@));
    if j > i + 1 {
        lemma_keys_sorted_from(es, i, j - 1);
        lemma_key_lt_trans(es[i].0@, es[j - 1].0@, es[j].0@);
    }
}

proof fn lemma_entries_wf_all(es: Vec<(Vec<u8>, Value)>, n: nat)
    requires
        n <= es.len(),
    ensures
        entries_wf(es, n) <==> forall|i: int| 0 <= i < n ==> wf(#[trigger] es@[i].1),
    decreases n,
{
    if n > 0 {
        lemma_entries_wf_all(es, (n - 1) as nat);
    }
}

/// A dictionary whose keys ascend and whose values are well formed is itself
/// well formed.
pub proof fn lemma_dict_wf(es: Vec<(Vec<u8>, Value)>)
    requires
        keys_ascending(es@),
        forall|i: int| 0 <= i < es.len() ==> wf(#[trigger] es@[i].1),
    ensures
        wf(Value::Dict(es)),
{
    lemma_entries_wf_all(es, es.len() as nat);
}

/// Stores `value` under `key`, where the keys' byte order puts it: an entry
/// with an equal key has its value replaced, and otherwise the new entry goes
/// after every smaller key and before every larger one. Whatever order keys
/// are inserted in, they stay strictly ascending.
pub fn dict_insert(es: &mut Vec<(Vec<u8>, Value)>, key: Vec<u8>, value: Value)
    requires
        keys_ascending(old(es)@),
    ensures
        keys_ascending(final(es)@),
        exists|p: int|
            0 <= p <= old(es)@.len() && (forall|i: int|
                0 <= i < p ==> key_lt(#[trigger] old(es)@[i].0@, key@)) && ((p < old(es)@.len()
                && old(es)@[p].0@ == key@ && final(es)@ == old(es)@.update(p, (key, value))) || ((p
                == old(es)@.len() || key_lt(key@, old(es)@[p].0@)) && final(es)@ == old(
                es,
            )@.insert(p, (key, value)))),
        (forall|i: int| 0 <= i < old(es)@.len() ==> wf(#[trigger] old(es)@[i].1)) && wf(value)
            ==> forall|i: int| 0 <= i < final(es)@.len() ==> wf(#[trigger] final(es)@[i].1),
{
    let ghost old_es = es@;
    let mut p: usize = 0;
    while p < es.len() && bytes_lt(es[p].0.as_slice(), key.as_slice())
        invariant
            p <= es@.len(),
            es@ == old_es,
            keys_ascending(es@),
            forall|i: int| 0 <= i < p ==> key_lt(#[trigger] es@[i].0@, key@),
        decreases es@.len() - p,
    {
        p = p + 1;
    }
    if p < es.len() && bytes_lt(key.as_slice(), es[p].0.as_slice()) == false {
        proof {
            if es@[p as int].0@ != key@ {
                lemma_key_lt_total(es@[p as int].0@, key@);
            }
        }
        es.remove(p);
        es.insert(p, (key, value));
        assert(es@ =~= old_es.update(p as int, (key, value)));
        assert forall|i: int| 0 < i < es@.len() implies key_lt(
            #[trigger] es@[i - 1].0@,
            es@[i].0@,
        ) by {
            assert(es@[i - 1].0@ == old_es[i - 1].0@);
            assert(es@[i].0@ == old_es[i].0@);
            assert(key_lt(old_es[i - 1].0@, old_es[i].0@));
        }
    } else {
        if p < es.len() {
            proof {
                if es@[p as int].0@ == key@ {
                    lemma_key_lt_irreflexive(key@);
                }
            }
        }
        let ghost at_end = p == es.len();
        es.insert(p, (key, value));
        assert(es@ =~= old_es.insert(p as int, (key, value)));
        assert forall|i: int| 0 < i < es@.len() implies key_lt(
            #[trigger] es@[i - 1].0@,
            es@[i].0@,
        ) by {
            if i < p {
                assert(key_lt(old_es[i - 1].0@, old_es[i].0@));
            } else if i == p {
                assert(key_lt(old_es[i - 1].0@, key@));
            } else if i == p + 1 {
                assert(es@[i].0@ == old_es[p as int].0@);
            } else {
                let j = i - 1;
                assert(key_lt(old_es[j - 1].0@, old_es[j].0@));
            }
        }
    }
}

proof fn lemma_decimal_digits(n: nat)
    ensures
        decimal(n).len() >= 1,
        forall|i: int| 0 <= i < decimal(n).len() ==> 48 <= #[trigger] decimal(n)[i] <= 57,
        n >= 1 ==> decimal(n)[0] != 48,
        n < 10 ==> decimal(n)[0] == 48 + n,
    decreases n,
{
    if n >= 10 {
        lemma_decimal_digits(n / 10);
        assert(n % 10 < 10);
        assert forall|i: int| 0 <= i < decimal(n).len() implies 48 <= #[trigger] decimal(n)[i] <= 57 by {
            if i < decimal(n).len() - 1 {
                assert(decimal(n)[i] == decimal(n / 10)[i]);
            }
        }
        assert(decimal(n)[0] == decimal(n / 10)[0]);
    }
}

#[verifier::rlimit(80)]
proof fn lemma_scan_digits(b: Seq<u8>, pos: int, n: nat)
    requires
        1 <= n <= 0xffff_ffff_ffff_ffff,
        0 <= pos,
        pos + decimal(n).len() <= b.len(),
        b.subrange(pos, pos + decimal(n).len()) == decimal(n),
    ensures
        scan_digits(b, pos, pos + 1, (b[pos] - 48) as nat) == scan_digits(
            b,
            pos,
            pos + decimal(n).len(),
            n,
        ),
    decreases n,
{
    lemma_decimal_digits(n);
    assert(b[pos] == b.subrange(pos, pos + decimal(n).len())[0]);
    if n < 10 {
    } else {
        let m = n / 10;
        let d = n % 10;
        let k = decimal(m).len() as int;
        lemma_decimal_digits(m);
        assert(m >= 1);
        assert(b.subrange(pos, pos + k) =~= decimal(m)) by {
            assert forall|i: int| 0 <= i < k implies b.subrange(pos, pos + k)[i] == decimal(m)[i] by {
                assert(b.subrange(pos, pos + decimal(n).len())[i] == decimal(n)[i]);
            }
        }
        lemma_scan_digits(b, pos, m);
        assert(b[pos + k] == b.subrange(pos, pos + decimal(n).len())[k]);
        assert(m * 10 + d == n && m <= (0xffff_ffff_ffff_ffffu64 - d) / 10) by (nonlinear_arith)
            requires
                m == n / 10,
                d == n % 10,
                n <= 0xffff_ffff_ffff_ffff,
        ;
        assert(digit_at(b, pos + k));
        assert((b[pos + k] - 48) as nat == d);
    }
}

proof fn lemma_scan_decimal(b: Seq<u8>, pos: int, n: nat)
    requires
        n <= 0xffff_ffff_ffff_ffff,
        0 <= pos,
        pos + decimal(n).len() <= b.len(),
        b.subrange(pos, pos + decimal(n).len()) == decimal(n),
        !digit_at(b, pos + decimal(n).len()),
    ensures
        scan_decimal(b, pos) == Ok::<(u64, int), DecodeError>((n as u64, pos + decimal(n).len())),
{
    lemma_decimal_digits(n);
    assert(b[pos] == b.subrange(pos, pos + decimal(n).len())[0]);
    if n >= 1 {
        lemma_scan_digits(b, pos, n);
    }
}

proof fn lemma_encoding_head(v: Value)
    ensures
        encoding(v).len() >= 1,
        encoding(v)[0] == 105 || encoding(v)[0] == 108 || encoding(v)[0] == 100 || 48
            <= encoding(v)[0] <= 57,
{
    match v {
        Value::Bytes(s) => {
            lemma_decimal_digits(s@.len());
            assert(encoding(v)[0] == decimal(s@.len())[0]);
        },
        _ => {},
    }
}

proof fn lemma_items_prefix(items: Vec<Value>, k: nat, n: nat)
    requires
        k <= n <= items.len(),
    ensures
        items_encoding(items, k).len() <= items_encoding(items, n).len(),
        items_encoding(items, n).subrange(0, items_encoding(items, k).len() as int)
            == items_encoding(items, k),
    decreases n - k,
{
    if k < n {
        lemma_items_prefix(items, k, (n - 1) as nat);
        let a = items_encoding(items, k);
        let m = items_encoding(items, (n - 1) as nat);
        assert(items_encoding(items, n).subrange(0, a.len() as int) =~= m.subrange(0, a.len() as int));
    } else {
        assert(items_encoding(items, n).subrange(0, items_encoding(items, k).len() as int)
            =~= items_encoding(items, k));
    }
}

proof fn lemma_entries_prefix(es: Vec<(Vec<u8>, Value)>, k: nat, n: nat)
    requires
        k <= n <= es.len(),
    ensures
        entries_encoding(es, k).len() <= entries_encoding(es, n).len(),
        entries_encoding(es, n).subrange(0, entries_encoding(es, k).len() as int)
            == entries_encoding(es, k),
    decreases n - k,
{
    if k < n {
        lemma_entries_prefix(es, k, (n - 1) as nat);
        let a = entries_encoding(es, k);
        let m = entries_encoding(es, (n - 1) as nat);
        assert(entries_encoding(es, n).subrange(0, a.len() as int) =~= m.subrange(0, a.len() as int));
    } else {
        assert(entries_encoding(es, n).subrange(0, entries_encoding(es, k).len() as int)
            =~= entries_encoding(es, k));
    }
}

proof fn lemma_items_wf_all(items: Vec<Value>, n: nat)
    requires
        n <= items.len(),
    ensures
        items_wf(items, n) <==> forall|i: int| 0 <= i < n ==> wf(#[trigger] items@[i]),
    decreases n,
{
    if n > 0 {
        lemma_items_wf_all(items, (n - 1) as nat);
    }
}

/// `x` stands in `b` from `at` on.
pub open spec fn stands_at(b: Seq<u8>, at: int, x: Seq<u8>) -> bool {
    0 <= at && at + x.len() <= b.len() && b.subrange(at, at + x.len()) == x
}

proof fn lemma_stands_within(b: Seq<u8>, at: int, x: Seq<u8>, off: int, y: Seq<u8>)
    requires
        stands_at(b, at, x),
        0 <= off,
        off + y.len() <= x.len(),
        x.subrange(off, off + y.len()) == y,
    ensures
        stands_at(b, at + off, y),
{
    assert(b.subrange(at + off, at + off + y.len()) =~= y) by {
        assert forall|j: int| 0 <= j < y.len() implies b.subrange(at + off, at + off + y.len())[j]
            == y[j] by {
            assert(b.subrange(at, at + x.len())[off + j] == x[off + j]);
            assert(x.subrange(off, off + y.len())[j] == y[j]);
        }
    }
}

#[verifier::rlimit(80)]
proof fn lemma_scan_value(v: Value, b: Seq<u8>, pos: int)
    requires
        wf(v),
        stands_at(b, pos, encoding(v)),
        b.len() <= 0xffff_ffff_ffff_ffff,
    ensures
        scan(b, pos) == Ok::<int, DecodeError>(pos + encoding(v).len()),
    decreases v, 1nat, 0int,
{
    let e = encoding(v);
    lemma_encoding_head(v);
    assert(b[pos] == e[0]) by {
        assert(b.subrange(pos, pos + e.len())[0] == e[0]);
    }
    match v {
        Value::Bytes(s) => {
            let n = s@.len();
            let d = decimal(n);
            lemma_decimal_digits(n);
            assert(e.subrange(0, d.len() as int) =~= d);
            lemma_stands_within(b, pos, e, 0, d);
            assert(b[pos + d.len()] == 58) by {
                assert(b.subrange(pos, pos + e.len())[d.len() as int] == e[d.len() as int]);
            }
            lemma_scan_decimal(b, pos, n);
        },
        Value::Int(i) => {
            let neg = i < 0;
            let m: nat = if neg { (-i) as nat } else { i as nat };
            let d = decimal(m);
            let p = if neg { pos + 2 } else { pos + 1 };
            lemma_decimal_digits(m);
            if neg {
                assert(b[pos + 1] == 45) by {
                    assert(b.subrange(pos, pos + e.len())[1] == e[1]);
                }
                assert(e.subrange(2, 2 + d.len() as int) =~= d);
                lemma_stands_within(b, pos, e, 2, d);
            } else {
                assert(b[pos + 1] == d[0]) by {
                    assert(b.subrange(pos, pos + e.len())[1] == e[1]);
                }
                assert(e.subrange(1, 1 + d.len() as int) =~= d);
                lemma_stands_within(b, pos, e, 1, d);
            }
            let q = p + d.len();
            assert(b[q] == 101) by {
                assert(b.subrange(pos, pos + e.len())[q - pos] == e[q - pos]);
            }
            lemma_scan_decimal(b, p, m);
        },
        Value::List(items) => {
            lemma_scan_list(v, b, pos, 0);
        },
        Value::Dict(es) => {
            lemma_scan_dict(v, b, pos, 0);
        },
    }
}

#[verifier::rlimit(80)]
proof fn lemma_scan_list(v: Value, b: Seq<u8>, pos: int, k: nat)
    requires
        v is List,
        wf(v),
        stands_at(b, pos, encoding(v)),
        b.len() <= 0xffff_ffff_ffff_ffff,
        k <= v->List_0.len(),
    ensures
        scan_list(b, pos + 1 + items_encoding(v->List_0, k).len()) == Ok::<int, DecodeError>(
            pos + encoding(v).len(),
        ),
    decreases v, 0nat, v->List_0.len() - k,
{
    let items = v->List_0;
    let n = items.len() as nat;
    let e = encoding(v);
    let whole = items_encoding(items, n);
    let here = items_encoding(items, k);
    let p = pos + 1 + here.len() as int;
    lemma_items_prefix(items, k, n);
    if k == n {
        assert(b[p] == 101) by {
            assert(b.subrange(pos, pos + e.len())[p - pos] == e[p - pos]);
        }
    } else {
        let item = items@[k as int];
        let next = items_encoding(items, k + 1);
        lemma_items_prefix(items, k + 1, n);
        lemma_items_wf_all(items, n);
        assert(wf(item));
        assert(next == here + encoding(item));
        assert(e.subrange(1 + here.len() as int, 1 + here.len() as int + encoding(item).len()) =~= encoding(item)) by {
            assert forall|j: int| 0 <= j < encoding(item).len() implies e.subrange(
                1 + here.len() as int,
                1 + here.len() as int + encoding(item).len(),
            )[j] == encoding(item)[j] by {
                assert(e[1 + here.len() as int + j] == whole[here.len() + j]);
                assert(whole.subrange(0, next.len() as int)[here.len() + j] == next[here.len() + j]);
            }
        }
        lemma_stands_within(b, pos, e, 1 + here.len() as int, encoding(item));
        vstd::std_specs::vec::axiom_vec_index_decreases(items, k as int);
        assert(decreases_to!(v => v->List_0));
        lemma_scan_value(item, b, p);
        lemma_encoding_head(item);
        assert(b[p] == encoding(item)[0]) by {
            assert(b.subrange(p, p + encoding(item).len())[0] == encoding(item)[0]);
        }
        lemma_scan_list(v, b, pos, k + 1);
    }
}

#[verifier::rlimit(80)]
proof fn lemma_scan_dict(v: Value, b: Seq<u8>, pos: int, k: nat)
    requires
        v is Dict,
        wf(v),
        stands_at(b, pos, encoding(v)),
        b.len() <= 0xffff_ffff_ffff_ffff,
        k <= v->Dict_0.len(),
    ensures
        scan_dict(
            b,
            pos + 1 + entries_encoding(v->Dict_0, k).len(),
            if k == 0 {
                None
            } else {
                Some(v->Dict_0@[k - 1].0@)
            },
        ) == Ok::<int, DecodeError>(pos + encoding(v).len()),
    decreases v, 0nat, v->Dict_0.len() - k,
{
    let es = v->Dict_0;
    let n = es.len() as nat;
    let e = encoding(v);
    let whole = entries_encoding(es, n);
    let here = entries_encoding(es, k);
    let p = pos + 1 + here.len() as int;
    lemma_entries_prefix(es, k, n);
    if k == n {
        assert(b[p] == 101) by {
            assert(b.subrange(pos, pos + e.len())[p - pos] == e[p - pos]);
        }
    } else {
        let key = es@[k as int].0@;
        let val = es@[k as int].1;
        let kt = bytes_text(key);
        let x = kt + encoding(val);
        let next = entries_encoding(es, k + 1);
        lemma_entries_prefix(es, k + 1, n);
        lemma_entries_wf_all(es, n);
        assert(wf(val));
        assert(next == here + kt + encoding(val));
        assert(e.subrange(1 + here.len() as int, 1 + here.len() as int + x.len()) =~= x) by {
            assert forall|j: int| 0 <= j < x.len() implies e.subrange(
                1 + here.len() as int,
                1 + here.len() as int + x.len(),
            )[j] == x[j] by {
                assert(e[1 + here.len() as int + j] == whole[here.len() + j]);
                assert(whole.subrange(0, next.len() as int)[here.len() + j] == next[here.len() + j]);
            }
        }
        lemma_stands_within(b, pos, e, 1 + here.len() as int, x);
        let dk = decimal(key.len());
        lemma_decimal_digits(key.len());
        assert(x.subrange(0, dk.len() as int) =~= dk);
        lemma_stands_within(b, p, x, 0, dk);
        assert(b[p + dk.len()] == 58) by {
            assert(b.subrange(p, p + x.len())[dk.len() as int] == x[dk.len() as int]);
        }
        assert(b[p] == dk[0]) by {
            assert(b.subrange(p, p + x.len())[0] == x[0]);
        }
        lemma_scan_decimal(b, p, key.len());
        let ks = p + dk.len() + 1;
        let q = ks + key.len();
        assert(x.subrange(dk.len() as int + 1, dk.len() as int + 1 + key.len() as int) =~= key);
        lemma_stands_within(b, p, x, dk.len() as int + 1, key);
        assert(x.subrange(kt.len() as int, kt.len() as int + encoding(val).len() as int) =~= encoding(val));
        lemma_stands_within(b, p, x, kt.len() as int, encoding(val));
        if k > 0 {
            assert(key_lt(es@[k - 1].0@, key)) by {
                let kk = k as int;
                assert(key_lt(es@[kk - 1].0@, es@[kk].0@));
            }
        }
        vstd::std_specs::vec::axiom_vec_index_decreases(es, k as int);
        assert(decreases_to!(v => v->Dict_0));
        assert(decreases_to!(es@[k as int] => es@[k as int].1));
        lemma_scan_value(val, b, q);
        lemma_scan_dict(v, b, pos, k + 1);
    }
}

/// Every well-formed value decodes: the bytes that encode it break no rule.
pub proof fn lemma_encoding_decodes(v: Value)
    requires
        wf(v),
        encoding(v).len() <= 0xffff_ffff_ffff_ffff,
    ensures
        decode_error(encoding(v)) is None,
{
    let b = encoding(v);
    assert(b.subrange(0, b.len() as int) =~= b);
    lemma_scan_value(v, b, 0);
}

/// Where entry `k` of the dictionary `v` starts in its encoding.
pub open spec fn entry_offset(v: Value, k: nat) -> int {
    1 + entries_encoding(v->Dict_0, k).len() as int
}

#[verifier::rlimit(80)]
proof fn lemma_entry_shape(v: Value, b: Seq<u8>, k: nat)
    requires
        v is Dict,
        wf(v),
        encoding(v) == b,
        b.len() <= 0xffff_ffff_ffff_ffff,
        k <= v->Dict_0.len(),
    ensures
        k == v->Dict_0.len() ==> entry_offset(v, k) < b.len() && b[entry_offset(v, k)] == 101,
        k < v->Dict_0.len() ==> {
            let p = entry_offset(v, k);
            let key = v->Dict_0@[k as int].0@;
            let kt = bytes_text(key);
            let val = v->Dict_0@[k as int].1;
            &&& digit_at(b, p)
            &&& scan_bytes(b, p) == Ok::<(int, int), DecodeError>((p + kt.len() - key.len(), p + kt.len()))
            &&& b.subrange(p + kt.len() - key.len(), p + kt.len()) == key
            &&& scan(b, p + kt.len()) == Ok::<int, DecodeError>(p + kt.len() + encoding(val).len())
            &&& entry_offset(v, k + 1) == p + kt.len() + encoding(val).len()
        },
{
    let es = v->Dict_0;
    let n = es.len() as nat;
    let e = encoding(v);
    let whole = entries_encoding(es, n);
    let here = entries_encoding(es, k);
    let p = 1 + here.len() as int;
    assert(b.subrange(0, b.len() as int) =~= b);
    lemma_entries_prefix(es, k, n);
    if k == n {
    } else {
        let key = es@[k as int].0@;
        let val = es@[k as int].1;
        let kt = bytes_text(key);
        let x = kt + encoding(val);
        let next = entries_encoding(es, k + 1);
        lemma_entries_prefix(es, k + 1, n);
        lemma_entries_wf_all(es, n);
        assert(next == here + kt + encoding(val));
        assert(e.subrange(p, p + x.len()) =~= x) by {
            assert forall|j: int| 0 <= j < x.len() implies e.subrange(p, p + x.len())[j] == x[j] by {
                assert(e[p + j] == whole[here.len() + j]);
                assert(whole.subrange(0, next.len() as int)[here.len() + j] == next[here.len() + j]);
            }
        }
        lemma_stands_within(b, 0, e, p, x);
        let dk = decimal(key.len());
        lemma_decimal_digits(key.len());
        assert(x.subrange(0, dk.len() as int) =~= dk);
        lemma_stands_within(b, p, x, 0, dk);
        assert(b[p + dk.len()] == 58) by {
            assert(b.subrange(p, p + x.len())[dk.len() as int] == x[dk.len() as int]);
        }
        assert(b[p] == dk[0]) by {
            assert(b.subrange(p, p + x.len())[0] == x[0]);
        }
        lemma_scan_decimal(b, p, key.len());
        assert(x.subrange(dk.len() as int + 1, dk.len() as int + 1 + key.len() as int) =~= key);
        lemma_stands_within(b, p, x, dk.len() as int + 1, key);
        assert(x.subrange(kt.len() as int, kt.len() as int + encoding(val).len() as int) =~= encoding(val));
        lemma_stands_within(b, p, x, kt.len() as int, encoding(val));
        lemma_scan_value(val, b, p + kt.len());
    }
}

/// Two well-formed dictionaries with the same encoding hold, entry by entry,
/// the same keys and values with the same encodings.
pub proof fn lemma_dict_encoding_determines_entries(v1: Value, v2: Value)
    requires
        v1 is Dict,
        v2 is Dict,
        wf(v1),
        wf(v2),
        encoding(v1) == encoding(v2),
        encoding(v1).len() <= 0xffff_ffff_ffff_ffff,
    ensures
        v1->Dict_0.len() == v2->Dict_0.len(),
        forall|k: int|
            0 <= k < v1->Dict_0.len() ==> #[trigger] v1->Dict_0@[k].0@ == v2->Dict_0@[k].0@
                && encoding(v1->Dict_0@[k].1) == encoding(v2->Dict_0@[k].1),
{
    assert(entry_offset(v1, 0) == entry_offset(v2, 0));
    lemma_dict_agree_from(v1, v2, 0);
    assert forall|k: int| 0 <= k < v1->Dict_0.len() implies #[trigger] v1->Dict_0@[k].0@
        == v2->Dict_0@[k].0@ && encoding(v1->Dict_0@[k].1) == encoding(v2->Dict_0@[k].1) by {
        assert(0 <= k < v1->Dict_0.len());
    }
}

proof fn lemma_dict_agree_from(v1: Value, v2: Value, k: nat)
    requires
        v1 is Dict,
        v2 is Dict,
        wf(v1),
        wf(v2),
        encoding(v1) == encoding(v2),
        encoding(v1).len() <= 0xffff_ffff_ffff_ffff,
        k <= v1->Dict_0.len(),
        k <= v2->Dict_0.len(),
        entry_offset(v1, k) == entry_offset(v2, k),
    ensures
        v1->Dict_0.len() == v2->Dict_0.len(),
        forall|j: int|
            k <= j < v1->Dict_0.len() ==> #[trigger] v1->Dict_0@[j].0@ == v2->Dict_0@[j].0@
                && encoding(v1->Dict_0@[j].1) == encoding(v2->Dict_0@[j].1),
    decreases v1->Dict_0.len() - k,
{
    let b = encoding(v1);
    lemma_entry_shape(v1, b, k);
    lemma_entry_shape(v2, b, k);
    let n1 = v1->Dict_0.len();
    let n2 = v2->Dict_0.len();
    if k < n1 && k < n2 {
        let p = entry_offset(v1, k);
        let key1 = v1->Dict_0@[k as int].0@;
        let key2 = v2->Dict_0@[k as int].0@;
        let val1 = v1->Dict_0@[k as int].1;
        let val2 = v2->Dict_0@[k as int].1;
        assert(bytes_text(key1).len() == bytes_text(key2).len());
        assert(key1 == key2);
        let q = p + bytes_text(key1).len();
        assert(encoding(val1).len() == encoding(val2).len());
        lemma_entries_prefix(v1->Dict_0, k + 1, n1 as nat);
        assert(b.subrange(q, q + encoding(val1).len()) == encoding(val1)) by {
            lemma_entry_value_stands(v1, b, k);
        }
        assert(b.subrange(q, q + encoding(val2).len()) == encoding(val2)) by {
            lemma_entry_value_stands(v2, b, k);
        }
        lemma_dict_agree_from(v1, v2, k + 1);
    }
}

proof fn lemma_entry_value_stands(v: Value, b: Seq<u8>, k: nat)
    requires
        v is Dict,
        wf(v),
        encoding(v) == b,
        k < v->Dict_0.len(),
    ensures
        stands_at(
            b,
            entry_offset(v, k) + bytes_text(v->Dict_0@[k as int].0@).len(),
            encoding(v->Dict_0@[k as int].1),
        ),
{
    let es = v->Dict_0;
    let n = es.len() as nat;
    let here = entries_encoding(es, k);
    let next = entries_encoding(es, k + 1);
    let whole = entries_encoding(es, n);
    let kt = bytes_text(es@[k as int].0@);
    let y = encoding(es@[k as int].1);
    let q = 1 + here.len() as int + kt.len() as int;
    lemma_entries_prefix(es, k + 1, n);
    assert(next == here + kt + y);
    assert(b.subrange(q, q + y.len()) =~= y) by {
        assert forall|j: int| 0 <= j < y.len() implies b.subrange(q, q + y.len())[j] == y[j] by {
            assert(b[q + j] == whole[here.len() + kt.len() + j]);
            assert(whole.subrange(0, next.len() as int)[here.len() + kt.len() + j] == next[here.len() + kt.len() + j]);
        }
    }
}

} // verus!
