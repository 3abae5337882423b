//! The metainfo model: a torrent's announce URL, its files, and its info-hash.
use vstd::prelude::*;
use vstd::string::{StrSliceExecFns, StringExecFns};
use vstd::utf8::{encode_utf8, valid_utf8};

use crate::bencode::{
    copy_range, decode, decode_error, lemma_dict_encoding_determines_entries, encode, encoding, entries_encoding, entries_wf, wf, DecodeError, Value,
};

verus! {

/// A name for the SHA-1 digest of the bytes `b`.
pub uninterp spec fn sha1_of(b: Seq<u8>) -> Seq<u8>;

/// Relies on `crypto::sha1::Sha1` (`input`, then `result`): the 20-byte SHA-1
/// digest of `b`, which depends on `b` alone. The digest panics once its bit
/// count passes 64 bits, so `b` stays below 2^61 bytes.
#[verifier::external_body]
fn sha1_digest(b: &[u8]) -> (r: [u8; 20])
    requires
        b@.len() < 0x2000_0000_0000_0000,
    ensures
        r@ == sha1_of(b@),
{
    let mut hasher = crypto::sha1::Sha1::new();
    crypto::digest::Digest::input(&mut hasher, b);
    let mut out = [0u8; 20];
    crypto::digest::Digest::result(&mut hasher, &mut out);
    out
}

/// Relies on `std::str::from_utf8`: it accepts exactly the well-formed UTF-8
/// byte sequences, and the text it gives has those bytes.
#[verifier::external_body]
fn utf8_text(b: &[u8]) -> (r: Option<String>)
    ensures
        r is Some <==> valid_utf8(b@),
        r matches Some(s) ==> encode_utf8(s@) == b@,
{
    match std::str::from_utf8(b) {
        Ok(s) => Some(s.to_string()),
        Err(_) => None,
    }
}

/// The value stored under `k` in the entries `es` (the first such entry).
pub open spec fn find(es: Seq<(Vec<u8>, Value)>, k: Seq<u8>) -> Option<Value>
    decreases es.len(),
{
    if es.len() == 0 {
        None
    } else if es[0].0@ == k {
        Some(es[0].1)
    } else {
        find(es.drop_first(), k)
    }
}

fn bytes_eq(a: &[u8], b: &[u8]) -> (r: bool)
    ensures
        r == (a@ == b@),
{
    if a.len() != b.len() {
        return false;
    }
    let mut i: usize = 0;
    while i < a.len()
        invariant
            i <= a@.len(),
            a@.len() == b@.len(),
            a@.subrange(0, i as int) == b@.subrange(0, i as int),
        decreases a@.len() - i,
    {
        if a[i] != b[i] {
            return false;
        }
        i = i + 1;
        assert(a@.subrange(0, i as int) =~= a@.subrange(0, i - 1).push(a@[i - 1]));
        assert(b@.subrange(0, i as int) =~= b@.subrange(0, i - 1).push(b@[i - 1]));
    }
    assert(a@ =~= a@.subrange(0, i as int));
    assert(b@ =~= b@.subrange(0, i as int));
    true
}

/// Looks up the value stored under `k`.
fn lookup<'a>(es: &'a Vec<(Vec<u8>, Value)>, k: &[u8]) -> (r: Option<&'a Value>)
    ensures
        match r {
            Some(x) => find(es@, k@) == Some(*x),
            None => find(es@, k@) is None,
        },
{
    let mut i: usize = 0;
    assert(es@.skip(0) =~= es@);
    while i < es.len()
        invariant
            i <= es@.len(),
            find(es@, k@) == find(es@.skip(i as int), k@),
        decreases es@.len() - i,
    {
        assert(es@.skip(i as int)[0] == es@[i as int]);
        if bytes_eq(es[i].0.as_slice(), k) {
            return Some(&es[i].1);
        }
        assert(es@.skip(i as int).drop_first() =~= es@.skip(i + 1));
        i = i + 1;
    }
    None
}

proof fn lemma_find_wf(es: Vec<(Vec<u8>, Value)>, k: Seq<u8>)
    requires
        entries_wf(es, es.len() as nat),
    ensures
        find(es@, k) matches Some(v) ==> wf(v),
{
    assert forall|i: int| 0 <= i < es.len() implies wf(#[trigger] es@[i].1) by {
        lemma_entries_wf_at(es, es.len() as nat, i);
    }
    lemma_find_in(es@, k);
}

proof fn lemma_entries_wf_at(es: Vec<(Vec<u8>, Value)>, n: nat, i: int)
    requires
        n <= es.len(),
        entries_wf(es, n),
        0 <= i < n,
    ensures
        wf(es@[i].1),
    decreases n,
{
    if i < n - 1 {
        lemma_entries_wf_at(es, (n - 1) as nat, i);
    }
}

proof fn lemma_find_in(es: Seq<(Vec<u8>, Value)>, k: Seq<u8>)
    ensures
        find(es, k) matches Some(v) ==> exists|i: int| 0 <= i < es.len() && es[i].1 == v,
    decreases es.len(),
{
    if es.len() > 0 && es[0].0@ != k {
        lemma_find_in(es.drop_first(), k);
        if find(es, k) is Some {
            let i = choose|i: int| 0 <= i < es.len() - 1 && es.drop_first()[i].1 == find(es, k)->Some_0;
            assert(es[i + 1].1 == find(es, k)->Some_0);
        }
    }
}

/// The key `announce`.
pub open spec fn announce_key() -> Seq<u8> {
    seq![97u8, 110, 110, 111, 117, 110, 99, 101]
}

fn announce_key_bytes() -> (r: Vec<u8>)
    ensures
        r@ == announce_key(),
{
    let r: Vec<u8> = vec![97, 110, 110, 111, 117, 110, 99, 101];
    assert(r@ =~= announce_key());
    r
}

/// The key `info`.
pub open spec fn info_key() -> Seq<u8> {
    seq![105u8, 110, 102, 111]
}

fn info_key_bytes() -> (r: Vec<u8>)
    ensures
        r@ == info_key(),
{
    let r: Vec<u8> = vec![105, 110, 102, 111];
    assert(r@ =~= info_key());
    r
}

/// The key `name`.
pub open spec fn name_key() -> Seq<u8> {
    seq![110u8, 97, 109, 101]
}

fn name_key_bytes() -> (r: Vec<u8>)
    ensures
        r@ == name_key(),
{
    let r: Vec<u8> = vec![110, 97, 109, 101];
    assert(r@ =~= name_key());
    r
}

/// The key `piece length`.
pub open spec fn piece_length_key() -> Seq<u8> {
    seq![112u8, 105, 101, 99, 101, 32, 108, 101, 110, 103, 116, 104]
}

fn piece_length_key_bytes() -> (r: Vec<u8>)
    ensures
        r@ == piece_length_key(),
{
    let r: Vec<u8> = vec![112, 105, 101, 99, 101, 32, 108, 101, 110, 103, 116, 104];
    assert(r@ =~= piece_length_key());
    r
}

/// The key `pieces`.
pub open spec fn pieces_key() -> Seq<u8> {
    seq![112u8, 105, 101, 99, 101, 115]
}

fn pieces_key_bytes() -> (r: Vec<u8>)
    ensures
        r@ == pieces_key(),
{
    let r: Vec<u8> = vec![112, 105, 101, 99, 101, 115];
    assert(r@ =~= pieces_key());
    r
}

/// The key `files`.
pub open spec fn files_key() -> Seq<u8> {
    seq![102u8, 105, 108, 101, 115]
}

fn files_key_bytes() -> (r: Vec<u8>)
    ensures
        r@ == files_key(),
{
    let r: Vec<u8> = vec![102, 105, 108, 101, 115];
    assert(r@ =~= files_key());
    r
}

/// The key `length`.
pub open spec fn length_key() -> Seq<u8> {
    seq![108u8, 101, 110, 103, 116, 104]
}

fn length_key_bytes() -> (r: Vec<u8>)
    ensures
        r@ == length_key(),
{
    let r: Vec<u8> = vec![108, 101, 110, 103, 116, 104];
    assert(r@ =~= length_key());
    r
}

/// The key `path`.
pub open spec fn path_key() -> Seq<u8> {
    seq![112u8, 97, 116, 104]
}

fn path_key_bytes() -> (r: Vec<u8>)
    ensures
        r@ == path_key(),
{
    let r: Vec<u8> = vec![112, 97, 116, 104];
    assert(r@ =~= path_key());
    r
}

/// Which field of the metainfo an error is about.
#[derive(Clone, Copy, Debug, PartialEq, Eq, Structural)]
pub enum Field {
    Root,
    Announce,
    Info,
    Name,
    PieceLength,
    Pieces,
    Files,
    Length,
    Path,
}

/// Why a metainfo file was refused.
#[derive(Clone, Copy, Debug, PartialEq, Eq, Structural)]
pub enum MetainfoError {
    /// The bytes are not canonical bencode.
    Decode(DecodeError),
    /// A required key is absent.
    MissingField(Field),
    /// A key holds the wrong kind of value.
    TypeMismatch(Field),
    /// A text field is not UTF-8.
    InvalidUtf8(Field),
    /// A number out of its range, or pieces not made of 20-byte hashes.
    InvalidValue(Field),
    /// The announce URL does not use the `udp` scheme.
    UnsupportedScheme,
    /// The info dictionary is too large to hash.
    InfoTooLarge,
}

/// One file of a torrent.
#[derive(Clone, Debug)]
pub struct File {
    /// The path's segments joined with `/`.
    pub path: String,
    pub length: usize,
}

/// What a torrent holds.
#[derive(Clone, Debug)]
pub struct Info {
    /// Every file; a single-file torrent has one, named after the torrent.
    pub files: Vec<File>,
    pub piece_length: u64,
    /// The SHA-1 hashes of the pieces, one after another.
    pub pieces: Vec<u8>,
    pub name: String,
}

/// A parsed metainfo file.
#[derive(Clone, Debug)]
pub struct Torrent {
    pub announce: String,
    pub info: Info,
    /// The SHA-1 digest of the bytes of the info dictionary.
    pub info_hash: [u8; 20],
}

/// The sum of the lengths of `fs`.
pub open spec fn sum_lengths(fs: Seq<File>) -> int
    decreases fs.len(),
{
    if fs.len() == 0 {
        0
    } else {
        sum_lengths(fs.drop_last()) + fs.last().length
    }
}

/// The integer stored under `k`, if that is what is stored there.
pub open spec fn int_at(es: Seq<(Vec<u8>, Value)>, k: Seq<u8>) -> Option<int> {
    match find(es, k) {
        Some(Value::Int(i)) => Some(i as int),
        _ => None,
    }
}

/// The byte string stored under `k`, if that is what is stored there.
pub open spec fn bytes_at(es: Seq<(Vec<u8>, Value)>, k: Seq<u8>) -> Option<Seq<u8>> {
    match find(es, k) {
        Some(Value::Bytes(b)) => Some(b@),
        _ => None,
    }
}

/// The list stored under `k`, if that is what is stored there.
pub open spec fn list_at(es: Seq<(Vec<u8>, Value)>, k: Seq<u8>) -> Option<Seq<Value>> {
    match find(es, k) {
        Some(Value::List(items)) => Some(items@),
        _ => None,
    }
}

/// The byte strings of `ps` joined with `/`.
pub open spec fn join_path(ps: Seq<Value>) -> Seq<u8>
    decreases ps.len(),
{
    if ps.len() == 0 {
        Seq::empty()
    } else if ps.len() == 1 {
        ps[0]->Bytes_0@
    } else {
        join_path(ps.drop_last()) + seq![47u8] + ps.last()->Bytes_0@
    }
}

/// `f` is the file that the dictionary `v` describes.
pub open spec fn file_matches(f: File, v: Value) -> bool {
    &&& v is Dict
    &&& int_at(v->Dict_0@, length_key()) == Some(f.length as int)
    &&& list_at(v->Dict_0@, path_key()) is Some
    &&& forall|i: int|
        0 <= i < list_at(v->Dict_0@, path_key())->Some_0.len() ==> (#[trigger] list_at(
            v->Dict_0@,
            path_key(),
        )->Some_0[i]) is Bytes
    &&& encode_utf8(f.path@) == join_path(list_at(v->Dict_0@, path_key())->Some_0)
}

/// `info` is what the info dictionary `v` describes.
pub open spec fn info_matches(info: Info, v: Value) -> bool {
    &&& v is Dict
    &&& bytes_at(v->Dict_0@, name_key()) is Some
    &&& encode_utf8(info.name@) == bytes_at(v->Dict_0@, name_key())->Some_0
    &&& int_at(v->Dict_0@, piece_length_key()) == Some(info.piece_length as int)
    &&& bytes_at(v->Dict_0@, pieces_key()) == Some(info.pieces@)
    &&& if find(v->Dict_0@, files_key()) is Some {
        &&& list_at(v->Dict_0@, files_key()) is Some
        &&& info.files@.len() == list_at(v->Dict_0@, files_key())->Some_0.len()
        &&& forall|i: int|
            0 <= i < info.files@.len() ==> file_matches(
                #[trigger] info.files@[i],
                list_at(v->Dict_0@, files_key())->Some_0[i],
            )
    } else {
        &&& int_at(v->Dict_0@, length_key()) is Some
        &&& info.files@.len() == 1
        &&& info.files@[0].length == int_at(v->Dict_0@, length_key())->Some_0
        &&& info.files@[0].path@ == info.name@
    }
}

/// The first rule that the info dictionary `v` breaks, leaving aside the
/// entries of a `files` list.
pub open spec fn info_error(v: Value) -> Option<MetainfoError> {
    if !(v is Dict) {
        Some(MetainfoError::TypeMismatch(Field::Info))
    } else if find(v->Dict_0@, name_key()) is None {
        Some(MetainfoError::MissingField(Field::Name))
    } else if bytes_at(v->Dict_0@, name_key()) is None {
        Some(MetainfoError::TypeMismatch(Field::Name))
    } else if !valid_utf8(bytes_at(v->Dict_0@, name_key())->Some_0) {
        Some(MetainfoError::InvalidUtf8(Field::Name))
    } else if find(v->Dict_0@, piece_length_key()) is None {
        Some(MetainfoError::MissingField(Field::PieceLength))
    } else if int_at(v->Dict_0@, piece_length_key()) is None {
        Some(MetainfoError::TypeMismatch(Field::PieceLength))
    } else if int_at(v->Dict_0@, piece_length_key())->Some_0 <= 0 {
        Some(MetainfoError::InvalidValue(Field::PieceLength))
    } else if find(v->Dict_0@, pieces_key()) is None {
        Some(MetainfoError::MissingField(Field::Pieces))
    } else if bytes_at(v->Dict_0@, pieces_key()) is None {
        Some(MetainfoError::TypeMismatch(Field::Pieces))
    } else if bytes_at(v->Dict_0@, pieces_key())->Some_0.len() % 20 != 0 {
        Some(MetainfoError::InvalidValue(Field::Pieces))
    } else if find(v->Dict_0@, files_key()) is Some {
        if list_at(v->Dict_0@, files_key()) is None {
            Some(MetainfoError::TypeMismatch(Field::Files))
        } else {
            None
        }
    } else if find(v->Dict_0@, length_key()) is None {
        Some(MetainfoError::MissingField(Field::Length))
    } else if int_at(v->Dict_0@, length_key()) is None {
        Some(MetainfoError::TypeMismatch(Field::Length))
    } else if int_at(v->Dict_0@, length_key())->Some_0 < 0 || int_at(
        v->Dict_0@,
        length_key(),
    )->Some_0 > usize::MAX {
        Some(MetainfoError::InvalidValue(Field::Length))
    } else {
        None
    }
}

/// Every entry of the info dictionary's `files` list, if it has one, is a
/// well-formed file, and their lengths add up to at most `usize::MAX`.
pub open spec fn files_ok(v: Value) -> bool {
    list_at(v->Dict_0@, files_key()) is Some ==> (forall|i: int|
        0 <= i < list_at(v->Dict_0@, files_key())->Some_0.len() ==> file_error(
            #[trigger] list_at(v->Dict_0@, files_key())->Some_0[i],
        ) is None) && listed_size(
        list_at(v->Dict_0@, files_key())->Some_0,
        list_at(v->Dict_0@, files_key())->Some_0.len() as int,
    ) <= usize::MAX
}

/// The first rule that the metainfo dictionary `v` breaks outside its info
/// dictionary, then the first that the info dictionary breaks.
pub open spec fn torrent_error(v: Value) -> Option<MetainfoError> {
    if !(v is Dict) {
        Some(MetainfoError::TypeMismatch(Field::Root))
    } else if find(v->Dict_0@, announce_key()) is None {
        Some(MetainfoError::MissingField(Field::Announce))
    } else if bytes_at(v->Dict_0@, announce_key()) is None {
        Some(MetainfoError::TypeMismatch(Field::Announce))
    } else if !valid_utf8(bytes_at(v->Dict_0@, announce_key())->Some_0) {
        Some(MetainfoError::InvalidUtf8(Field::Announce))
    } else if find(v->Dict_0@, info_key()) is None {
        Some(MetainfoError::MissingField(Field::Info))
    } else {
        info_error(find(v->Dict_0@, info_key())->Some_0)
    }
}

/// The first rule that the file entry `v` breaks.
pub open spec fn file_error(v: Value) -> Option<MetainfoError> {
    if !(v is Dict) {
        Some(MetainfoError::TypeMismatch(Field::Files))
    } else if find(v->Dict_0@, length_key()) is None {
        Some(MetainfoError::MissingField(Field::Length))
    } else if int_at(v->Dict_0@, length_key()) is None {
        Some(MetainfoError::TypeMismatch(Field::Length))
    } else if int_at(v->Dict_0@, length_key())->Some_0 < 0 || int_at(
        v->Dict_0@,
        length_key(),
    )->Some_0 > usize::MAX {
        Some(MetainfoError::InvalidValue(Field::Length))
    } else if find(v->Dict_0@, path_key()) is None {
        Some(MetainfoError::MissingField(Field::Path))
    } else if list_at(v->Dict_0@, path_key()) is None || !(forall|i: int|
        0 <= i < list_at(v->Dict_0@, path_key())->Some_0.len() ==> (#[trigger] list_at(
            v->Dict_0@,
            path_key(),
        )->Some_0[i]) is Bytes) {
        Some(MetainfoError::TypeMismatch(Field::Path))
    } else if !valid_utf8(join_path(list_at(v->Dict_0@, path_key())->Some_0)) {
        Some(MetainfoError::InvalidUtf8(Field::Path))
    } else {
        None
    }
}

/// The sum of the `length` entries of the first `n` file entries.
pub open spec fn listed_size(items: Seq<Value>, n: int) -> int
    decreases n,
{
    if n <= 0 || n > items.len() {
        0
    } else {
        listed_size(items, n - 1) + int_at(items[n - 1]->Dict_0@, length_key())->Some_0
    }
}

impl Info {
    /// A piece is longer than nothing, the pieces are whole 20-byte hashes,
    /// and the total size fits in a `usize`.
    pub open spec fn wf(&self) -> bool {
        &&& self.piece_length > 0
        &&& self.pieces@.len() % 20 == 0
        &&& sum_lengths(self.files@) <= usize::MAX
    }

    /// The sum of the lengths of all files.
    pub fn total_size(&self) -> (r: usize)
        requires
            self.wf(),
        ensures
            r == sum_lengths(self.files@),
    {
        let mut total: usize = 0;
        let mut i: usize = 0;
        while i < self.files.len()
            invariant
                i <= self.files@.len(),
                total == sum_lengths(self.files@.subrange(0, i as int)),
                sum_lengths(self.files@) <= usize::MAX,
            decreases self.files@.len() - i,
        {
            proof {
                assert(self.files@.subrange(0, i + 1).drop_last() =~= self.files@.subrange(
                    0,
                    i as int,
                ));
                lemma_sum_prefix(self.files@, i + 1);
            }
            total = total + self.files[i].length;
            i = i + 1;
        }
        assert(self.files@.subrange(0, i as int) =~= self.files@);
        total
    }

    /// Reads an info dictionary. With a `files` list, each entry gives a
    /// `length` and a `path` list of segments; without one, the torrent is a
    /// single file with the torrent's `name` and the dictionary's `length`.
    pub fn from_value(v: &Value) -> (r: Result<Info, MetainfoError>)
        ensures
            r matches Ok(info) ==> info.wf() && info_matches(info, *v),
            info_error(*v) matches Some(e) ==> r == Err::<Info, MetainfoError>(e),
            info_error(*v) is None ==> (r is Ok <==> files_ok(*v)),
            info_error(*v) is None && list_at(v->Dict_0@, files_key()) is Some ==> (r is Ok <==> (
            forall|i: int|
                0 <= i < list_at(v->Dict_0@, files_key())->Some_0.len() ==> file_error(
                    #[trigger] list_at(v->Dict_0@, files_key())->Some_0[i],
                ) is None) && listed_size(
                list_at(v->Dict_0@, files_key())->Some_0,
                list_at(v->Dict_0@, files_key())->Some_0.len() as int,
            ) <= usize::MAX),
            r matches Err(e) ==> info_error(*v) == Some(e) || (exists|i: int|
                0 <= i < list_at(v->Dict_0@, files_key())->Some_0.len() && file_error(
                    #[trigger] list_at(v->Dict_0@, files_key())->Some_0[i],
                ) == Some(e)) || e == MetainfoError::InvalidValue(Field::Length),
    {
        let es = match v {
            Value::Dict(es) => es,
            _ => {
                return Err(MetainfoError::TypeMismatch(Field::Info));
            },
        };
        let name = match lookup(es, name_key_bytes().as_slice()) {
            None => {
                return Err(MetainfoError::MissingField(Field::Name));
            },
            Some(Value::Bytes(b)) => match utf8_text(b.as_slice()) {
                Some(t) => t,
                None => {
                    return Err(MetainfoError::InvalidUtf8(Field::Name));
                },
            },
            Some(_) => {
                return Err(MetainfoError::TypeMismatch(Field::Name));
            },
        };
        let piece_length: u64 = match lookup(es, piece_length_key_bytes().as_slice()) {
            None => {
                return Err(MetainfoError::MissingField(Field::PieceLength));
            },
            Some(Value::Int(n)) => {
                if *n <= 0 {
                    return Err(MetainfoError::InvalidValue(Field::PieceLength));
                }
                *n as u64
            },
            Some(_) => {
                return Err(MetainfoError::TypeMismatch(Field::PieceLength));
            },
        };
        let pieces = match lookup(es, pieces_key_bytes().as_slice()) {
            None => {
                return Err(MetainfoError::MissingField(Field::Pieces));
            },
            Some(Value::Bytes(b)) => {
                if b.len() % 20 != 0 {
                    return Err(MetainfoError::InvalidValue(Field::Pieces));
                }
                copy_range(b.as_slice(), 0, b.len())
            },
            Some(_) => {
                return Err(MetainfoError::TypeMismatch(Field::Pieces));
            },
        };
        proof {
            assert(pieces@ =~= bytes_at(es@, pieces_key())->Some_0);
        }
        let files = match lookup(es, files_key_bytes().as_slice()) {
            Some(Value::List(items)) => match files_from_list(items) {
                Ok(fs) => fs,
                Err(e) => {
                    return Err(e);
                },
            },
            Some(_) => {
                return Err(MetainfoError::TypeMismatch(Field::Files));
            },
            None => match lookup(es, length_key_bytes().as_slice()) {
                None => {
                    return Err(MetainfoError::MissingField(Field::Length));
                },
                Some(Value::Int(n)) => {
                    if *n < 0 || *n as u64 > usize::MAX as u64 {
                        return Err(MetainfoError::InvalidValue(Field::Length));
                    }
                    let mut fs: Vec<File> = Vec::new();
                    fs.push(File { path: name.clone(), length: *n as usize });
                    proof {
                        reveal_with_fuel(sum_lengths, 2);
                    }
                    fs
                },
                Some(_) => {
                    return Err(MetainfoError::TypeMismatch(Field::Length));
                },
            },
        };
        Ok(Info { files, piece_length, pieces, name })
    }
}

proof fn lemma_sum_prefix(fs: Seq<File>, n: int)
    requires
        0 <= n <= fs.len(),
    ensures
        sum_lengths(fs.subrange(0, n)) <= sum_lengths(fs),
    decreases fs.len(),
{
    if n < fs.len() {
        assert(fs.drop_last().subrange(0, n) =~= fs.subrange(0, n));
        lemma_sum_prefix(fs.drop_last(), n);
    } else {
        assert(fs.subrange(0, n) =~= fs);
    }
}

proof fn lemma_listed_size_grows(items: Seq<Value>, k: int, n: int)
    requires
        0 <= k <= n <= items.len(),
        forall|j: int| 0 <= j < items.len() ==> file_error(#[trigger] items[j]) is None,
    ensures
        listed_size(items, k) <= listed_size(items, n),
    decreases n - k,
{
    if k < n {
        lemma_listed_size_grows(items, k, n - 1);
        assert(file_error(items[n - 1]) is None);
    }
}

/// Joins the byte strings of a path list with `/`.
fn join_segments(ps: &Vec<Value>) -> (r: Option<Vec<u8>>)
    ensures
        r is Some <==> forall|i: int| 0 <= i < ps@.len() ==> (#[trigger] ps@[i]) is Bytes,
        r matches Some(b) ==> b@ == join_path(ps@),
{
    let mut out: Vec<u8> = Vec::new();
    let mut i: usize = 0;
    while i < ps.len()
        invariant
            i <= ps@.len(),
            forall|j: int| 0 <= j < i ==> (#[trigger] ps@[j]) is Bytes,
            out@ == join_path(ps@.subrange(0, i as int)),
        decreases ps@.len() - i,
    {
        match &ps[i] {
            Value::Bytes(seg) => {
                if i > 0 {
                    out.push(47u8);
                }
                let mut k: usize = 0;
                let ghost mid = out@;
                while k < seg.len()
                    invariant
                        k <= seg@.len(),
                        out@ == mid + seg@.subrange(0, k as int),
                    decreases seg@.len() - k,
                {
                    out.push(seg[k]);
                    k = k + 1;
                    assert(seg@.subrange(0, k as int) =~= seg@.subrange(0, k - 1).push(
                        seg@[k - 1],
                    ));
                }
                proof {
                    assert(seg@.subrange(0, k as int) =~= seg@);
                    let s = ps@.subrange(0, i + 1);
                    assert(s.drop_last() =~= ps@.subrange(0, i as int));
                    if i == 0 {
                        assert(out@ =~= seg@);
                    } else {
                        assert(out@ =~= join_path(s.drop_last()) + seq![47u8] + seg@);
                    }
                }
                i = i + 1;
            },
            _ => {
                return None;
            },
        }
    }
    assert(ps@.subrange(0, i as int) =~= ps@);
    Some(out)
}

/// Reads the files of a multi-file torrent.
fn files_from_list(items: &Vec<Value>) -> (r: Result<Vec<File>, MetainfoError>)
    ensures
        r matches Ok(fs) ==> fs@.len() == items@.len() && sum_lengths(fs@) <= usize::MAX
            && forall|i: int| 0 <= i < fs@.len() ==> file_matches(#[trigger] fs@[i], items@[i]),
        r is Ok <==> (forall|i: int| 0 <= i < items@.len() ==> file_error(#[trigger] items@[i]) is None)
            && listed_size(items@, items@.len() as int) <= usize::MAX,
        r matches Err(e) ==> (exists|i: int| 0 <= i < items@.len() && file_error(#[trigger] items@[i]) == Some(e))
            || e == MetainfoError::InvalidValue(Field::Length),
{
    let mut fs: Vec<File> = Vec::new();
    let mut total: usize = 0;
    let mut i: usize = 0;
    while i < items.len()
        invariant
            i <= items@.len(),
            fs@.len() == i,
            total == sum_lengths(fs@),
            total == listed_size(items@, i as int),
            forall|j: int| 0 <= j < i ==> file_matches(#[trigger] fs@[j], items@[j]),
            forall|j: int| 0 <= j < i ==> file_error(#[trigger] items@[j]) is None,
        decreases items@.len() - i,
    {
        let fes = match &items[i] {
            Value::Dict(fes) => fes,
            _ => {
                return Err(MetainfoError::TypeMismatch(Field::Files));
            },
        };
        let length: usize = match lookup(fes, length_key_bytes().as_slice()) {
            None => {
                return Err(MetainfoError::MissingField(Field::Length));
            },
            Some(Value::Int(n)) => {
                if *n < 0 || *n as u64 > usize::MAX as u64 {
                    return Err(MetainfoError::InvalidValue(Field::Length));
                }
                *n as usize
            },
            Some(_) => {
                return Err(MetainfoError::TypeMismatch(Field::Length));
            },
        };
        let path = match lookup(fes, path_key_bytes().as_slice()) {
            None => {
                return Err(MetainfoError::MissingField(Field::Path));
            },
            Some(Value::List(ps)) => match join_segments(ps) {
                Some(joined) => match utf8_text(joined.as_slice()) {
                    Some(t) => t,
                    None => {
                        return Err(MetainfoError::InvalidUtf8(Field::Path));
                    },
                },
                None => {
                    return Err(MetainfoError::TypeMismatch(Field::Path));
                },
            },
            Some(_) => {
                return Err(MetainfoError::TypeMismatch(Field::Path));
            },
        };
        if length > usize::MAX - total {
            proof {
                if forall|j: int| 0 <= j < items@.len() ==> file_error(#[trigger] items@[j]) is None {
                    lemma_listed_size_grows(items@, i + 1, items@.len() as int);
                }
            }
            return Err(MetainfoError::InvalidValue(Field::Length));
        }
        let ghost before = fs@;
        fs.push(File { path, length });
        proof {
            assert(fs@.drop_last() =~= before);
            assert forall|j: int| 0 <= j < i + 1 implies file_matches(#[trigger] fs@[j], items@[j]) by {
                if j < i {
                    assert(fs@[j] == before[j]);
                }
            }
        }
        total = total + length;
        i = i + 1;
    }
    Ok(fs)
}

/// The scheme prefix of a UDP tracker URL.
pub open spec fn udp_scheme() -> Seq<char> {
    seq!['u', 'd', 'p', ':', '/', '/']
}

/// `s` starts with `udp://`.
pub open spec fn has_udp_scheme(s: Seq<char>) -> bool {
    s.len() >= 6 && s.subrange(0, 6) == udp_scheme()
}

fn starts_with_udp_scheme(s: &str) -> (r: bool)
    ensures
        r == has_udp_scheme(s@),
{
    let n = s.unicode_len();
    if n < 6 {
        return false;
    }
    let r = s.get_char(0) == 'u' && s.get_char(1) == 'd' && s.get_char(2) == 'p' && s.get_char(3)
        == ':' && s.get_char(4) == '/' && s.get_char(5) == '/';
    proof {
        if r {
            assert(s@.subrange(0, 6) =~= udp_scheme());
        } else {
            if s@.subrange(0, 6) == udp_scheme() {
                assert(s@[0] == s@.subrange(0, 6)[0]);
                assert(s@[1] == s@.subrange(0, 6)[1]);
                assert(s@[2] == s@.subrange(0, 6)[2]);
                assert(s@[3] == s@.subrange(0, 6)[3]);
                assert(s@[4] == s@.subrange(0, 6)[4]);
                assert(s@[5] == s@.subrange(0, 6)[5]);
            }
        }
    }
    r
}

/// The torrent `t` is what the metainfo dictionary `v` describes.
pub open spec fn torrent_matches(t: Torrent, v: Value) -> bool {
    &&& v is Dict
    &&& bytes_at(v->Dict_0@, announce_key()) is Some
    &&& encode_utf8(t.announce@) == bytes_at(v->Dict_0@, announce_key())->Some_0
    &&& find(v->Dict_0@, info_key()) is Some
    &&& info_matches(t.info, find(v->Dict_0@, info_key())->Some_0)
    &&& t.info_hash@ == sha1_of(encoding(find(v->Dict_0@, info_key())->Some_0))
}

/// `r` is what reading the metainfo dictionary `v` gives: the first rule
/// that `v` breaks, or else success exactly when its files are well formed
/// and its info dictionary can be hashed.
pub open spec fn parse_result_of(r: Result<Torrent, MetainfoError>, v: Value) -> bool {
    &&& torrent_error(v) matches Some(e) ==> r == Err::<Torrent, MetainfoError>(e)
    &&& torrent_error(v) is None ==> (r is Ok <==> files_ok(find(v->Dict_0@, info_key())->Some_0)
        && encoding(find(v->Dict_0@, info_key())->Some_0).len() < 0x2000_0000_0000_0000)
    &&& r matches Ok(t) ==> torrent_matches(t, v)
}

impl Torrent {
    pub open spec fn wf(&self) -> bool {
        self.info.wf()
    }

    /// Reads a metainfo dictionary. The info-hash is taken over the bytes of
    /// the info dictionary: for a dictionary that was decoded, exactly the
    /// bytes it was read from, unknown keys included.
    pub fn from_value(v: &Value) -> (r: Result<Torrent, MetainfoError>)
        requires
            wf(*v),
        ensures
            r matches Ok(t) ==> t.wf() && torrent_matches(t, *v),
            torrent_error(*v) matches Some(e) ==> r == Err::<Torrent, MetainfoError>(e),
            torrent_error(*v) is None ==> (r is Ok <==> files_ok(find(v->Dict_0@, info_key())->Some_0)
                && encoding(find(v->Dict_0@, info_key())->Some_0).len() < 0x2000_0000_0000_0000),
    {
        let es = match v {
            Value::Dict(es) => es,
            _ => {
                return Err(MetainfoError::TypeMismatch(Field::Root));
            },
        };
        let announce = match lookup(es, announce_key_bytes().as_slice()) {
            None => {
                return Err(MetainfoError::MissingField(Field::Announce));
            },
            Some(Value::Bytes(b)) => match utf8_text(b.as_slice()) {
                Some(t) => t,
                None => {
                    return Err(MetainfoError::InvalidUtf8(Field::Announce));
                },
            },
            Some(_) => {
                return Err(MetainfoError::TypeMismatch(Field::Announce));
            },
        };
        let iv = match lookup(es, info_key_bytes().as_slice()) {
            None => {
                return Err(MetainfoError::MissingField(Field::Info));
            },
            Some(iv) => iv,
        };
        let info = match Info::from_value(iv) {
            Ok(info) => info,
            Err(e) => {
                return Err(e);
            },
        };
        proof {
            lemma_find_wf(*es, info_key());
        }
        let info_bytes = encode(iv);
        if info_bytes.len() as u64 >= 0x2000_0000_0000_0000u64 {
            return Err(MetainfoError::InfoTooLarge);
        }
        let info_hash = sha1_digest(info_bytes.as_slice());
        Ok(Torrent { announce, info, info_hash })
    }

    /// Reads a metainfo file: canonical bencode holding a dictionary.
    pub fn parse(b: &[u8]) -> (r: Result<Torrent, MetainfoError>)
        ensures
            r matches Ok(t) ==> t.wf() && exists|v: Value|
                wf(v) && encoding(v) == b@ && #[trigger] torrent_matches(t, v),
            decode_error(b@) matches Some(e) ==> r == Err::<Torrent, MetainfoError>(
                MetainfoError::Decode(e),
            ),
            decode_error(b@) is None ==> exists|v: Value|
                wf(v) && encoding(v) == b@ && #[trigger] parse_result_of(r, v),
    {
        match decode(b) {
            Ok(v) => {
                let r = Torrent::from_value(&v);
                assert(parse_result_of(r, v));
                r
            },
            Err(e) => Err(MetainfoError::Decode(e)),
        }
    }

    /// The announce URL without its `udp://` prefix, the form a socket
    /// connects to.
    pub fn get_announce_url(&self) -> (r: String)
        ensures
            has_udp_scheme(self.announce@) ==> r@ == self.announce@.skip(6),
            !has_udp_scheme(self.announce@) ==> r@ == self.announce@,
    {
        let s = self.announce.as_str();
        if starts_with_udp_scheme(s) {
            let n = s.unicode_len();
            String::from_str(s.substring_char(6, n))
        } else {
            String::from_str(s)
        }
    }

    /// The sum of the lengths of the torrent's files.
    pub fn get_torrent_total_size(&self) -> (r: usize)
        requires
            self.wf(),
        ensures
            r == sum_lengths(self.info.files@),
    {
        self.info.total_size()
    }
}

/// Where `c` first stands in `s`, or the length of `s` when it is absent.
pub open spec fn first_index_of(s: Seq<char>, c: char) -> int
    decreases s.len(),
{
    if s.len() == 0 || s[0] == c {
        0
    } else {
        1 + first_index_of(s.drop_first(), c)
    }
}

/// Every character of `s` is an ASCII digit.
pub open spec fn all_digits(s: Seq<char>) -> bool {
    forall|i: int| 0 <= i < s.len() ==> '0' <= #[trigger] s[i] <= '9'
}

/// The number that the decimal digits `s` spell.
pub open spec fn digits_value(s: Seq<char>) -> int
    decreases s.len(),
{
    if s.len() == 0 {
        0
    } else {
        digits_value(s.drop_last()) * 10 + ((s.last() as u32) - 48)
    }
}

/// The host and port of a `udp://host:port[/path]` URL: the host runs from the
/// scheme to the first `:`, the port is the digits after it up to the first
/// `/`; both must be there, and the port must fit in 16 bits.
pub open spec fn host_port(a: Seq<char>) -> Option<(Seq<char>, int)> {
    let rest = a.skip(6);
    let c = first_index_of(rest, ':');
    let after = rest.skip(c + 1);
    let digits = after.take(first_index_of(after, '/'));
    if c == 0 || c >= rest.len() || digits.len() == 0 || !all_digits(digits) || digits_value(
        digits,
    ) > 65535 {
        None
    } else {
        Some((rest.take(c), digits_value(digits)))
    }
}

proof fn lemma_first_index_of(s: Seq<char>, c: char, m: int)
    requires
        0 <= m <= s.len(),
        forall|k: int| 0 <= k < m ==> s[k] != c,
        m == s.len() || s[m] == c,
    ensures
        first_index_of(s, c) == m,
    decreases m,
{
    if m > 0 {
        lemma_first_index_of(s.drop_first(), c, m - 1);
    }
}

proof fn lemma_digits_value_grows(s: Seq<char>, k: int)
    requires
        0 <= k <= s.len(),
        all_digits(s),
    ensures
        digits_value(s.take(k)) <= digits_value(s),
    decreases s.len(),
{
    if k < s.len() {
        assert(s.drop_last().take(k) =~= s.take(k));
        assert(all_digits(s.drop_last())) by {
            assert forall|i: int| 0 <= i < s.drop_last().len() implies '0' <= #[trigger] s.drop_last()[i] <= '9' by {
                assert(s.drop_last()[i] == s[i]);
            }
        }
        lemma_digits_value_grows(s.drop_last(), k);
        lemma_digits_value_grows(s.drop_last(), 0);
        assert(s.drop_last().take(0) =~= Seq::<char>::empty());
        assert('0' <= s[s.len() - 1] <= '9');
    } else {
        assert(s.take(k) =~= s);
    }
}

impl Torrent {
    /// The host and port of the announce URL, which must use the `udp` scheme.
    pub fn announce_host_port(&self) -> (r: Result<(String, u16), MetainfoError>)
        ensures
            !has_udp_scheme(self.announce@) ==> r == Err::<(String, u16), MetainfoError>(
                MetainfoError::UnsupportedScheme,
            ),
            has_udp_scheme(self.announce@) && host_port(self.announce@) is None ==> r == Err::<
                (String, u16),
                MetainfoError,
            >(MetainfoError::InvalidValue(Field::Announce)),
            has_udp_scheme(self.announce@) && host_port(self.announce@) is Some ==> r is Ok
                && r->Ok_0.0@ == host_port(self.announce@)->Some_0.0 && r->Ok_0.1 as int
                == host_port(self.announce@)->Some_0.1,
    {
        let s = self.announce.as_str();
        if !starts_with_udp_scheme(s) {
            return Err(MetainfoError::UnsupportedScheme);
        }
        let ghost a = s@;
        let ghost rest = a.skip(6);
        let n = s.unicode_len();
        let mut c: usize = 6;
        while c < n && s.get_char(c) != ':'
            invariant
                6 <= c <= n,
                n == a.len(),
                a == s@,
                rest == a.skip(6),
                forall|k: int| 6 <= k < c ==> a[k] != ':',
            decreases n - c,
        {
            c = c + 1;
        }
        proof {
            lemma_first_index_of(rest, ':', c - 6);
        }
        if c == 6 || c == n {
            return Err(MetainfoError::InvalidValue(Field::Announce));
        }
        let ghost after = rest.skip(c - 6 + 1);
        assert(after =~= a.skip(c + 1));
        let mut e: usize = c + 1;
        let mut port: u32 = 0;
        while e < n && s.get_char(e) != '/'
            invariant
                c + 1 <= e <= n,
                6 < c < n,
                n == a.len(),
                a == s@,
                a == self.announce@,
                has_udp_scheme(a),
                rest == a.skip(6),
                first_index_of(rest, ':') == c - 6,
                after == rest.skip(c - 6 + 1),
                after == a.skip(c + 1),
                forall|k: int| c + 1 <= k < e ==> a[k] != '/',
                all_digits(a.subrange(c + 1, e as int)),
                port as int == digits_value(a.subrange(c + 1, e as int)),
                port <= 65535,
            decreases n - e,
        {
            let ch = s.get_char(e);
            proof {
                assert(a.subrange(c + 1, e + 1).drop_last() =~= a.subrange(c + 1, e as int));
                assert(a.subrange(c + 1, e + 1) =~= after.take(e + 1 - (c + 1)));
            }
            if !('0' <= ch && ch <= '9') {
                proof {
                    lemma_no_slash_prefix(a, c + 1, e as int);
                    lemma_first_index_nonneg(after, '/');
                    assert(after[e - (c + 1)] == ch);
                    assert(after.take(first_index_of(after, '/'))[e - (c + 1)] == ch);
                }
                return Err(MetainfoError::InvalidValue(Field::Announce));
            }
            let d: u32 = (ch as u32) - 48;
            port = port * 10 + d;
            if port > 65535 {
                proof {
                    lemma_no_slash_prefix(a, c + 1, e as int);
                    lemma_first_index_nonneg(after, '/');
                    let digits = after.take(first_index_of(after, '/'));
                    if all_digits(digits) {
                        assert(digits.take(e + 1 - (c + 1)) =~= a.subrange(c + 1, e + 1));
                        lemma_digits_value_grows(digits, e + 1 - (c + 1));
                    }
                }
                return Err(MetainfoError::InvalidValue(Field::Announce));
            }
            e = e + 1;
            proof {
                assert forall|i: int| 0 <= i < a.subrange(c + 1, e as int).len() implies '0'
                    <= #[trigger] a.subrange(c + 1, e as int)[i] <= '9' by {
                    if i < e - 1 - (c + 1) {
                        assert(a.subrange(c + 1, e - 1)[i] == a.subrange(c + 1, e as int)[i]);
                    }
                }
            }
        }
        proof {
            lemma_first_index_of(after, '/', e - (c + 1));
            assert(after.take(e - (c + 1)) =~= a.subrange(c + 1, e as int));
            assert(rest.take(c - 6) =~= a.subrange(6, c as int));
        }
        if e == c + 1 {
            return Err(MetainfoError::InvalidValue(Field::Announce));
        }
        let host = String::from_str(s.substring_char(6, c));
        Ok((host, port as u16))
    }
}

/// Before a stop at `e` with no `/` from `from` on, the first `/` after
/// `from` stands at or beyond `e`.
proof fn lemma_no_slash_prefix(a: Seq<char>, from: int, e: int)
    requires
        0 <= from <= e < a.len(),
        forall|k: int| from <= k < e ==> a[k] != '/',
        a[e] != '/',
    ensures
        first_index_of(a.skip(from), '/') > e - from,
    decreases e - from,
{
    if from < e {
        assert(a.skip(from).drop_first() =~= a.skip(from + 1));
        lemma_no_slash_prefix(a, from + 1, e);
    } else {
        assert(a.skip(from)[0] == a[from]);
        if a.skip(from).len() > 1 {
            assert(a.skip(from).drop_first() =~= a.skip(from + 1));
        }
        lemma_first_index_pos(a.skip(from), '/');
    }
}

proof fn lemma_first_index_pos(s: Seq<char>, c: char)
    requires
        s.len() > 0,
        s[0] != c,
    ensures
        first_index_of(s, c) >= 1,
{
    lemma_first_index_nonneg(s.drop_first(), c);
}

proof fn lemma_first_index_nonneg(s: Seq<char>, c: char)
    ensures
        0 <= first_index_of(s, c) <= s.len(),
    decreases s.len(),
{
    if s.len() > 0 && s[0] != c {
        lemma_first_index_nonneg(s.drop_first(), c);
    }
}

proof fn lemma_entry_within(es: Vec<(Vec<u8>, Value)>, n: nat, i: int)
    requires
        n <= es.len(),
        0 <= i < n,
    ensures
        exists|off: int|
            0 <= off && off + encoding(es@[i].1).len() <= entries_encoding(es, n).len()
                && #[trigger] entries_encoding(es, n).subrange(off, off + encoding(es@[i].1).len())
                == encoding(es@[i].1),
    decreases n,
{
    let whole = entries_encoding(es, n);
    let x = encoding(es@[i].1);
    if i == n - 1 {
        let off = whole.len() - x.len();
        assert(whole.subrange(off, off + x.len()) =~= x);
    } else {
        lemma_entry_within(es, (n - 1) as nat, i);
        let front = entries_encoding(es, (n - 1) as nat);
        let off = choose|off: int|
            0 <= off && off + x.len() <= front.len() && #[trigger] front.subrange(
                off,
                off + x.len(),
            ) == x;
        assert(whole.subrange(off, off + x.len()) =~= front.subrange(off, off + x.len()));
    }
}

/// The info-hash is the SHA-1 digest of a span of the metainfo bytes: the
/// bytes of the info dictionary stand unchanged inside the file they were
/// read from.
pub proof fn lemma_info_hash_of_span(t: Torrent, v: Value, b: Seq<u8>)
    requires
        encoding(v) == b,
        torrent_matches(t, v),
    ensures
        exists|start: int, end: int|
            0 <= start <= end <= b.len() && #[trigger] b.subrange(start, end) == encoding(
                find(v->Dict_0@, info_key())->Some_0,
            ) && t.info_hash@ == sha1_of(b.subrange(start, end)),
{
    let es = v->Dict_0;
    let iv = find(es@, info_key())->Some_0;
    lemma_find_in(es@, info_key());
    let i = choose|i: int| 0 <= i < es@.len() && es@[i].1 == iv;
    lemma_entry_within(es, es.len() as nat, i);
    let inner = entries_encoding(es, es.len() as nat);
    let x = encoding(iv);
    let off = choose|off: int|
        0 <= off && off + x.len() <= inner.len() && #[trigger] inner.subrange(off, off + x.len())
            == x;
    assert(b =~= seq![100u8] + inner + seq![101u8]);
    assert(b.subrange(off + 1, off + 1 + x.len()) =~= inner.subrange(off, off + x.len()));
}

proof fn lemma_find_agree(s1: Seq<(Vec<u8>, Value)>, s2: Seq<(Vec<u8>, Value)>, k: Seq<u8>)
    requires
        s1.len() == s2.len(),
        forall|i: int|
            0 <= i < s1.len() ==> #[trigger] s1[i].0@ == s2[i].0@ && encoding(s1[i].1) == encoding(
                s2[i].1,
            ),
    ensures
        find(s1, k) is Some == find(s2, k) is Some,
        find(s1, k) is Some ==> encoding(find(s1, k)->Some_0) == encoding(find(s2, k)->Some_0),
    decreases s1.len(),
{
    if s1.len() > 0 {
        assert(s1[0].0@ == s2[0].0@);
        assert forall|i: int| 0 <= i < s1.drop_first().len() implies #[trigger] s1.drop_first()[i].0@
            == s2.drop_first()[i].0@ && encoding(s1.drop_first()[i].1) == encoding(
            s2.drop_first()[i].1,
        ) by {
            assert(s1[i + 1].0@ == s2[i + 1].0@);
        }
        lemma_find_agree(s1.drop_first(), s2.drop_first(), k);
    }
}

/// Parsing the same bytes twice gives the same info-hash: any two torrents
/// that `parse` may return for `b` carry equal 20-byte info-hashes.
pub proof fn lemma_info_hash_deterministic(b: Seq<u8>, t1: Torrent, v1: Value, t2: Torrent, v2: Value)
    requires
        b.len() <= 0xffff_ffff_ffff_ffff,
        wf(v1),
        wf(v2),
        encoding(v1) == b,
        encoding(v2) == b,
        torrent_matches(t1, v1),
        torrent_matches(t2, v2),
    ensures
        t1.info_hash@ == t2.info_hash@,
{
    lemma_dict_encoding_determines_entries(v1, v2);
    lemma_find_agree(v1->Dict_0@, v2->Dict_0@, info_key());
}

} // verus!
