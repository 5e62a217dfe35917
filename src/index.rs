use vstd::prelude::*;
use vstd::utf8::encode_utf8;

use fst::{IntoStreamer, Streamer};

use crate::keys::{
    bytes_lt, has_prefix, key_lt, lemma_bytes_lt_irreflexive, lemma_bytes_lt_transitive,
    starts_with_bytes,
};
use crate::utf8_order::lemma_encoding_keeps_order;

verus! {

#[verifier::external_type_specification]
#[verifier::external_body]
#[verifier::reject_recursive_types(W)]
pub struct ExMapBuilder<W>(fst::MapBuilder<W>);

#[verifier::external_type_specification]
#[verifier::external_body]
#[verifier::reject_recursive_types(D)]
pub struct ExMap<D>(fst::Map<D>);

#[verifier::external_type_specification]
#[verifier::external_body]
pub struct ExFstError(fst::Error);

/// The entries that a map builder has taken, in the order of insertion.
pub uninterp spec fn builder_entries(b: fst::MapBuilder<Vec<u8>>) -> Seq<(Seq<u8>, u64)>;

/// The entries of an opened map, in the order in which it streams them.
pub uninterp spec fn map_entries(m: fst::Map<Vec<u8>>) -> Seq<(Seq<u8>, u64)>;

/// The bytes that an opened map reads from.
pub uninterp spec fn map_bytes(m: fst::Map<Vec<u8>>) -> Seq<u8>;

/// Whether the checksum that a map's bytes carry matches those bytes.
pub uninterp spec fn checksum_holds(m: fst::Map<Vec<u8>>) -> bool;

/// The bytes that a map builder seals for the entries it took.
pub uninterp spec fn sealed_bytes(es: Seq<(Seq<u8>, u64)>) -> Seq<u8>;

/// The number that the first eight bytes of `b` give, least significant
/// byte first.
pub open spec fn le_u64(b: Seq<u8>) -> int {
    b[0] as int + b[1] as int * 0x100 + b[2] as int * 0x10000 + b[3] as int * 0x1000000 + b[4] as int
        * 0x100000000 + b[5] as int * 0x10000000000 + b[6] as int * 0x1000000000000 + b[7] as int
        * 0x100000000000000
}

/// The key count and root address in the last fields of `b` fit in a
/// `usize`, wherever `b` is long enough and of a format version that
/// `fst::Map::new` reads that far. On a 64-bit target they always do.
pub open spec fn fields_fit(b: Seq<u8>) -> bool {
    b.len() < 36 || le_u64(b) == 0 || le_u64(b) > 3 || ({
        let end = if le_u64(b) <= 2 {
            b.len() as int
        } else {
            b.len() - 4
        };
        le_u64(b.subrange(end - 16, end - 8)) <= usize::MAX && le_u64(b.subrange(end - 8, end))
            <= usize::MAX
    })
}

/// Whether the eight bytes of `b` from `at` on, least significant first,
/// give a number that fits in a `usize`.
fn field_fits(b: &[u8], at: usize) -> (r: bool)
    requires
        at + 8 <= b@.len(),
    ensures
        r == (le_u64(b@.subrange(at as int, at + 8)) <= usize::MAX),
{
    let n = b.len();
    assert(at + 8 <= n);
    let ghost f = b@.subrange(at as int, at + 8);
    assert(f[0] == b@[at as int] && f[1] == b@[at + 1] && f[2] == b@[at + 2] && f[3] == b@[at + 3]
        && f[4] == b@[at + 4] && f[5] == b@[at + 5] && f[6] == b@[at + 6] && f[7] == b@[at + 7]);
    assert(usize::MAX as int == 0xffff_ffff || usize::MAX as int == 0xffff_ffff_ffff_ffff);
    if (usize::MAX as u64) == u64::MAX {
        true
    } else {
        b[at + 4] == 0 && b[at + 5] == 0 && b[at + 6] == 0 && b[at + 7] == 0
    }
}

/// `m` reads from the bytes that a map builder sealed for its entries, whose
/// keys rise strictly: the only maps that this library queries.
pub open spec fn sealed_map(m: fst::Map<Vec<u8>>) -> bool {
    bytes_ascending(map_entries(m)) && map_bytes(m) == sealed_bytes(map_entries(m))
}

/// The keys of `es` rise strictly in byte order.
pub open spec fn bytes_ascending(es: Seq<(Seq<u8>, u64)>) -> bool {
    forall|i: int, j: int| 0 <= i < j < es.len() ==> bytes_lt(#[trigger] es[i].0, #[trigger] es[j].0)
}

/// A key may follow the entries `es` in a builder: it lies above the last.
pub open spec fn may_follow(es: Seq<(Seq<u8>, u64)>, key: Seq<u8>) -> bool {
    es.len() == 0 || bytes_lt(es.last().0, key)
}

/// The value stored under `key` in `es`, if any.
pub open spec fn lookup(es: Seq<(Seq<u8>, u64)>, key: Seq<u8>) -> Option<u64>
    decreases es.len(),
{
    if es.len() == 0 {
        None
    } else if es.last().0 == key {
        Some(es.last().1)
    } else {
        lookup(es.drop_last(), key)
    }
}

/// Relies on `fst::MapBuilder::memory`: a builder over an in-memory buffer,
/// holding no entry yet.
#[verifier::external_body]
fn builder_memory() -> (b: fst::MapBuilder<Vec<u8>>)
    ensures
        builder_entries(b) == Seq::<(Seq<u8>, u64)>::empty(),
{
    fst::MapBuilder::memory()
}

/// Relies on `fst::MapBuilder::insert`: a key that is not above the last one
/// taken is refused with an error before anything changes; any other is
/// taken. Writing into an in-memory buffer does not fail.
#[verifier::external_body]
fn builder_insert(b: &mut fst::MapBuilder<Vec<u8>>, key: &[u8], value: u64) -> (r: Result<
    (),
    fst::Error,
>)
    ensures
        may_follow(builder_entries(*old(b)), key@) ==> r is Ok && builder_entries(*final(b))
            == builder_entries(*old(b)).push((key@, value)),
        !may_follow(builder_entries(*old(b)), key@) ==> r is Err && builder_entries(*final(b))
            == builder_entries(*old(b)),
{
    b.insert(key, value)
}

/// Relies on `fst::MapBuilder::into_inner`: seals the map and hands back its
/// in-memory buffer, whose bytes depend on the entries taken alone. Writing
/// into an in-memory buffer does not fail. The bytes open with format version
/// 3 and end with the key count and root address, both `usize` values of the
/// builder, then a four-byte checksum.
#[verifier::external_body]
fn builder_into_bytes(b: fst::MapBuilder<Vec<u8>>) -> (r: Result<Vec<u8>, fst::Error>)
    ensures
        r is Ok,
        r is Ok ==> r->Ok_0@ == sealed_bytes(builder_entries(b)),
        r is Ok ==> fields_fit(r->Ok_0@),
{
    b.into_inner()
}

/// Why an index could not be built or opened.
#[derive(Clone, Copy, Debug, PartialEq, Eq, Structural)]
pub enum IndexError {
    /// A key was not strictly above the key before it.
    OutOfOrder,
    /// The bytes are not a sealed index.
    Corrupt,
}

/// The keys and values of `entries`, each key as its UTF-8 bytes.
pub open spec fn entry_bytes(entries: Seq<(String, u64)>) -> Seq<(Seq<u8>, u64)> {
    entries.map_values(|e: (String, u64)| (encode_utf8(e.0@), e.1))
}

/// Seals `entries` into an index blob. They must come in strictly ascending
/// byte order of their keys; otherwise construction fails as a whole.
pub fn build_index(entries: &[(String, u64)]) -> (r: Result<Vec<u8>, IndexError>)
    ensures
        r is Ok <==> bytes_ascending(entry_bytes(entries@)),
        r is Ok ==> r->Ok_0@ == sealed_bytes(entry_bytes(entries@)),
        r is Ok ==> fields_fit(r->Ok_0@),
        r is Err ==> r->Err_0 == IndexError::OutOfOrder,
{
    let ghost es = entry_bytes(entries@);
    let mut b = builder_memory();
    let mut i: usize = 0;
    while i < entries.len()
        invariant
            es == entry_bytes(entries@),
            i <= entries@.len(),
            builder_entries(b) == es.take(i as int),
            bytes_ascending(es.take(i as int)),
        decreases entries@.len() - i,
    {
        let key = entries[i].0.as_str().as_bytes();
        assert(key@ == es[i as int].0);
        let ghost before = es.take(i as int);
        match builder_insert(&mut b, key, entries[i].1) {
            Ok(()) => {},
            Err(_) => {
                proof {
                    assert(bytes_lt(before.last().0, es[i as int].0) == false);
                    assert(before.last() == es[i - 1]);
                    assert(!bytes_lt(es[i - 1].0, es[i as int].0));
                }
                return Err(IndexError::OutOfOrder);
            },
        }
        proof {
            assert(es.take(i + 1) =~= before.push(es[i as int]));
            let t = es.take(i + 1);
            assert forall|a: int, c: int| 0 <= a < c < t.len() implies bytes_lt(
                #[trigger] t[a].0,
                #[trigger] t[c].0,
            ) by {
                if c == i {
                    if a < i - 1 {
                        assert(bytes_lt(before[a].0, before[i - 1].0));
                        lemma_bytes_lt_transitive(t[a].0, t[i - 1].0, t[c].0);
                    }
                } else {
                    assert(bytes_lt(before[a].0, before[c].0));
                }
            }
        }
        i += 1;
    }
    assert(es.take(entries@.len() as int) =~= es);
    match builder_into_bytes(b) {
        Ok(bytes) => Ok(bytes),
        Err(_) => Err(IndexError::Corrupt),
    }
}

/// Relies on `fst::Map::new`, which reads the key count and root address
/// into a `usize` and panics where one does not fit: the map reads from the
/// bytes handed in; fewer
/// than 36 bytes, or a format version other than 1 to 3 in the first eight,
/// are refused; the bytes that a map builder sealed for strictly ascending
/// entries open as a map of exactly those entries, whose checksum holds.
#[verifier::external_body]
fn map_open(bytes: Vec<u8>) -> (r: Result<fst::Map<Vec<u8>>, fst::Error>)
    requires
        fields_fit(bytes@),
    ensures
        r is Ok ==> map_bytes(r->Ok_0) == bytes@,
        bytes@.len() < 36 ==> r is Err,
        bytes@.len() >= 36 && (le_u64(bytes@) == 0 || le_u64(bytes@) > 3) ==> r is Err,
        forall|es: Seq<(Seq<u8>, u64)>|
            bytes_ascending(es) && bytes@ == #[trigger] sealed_bytes(es) ==> r is Ok && map_entries(
                r->Ok_0,
            ) == es && checksum_holds(r->Ok_0),
{
    fst::Map::new(bytes)
}

/// Relies on `fst::raw::Fst::verify`: recomputes the checksum over the bytes
/// and compares it with the one sealed into them.
#[verifier::external_body]
fn map_verify(m: &fst::Map<Vec<u8>>) -> (r: bool)
    ensures
        r == checksum_holds(*m),
{
    m.as_fst().verify().is_ok()
}

/// Relies on `fst::Map::get`: the value stored under `key`, if any. Only a
/// map that a builder sealed is queried: other bytes that pass the format and
/// checksum checks may make the walk panic.
#[verifier::external_body]
fn map_get(m: &fst::Map<Vec<u8>>, key: &[u8]) -> (r: Option<u64>)
    requires
        sealed_map(*m),
    ensures
        r == lookup(map_entries(*m), key@),
{
    m.get(key)
}

/// Relies on `fst::Map::len`: the number of entries, which the builder
/// sealed into the bytes.
#[verifier::external_body]
fn map_len(m: &fst::Map<Vec<u8>>) -> (r: usize)
    requires
        sealed_map(*m),
    ensures
        r == map_entries(*m).len(),
{
    m.len()
}

/// Relies on `fst::map::StreamBuilder::ge`: the first entry that a stream of
/// the entries at or after `lower` yields.
#[verifier::external_body]
fn map_first_at_or_after(m: &fst::Map<Vec<u8>>, lower: &[u8]) -> (r: Option<(Vec<u8>, u64)>)
    requires
        sealed_map(*m),
    ensures
        r is None ==> forall|i: int|
            0 <= i < map_entries(*m).len() ==> bytes_lt(#[trigger] map_entries(*m)[i].0, lower@),
        r is Some ==> exists|i: int|
            0 <= i < map_entries(*m).len() && map_entries(*m)[i] == (r->Some_0.0@, r->Some_0.1)
                && !bytes_lt(map_entries(*m)[i].0, lower@) && forall|j: int|
                0 <= j < i ==> bytes_lt(#[trigger] map_entries(*m)[j].0, lower@),
{
    m.range().ge(lower).into_stream().next().map(|(k, v)| (k.to_vec(), v))
}

/// Relies on `fst::map::StreamBuilder::gt`: the first entry that a stream of
/// the entries strictly after `key` yields.
#[verifier::external_body]
fn map_first_after(m: &fst::Map<Vec<u8>>, key: &[u8]) -> (r: Option<(Vec<u8>, u64)>)
    requires
        sealed_map(*m),
    ensures
        r is None ==> forall|i: int|
            0 <= i < map_entries(*m).len() ==> !bytes_lt(key@, #[trigger] map_entries(*m)[i].0),
        r is Some ==> exists|i: int|
            0 <= i < map_entries(*m).len() && map_entries(*m)[i] == (r->Some_0.0@, r->Some_0.1)
                && bytes_lt(key@, map_entries(*m)[i].0) && forall|j: int|
                0 <= j < i ==> !bytes_lt(key@, #[trigger] map_entries(*m)[j].0),
{
    m.range().gt(key).into_stream().next().map(|(k, v)| (k.to_vec(), v))
}

/// The position of the first entry of `es`, from position `i` on, whose key
/// is at or after `lower`; the length of `es` where there is none.
pub open spec fn first_from(es: Seq<(Seq<u8>, u64)>, lower: Seq<u8>, i: int) -> int
    decreases es.len() - i,
{
    if i < 0 || i >= es.len() {
        es.len() as int
    } else if !bytes_lt(es[i].0, lower) {
        i
    } else {
        first_from(es, lower, i + 1)
    }
}

/// The run of entries of `es` from position `i` on whose keys start with `p`,
/// up to the first that does not.
pub open spec fn run_from(es: Seq<(Seq<u8>, u64)>, i: int, p: Seq<u8>) -> Seq<(Seq<u8>, u64)>
    decreases es.len() - i,
{
    if 0 <= i < es.len() && has_prefix(es[i].0, p) {
        seq![es[i]] + run_from(es, i + 1, p)
    } else {
        Seq::empty()
    }
}

/// What a predictive search for `p` yields: the entries from the first key at
/// or after `p`, for as long as their keys start with `p`.
pub open spec fn prefix_run(es: Seq<(Seq<u8>, u64)>, p: Seq<u8>) -> Seq<(Seq<u8>, u64)> {
    run_from(es, first_from(es, p, 0), p)
}

/// The keys and values of a list of owned entries.
pub open spec fn pairs_view(v: Seq<(Vec<u8>, u64)>) -> Seq<(Seq<u8>, u64)> {
    v.map_values(|e: (Vec<u8>, u64)| (e.0@, e.1))
}

proof fn lemma_first_from_at(es: Seq<(Seq<u8>, u64)>, lower: Seq<u8>, i: int, k: int)
    requires
        0 <= k <= i <= es.len(),
        i < es.len() ==> !bytes_lt(es[i].0, lower),
        forall|j: int| 0 <= j < i ==> bytes_lt(#[trigger] es[j].0, lower),
    ensures
        first_from(es, lower, k) == i,
    decreases i - k,
{
    if k < i {
        lemma_first_from_at(es, lower, i, k + 1);
    }
}

proof fn lemma_first_from_bounds(es: Seq<(Seq<u8>, u64)>, lower: Seq<u8>, k: int)
    requires
        0 <= k,
    ensures
        0 <= first_from(es, lower, k) <= es.len(),
    decreases es.len() - k,
{
    if k < es.len() {
        lemma_first_from_bounds(es, lower, k + 1);
    }
}

proof fn lemma_next_position(es: Seq<(Seq<u8>, u64)>, pos: int, j: int)
    requires
        bytes_ascending(es),
        0 <= pos < es.len(),
        0 <= j <= es.len(),
        j < es.len() ==> bytes_lt(es[pos].0, es[j].0),
        forall|q: int| 0 <= q < j ==> !bytes_lt(es[pos].0, #[trigger] es[q].0),
    ensures
        j == pos + 1,
{
    lemma_bytes_lt_irreflexive(es[pos].0);
    if j <= pos {
        if j < pos {
            assert(bytes_lt(es[j].0, es[pos].0));
            lemma_bytes_lt_transitive(es[j].0, es[pos].0, es[j].0);
            lemma_bytes_lt_irreflexive(es[j].0);
        }
    } else if j > pos + 1 {
        assert(bytes_lt(es[pos].0, es[pos + 1].0));
    }
}

proof fn lemma_run_everything(es: Seq<(Seq<u8>, u64)>, i: int)
    requires
        0 <= i <= es.len(),
    ensures
        run_from(es, i, Seq::empty()) == es.subrange(i, es.len() as int),
    decreases es.len() - i,
{
    if i < es.len() {
        assert(es[i].0.subrange(0, 0) =~= Seq::<u8>::empty());
        lemma_run_everything(es, i + 1);
        assert(es.subrange(i, es.len() as int) =~= seq![es[i]] + es.subrange(i + 1, es.len() as int));
    } else {
        assert(es.subrange(i, es.len() as int) =~= Seq::<(Seq<u8>, u64)>::empty());
    }
}

/// A sealed n-gram index opened for queries. It is never changed after it is
/// opened; its entries stream in strictly ascending key order.
pub struct NgramIndex {
    map: fst::Map<Vec<u8>>,
}

impl NgramIndex {
    /// The entries of the index, in ascending key order.
    pub closed spec fn entries_view(self) -> Seq<(Seq<u8>, u64)> {
        map_entries(self.map)
    }

    /// The index reads from the bytes that `build_index` sealed for its
    /// entries, whose keys rise strictly.
    pub open spec fn wf(self) -> bool {
        &&& bytes_ascending(self.entries_view())
        &&& self.sealed()
    }

    pub closed spec fn sealed(self) -> bool {
        sealed_map(self.map)
    }

    /// The checksum of the index's bytes holds.
    pub closed spec fn checked(self) -> bool {
        checksum_holds(self.map)
    }

    /// Opens a sealed index blob. A blob that `build_index` sealed opens as an
    /// index of exactly the entries that went in, ready for queries; only such
    /// an index is queried, since nothing here can tell other bytes that pass
    /// these checks from a sealed blob. Blobs too short to hold the format, of
    /// another format version, whose key count or root address does not fit
    /// in a `usize`, or whose checksum does not match are refused.
    pub fn open(bytes: Vec<u8>) -> (r: Result<NgramIndex, IndexError>)
        ensures
            r is Ok ==> r->Ok_0.checked(),
            r is Err ==> r->Err_0 == IndexError::Corrupt,
            bytes@.len() < 36 ==> r is Err,
            bytes@.len() >= 36 && (le_u64(bytes@) == 0 || le_u64(bytes@) > 3) ==> r is Err,
            !fields_fit(bytes@) ==> r is Err,
            forall|es: Seq<(Seq<u8>, u64)>|
                bytes_ascending(es) && bytes@ == #[trigger] sealed_bytes(es) && fields_fit(bytes@)
                    ==> r is Ok && r->Ok_0.entries_view() == es && r->Ok_0.wf(),
    {
        let n = bytes.len();
        if n >= 36 {
            let low = bytes[1] == 0 && bytes[2] == 0 && bytes[3] == 0 && bytes[4] == 0 && bytes[5]
                == 0 && bytes[6] == 0 && bytes[7] == 0;
            proof {
                if low {
                    assert(le_u64(bytes@) == bytes@[0] as int);
                } else {
                    assert(le_u64(bytes@) > 3);
                }
            }
            if low && 1 <= bytes[0] && bytes[0] <= 3 {
                let end = if bytes[0] <= 2 {
                    n
                } else {
                    n - 4
                };
                if !(field_fits(bytes.as_slice(), end - 16) && field_fits(bytes.as_slice(), end - 8)) {
                    return Err(IndexError::Corrupt);
                }
            }
        }
        match map_open(bytes) {
            Ok(map) => {
                if map_verify(&map) {
                    Ok(NgramIndex { map })
                } else {
                    Err(IndexError::Corrupt)
                }
            },
            Err(_) => Err(IndexError::Corrupt),
        }
    }

    /// The number of entries.
    pub fn len(&self) -> (r: usize)
        requires
            self.wf(),
        ensures
            r == self.entries_view().len(),
    {
        map_len(&self.map)
    }

    /// The value stored under `key`, if any.
    pub fn get(&self, key: &[u8]) -> (r: Option<u64>)
        requires
            self.wf(),
        ensures
            r == lookup(self.entries_view(), key@),
    {
        map_get(&self.map, key)
    }

    /// The cursor's start: the first entry whose key is at or after `lower`.
    pub fn first_from(&self, lower: &[u8]) -> (r: Option<(Vec<u8>, u64)>)
        requires
            self.wf(),
        ensures
            ({
                let es = self.entries_view();
                let i = first_from(es, lower@, 0);
                &&& r is None <==> i == es.len()
                &&& r is Some ==> i < es.len() && es[i] == (r->Some_0.0@, r->Some_0.1)
            }),
    {
        let r = map_first_at_or_after(&self.map, lower);
        proof {
            let es = self.entries_view();
            if r is Some {
                let i = choose|i: int|
                    0 <= i < es.len() && es[i] == (r->Some_0.0@, r->Some_0.1) && !bytes_lt(
                        es[i].0,
                        lower@,
                    ) && forall|j: int| 0 <= j < i ==> bytes_lt(#[trigger] es[j].0, lower@);
                lemma_first_from_at(es, lower@, i, 0);
            } else {
                lemma_first_from_at(es, lower@, es.len() as int, 0);
            }
        }
        r
    }

    /// The cursor's step: the entry that follows the one at `pos`, whose key
    /// is `key`.
    fn next_after(&self, key: &[u8], Ghost(pos): Ghost<int>) -> (r: Option<(Vec<u8>, u64)>)
        requires
            self.wf(),
            0 <= pos < self.entries_view().len(),
            self.entries_view()[pos].0 == key@,
        ensures
            r is None <==> pos + 1 == self.entries_view().len(),
            r is Some ==> self.entries_view()[pos + 1] == (r->Some_0.0@, r->Some_0.1),
    {
        let r = map_first_after(&self.map, key);
        proof {
            let es = self.entries_view();
            if r is Some {
                let j = choose|j: int|
                    0 <= j < es.len() && es[j] == (r->Some_0.0@, r->Some_0.1) && bytes_lt(
                        key@,
                        es[j].0,
                    ) && forall|q: int| 0 <= q < j ==> !bytes_lt(key@, #[trigger] es[q].0);
                lemma_next_position(es, pos, j);
            } else {
                lemma_next_position(es, pos, es.len() as int);
            }
        }
        r
    }

    /// The entries whose keys start with `prefix`, in ascending key order: a
    /// cursor from `prefix` on, stopped at the first key without that prefix.
    pub fn predictive_search(&self, prefix: &[u8]) -> (r: Vec<(Vec<u8>, u64)>)
        requires
            self.wf(),
        ensures
            pairs_view(r@) == prefix_run(self.entries_view(), prefix@),
    {
        let ghost es = self.entries_view();
        let ghost lo = first_from(es, prefix@, 0);
        let mut out: Vec<(Vec<u8>, u64)> = Vec::new();
        let mut cur = self.first_from(prefix);
        let ghost mut pos: int = lo;
        proof {
            lemma_first_from_bounds(es, prefix@, 0);
            assert(pairs_view(out@) + run_from(es, pos, prefix@) =~= run_from(es, lo, prefix@));
        }
        loop
            invariant
                es == self.entries_view(),
                self.wf(),
                0 <= pos <= es.len(),
                cur is None <==> pos == es.len(),
                cur is Some ==> es[pos] == (cur->Some_0.0@, cur->Some_0.1),
                pairs_view(out@) + run_from(es, pos, prefix@) == run_from(es, lo, prefix@),
            ensures
                pairs_view(out@) == run_from(es, lo, prefix@),
            decreases es.len() - pos,
        {
            match cur {
                None => {
                    proof {
                        assert(pairs_view(out@) + Seq::<(Seq<u8>, u64)>::empty() =~= pairs_view(
                            out@,
                        ));
                    }
                    break;
                },
                Some((key, value)) => {
                    if !starts_with_bytes(key.as_slice(), prefix) {
                        proof {
                            assert(run_from(es, pos, prefix@) == Seq::<(Seq<u8>, u64)>::empty());
                            assert(pairs_view(out@) + Seq::<(Seq<u8>, u64)>::empty()
                                =~= pairs_view(out@));
                        }
                        break;
                    }
                    let next = self.next_after(key.as_slice(), Ghost(pos));
                    let ghost before = pairs_view(out@);
                    out.push((key, value));
                    proof {
                        assert(pairs_view(out@) =~= before.push(es[pos]));
                        assert(run_from(es, pos, prefix@) == seq![es[pos]] + run_from(
                            es,
                            pos + 1,
                            prefix@,
                        ));
                        assert(pairs_view(out@) + run_from(es, pos + 1, prefix@) =~= before
                            + run_from(es, pos, prefix@));
                        pos = pos + 1;
                    }
                    cur = next;
                },
            }
        }
        out
    }

    /// The first `n` entries of the index in ascending key order, or all of
    /// them where it holds fewer: a cursor from the start, stopped after `n`.
    pub fn first_entries(&self, n: usize) -> (r: Vec<(Vec<u8>, u64)>)
        requires
            self.wf(),
        ensures
            pairs_view(r@) == self.entries_view().take(
                if n < self.entries_view().len() {
                    n as int
                } else {
                    self.entries_view().len() as int
                },
            ),
    {
        let ghost es = self.entries_view();
        let empty: Vec<u8> = Vec::new();
        let mut cur = self.first_from(empty.as_slice());
        proof {
            if es.len() > 0 {
                assert(!bytes_lt(es[0].0, empty@));
            }
            assert(first_from(es, empty@, 0) == 0);
        }
        let mut out: Vec<(Vec<u8>, u64)> = Vec::new();
        let ghost mut pos: int = 0;
        assert(pairs_view(out@) =~= es.take(0));
        loop
            invariant
                es == self.entries_view(),
                self.wf(),
                pos == out@.len(),
                0 <= pos <= es.len(),
                pos <= n,
                cur is None <==> pos == es.len(),
                cur is Some ==> es[pos] == (cur->Some_0.0@, cur->Some_0.1),
                pairs_view(out@) == es.take(pos),
            ensures
                pairs_view(out@) == es.take(
                    if n < es.len() {
                        n as int
                    } else {
                        es.len() as int
                    },
                ),
            decreases es.len() - pos,
        {
            if out.len() >= n {
                break;
            }
            match cur {
                None => {
                    break;
                },
                Some((key, value)) => {
                    let next = self.next_after(key.as_slice(), Ghost(pos));
                    out.push((key, value));
                    proof {
                        assert(pairs_view(out@) =~= es.take(pos + 1));
                        pos = pos + 1;
                    }
                    cur = next;
                },
            }
        }
        out
    }

    /// Every entry of the index, in ascending key order.
    pub fn entries(&self) -> (r: Vec<(Vec<u8>, u64)>)
        requires
            self.wf(),
        ensures
            pairs_view(r@) == self.entries_view(),
    {
        let empty: Vec<u8> = Vec::new();
        let r = self.predictive_search(empty.as_slice());
        proof {
            let es = self.entries_view();
            if es.len() > 0 {
                assert(!bytes_lt(es[0].0, empty@));
            }
            assert(first_from(es, empty@, 0) == 0);
            assert(empty@ =~= Seq::<u8>::empty());
            lemma_run_everything(es, 0);
            assert(es.subrange(0, es.len() as int) =~= es);
        }
        r
    }
}

/// Every entry of a strictly ascending entry list is found again by its key.
/// With the contracts of `build_index`, `NgramIndex::open` and
/// `NgramIndex::get`, each key inserted into a sealed index returns its value
/// once the blob is opened again.
pub proof fn lemma_round_trip(es: Seq<(Seq<u8>, u64)>, i: int)
    requires
        bytes_ascending(es),
        0 <= i < es.len(),
    ensures
        lookup(es, es[i].0) == Some(es[i].1),
    decreases es.len(),
{
    if i != es.len() - 1 {
        assert(bytes_lt(es[i].0, es[es.len() - 1].0));
        lemma_bytes_lt_irreflexive(es[i].0);
        let d = es.drop_last();
        assert(d[i] == es[i]);
        assert forall|a: int, b: int| 0 <= a < b < d.len() implies bytes_lt(
            #[trigger] d[a].0,
            #[trigger] d[b].0,
        ) by {
            assert(bytes_lt(es[a].0, es[b].0));
        }
        lemma_round_trip(d, i);
    }
}

/// In an index of the keys `p`, `p + x` and `q`, where `q` lies above the
/// other two and does not start with `p`, a predictive search for `p` yields
/// `p` and then `p + x`, and stops before `q`.
pub proof fn lemma_prefix_range(
    p: Seq<u8>,
    x: Seq<u8>,
    q: Seq<u8>,
    vp: u64,
    vx: u64,
    vq: u64,
)
    requires
        x.len() > 0,
        bytes_lt(p + x, q),
        !has_prefix(q, p),
    ensures
        prefix_run(seq![(p, vp), (p + x, vx), (q, vq)], p) == seq![(p, vp), (p + x, vx)],
{
    let es = seq![(p, vp), (p + x, vx), (q, vq)];
    lemma_bytes_lt_irreflexive(p);
    assert(first_from(es, p, 0) == 0);
    assert(p.subrange(0, p.len() as int) =~= p);
    assert((p + x).subrange(0, p.len() as int) =~= p);
    assert(run_from(es, 3, p) == Seq::<(Seq<u8>, u64)>::empty());
    assert(run_from(es, 2, p) == Seq::<(Seq<u8>, u64)>::empty());
    assert(run_from(es, 1, p) =~= seq![(p + x, vx)]);
    assert(run_from(es, 0, p) =~= seq![(p, vp), (p + x, vx)]);
}

/// Entries whose keys rise in character order rise in byte order once
/// encoded as UTF-8, so `build_index` seals them, never failing: in
/// particular the sorted output of `filter_ngrams`.
pub proof fn lemma_char_order_builds(entries: Seq<(String, u64)>)
    requires
        forall|i: int, j: int|
            0 <= i < j < entries.len() ==> key_lt(#[trigger] entries[i].0@, #[trigger] entries[j].0@),
    ensures
        bytes_ascending(entry_bytes(entries)),
{
    let es = entry_bytes(entries);
    assert forall|i: int, j: int| 0 <= i < j < es.len() implies bytes_lt(
        #[trigger] es[i].0,
        #[trigger] es[j].0,
    ) by {
        assert(key_lt(entries[i].0@, entries[j].0@));
        lemma_encoding_keeps_order(entries[i].0@, entries[j].0@);
    }
}

} // verus!
