//! The client-side session backend: an ordered key/value map that lives in
//! one cookie, bounded by the size of its serialized form.
use vstd::prelude::*;
use vstd::string::StringSliceAdditionalSpecFns;
use vstd::utf8::*;
use crate::codec::{
    append_bytes, be_bytes, be_value, decode, decode_spec, encode, encode_spec, get_be,
    kind_of, lemma_be_bytes_len, lemma_be_round_trip, lemma_value_round_trip, pow256, put_be,
    text_from_utf8, DecodeError, SessionValue, ValueKind, ValueModel,
};

verus! {

broadcast use {encode_utf8_valid_utf8, encode_utf8_decode_utf8};

/// One entry of the map's model: the key's characters and the encoded value.
pub type EntryModel = (Seq<char>, Seq<u8>);

/// A map serializes to at most this many bytes unless told otherwise.
pub const DEFAULT_MAX_SIZE: usize = 4096;

/// The largest bound a map accepts: lengths are framed in four bytes.
pub const MAX_SIZE_LIMIT: usize = 0xffff_ffff;

/// No two entries share a key.
pub open spec fn keys_unique(es: Seq<EntryModel>) -> bool {
    forall|i: int, j: int| 0 <= i < j < es.len() ==> #[trigger] es[i].0 != #[trigger] es[j].0
}

/// The position of the last entry under `k`, or -1.
pub open spec fn key_index(es: Seq<EntryModel>, k: Seq<char>) -> int
    decreases es.len(),
{
    if es.len() == 0 {
        -1
    } else if es.last().0 == k {
        es.len() - 1
    } else {
        key_index(es.drop_last(), k)
    }
}

/// The encoded value stored under `k`.
pub open spec fn lookup(es: Seq<EntryModel>, k: Seq<char>) -> Option<Seq<u8>> {
    let i = key_index(es, k);
    if i < 0 { None } else { Some(es[i].1) }
}

/// The entries as a mathematical map from key to encoded value.
pub open spec fn as_map(es: Seq<EntryModel>) -> Map<Seq<char>, Seq<u8>>
    decreases es.len(),
{
    if es.len() == 0 {
        Map::empty()
    } else {
        as_map(es.drop_last()).insert(es.last().0, es.last().1)
    }
}

/// The entries after storing `b` under `k`: an entry under `k` keeps its
/// place, a new key goes last.
pub open spec fn upsert(es: Seq<EntryModel>, k: Seq<char>, b: Seq<u8>) -> Seq<EntryModel> {
    let i = key_index(es, k);
    if i < 0 { es.push((k, b)) } else { es.update(i, (k, b)) }
}

/// The entries without the one under `k`.
pub open spec fn delete(es: Seq<EntryModel>, k: Seq<char>) -> Seq<EntryModel> {
    let i = key_index(es, k);
    if i < 0 { es } else { es.remove(i) }
}

/// The bytes of one entry: key length, key, value length, value; lengths in
/// four bytes, most significant first.
pub open spec fn entry_bytes(e: EntryModel) -> Seq<u8> {
    let kb = encode_utf8(e.0);
    be_bytes(kb.len(), 4) + kb + be_bytes(e.1.len(), 4) + e.1
}

/// The serialized form of a map: its entries' bytes in order.
pub open spec fn serialize(es: Seq<EntryModel>) -> Seq<u8>
    decreases es.len(),
{
    if es.len() == 0 {
        seq![]
    } else {
        serialize(es.drop_last()) + entry_bytes(es.last())
    }
}

/// The size of one entry's bytes.
pub open spec fn entry_size(e: EntryModel) -> nat {
    8 + encode_utf8(e.0).len() + e.1.len()
}

pub proof fn lemma_entry_size(e: EntryModel)
    ensures
        entry_bytes(e).len() == entry_size(e),
{
    lemma_be_bytes_len(encode_utf8(e.0).len(), 4);
    lemma_be_bytes_len(e.1.len(), 4);
}

/// The size of the serialized form is the sum of the entries' sizes.
pub open spec fn total_size(es: Seq<EntryModel>) -> nat
    decreases es.len(),
{
    if es.len() == 0 {
        0
    } else {
        total_size(es.drop_last()) + entry_size(es.last())
    }
}

pub proof fn lemma_serialize_len(es: Seq<EntryModel>)
    ensures
        serialize(es).len() == total_size(es),
    decreases es.len(),
{
    if es.len() > 0 {
        lemma_serialize_len(es.drop_last());
        lemma_entry_size(es.last());
    }
}

proof fn lemma_total_size_update(es: Seq<EntryModel>, i: int, e: EntryModel)
    requires
        0 <= i < es.len(),
    ensures
        total_size(es.update(i, e)) + entry_size(es[i]) == total_size(es) + entry_size(e),
    decreases es.len(),
{
    let u = es.update(i, e);
    if i < es.len() - 1 {
        assert(u.drop_last() =~= es.drop_last().update(i, e));
        lemma_total_size_update(es.drop_last(), i, e);
    } else {
        assert(u.drop_last() =~= es.drop_last());
    }
}

proof fn lemma_total_size_remove(es: Seq<EntryModel>, i: int)
    requires
        0 <= i < es.len(),
    ensures
        total_size(es.remove(i)) + entry_size(es[i]) == total_size(es),
    decreases es.len(),
{
    let r = es.remove(i);
    if i < es.len() - 1 {
        assert(r.drop_last() =~= es.drop_last().remove(i));
        lemma_total_size_remove(es.drop_last(), i);
    } else {
        assert(r =~= es.drop_last());
    }
}

proof fn lemma_entry_le_total(es: Seq<EntryModel>, i: int)
    requires
        0 <= i < es.len(),
    ensures
        entry_size(es[i]) <= total_size(es),
    decreases es.len(),
{
    if i < es.len() - 1 {
        lemma_entry_le_total(es.drop_last(), i);
    }
}

/// With unique keys, the entry found under a key is the one that holds it.
proof fn lemma_key_index(es: Seq<EntryModel>, k: Seq<char>)
    ensures
        -1 <= key_index(es, k) < es.len(),
        key_index(es, k) >= 0 ==> es[key_index(es, k)].0 == k,
        key_index(es, k) < 0 ==> forall|j: int| 0 <= j < es.len() ==> #[trigger] es[j].0 != k,
        keys_unique(es) ==> forall|j: int|
            0 <= j < es.len() && #[trigger] es[j].0 == k ==> key_index(es, k) == j,
    decreases es.len(),
{
    if es.len() > 0 {
        lemma_key_index(es.drop_last(), k);
        assert(forall|j: int| 0 <= j < es.len() - 1 ==> es.drop_last()[j] == es[j]);
    }
}

proof fn lemma_key_index_unique(es: Seq<EntryModel>, k: Seq<char>, j: int)
    requires
        keys_unique(es),
        0 <= j < es.len(),
        es[j].0 == k,
    ensures
        key_index(es, k) == j,
    decreases es.len(),
{
    if j < es.len() - 1 {
        assert(es.last().0 != k);
        let d = es.drop_last();
        assert(d[j] == es[j]);
        assert forall|x: int, y: int| 0 <= x < y < d.len() implies #[trigger] d[x].0 != #[trigger] d[y].0 by {
            assert(d[x] == es[x] && d[y] == es[y]);
        }
        lemma_key_index_unique(d, k, j);
    }
}

/// Keys stay unique under storing and deleting.
proof fn lemma_unique_kept(es: Seq<EntryModel>, k: Seq<char>, b: Seq<u8>)
    requires
        keys_unique(es),
    ensures
        keys_unique(upsert(es, k, b)),
        keys_unique(delete(es, k)),
{
    lemma_key_index(es, k);
    let i = key_index(es, k);
    let u = upsert(es, k, b);
    assert forall|x: int, y: int| 0 <= x < y < u.len() implies #[trigger] u[x].0 != #[trigger] u[y].0 by {
        if i < 0 {
            if y == es.len() {
                assert(es[x].0 != k);
            } else {
                assert(es[x].0 != es[y].0);
            }
        } else {
            if x != i && y != i {
                assert(es[x].0 != es[y].0);
            } else if x == i {
                assert(es[i].0 != es[y].0);
            } else {
                assert(es[x].0 != es[i].0);
            }
        }
    }
    let d = delete(es, k);
    if i >= 0 {
        assert forall|x: int, y: int| 0 <= x < y < d.len() implies #[trigger] d[x].0 != #[trigger] d[y].0 by {
            let x0 = if x < i { x } else { x + 1 };
            let y0 = if y < i { y } else { y + 1 };
            assert(d[x] == es[x0] && d[y] == es[y0]);
            assert(es[x0].0 != es[y0].0);
        }
    }
}

/// The map of entries holds a key exactly when the search finds one, with the
/// value of the entry found.
proof fn lemma_as_map_index(es: Seq<EntryModel>, k: Seq<char>)
    ensures
        as_map(es).contains_key(k) <==> key_index(es, k) >= 0,
        as_map(es).contains_key(k) ==> as_map(es)[k] == es[key_index(es, k)].1,
    decreases es.len(),
{
    if es.len() > 0 {
        lemma_as_map_index(es.drop_last(), k);
        lemma_key_index(es.drop_last(), k);
    }
}

/// With unique keys, the map of entries holds a key exactly when some entry
/// does, with that entry's value.
proof fn lemma_as_map_entry(es: Seq<EntryModel>, k: Seq<char>, j: int)
    requires
        keys_unique(es),
        0 <= j < es.len(),
        es[j].0 == k,
    ensures
        as_map(es).contains_key(k),
        as_map(es)[k] == es[j].1,
{
    lemma_as_map_index(es, k);
    lemma_key_index_unique(es, k, j);
}

proof fn lemma_as_map_absent(es: Seq<EntryModel>, k: Seq<char>)
    requires
        forall|j: int| 0 <= j < es.len() ==> #[trigger] es[j].0 != k,
    ensures
        !as_map(es).contains_key(k),
{
    lemma_as_map_index(es, k);
    lemma_key_index(es, k);
}

/// The entries behave as a reference map under the operations: storing is
/// a map insert, deleting a map remove, and a lookup a map read.
pub proof fn law_reference_map(es: Seq<EntryModel>, k: Seq<char>, b: Seq<u8>)
    requires
        keys_unique(es),
    ensures
        as_map(Seq::<EntryModel>::empty()) == Map::<Seq<char>, Seq<u8>>::empty(),
        as_map(upsert(es, k, b)) == as_map(es).insert(k, b),
        as_map(delete(es, k)) == as_map(es).remove(k),
        lookup(es, k) == (if as_map(es).contains_key(k) {
            Some(as_map(es)[k])
        } else {
            None
        }),
{
    lemma_as_map_index(es, k);
    lemma_key_index(es, k);
    lemma_unique_kept(es, k, b);
    let i = key_index(es, k);
    let u = upsert(es, k, b);
    let d = delete(es, k);
    let m = as_map(es);
    if i < 0 {
        assert(u.drop_last() =~= es);
        assert(d == es);
        assert(m.remove(k) =~= m);
    } else {
        assert forall|k2: Seq<char>| #[trigger] as_map(u).contains_key(k2) == m.insert(
            k,
            b,
        ).contains_key(k2) && (as_map(u).contains_key(k2) ==> as_map(u)[k2] == m.insert(k, b)[k2]) by {
            if k2 == k {
                lemma_as_map_entry(u, k, i);
            } else {
                lemma_key_index(es, k2);
                lemma_key_index(u, k2);
                if key_index(es, k2) >= 0 {
                    let j = key_index(es, k2);
                    assert(u[j] == es[j]);
                    lemma_as_map_entry(es, k2, j);
                    lemma_as_map_entry(u, k2, j);
                } else {
                    assert forall|j: int| 0 <= j < u.len() implies #[trigger] u[j].0 != k2 by {
                        if j != i {
                            assert(u[j] == es[j]);
                        }
                    }
                    lemma_as_map_absent(u, k2);
                    lemma_as_map_absent(es, k2);
                }
            }
        }
        assert(as_map(u) =~= m.insert(k, b));
        assert forall|k2: Seq<char>| #[trigger] as_map(d).contains_key(k2) == m.remove(
            k,
        ).contains_key(k2) && (as_map(d).contains_key(k2) ==> as_map(d)[k2] == m.remove(k)[k2]) by {
            if k2 == k {
                assert forall|j: int| 0 <= j < d.len() implies #[trigger] d[j].0 != k2 by {
                    let j0 = if j < i { j } else { j + 1 };
                    assert(d[j] == es[j0]);
                    assert(es[j0].0 != es[i].0);
                }
                lemma_as_map_absent(d, k2);
            } else {
                lemma_key_index(es, k2);
                if key_index(es, k2) >= 0 {
                    let j = key_index(es, k2);
                    let j1 = if j < i { j } else { j - 1 };
                    assert(d[j1] == es[j]);
                    lemma_as_map_entry(es, k2, j);
                    lemma_as_map_entry(d, k2, j1);
                } else {
                    assert forall|j: int| 0 <= j < d.len() implies #[trigger] d[j].0 != k2 by {
                        let j0 = if j < i { j } else { j + 1 };
                        assert(d[j] == es[j0]);
                    }
                    lemma_as_map_absent(d, k2);
                    lemma_as_map_absent(es, k2);
                }
            }
        }
        assert(as_map(d) =~= m.remove(k));
    }
}

/// Reading back a stored value under its own kind gives the value; under
/// another kind the read fails with a wrong-kind error, not a missing key.
pub proof fn law_insert_then_read(es: Seq<EntryModel>, k: Seq<char>, v: ValueModel, kind: ValueKind)
    requires
        keys_unique(es),
    ensures
        kind == kind_of(v) ==> read_spec(upsert(es, k, encode_spec(v)), k, kind) == Ok::<
            Option<ValueModel>,
            CookieMapError,
        >(Some(v)),
        kind != kind_of(v) ==> read_spec(upsert(es, k, encode_spec(v)), k, kind) == Err::<
            Option<ValueModel>,
            CookieMapError,
        >(CookieMapError::Decode(DecodeError::WrongKind)),
{
    let b = encode_spec(v);
    lemma_unique_kept(es, k, b);
    lemma_key_index(es, k);
    let u = upsert(es, k, b);
    let i = if key_index(es, k) < 0 { es.len() as int } else { key_index(es, k) };
    assert(u[i] == (k, b));
    lemma_key_index_unique(u, k, i);
    lemma_value_round_trip(v, kind);
}

/// Reading, storing, and deleting under one key leave other keys alone.
pub proof fn law_other_keys(es: Seq<EntryModel>, k: Seq<char>, k2: Seq<char>, b: Seq<u8>)
    requires
        keys_unique(es),
        k != k2,
    ensures
        lookup(upsert(es, k, b), k2) == lookup(es, k2),
        lookup(delete(es, k), k2) == lookup(es, k2),
{
    law_reference_map(es, k, b);
    lemma_unique_kept(es, k, b);
    law_reference_map(upsert(es, k, b), k2, b);
    law_reference_map(delete(es, k), k2, b);
    law_reference_map(es, k2, b);
}

/// A well-formed map parses back from its serialized form to the same
/// entries, and the parse accepts it under the map's bound.
pub proof fn law_serialize_round_trip(m: &CookieMap)
    requires
        m.wf(),
    ensures
        parse_spec(serialize(m@)) == Some(m@),
        serialize(m@).len() <= m.bound(),
        keys_unique(m@),
{
    let es = m@;
    assert forall|i: int| 0 <= i < es.len() implies entry_size(#[trigger] es[i]) <= MAX_SIZE_LIMIT by {
        lemma_entry_le_total(es, i);
    }
    lemma_parse_serialize(es);
    lemma_serialize_len(es);
}

/// Why a cookie map operation failed.
#[derive(Debug, Clone, Copy, PartialEq, Eq, Structural)]
pub enum CookieMapError {
    /// The map would serialize to more bytes than its bound allows.
    TooLarge,
    /// The stored bytes could not be read as the requested kind of value.
    Decode(DecodeError),
}

/// What reading the value under a key as kind `kind` gives.
pub open spec fn read_spec(es: Seq<EntryModel>, k: Seq<char>, kind: ValueKind) -> Result<
    Option<ValueModel>,
    CookieMapError,
> {
    match lookup(es, k) {
        None => Ok(None),
        Some(b) => match decode_spec(b, kind) {
            Ok(v) => Ok(Some(v)),
            Err(e) => Err(CookieMapError::Decode(e)),
        },
    }
}

/// The view of a read's result.
pub open spec fn read_view(r: Result<Option<SessionValue>, CookieMapError>) -> Result<
    Option<ValueModel>,
    CookieMapError,
> {
    match r {
        Ok(Some(v)) => Ok(Some(v@)),
        Ok(None) => Ok(None),
        Err(e) => Err(e),
    }
}

/// The model of stored entries.
pub open spec fn entries_view(v: Seq<(String, Vec<u8>)>) -> Seq<EntryModel> {
    v.map_values(|e: (String, Vec<u8>)| (e.0@, e.1@))
}

/// What parsing `b` as a serialized map gives: the entries in order, or
/// nothing when `b` is not a sequence of well-framed entries with UTF-8 keys.
pub open spec fn parse_spec(b: Seq<u8>) -> Option<Seq<EntryModel>>
    decreases b.len(),
{
    if b.len() == 0 {
        Some(seq![])
    } else if b.len() < 8 {
        None
    } else {
        let kl = be_value(b.subrange(0, 4)) as int;
        if b.len() < 8 + kl {
            None
        } else {
            let kb = b.subrange(4, 4 + kl);
            let vl = be_value(b.subrange(4 + kl, 8 + kl)) as int;
            if b.len() < 8 + kl + vl || !valid_utf8(kb) {
                None
            } else {
                match parse_spec(b.subrange(8 + kl + vl, b.len() as int)) {
                    Some(rest) => Some(seq![(decode_utf8(kb), b.subrange(8 + kl, 8 + kl + vl))] + rest),
                    None => None,
                }
            }
        }
    }
}

/// `acc` followed by the parsed entries, if parsing succeeded.
pub open spec fn prepend(acc: Seq<EntryModel>, o: Option<Seq<EntryModel>>) -> Option<Seq<EntryModel>> {
    match o {
        Some(r) => Some(acc + r),
        None => None,
    }
}

proof fn lemma_serialize_front(es: Seq<EntryModel>)
    requires
        es.len() > 0,
    ensures
        serialize(es) == entry_bytes(es[0]) + serialize(es.drop_first()),
        total_size(es) == entry_size(es[0]) + total_size(es.drop_first()),
    decreases es.len(),
{
    if es.len() == 1 {
        assert(es.drop_first() =~= Seq::<EntryModel>::empty());
        assert(es.drop_last() =~= Seq::<EntryModel>::empty());
        assert(serialize(es.drop_last()) =~= Seq::<u8>::empty());
        assert(serialize(es.drop_first()) =~= Seq::<u8>::empty());
        assert(es.last() == es[0]);
        assert(serialize(es) =~= entry_bytes(es[0]) + serialize(es.drop_first()));
    } else {
        let dl = es.drop_last();
        lemma_serialize_front(dl);
        assert(es.drop_first().drop_last() =~= dl.drop_first());
        assert(es.drop_first().last() == es.last());
        assert(dl[0] == es[0]);
        assert(serialize(es) =~= entry_bytes(es[0]) + serialize(es.drop_first()));
    }
    lemma_serialize_len(es);
    lemma_serialize_len(es.drop_first());
    lemma_entry_size(es[0]);
}

/// Parsing the serialized form of entries whose lengths fit their frames
/// gives back the entries.
proof fn lemma_parse_serialize(es: Seq<EntryModel>)
    requires
        forall|i: int| 0 <= i < es.len() ==> entry_size(#[trigger] es[i]) <= MAX_SIZE_LIMIT,
    ensures
        parse_spec(serialize(es)) == Some(es),
    decreases es.len(),
{
    if es.len() == 0 {
        assert(serialize(es) =~= Seq::<u8>::empty());
    } else {
        lemma_serialize_front(es);
        let e = es[0];
        let tail = es.drop_first();
        assert forall|i: int| 0 <= i < tail.len() implies entry_size(#[trigger] tail[i]) <= MAX_SIZE_LIMIT by {
            assert(tail[i] == es[i + 1]);
        }
        lemma_parse_serialize(tail);
        let kb = encode_utf8(e.0);
        let kl = kb.len() as int;
        let vl = e.1.len() as int;
        assert(entry_size(es[0]) <= MAX_SIZE_LIMIT);
        lemma_pow4();
        lemma_be_round_trip(kb.len(), 4);
        lemma_be_round_trip(e.1.len(), 4);
        let b = serialize(es);
        assert(b =~= be_bytes(kb.len(), 4) + kb + be_bytes(e.1.len(), 4) + e.1 + serialize(tail));
        assert(b.subrange(0, 4) =~= be_bytes(kb.len(), 4));
        assert(b.subrange(4, 4 + kl) =~= kb);
        assert(b.subrange(4 + kl, 8 + kl) =~= be_bytes(e.1.len(), 4));
        assert(b.subrange(8 + kl, 8 + kl + vl) =~= e.1);
        assert(b.subrange(8 + kl + vl, b.len() as int) =~= serialize(tail));
        assert(seq![e] + tail =~= es);
    }
}

/// The entries that parsing gives serialize to as many bytes as were parsed.
proof fn lemma_parse_size(b: Seq<u8>)
    requires
        parse_spec(b) is Some,
    ensures
        total_size(parse_spec(b)->0) == b.len(),
    decreases b.len(),
{
    let es = parse_spec(b)->0;
    if b.len() > 0 {
        let kl = be_value(b.subrange(0, 4)) as int;
        let kb = b.subrange(4, 4 + kl);
        let vl = be_value(b.subrange(4 + kl, 8 + kl)) as int;
        let c = b.subrange(8 + kl + vl, b.len() as int);
        lemma_parse_size(c);
        decode_utf8_encode_utf8(kb);
        lemma_serialize_front(es);
        assert(es.drop_first() =~= parse_spec(c)->0);
    } else {
        assert(es =~= Seq::<EntryModel>::empty());
    }
}

proof fn lemma_pow4()
    ensures
        pow256(4) == MAX_SIZE_LIMIT + 1,
{
    reveal_with_fuel(pow256, 5);
}

/// A session map held in the client's cookie.
pub struct CookieMap {
    entries: Vec<(String, Vec<u8>)>,
    max_size: usize,
}

impl View for CookieMap {
    type V = Seq<EntryModel>;

    closed spec fn view(&self) -> Seq<EntryModel> {
        entries_view(self.entries@)
    }
}

impl CookieMap {
    /// The bound on the size of the serialized form.
    pub closed spec fn bound(&self) -> nat {
        self.max_size as nat
    }

    /// Keys are unique and the serialized form fits the bound.
    pub open spec fn wf(&self) -> bool {
        keys_unique(self@) && total_size(self@) <= self.bound() && self.bound() <= MAX_SIZE_LIMIT
    }

    /// An empty map whose serialized form may take up to `max_size` bytes.
    pub fn new(max_size: usize) -> (m: CookieMap)
        requires
            max_size <= MAX_SIZE_LIMIT,
        ensures
            m.wf(),
            m@ == Seq::<EntryModel>::empty(),
            m.bound() == max_size,
    {
        let m = CookieMap { entries: Vec::new(), max_size };
        assert(m@ =~= Seq::<EntryModel>::empty());
        m
    }

    /// The bound on the size of the serialized form.
    pub fn max_size(&self) -> (r: usize)
        ensures
            r == self.bound(),
    {
        self.max_size
    }

    /// The number of entries.
    pub fn len(&self) -> (r: usize)
        ensures
            r == self@.len(),
    {
        self.entries.len()
    }

    /// The position of the entry under `key`, if any.
    fn find(&self, key: &str) -> (r: Option<usize>)
        requires
            keys_unique(self@),
        ensures
            match r {
                Some(i) => key_index(self@, key@) == i && i < self@.len() && self@.len()
                    == self.entries@.len(),
                None => key_index(self@, key@) == -1,
            },
    {
        proof {
            lemma_key_index(self@, key@);
        }
        let k = key.to_owned();
        let mut i: usize = 0;
        while i < self.entries.len()
            invariant
                keys_unique(self@),
                i <= self@.len(),
                self@.len() == self.entries@.len(),
                k@ == key@,
                forall|j: int| 0 <= j < i ==> #[trigger] self@[j].0 != key@,
            decreases self.entries@.len() - i,
        {
            if self.entries[i].0 == k {
                assert(self@[i as int].0 == key@);
                proof {
                    lemma_key_index_unique(self@, key@, i as int);
                }
                return Some(i);
            }
            i = i + 1;
        }
        None
    }

    /// Reads the value under `key` as a value of kind `kind`: `Ok(None)` when
    /// no entry holds the key, an error when the stored bytes are not a value
    /// of that kind.
    pub fn get(&self, key: &str, kind: ValueKind) -> (r: Result<Option<SessionValue>, CookieMapError>)
        requires
            self.wf(),
        ensures
            read_view(r) == read_spec(self@, key@, kind),
    {
        match self.find(key) {
            None => Ok(None),
            Some(i) => {
                let b = &self.entries[i].1;
                assert(b@ == self@[i as int].1);
                match decode(b.as_slice(), kind) {
                    Ok(v) => Ok(Some(v)),
                    Err(e) => Err(CookieMapError::Decode(e)),
                }
            },
        }
    }

    /// Stores `value` under `key`, replacing an earlier entry under it. Fails,
    /// leaving the map as it was, when the map would then serialize to more
    /// bytes than its bound.
    pub fn insert(&mut self, key: &str, value: &SessionValue) -> (r: Result<(), CookieMapError>)
        requires
            old(self).wf(),
        ensures
            final(self).wf(),
            final(self).bound() == old(self).bound(),
            r is Ok <==> total_size(upsert(old(self)@, key@, encode_spec(value@))) <= old(
                self,
            ).bound(),
            r is Ok ==> final(self)@ == upsert(old(self)@, key@, encode_spec(value@)),
            r is Err ==> final(self)@ == old(self)@ && r == Err::<(), CookieMapError>(
                CookieMapError::TooLarge,
            ),
    {
        let b = encode(value);
        let ghost es = self@;
        let ghost e: EntryModel = (key@, b@);
        let current = self.total_size();
        let idx = self.find(key);
        let freed: usize = match idx {
            None => 0,
            Some(i) => {
                proof {
                    lemma_entry_le_total(es, i as int);
                }
                let f = self.entries[i].0.as_str().as_bytes().len() + self.entries[i].1.len() + 8;
                assert(f == entry_size(es[i as int]));
                f
            },
        };
        // the size of the map without the replaced entry
        let rest = current - freed;
        let room = self.max_size - rest;
        let kl = key.as_bytes().len();
        let vl = b.len();
        proof {
            lemma_key_index(es, key@);
            match idx {
                None => {
                    assert(es.push(e).drop_last() =~= es);
                    assert(total_size(upsert(es, key@, b@)) == total_size(es) + entry_size(e));
                },
                Some(i) => {
                    lemma_total_size_update(es, i as int, e);
                },
            }
            assert(total_size(upsert(es, key@, b@)) == rest + entry_size(e));
            assert(entry_size(e) == kl + vl + 8);
        }
        if kl > room || vl > room - kl || 8 > room - kl - vl {
            return Err(CookieMapError::TooLarge);
        }
        proof {
            lemma_unique_kept(es, key@, b@);
        }
        match idx {
            None => {
                self.entries.push((key.to_owned(), b));
                assert(self@ =~= upsert(es, key@, encode_spec(value@)));
            },
            Some(i) => {
                self.entries.remove(i);
                self.entries.insert(i, (key.to_owned(), b));
                assert(self@ =~= upsert(es, key@, encode_spec(value@)));
            },
        }
        Ok(())
    }

    /// Removes the entry under `key` and reads its value as kind `kind`: the
    /// entry goes even when its bytes are not a value of that kind, and the
    /// read then fails.
    pub fn remove(&mut self, key: &str, kind: ValueKind) -> (r: Result<
        Option<SessionValue>,
        CookieMapError,
    >)
        requires
            old(self).wf(),
        ensures
            final(self).wf(),
            final(self).bound() == old(self).bound(),
            final(self)@ == delete(old(self)@, key@),
            read_view(r) == read_spec(old(self)@, key@, kind),
    {
        let ghost es = self@;
        proof {
            lemma_unique_kept(es, key@, seq![]);
        }
        match self.find(key) {
            None => {
                Ok(None)
            },
            Some(i) => {
                let (_, b) = self.entries.remove(i);
                proof {
                    lemma_total_size_remove(es, i as int);
                }
                assert(self@ =~= delete(es, key@));
                match decode(b.as_slice(), kind) {
                    Ok(v) => Ok(Some(v)),
                    Err(e) => Err(CookieMapError::Decode(e)),
                }
            },
        }
    }

    /// Removes every entry.
    pub fn clear(&mut self)
        requires
            old(self).wf(),
        ensures
            final(self).wf(),
            final(self).bound() == old(self).bound(),
            final(self)@ == Seq::<EntryModel>::empty(),
    {
        self.entries.clear();
        assert(self@ =~= Seq::<EntryModel>::empty());
    }

    /// The size in bytes of the serialized form.
    pub fn total_size(&self) -> (r: usize)
        requires
            self.wf(),
        ensures
            r == total_size(self@),
    {
        let mut sum: usize = 0;
        let mut i: usize = 0;
        while i < self.entries.len()
            invariant
                self.wf(),
                i <= self@.len(),
                self@.len() == self.entries@.len(),
                sum == total_size(self@.subrange(0, i as int)),
            decreases self.entries@.len() - i,
        {
            proof {
                let s = self@.subrange(0, i + 1);
                assert(s.drop_last() =~= self@.subrange(0, i as int));
                assert(s.last() == self@[i as int]);
                lemma_total_size_prefix(self@, i + 1);
            }
            sum = sum + self.entries[i].0.as_str().as_bytes().len() + self.entries[i].1.len() + 8;
            i = i + 1;
        }
        assert(self@.subrange(0, i as int) =~= self@);
        sum
    }
    /// The serialized form: each entry in order as key length, key, value
    /// length, value, with lengths in four bytes, most significant first.
    pub fn to_bytes(&self) -> (r: Vec<u8>)
        requires
            self.wf(),
        ensures
            r@ == serialize(self@),
            r@.len() <= self.bound(),
    {
        let mut out: Vec<u8> = Vec::new();
        let mut i: usize = 0;
        while i < self.entries.len()
            invariant
                self.wf(),
                i <= self@.len(),
                self@.len() == self.entries@.len(),
                out@ == serialize(self@.subrange(0, i as int)),
            decreases self.entries@.len() - i,
        {
            let key = self.entries[i].0.as_str().as_bytes();
            let value = &self.entries[i].1;
            proof {
                lemma_entry_le_total(self@, i as int);
            }
            put_be(key.len() as u64, 4, &mut out);
            append_bytes(&mut out, key);
            put_be(value.len() as u64, 4, &mut out);
            append_bytes(&mut out, value.as_slice());
            proof {
                let s = self@.subrange(0, i + 1);
                assert(s.drop_last() =~= self@.subrange(0, i as int));
                assert(s.last() == self@[i as int]);
                assert(out@ =~= serialize(s));
            }
            i = i + 1;
        }
        assert(self@.subrange(0, i as int) =~= self@);
        proof {
            lemma_serialize_len(self@);
        }
        out
    }

    /// Parses a serialized map. Gives nothing when `b` is longer than
    /// `max_size`, is not a sequence of well-framed entries with UTF-8 keys,
    /// or holds a key twice.
    pub fn from_bytes(b: &[u8], max_size: usize) -> (r: Option<CookieMap>)
        requires
            max_size <= MAX_SIZE_LIMIT,
        ensures
            r is Some <==> b@.len() <= max_size && parse_spec(b@) is Some && keys_unique(
                parse_spec(b@)->0,
            ),
            r matches Some(m) ==> m.wf() && m.bound() == max_size && m@ == parse_spec(b@)->0,
    {
        let n = b.len();
        if n > max_size {
            return None;
        }
        let mut entries: Vec<(String, Vec<u8>)> = Vec::new();
        let mut pos: usize = 0;
        proof {
            assert(entries_view(entries@) + parse_spec(b@.subrange(0, n as int))->0 =~= parse_spec(
                b@.subrange(0, n as int),
            )->0);
            assert(b@.subrange(0, n as int) =~= b@);
        }
        while pos < n
            invariant
                n == b@.len(),
                n <= max_size <= MAX_SIZE_LIMIT,
                pos <= n,
                keys_unique(entries_view(entries@)),
                parse_spec(b@) == prepend(
                    entries_view(entries@),
                    parse_spec(b@.subrange(pos as int, n as int)),
                ),
            decreases n - pos,
        {
            let ghost c = b@.subrange(pos as int, n as int);
            let ghost acc = entries_view(entries@);
            if n - pos < 8 {
                return None;
            }
            let kl = get_be(b, pos, 4);
            assert(b@.subrange(pos as int, pos + 4) =~= c.subrange(0, 4));
            let rem: usize = n - pos;
            if kl > (rem - 8) as u64 {
                return None;
            }
            let kl = kl as usize;
            let kstart = pos + 4;
            let vstart = kstart + kl + 4;
            let vl = get_be(b, kstart + kl, 4);
            assert(b@.subrange(kstart + kl, vstart as int) =~= c.subrange(4 + kl, 8 + kl));
            if vl > (rem - 8 - kl) as u64 {
                return None;
            }
            let vl = vl as usize;
            let kbytes = vstd::slice::slice_subrange(b, kstart, kstart + kl);
            assert(kbytes@ =~= c.subrange(4, 4 + kl));
            let key = match text_from_utf8(kbytes) {
                Some(k) => k,
                None => {
                    return None;
                },
            };
            let mut value: Vec<u8> = Vec::new();
            append_bytes(&mut value, vstd::slice::slice_subrange(b, vstart, vstart + vl));
            assert(value@ =~= c.subrange(8 + kl, 8 + kl + vl));
            let next = vstart + vl;
            assert(b@.subrange(next as int, n as int) =~= c.subrange(8 + kl + vl, c.len() as int));
            let ghost e: EntryModel = (key@, value@);
            assert(parse_spec(c) == prepend(seq![e], parse_spec(b@.subrange(next as int, n as int))));
            let mut j: usize = 0;
            while j < entries.len()
                invariant
                    j <= entries@.len(),
                    n == b@.len(),
                    pos <= next <= n,
                    c == b@.subrange(pos as int, n as int),
                    parse_spec(b@) == prepend(acc, parse_spec(c)),
                    parse_spec(c) == prepend(seq![e], parse_spec(b@.subrange(next as int, n as int))),
                    e == (key@, value@),
                    acc == entries_view(entries@),
                    forall|x: int| 0 <= x < j ==> #[trigger] acc[x].0 != key@,
                decreases entries@.len() - j,
            {
                if entries[j].0 == key {
                    proof {
                        match parse_spec(b@.subrange(next as int, n as int)) {
                            Some(rest) => {
                                let all = acc + (seq![e] + rest);
                                assert(all[j as int] == acc[j as int]);
                                assert(all[acc.len() as int] == e);
                                assert(parse_spec(b@) == Some(all));
                                assert(acc[j as int].0 == key@);
                                assert(all[j as int].0 == all[acc.len() as int].0);
                                assert(!keys_unique(all));
                            },
                            None => {},
                        }
                    }
                    return None;
                }
                j = j + 1;
            }
            entries.push((key, value));
            proof {
                let acc2 = entries_view(entries@);
                assert(acc2 =~= acc.push(e));
                assert forall|x: int, y: int| 0 <= x < y < acc2.len() implies #[trigger] acc2[x].0
                    != #[trigger] acc2[y].0 by {
                    if y < acc.len() {
                        assert(acc[x].0 != acc[y].0);
                    }
                }
                match parse_spec(b@.subrange(next as int, n as int)) {
                    Some(rest) => {
                        assert(acc + (seq![e] + rest) =~= acc2 + rest);
                    },
                    None => {},
                }
            }
            pos = next;
        }
        assert(b@.subrange(pos as int, n as int) =~= Seq::<u8>::empty());
        assert(entries_view(entries@) + Seq::<EntryModel>::empty() =~= entries_view(entries@));
        let m = CookieMap { entries, max_size };
        proof {
            lemma_parse_size(b@);
        }
        Some(m)
    }
}

proof fn lemma_total_size_prefix(es: Seq<EntryModel>, n: int)
    requires
        0 <= n <= es.len(),
    ensures
        total_size(es.subrange(0, n)) <= total_size(es),
    decreases es.len(),
{
    if n < es.len() {
        assert(es.drop_last().subrange(0, n) =~= es.subrange(0, n));
        lemma_total_size_prefix(es.drop_last(), n);
    } else {
        assert(es.subrange(0, n) =~= es);
    }
}

} // verus!
