//! The in-memory store: three independent keyspaces (strings, hashes,
//! sets), each an association list from binary-safe keys to values, with
//! every operation a single atomic action on one key.
#![allow(unused_imports)]

use vstd::prelude::*;
use vstd::slice::slice_to_vec;

use crate::resp::frame::{clone_frame, fview, fview_seq, RespFrame};
use crate::resp::order::{
    cmp_frame, lemma_cmp_frame_basic, sorted_frames, sorted_insert_frame,
};
use crate::resp::set::RespSet;
use crate::resp::wire::{wf, FrameV};

verus! {

// ------------------------------------------------------------------
// Association-list model
// ------------------------------------------------------------------

/// The value stored under `k`, if any: the first matching entry.
pub open spec fn assoc_get<V>(m: Seq<(Seq<u8>, V)>, k: Seq<u8>) -> Option<V>
    decreases m.len(),
{
    if m.len() == 0 {
        Option::None
    } else if m[0].0 == k {
        Option::Some(m[0].1)
    } else {
        assoc_get(m.drop_first(), k)
    }
}

/// The store with `k` bound to `v`: the first matching entry replaced, or
/// a new entry appended.
pub open spec fn assoc_set<V>(m: Seq<(Seq<u8>, V)>, k: Seq<u8>, v: V) -> Seq<(Seq<u8>, V)>
    decreases m.len(),
{
    if m.len() == 0 {
        seq![(k, v)]
    } else if m[0].0 == k {
        seq![(k, v)] + m.drop_first()
    } else {
        seq![m[0]] + assoc_set(m.drop_first(), k, v)
    }
}

/// Setting a key then reading it yields the value just set; other keys
/// are untouched.
pub proof fn lemma_assoc_set_get<V>(m: Seq<(Seq<u8>, V)>, k: Seq<u8>, v: V, other: Seq<u8>)
    ensures
        assoc_get(assoc_set(m, k, v), k) == Option::Some(v),
        other != k ==> assoc_get(assoc_set(m, k, v), other) == assoc_get(m, other),
    decreases m.len(),
{
    if m.len() == 0 {
        let r = assoc_set(m, k, v);
        assert(r.drop_first() =~= Seq::<(Seq<u8>, V)>::empty());
        assert(r[0] == (k, v));
        if other != k {
            assert(assoc_get(r, other) == assoc_get(r.drop_first(), other));
            assert(assoc_get(r.drop_first(), other) is None);
        }
    } else if m[0].0 == k {
        let r = assoc_set(m, k, v);
        assert(r[0] == (k, v));
        assert(r.drop_first() =~= m.drop_first());
        if other != k {
            assert(assoc_get(r, other) == assoc_get(r.drop_first(), other));
            assert(assoc_get(m, other) == assoc_get(m.drop_first(), other));
        }
    } else {
        lemma_assoc_set_get(m.drop_first(), k, v, other);
        let r = assoc_set(m, k, v);
        assert(r[0] == m[0]);
        assert(r.drop_first() =~= assoc_set(m.drop_first(), k, v));
        if other != k {
            if m[0].0 == other {
                assert(assoc_get(r, other) == Option::Some(r[0].1));
                assert(assoc_get(m, other) == Option::Some(m[0].1));
            } else {
                assert(assoc_get(r, other) == assoc_get(r.drop_first(), other));
                assert(assoc_get(m, other) == assoc_get(m.drop_first(), other));
            }
        }
    }
}

/// Where the key scan stopped determines what the get and the set mean.
proof fn lemma_assoc_at<V>(m: Seq<(Seq<u8>, V)>, k: Seq<u8>, v: V, j: int)
    requires
        0 <= j <= m.len(),
        forall|l: int| 0 <= l < j ==> (#[trigger] m[l]).0 != k,
        j < m.len() ==> m[j].0 == k,
    ensures
        assoc_get(m, k) == if j < m.len() {
            Option::Some(m[j].1)
        } else {
            Option::None
        },
        assoc_set(m, k, v) == if j < m.len() {
            m.update(j, (k, v))
        } else {
            m.push((k, v))
        },
    decreases j,
{
    if j == 0 {
        if m.len() == 0 {
            assert(assoc_set(m, k, v) =~= m.push((k, v)));
        } else {
            assert(m[0] == m[0int]);
            assert(seq![(k, v)] + m.drop_first() =~= m.update(0, (k, v)));
        }
    } else {
        assert(m[0] == m[0int]);
        assert(m[0].0 != k);
        let d = m.drop_first();
        assert forall|l: int| 0 <= l < j - 1 implies (#[trigger] d[l]).0 != k by {
            assert(d[l] == m[l + 1]);
        }
        if j - 1 < d.len() {
            assert(d[j - 1] == m[j]);
        }
        lemma_assoc_at(d, k, v, j - 1);
        if j < m.len() {
            assert(d[j - 1] == m[j]);
            assert(seq![m[0]] + d.update(j - 1, (k, v)) =~= m.update(j, (k, v)));
        } else {
            assert(seq![m[0]] + d.push((k, v)) =~= m.push((k, v)));
        }
    }
}

// ------------------------------------------------------------------
// Views of the executable keyspaces
// ------------------------------------------------------------------

/// The spec value of the string keyspace.
pub open spec fn kvs_view(s: Seq<(Vec<u8>, RespFrame)>) -> Seq<(Seq<u8>, FrameV)>
    decreases s.len(),
{
    if s.len() == 0 {
        Seq::empty()
    } else {
        seq![(s[0].0@, fview(s[0].1))] + kvs_view(s.drop_first())
    }
}

/// `kvs_view` keeps the length.
pub broadcast proof fn lemma_kvs_view_len(s: Seq<(Vec<u8>, RespFrame)>)
    ensures
        (#[trigger] kvs_view(s)).len() == s.len(),
    decreases s.len(),
{
    if s.len() > 0 {
        lemma_kvs_view_len(s.drop_first());
    }
}

/// `kvs_view` is the entry-wise view.
pub broadcast proof fn lemma_kvs_view_index(s: Seq<(Vec<u8>, RespFrame)>, i: int)
    requires
        0 <= i < s.len(),
    ensures
        #[trigger] kvs_view(s)[i] == (s[i].0@, fview(s[i].1)),
    decreases s.len(),
{
    lemma_kvs_view_len(s);
    if i > 0 {
        lemma_kvs_view_index(s.drop_first(), i - 1);
    }
}

/// The spec value of the hash keyspace.
pub open spec fn hkvs_view(s: Seq<(Vec<u8>, Vec<(Vec<u8>, RespFrame)>)>) -> Seq<
    (Seq<u8>, Seq<(Seq<u8>, FrameV)>),
>
    decreases s.len(),
{
    if s.len() == 0 {
        Seq::empty()
    } else {
        seq![(s[0].0@, kvs_view(s[0].1@))] + hkvs_view(s.drop_first())
    }
}

/// `hkvs_view` keeps the length.
pub broadcast proof fn lemma_hkvs_view_len(s: Seq<(Vec<u8>, Vec<(Vec<u8>, RespFrame)>)>)
    ensures
        (#[trigger] hkvs_view(s)).len() == s.len(),
    decreases s.len(),
{
    if s.len() > 0 {
        lemma_hkvs_view_len(s.drop_first());
    }
}

/// `hkvs_view` is the entry-wise view.
pub broadcast proof fn lemma_hkvs_view_index(s: Seq<(Vec<u8>, Vec<(Vec<u8>, RespFrame)>)>, i: int)
    requires
        0 <= i < s.len(),
    ensures
        #[trigger] hkvs_view(s)[i] == (s[i].0@, kvs_view(s[i].1@)),
    decreases s.len(),
{
    lemma_hkvs_view_len(s);
    if i > 0 {
        lemma_hkvs_view_index(s.drop_first(), i - 1);
    }
}

/// The spec value of the set keyspace.
pub open spec fn skvs_view(s: Seq<(Vec<u8>, RespSet)>) -> Seq<(Seq<u8>, Seq<FrameV>)>
    decreases s.len(),
{
    if s.len() == 0 {
        Seq::empty()
    } else {
        seq![(s[0].0@, fview_seq(s[0].1.0@))] + skvs_view(s.drop_first())
    }
}

/// `skvs_view` keeps the length.
pub broadcast proof fn lemma_skvs_view_len(s: Seq<(Vec<u8>, RespSet)>)
    ensures
        (#[trigger] skvs_view(s)).len() == s.len(),
    decreases s.len(),
{
    if s.len() > 0 {
        lemma_skvs_view_len(s.drop_first());
    }
}

/// `skvs_view` is the entry-wise view.
pub broadcast proof fn lemma_skvs_view_index(s: Seq<(Vec<u8>, RespSet)>, i: int)
    requires
        0 <= i < s.len(),
    ensures
        #[trigger] skvs_view(s)[i] == (s[i].0@, fview_seq(s[i].1.0@)),
    decreases s.len(),
{
    lemma_skvs_view_len(s);
    if i > 0 {
        lemma_skvs_view_index(s.drop_first(), i - 1);
    }
}

// ------------------------------------------------------------------
// The store
// ------------------------------------------------------------------

/// Spec value of the whole store.
pub struct StoreV {
    pub strings: Seq<(Seq<u8>, FrameV)>,
    pub hashes: Seq<(Seq<u8>, Seq<(Seq<u8>, FrameV)>)>,
    pub sets: Seq<(Seq<u8>, Seq<FrameV>)>,
}

/// Every stored frame is well formed, and every stored set is strictly
/// ascending.
pub open spec fn store_wf(s: StoreV) -> bool {
    &&& forall|i: int| 0 <= i < s.strings.len() ==> wf((#[trigger] s.strings[i]).1)
    &&& forall|i: int, j: int|
        0 <= i < s.hashes.len() && 0 <= j < s.hashes[i].1.len() ==> wf(
            (#[trigger] s.hashes[i].1[j]).1,
        ) && s.hashes[i].1[j].0.len() <= 0x7fff_ffff_ffff_ffff
    &&& forall|i: int|
        0 <= i < s.sets.len() ==> sorted_frames((#[trigger] s.sets[i]).1) && (forall|j: int|
            0 <= j < s.sets[i].1.len() ==> wf(#[trigger] s.sets[i].1[j]))
}

/// The value a hash read yields: the frame stored under field `f` of the
/// hash at key `k`, if both exist.
pub open spec fn hget_spec(
    hashes: Seq<(Seq<u8>, Seq<(Seq<u8>, FrameV)>)>,
    k: Seq<u8>,
    f: Seq<u8>,
) -> Option<FrameV> {
    match assoc_get(hashes, k) {
        Option::None => Option::None,
        Option::Some(inner) => assoc_get(inner, f),
    }
}

/// The value a multi-field hash read yields for one field: the stored
/// frame, or the null bulk string when the key or the field is absent.
pub open spec fn hm_lookup(
    hashes: Seq<(Seq<u8>, Seq<(Seq<u8>, FrameV)>)>,
    k: Seq<u8>,
    f: Seq<u8>,
) -> FrameV {
    match assoc_get(hashes, k) {
        Option::None => FrameV::BulkString(Option::None),
        Option::Some(inner) => match assoc_get(inner, f) {
            Option::None => FrameV::BulkString(Option::None),
            Option::Some(v) => v,
        },
    }
}

/// The members of the set stored under `k`, or the empty set.
pub open spec fn set_members(sets: Seq<(Seq<u8>, Seq<FrameV>)>, k: Seq<u8>) -> Seq<FrameV> {
    match assoc_get(sets, k) {
        Option::None => Seq::empty(),
        Option::Some(es) => es,
    }
}

// ------------------------------------------------------------------
// Laws of the store
// ------------------------------------------------------------------

/// After `set(k, v)`, `get(k)` yields `Some(v)`, and every other key is
/// untouched.
pub proof fn lemma_store_set_get(strings: Seq<(Seq<u8>, FrameV)>, k: Seq<u8>, v: FrameV, other: Seq<u8>)
    ensures
        assoc_get(assoc_set(strings, k, v), k) == Option::Some(v),
        other != k ==> assoc_get(assoc_set(strings, k, v), other) == assoc_get(strings, other),
{
    lemma_assoc_set_get(strings, k, v, other);
}

/// After `hset(k, f, v)`, `hget(k, f)` yields `Some(v)`.
pub proof fn lemma_store_hset_hget(
    hashes: Seq<(Seq<u8>, Seq<(Seq<u8>, FrameV)>)>,
    k: Seq<u8>,
    f: Seq<u8>,
    v: FrameV,
)
    ensures
        ({
            let inner = match assoc_get(hashes, k) {
                Option::Some(m) => m,
                Option::None => Seq::empty(),
            };
            hget_spec(assoc_set(hashes, k, assoc_set(inner, f, v)), k, f) == Option::Some(v)
        }),
{
    let inner = match assoc_get(hashes, k) {
        Option::Some(m) => m,
        Option::None => Seq::empty(),
    };
    lemma_assoc_set_get(hashes, k, assoc_set(inner, f, v), k);
    lemma_assoc_set_get(inner, f, v, f);
}

/// After `hset(k, f, v)`, the `hmget` element for field `f` is `v`, and
/// every other field of the hash reads as before.
pub proof fn lemma_store_hmget(
    hashes: Seq<(Seq<u8>, Seq<(Seq<u8>, FrameV)>)>,
    k: Seq<u8>,
    f: Seq<u8>,
    v: FrameV,
    other: Seq<u8>,
)
    ensures
        ({
            let inner = match assoc_get(hashes, k) {
                Option::Some(m) => m,
                Option::None => Seq::empty(),
            };
            let nh = assoc_set(hashes, k, assoc_set(inner, f, v));
            hm_lookup(nh, k, f) == v && (other != f ==> hm_lookup(nh, k, other) == hm_lookup(
                hashes,
                k,
                other,
            ))
        }),
{
    let inner = match assoc_get(hashes, k) {
        Option::Some(m) => m,
        Option::None => Seq::empty(),
    };
    lemma_assoc_set_get(hashes, k, assoc_set(inner, f, v), k);
    lemma_assoc_set_get(inner, f, v, other);
}

/// What inserting adds: the new element is present, and nothing else
/// changes membership.
pub proof fn lemma_sif_contains(es: Seq<FrameV>, x: FrameV, y: FrameV)
    ensures
        sorted_insert_frame(es, x).contains(y) <==> (es.contains(y) || y == x),
    decreases es.len(),
{
    let r = sorted_insert_frame(es, x);
    if es.len() == 0 {
        assert(r =~= seq![x]);
        if y == x {
            assert(r[0] == y);
        }
        if r.contains(y) {
            let i = choose|i: int| 0 <= i < r.len() && r[i] == y;
            assert(r[i] == x);
        }
    } else if cmp_frame(x, es[0]) == -1 {
        assert(r =~= seq![x] + es);
        if es.contains(y) {
            let i = choose|i: int| 0 <= i < es.len() && es[i] == y;
            assert(r[i + 1] == y);
        }
        if y == x {
            assert(r[0] == y);
        }
        if r.contains(y) {
            let i = choose|i: int| 0 <= i < r.len() && r[i] == y;
            if i > 0 {
                assert(es[i - 1] == y);
            }
        }
    } else if cmp_frame(x, es[0]) == 0 {
        lemma_cmp_frame_basic(x, es[0]);
        assert(x == es[0]);
        assert(es.contains(x)) by {
            assert(es[0] == x);
        }
    } else {
        lemma_sif_contains(es.drop_first(), x, y);
        assert(r =~= seq![es[0]] + sorted_insert_frame(es.drop_first(), x));
        let rd = sorted_insert_frame(es.drop_first(), x);
        if r.contains(y) {
            let i = choose|i: int| 0 <= i < r.len() && r[i] == y;
            if i == 0 {
                assert(es[0] == y);
                assert(es.contains(y));
            } else {
                assert(rd[i - 1] == y);
                assert(rd.contains(y));
                if es.drop_first().contains(y) {
                    let l = choose|l: int|
                        0 <= l < es.drop_first().len() && es.drop_first()[l] == y;
                    assert(es[l + 1] == y);
                    assert(es.contains(y));
                }
            }
        }
        if es.contains(y) {
            let i = choose|i: int| 0 <= i < es.len() && es[i] == y;
            if i == 0 {
                assert(r[0] == y);
            } else {
                assert(es.drop_first()[i - 1] == y);
                assert(es.drop_first().contains(y));
                let l = choose|l: int| 0 <= l < rd.len() && rd[l] == y;
                assert(r[l + 1] == y);
            }
        }
        if y == x {
            let l = choose|l: int| 0 <= l < rd.len() && rd[l] == y;
            assert(r[l + 1] == y);
        }
    }
}

/// `sadd(k, m)` then `sismember(k, m)` yields 1, and a second identical
/// `sadd(k, m)` returns 0: the member is in the set the first insert
/// leaves behind.
pub proof fn lemma_sadd_then_member(cur: Seq<FrameV>, m: FrameV)
    ensures
        sorted_insert_frame(cur, m).contains(m),
{
    lemma_sif_contains(cur, m, m);
}

/// The set left behind by a run of inserts, one per member, in order.
pub open spec fn sadd_fold(ms: Seq<FrameV>) -> Seq<FrameV>
    decreases ms.len(),
{
    if ms.len() == 0 {
        Seq::empty()
    } else {
        sorted_insert_frame(sadd_fold(ms.drop_last()), ms.last())
    }
}

/// Folding inserts keeps exactly the members inserted.
proof fn lemma_sadd_fold_contains(ms: Seq<FrameV>, y: FrameV)
    ensures
        sadd_fold(ms).contains(y) <==> ms.contains(y),
    decreases ms.len(),
{
    if ms.len() == 0 {
    } else {
        lemma_sadd_fold_contains(ms.drop_last(), y);
        lemma_sif_contains(sadd_fold(ms.drop_last()), ms.last(), y);
        if ms.drop_last().contains(y) {
            let i = choose|i: int| 0 <= i < ms.drop_last().len() && ms.drop_last()[i] == y;
            assert(ms[i] == y);
        }
        if y == ms.last() {
            assert(ms[ms.len() - 1] == y);
        }
        if ms.contains(y) {
            let i = choose|i: int| 0 <= i < ms.len() && ms[i] == y;
            if i < ms.len() - 1 {
                assert(ms.drop_last()[i] == y);
            }
        }
    }
}

/// A fresh insert grows the set by one.
proof fn lemma_sif_fresh_len(es: Seq<FrameV>, x: FrameV)
    requires
        !es.contains(x),
    ensures
        sorted_insert_frame(es, x).len() == es.len() + 1,
    decreases es.len(),
{
    if es.len() == 0 {
    } else if cmp_frame(x, es[0]) == -1 {
    } else if cmp_frame(x, es[0]) == 0 {
        lemma_cmp_frame_basic(x, es[0]);
        assert(es[0] == x);
    } else {
        assert(!es.drop_first().contains(x)) by {
            if es.drop_first().contains(x) {
                let i = choose|i: int| 0 <= i < es.drop_first().len() && es.drop_first()[i] == x;
                assert(es[i + 1] == x);
            }
        }
        lemma_sif_fresh_len(es.drop_first(), x);
    }
}

/// Any serialisation of distinct-member inserts into an initially empty
/// set returns 1 every time — each member is still fresh when its turn
/// comes — and leaves a set whose cardinality is the count of inserts, so
/// the sum of the returned 1s equals the final cardinality.
pub proof fn lemma_sadd_distinct_sum(ms: Seq<FrameV>)
    requires
        forall|i: int, j: int| 0 <= i < j < ms.len() ==> ms[i] != ms[j],
    ensures
        sadd_fold(ms).len() == ms.len(),
        forall|i: int|
            0 <= i < ms.len() ==> !(#[trigger] sadd_fold(ms.take(i))).contains(ms[i]),
    decreases ms.len(),
{
    if ms.len() > 0 {
        let d = ms.drop_last();
        assert(d =~= ms.take(ms.len() - 1));
        assert forall|i: int, j: int| 0 <= i < j < d.len() implies d[i] != d[j] by {
            assert(d[i] == ms[i]);
            assert(d[j] == ms[j]);
        }
        lemma_sadd_distinct_sum(d);
        assert(!d.contains(ms.last())) by {
            if d.contains(ms.last()) {
                let i = choose|i: int| 0 <= i < d.len() && d[i] == ms.last();
                assert(ms[i] == ms[ms.len() - 1]);
            }
        }
        lemma_sadd_fold_contains(d, ms.last());
        lemma_sif_fresh_len(sadd_fold(d), ms.last());
        assert forall|i: int|
            0 <= i < ms.len() implies !(#[trigger] sadd_fold(ms.take(i))).contains(ms[i]) by {
            if i < ms.len() - 1 {
                assert(ms.take(i) =~= d.take(i));
                assert(ms[i] == d[i]);
            } else {
                assert(ms.take(i) =~= d);
            }
        }
    }
}

/// The shared in-memory store.
#[derive(Debug)]
pub struct Backend {
    pub map: Vec<(Vec<u8>, RespFrame)>,
    pub hmap: Vec<(Vec<u8>, Vec<(Vec<u8>, RespFrame)>)>,
    pub set: Vec<(Vec<u8>, RespSet)>,
}

impl View for Backend {
    type V = StoreV;

    open spec fn view(&self) -> StoreV {
        StoreV {
            strings: kvs_view(self.map@),
            hashes: hkvs_view(self.hmap@),
            sets: skvs_view(self.set@),
        }
    }
}

/// Byte-wise equality of a slice and a vector.
fn bytes_eq(a: &[u8], b: &Vec<u8>) -> (r: bool)
    ensures
        r == (a@ == b@),
{
    if a.len() != b.len() {
        proof {
            assert(a@ != b@);
        }
        return false;
    }
    let mut i: usize = 0;
    while i < a.len()
        invariant
            i <= a@.len(),
            a@.len() == b@.len(),
            forall|l: int| 0 <= l < i ==> a@[l] == b@[l],
        decreases a@.len() - i,
    {
        if a[i] != b[i] {
            proof {
                assert(a@ != b@);
            }
            return false;
        }
        i = i + 1;
    }
    proof {
        assert(a@ =~= b@);
    }
    true
}

/// Position of the first entry keyed by `k`, with the scan facts.
fn key_pos<V>(entries: &Vec<(Vec<u8>, V)>, k: &[u8]) -> (j: usize)
    ensures
        j <= entries@.len(),
        forall|l: int| 0 <= l < j ==> (#[trigger] entries@[l]).0@ != k@,
        j < entries@.len() ==> entries@[j as int].0@ == k@,
{
    let mut j: usize = 0;
    while j < entries.len()
        invariant
            j <= entries@.len(),
            forall|l: int| 0 <= l < j ==> (#[trigger] entries@[l]).0@ != k@,
        decreases entries@.len() - j,
    {
        if bytes_eq(k, &entries[j].0) {
            return j;
        }
        j = j + 1;
    }
    j
}

impl Backend {
    /// The empty store.
    pub fn new() -> (r: Self)
        ensures
            r@.strings == Seq::<(Seq<u8>, FrameV)>::empty(),
            r@.hashes == Seq::<(Seq<u8>, Seq<(Seq<u8>, FrameV)>)>::empty(),
            r@.sets == Seq::<(Seq<u8>, Seq<FrameV>)>::empty(),
            store_wf(r@),
    {
        let r = Backend { map: Vec::new(), hmap: Vec::new(), set: Vec::new() };
        proof {
            assert(r@.strings =~= Seq::<(Seq<u8>, FrameV)>::empty());
            assert(r@.hashes =~= Seq::<(Seq<u8>, Seq<(Seq<u8>, FrameV)>)>::empty());
            assert(r@.sets =~= Seq::<(Seq<u8>, Seq<FrameV>)>::empty());
        }
        r
    }

    /// Read the value stored under `key`, cloned.
    pub fn get(&self, key: &[u8]) -> (r: Option<RespFrame>)
        ensures
            match r {
                Option::Some(f) => assoc_get(self@.strings, key@) == Option::Some(fview(f))
                    && (store_wf(self@) ==> wf(fview(f))),
                Option::None => assoc_get(self@.strings, key@) is None,
            },
    {
        broadcast use lemma_kvs_view_len, lemma_kvs_view_index;

        let j = key_pos(&self.map, key);
        proof {
            lemma_assoc_at(
                self@.strings,
                key@,
                FrameV::Null,
                j as int,
            );
        }
        if j < self.map.len() {
            Option::Some(clone_frame(&self.map[j].1))
        } else {
            Option::None
        }
    }

    /// Overwrite the value stored under `key`.
    pub fn set(&mut self, key: &[u8], val: RespFrame)
        requires
            wf(fview(val)),
        ensures
            final(self)@.strings == assoc_set(old(self)@.strings, key@, fview(val)),
            final(self)@.hashes == old(self)@.hashes,
            final(self)@.sets == old(self)@.sets,
            store_wf(old(self)@) ==> store_wf(final(self)@),
    {
        broadcast use lemma_kvs_view_len, lemma_kvs_view_index;

        let ghost w = self@.strings;
        let ghost vv = fview(val);
        let j = key_pos(&self.map, key);
        proof {
            lemma_assoc_at(w, key@, vv, j as int);
        }
        if j < self.map.len() {
            self.map.set(j, (slice_to_vec(key), val));
            proof {
                assert(kvs_view(self.map@) =~= w.update(j as int, (key@, vv)));
            }
        } else {
            self.map.push((slice_to_vec(key), val));
            proof {
                assert(kvs_view(self.map@) =~= w.push((key@, vv)));
            }
        }
        proof {
            let ns = self@.strings;
            if store_wf(old(self)@) {
                let os = old(self)@;
                let nsv = self@;
                assert forall|i: int| 0 <= i < ns.len() implies wf((#[trigger] ns[i]).1) by {
                    if i != j {
                        assert(ns[i] == w[i]);
                    }
                }
                assert forall|i: int, l: int|
                    0 <= i < nsv.hashes.len() && 0 <= l < nsv.hashes[i].1.len() implies wf(
                    (#[trigger] nsv.hashes[i].1[l]).1,
                ) && nsv.hashes[i].1[l].0.len() <= 0x7fff_ffff_ffff_ffff by {
                    assert(nsv.hashes[i] == os.hashes[i]);
                }
                assert forall|i: int|
                    0 <= i < nsv.sets.len() implies sorted_frames((#[trigger] nsv.sets[i]).1) && (
                forall|l: int| 0 <= l < nsv.sets[i].1.len() ==> wf(#[trigger] nsv.sets[i].1[l])) by {
                    assert(nsv.sets[i] == os.sets[i]);
                }
            }
        }
    }

    /// Read the value stored under `field` of the hash at `key`, cloned.
    pub fn hget(&self, key: &[u8], field: &[u8]) -> (r: Option<RespFrame>)
        ensures
            match r {
                Option::Some(f) => hget_spec(self@.hashes, key@, field@) == Option::Some(fview(f))
                    && (store_wf(self@) ==> wf(fview(f))),
                Option::None => hget_spec(self@.hashes, key@, field@) is None,
            },
    {
        broadcast use lemma_hkvs_view_len, lemma_hkvs_view_index, lemma_kvs_view_len, lemma_kvs_view_index;

        let j = key_pos(&self.hmap, key);
        proof {
            lemma_assoc_at(self@.hashes, key@, Seq::<(Seq<u8>, FrameV)>::empty(), j as int);
        }
        if j < self.hmap.len() {
            let inner = &self.hmap[j].1;
            let ji = key_pos(inner, field);
            proof {
                lemma_assoc_at(kvs_view(inner@), field@, FrameV::Null, ji as int);
            }
            if ji < inner.len() {
                Option::Some(clone_frame(&inner[ji].1))
            } else {
                Option::None
            }
        } else {
            Option::None
        }
    }

    /// Bind `field` of the hash at `key` to `val`, creating the hash when
    /// it is absent.
    #[verifier::rlimit(100)]
    pub fn hset(&mut self, key: &[u8], field: &[u8], val: RespFrame)
        requires
            wf(fview(val)),
            field@.len() <= 0x7fff_ffff_ffff_ffff,
        ensures
            final(self)@.hashes == assoc_set(
                old(self)@.hashes,
                key@,
                assoc_set(
                    match assoc_get(old(self)@.hashes, key@) {
                        Option::Some(inner) => inner,
                        Option::None => Seq::empty(),
                    },
                    field@,
                    fview(val),
                ),
            ),
            final(self)@.strings == old(self)@.strings,
            final(self)@.sets == old(self)@.sets,
            store_wf(old(self)@) ==> store_wf(final(self)@),
    {
        broadcast use lemma_hkvs_view_len, lemma_hkvs_view_index, lemma_kvs_view_len, lemma_kvs_view_index;

        let ghost w = self@.hashes;
        let ghost vv = fview(val);
        let j = key_pos(&self.hmap, key);
        proof {
            lemma_assoc_at(self@.hashes, key@, Seq::<(Seq<u8>, FrameV)>::empty(), j as int);
        }
        if j < self.hmap.len() {
            let mut entry = self.hmap.remove(j);
            let ghost iw = kvs_view(entry.1@);
            let ji = key_pos(&entry.1, field);
            proof {
                lemma_assoc_at(iw, field@, vv, ji as int);
            }
            if ji < entry.1.len() {
                entry.1.set(ji, (slice_to_vec(field), val));
                proof {
                    assert(kvs_view(entry.1@) =~= iw.update(ji as int, (field@, vv)));
                }
            } else {
                entry.1.push((slice_to_vec(field), val));
                proof {
                    assert(kvs_view(entry.1@) =~= iw.push((field@, vv)));
                }
            }
            let ghost ninner = kvs_view(entry.1@);
            self.hmap.insert(j, entry);
            proof {
                lemma_assoc_at(w, key@, assoc_set(iw, field@, vv), j as int);
                let nw = assoc_set(w, key@, assoc_set(iw, field@, vv));
                assert(hkvs_view(self.hmap@) =~= w.update(j as int, (key@, ninner)));
                assert(hkvs_view(self.hmap@) =~= nw);
                if store_wf(old(self)@) {
                    let ns = self@.hashes;
                    assert forall|i: int, l: int|
                        0 <= i < ns.len() && 0 <= l < ns[i].1.len() implies wf(
                        (#[trigger] ns[i].1[l]).1,
                    ) && ns[i].1[l].0.len() <= 0x7fff_ffff_ffff_ffff by {
                        if i == j {
                            assert(ns[i].1 == ninner);
                            if ji < iw.len() {
                                if l != ji {
                                    assert(ninner[l] == iw[l]);
                                    assert(iw[l] == w[j as int].1[l]);
                                }
                            } else {
                                if l < iw.len() {
                                    assert(ninner[l] == iw[l]);
                                    assert(iw[l] == w[j as int].1[l]);
                                }
                            }
                        } else {
                            assert(ns[i] == w[i]);
                        }
                    }
                }
            }
        } else {
            let mut inner: Vec<(Vec<u8>, RespFrame)> = Vec::new();
            inner.push((slice_to_vec(field), val));
            let ghost ninner = kvs_view(inner@);
            proof {
                assert(ninner =~= seq![(field@, vv)]);
                assert(assoc_set(Seq::<(Seq<u8>, FrameV)>::empty(), field@, vv) =~= seq![
                    (field@, vv),
                ]);
            }
            self.hmap.push((slice_to_vec(key), inner));
            proof {
                lemma_assoc_at(
                    w,
                    key@,
                    assoc_set(Seq::<(Seq<u8>, FrameV)>::empty(), field@, vv),
                    j as int,
                );
                assert(hkvs_view(self.hmap@) =~= w.push((key@, ninner)));
                assert(hkvs_view(self.hmap@) =~= assoc_set(
                    w,
                    key@,
                    assoc_set(Seq::<(Seq<u8>, FrameV)>::empty(), field@, vv),
                ));
                if store_wf(old(self)@) {
                    let ns = self@.hashes;
                    assert forall|i: int, l: int|
                        0 <= i < ns.len() && 0 <= l < ns[i].1.len() implies wf(
                        (#[trigger] ns[i].1[l]).1,
                    ) && ns[i].1[l].0.len() <= 0x7fff_ffff_ffff_ffff by {
                        if i < w.len() {
                            assert(ns[i] == w[i]);
                        } else {
                            assert(ns[i].1 == ninner);
                            assert(ninner[l] == (field@, vv));
                        }
                    }
                }
            }
        }

        proof {
            if store_wf(old(self)@) {
                let os = old(self)@;
                let nsv = self@;
                assert forall|i: int| 0 <= i < nsv.strings.len() implies wf(
                    (#[trigger] nsv.strings[i]).1,
                ) by {
                    assert(nsv.strings[i] == os.strings[i]);
                }
                assert forall|i: int|
                    0 <= i < nsv.sets.len() implies sorted_frames((#[trigger] nsv.sets[i]).1) && (
                forall|l: int| 0 <= l < nsv.sets[i].1.len() ==> wf(#[trigger] nsv.sets[i].1[l])) by {
                    assert(nsv.sets[i] == os.sets[i]);
                }
            }
        }
    }

    /// Read the whole hash stored under `key`, cloned.
    pub fn hgetall(&self, key: &[u8]) -> (r: Option<Vec<(Vec<u8>, RespFrame)>>)
        ensures
            match r {
                Option::Some(v) => {
                    &&& assoc_get(self@.hashes, key@) == Option::Some(kvs_view(v@))
                    &&& store_wf(self@) ==> forall|l: int|
                        0 <= l < v@.len() ==> wf(fview((#[trigger] v@[l]).1)) && v@[l].0@.len()
                            <= 0x7fff_ffff_ffff_ffff
                },
                Option::None => assoc_get(self@.hashes, key@) is None,
            },
    {
        broadcast use lemma_hkvs_view_len, lemma_hkvs_view_index, lemma_kvs_view_len, lemma_kvs_view_index;

        let j = key_pos(&self.hmap, key);
        proof {
            lemma_assoc_at(self@.hashes, key@, Seq::<(Seq<u8>, FrameV)>::empty(), j as int);
        }
        if j < self.hmap.len() {
            let inner = &self.hmap[j].1;
            let mut out: Vec<(Vec<u8>, RespFrame)> = Vec::new();
            let mut i: usize = 0;
            while i < inner.len()
                invariant
                    i <= inner@.len(),
                    out@.len() == i,
                    j < self.hmap@.len(),
                    inner@ == self.hmap@[j as int].1@,
                    forall|l: int|
                        0 <= l < i ==> (#[trigger] out@[l]).0@ == inner@[l].0@ && fview(
                            out@[l].1,
                        ) == fview(inner@[l].1),
                decreases inner@.len() - i,
            {
                let kc = slice_to_vec(inner[i].0.as_slice());
                let vc = clone_frame(&inner[i].1);
                out.push((kc, vc));
                i = i + 1;
            }
            proof {
                assert(kvs_view(out@) =~= kvs_view(inner@));
                if store_wf(self@) {
                    assert forall|l: int| 0 <= l < out@.len() implies wf(
                        fview((#[trigger] out@[l]).1),
                    ) && out@[l].0@.len() <= 0x7fff_ffff_ffff_ffff by {
                        assert(self@.hashes[j as int].1 == kvs_view(inner@));
                        assert(self@.hashes[j as int].1[l] == kvs_view(inner@)[l]);
                        assert(kvs_view(inner@)[l] == (inner@[l].0@, fview(inner@[l].1)));
                    }
                }
            }
            Option::Some(out)
        } else {
            Option::None
        }
    }

    /// Read one frame per requested field, in order; an absent field or an
    /// absent hash yields the null bulk string in its place.
    pub fn hmget(&self, key: &[u8], fields: &Vec<Vec<u8>>) -> (r: Vec<RespFrame>)
        ensures
            r@.len() == fields@.len(),
            forall|i: int|
                0 <= i < r@.len() ==> fview(#[trigger] r@[i]) == hm_lookup(
                    self@.hashes,
                    key@,
                    fields@[i]@,
                ) && (store_wf(self@) ==> wf(fview(r@[i]))),
    {
        broadcast use lemma_hkvs_view_len, lemma_hkvs_view_index, lemma_kvs_view_len, lemma_kvs_view_index;

        let j = key_pos(&self.hmap, key);
        proof {
            lemma_assoc_at(self@.hashes, key@, Seq::<(Seq<u8>, FrameV)>::empty(), j as int);
        }
        let found = j < self.hmap.len();
        let mut out: Vec<RespFrame> = Vec::new();
        let mut i: usize = 0;
        while i < fields.len()
            invariant
                i <= fields@.len(),
                out@.len() == i,
                found == (j < self.hmap@.len()),
                found ==> assoc_get(self@.hashes, key@) == Option::Some(
                    kvs_view(self.hmap@[j as int].1@),
                ),
                !found ==> assoc_get(self@.hashes, key@) is None,
                forall|l: int|
                    0 <= l < i ==> fview(#[trigger] out@[l]) == hm_lookup(
                        self@.hashes,
                        key@,
                        fields@[l]@,
                    ) && (store_wf(self@) ==> wf(fview(out@[l]))),
            decreases fields@.len() - i,
        {
            broadcast use lemma_hkvs_view_len, lemma_hkvs_view_index, lemma_kvs_view_len, lemma_kvs_view_index;

            if found {
                let inner = &self.hmap[j].1;
                let ji = key_pos(inner, fields[i].as_slice());
                proof {
                    lemma_assoc_at(kvs_view(inner@), fields@[i as int]@, FrameV::Null, ji as int);
                }
                if ji < inner.len() {
                    proof {
                        if store_wf(self@) {
                            assert(self@.hashes[j as int].1 == kvs_view(inner@));
                            assert(self@.hashes[j as int].1[ji as int] == kvs_view(
                                inner@,
                            )[ji as int]);
                            assert(kvs_view(inner@)[ji as int] == (
                                inner@[ji as int].0@,
                                fview(inner@[ji as int].1),
                            ));
                        }
                    }
                    out.push(clone_frame(&inner[ji].1));
                } else {
                    out.push(RespFrame::BulkString(
                        crate::resp::bulkstring::RespBulkString(Option::None),
                    ));
                }
            } else {
                out.push(RespFrame::BulkString(
                    crate::resp::bulkstring::RespBulkString(Option::None),
                ));
            }
            i = i + 1;
        }
        out
    }

    /// Add `member` to the set at `key`: 1 when newly inserted, 0 when it
    /// was already present.
    #[verifier::rlimit(100)]
    pub fn sadd(&mut self, key: &[u8], member: RespFrame) -> (r: i64)
        requires
            wf(fview(member)),
        ensures
            r == 1 || r == 0,
            (r == 1) <==> !set_members(old(self)@.sets, key@).contains(fview(member)),
            final(self)@.sets == if r == 1 {
                assoc_set(
                    old(self)@.sets,
                    key@,
                    sorted_insert_frame(set_members(old(self)@.sets, key@), fview(member)),
                )
            } else {
                old(self)@.sets
            },
            final(self)@.strings == old(self)@.strings,
            final(self)@.hashes == old(self)@.hashes,
            store_wf(old(self)@) ==> store_wf(final(self)@),
    {
        broadcast use lemma_skvs_view_len, lemma_skvs_view_index;

        let ghost w = self@.sets;
        let ghost mv = fview(member);
        let j = key_pos(&self.set, key);
        proof {
            lemma_assoc_at(self@.sets, key@, Seq::<FrameV>::empty(), j as int);
        }
        if j < self.set.len() {
            if self.set[j].1.contains(&member) {
                proof {
                    if store_wf(old(self)@) {
                        let os = old(self)@;
                        let nsv = self@;
                        assert forall|i: int| 0 <= i < nsv.strings.len() implies wf(
                            (#[trigger] nsv.strings[i]).1,
                        ) by {
                            assert(nsv.strings[i] == os.strings[i]);
                        }
                        assert forall|i: int, l: int|
                            0 <= i < nsv.hashes.len() && 0 <= l < nsv.hashes[i].1.len() implies wf(
                            (#[trigger] nsv.hashes[i].1[l]).1,
                        ) && nsv.hashes[i].1[l].0.len() <= 0x7fff_ffff_ffff_ffff by {
                            assert(nsv.hashes[i] == os.hashes[i]);
                        }
                        assert forall|i: int|
                            0 <= i < nsv.sets.len() implies sorted_frames(
                            (#[trigger] nsv.sets[i]).1,
                        ) && (forall|l: int|
                            0 <= l < nsv.sets[i].1.len() ==> wf(#[trigger] nsv.sets[i].1[l])) by {
                            assert(nsv.sets[i] == os.sets[i]);
                        }
                    }
                }
                return 0;
            }
            let mut entry = self.set.remove(j);
            let ghost cur = entry.1@;
            entry.1.insert(member);
            let ghost ncur = entry.1@;
            self.set.insert(j, entry);
            proof {
                lemma_assoc_at(w, key@, sorted_insert_frame(cur, mv), j as int);
                assert(skvs_view(self.set@) =~= w.update(j as int, (key@, ncur)));
                assert(skvs_view(self.set@) =~= assoc_set(w, key@, sorted_insert_frame(cur, mv)));
                if store_wf(old(self)@) {
                    crate::resp::order::lemma_sif_sorted(cur, mv);
                    let ns = self@.sets;
                    assert forall|i: int|
                        0 <= i < ns.len() implies sorted_frames((#[trigger] ns[i]).1) && (forall|
                        l: int,
                    |
                        0 <= l < ns[i].1.len() ==> wf(#[trigger] ns[i].1[l])) by {
                        if i != j {
                            assert(ns[i] == w[i]);
                        } else {
                            assert(ns[i].1 == ncur);
                            assert forall|l: int| 0 <= l < ncur.len() implies wf(
                                #[trigger] ncur[l],
                            ) by {
                                assert(ncur[l] == mv || cur.contains(ncur[l]));
                                if ncur[l] != mv {
                                    let li = choose|li: int|
                                        0 <= li < cur.len() && cur[li] == ncur[l];
                                    assert(cur[li] == w[j as int].1[li]);
                                }
                            }
                        }
                    }
                }
            }
            proof {
                if store_wf(old(self)@) {
                    let os = old(self)@;
                    let nsv = self@;
                    assert forall|i: int| 0 <= i < nsv.strings.len() implies wf(
                        (#[trigger] nsv.strings[i]).1,
                    ) by {
                        assert(nsv.strings[i] == os.strings[i]);
                    }
                    assert forall|i: int, l: int|
                        0 <= i < nsv.hashes.len() && 0 <= l < nsv.hashes[i].1.len() implies wf(
                        (#[trigger] nsv.hashes[i].1[l]).1,
                    ) && nsv.hashes[i].1[l].0.len() <= 0x7fff_ffff_ffff_ffff by {
                        assert(nsv.hashes[i] == os.hashes[i]);
                    }
                }
            }
            1
        } else {
            let mut ns = RespSet::new();
            ns.insert(member);
            let ghost ncur = ns@;
            proof {
                assert(sorted_insert_frame(Seq::<FrameV>::empty(), mv) =~= seq![mv]);
                assert(ncur =~= seq![mv]);
            }
            self.set.push((slice_to_vec(key), ns));
            proof {
                lemma_assoc_at(w, key@, sorted_insert_frame(Seq::<FrameV>::empty(), mv), j as int);
                assert(skvs_view(self.set@) =~= w.push((key@, ncur)));
                assert(skvs_view(self.set@) =~= assoc_set(w, key@, sorted_insert_frame(
                    Seq::<FrameV>::empty(),
                    mv,
                )));
                if store_wf(old(self)@) {
                    let nss = self@.sets;
                    assert forall|i: int|
                        0 <= i < nss.len() implies sorted_frames((#[trigger] nss[i]).1) && (forall|
                        l: int,
                    |
                        0 <= l < nss[i].1.len() ==> wf(#[trigger] nss[i].1[l])) by {
                        if i < w.len() {
                            assert(nss[i] == w[i]);
                        } else {
                            assert(nss[i].1 == ncur);
                        }
                    }
                }
            }

        proof {
            if store_wf(old(self)@) {
                let os = old(self)@;
                let nsv = self@;
                assert forall|i: int| 0 <= i < nsv.strings.len() implies wf(
                    (#[trigger] nsv.strings[i]).1,
                ) by {
                    assert(nsv.strings[i] == os.strings[i]);
                }
                assert forall|i: int, l: int|
                    0 <= i < nsv.hashes.len() && 0 <= l < nsv.hashes[i].1.len() implies wf(
                    (#[trigger] nsv.hashes[i].1[l]).1,
                ) by {
                    assert(nsv.hashes[i] == os.hashes[i]);
                }
            }
        }
        1
        }
    }

    /// Whether `member` is in the set at `key`: 1 when present, 0
    /// otherwise, an absent key counting as an empty set.
    pub fn sismember(&self, key: &[u8], member: &RespFrame) -> (r: i64)
        ensures
            r == 1 || r == 0,
            (r == 1) <==> set_members(self@.sets, key@).contains(fview(*member)),
    {
        broadcast use lemma_skvs_view_len, lemma_skvs_view_index;

        let j = key_pos(&self.set, key);
        proof {
            lemma_assoc_at(self@.sets, key@, Seq::<FrameV>::empty(), j as int);
        }
        if j < self.set.len() {
            if self.set[j].1.contains(member) {
                1
            } else {
                0
            }
        } else {
            0
        }
    }
}

impl Default for Backend {
    /// The empty store.
    fn default() -> (r: Self)
        ensures
            r@.strings == Seq::<(Seq<u8>, FrameV)>::empty(),
            r@.hashes == Seq::<(Seq<u8>, Seq<(Seq<u8>, FrameV)>)>::empty(),
            r@.sets == Seq::<(Seq<u8>, Seq<FrameV>)>::empty(),
            store_wf(r@),
    {
        Backend::new()
    }
}

} // verus!
