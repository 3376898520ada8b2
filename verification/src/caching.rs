//! A small least-recently-used cache of correlation results, keyed by series.

use vstd::prelude::*;
use vstd::bytes::{spec_u64_to_le_bytes, u64_to_le_bytes, lemma_auto_spec_u64_to_from_le_bytes};
use vstd::utf8::encode_utf8;
use vstd::slice::slice_to_vec;
use lru_time_cache::LruCache;
use crate::btsf::{BinaryTimeSeries, SeriesView, points_bytes, le32, append_points, lemma_points_bytes};

verus! {

#[verifier::external_type_specification]
#[verifier::external_body]
#[verifier::reject_recursive_types(Key)]
#[verifier::reject_recursive_types(Value)]
pub struct ExLruCache<Key, Value>(LruCache<Key, Value>);

/// The cache type used here: byte-string keys, lists of `u32` as values.
pub type CorrelationLru = LruCache<Vec<u8>, Vec<u32>>;

/// The entries of an `LruCache` of byte-string keys and `u32` lists.
pub uninterp spec fn lru_entries(c: CorrelationLru) -> Map<Seq<u8>, Seq<u32>>;

/// The keys of an `LruCache`, from the least to the most recently used.
pub uninterp spec fn lru_order(c: CorrelationLru) -> Seq<Seq<u8>>;

/// What an `LruCache` was made with: its capacity, and whether entries expire by age.
pub uninterp spec fn lru_limits(c: CorrelationLru) -> (nat, bool);

/// Entries and recency order agree: the order holds each key of the entries once,
/// and nothing else.
pub open spec fn lru_consistent(entries: Map<Seq<u8>, Seq<u32>>, order: Seq<Seq<u8>>) -> bool {
    &&& order.no_duplicates()
    &&& entries.dom() == order.to_set()
}

/// The recency order after a use of `key`: `key` moves to the most recent end when
/// the order holds it.
pub open spec fn touch(order: Seq<Seq<u8>>, key: Seq<u8>) -> Seq<Seq<u8>> {
    if order.contains(key) {
        order.remove(order.index_of(key)).push(key)
    } else {
        order
    }
}

/// How many least recently used keys make room for a new key in a cache of
/// `len` entries and capacity `cap`.
pub open spec fn lru_evicted(len: nat, cap: nat) -> int {
    if len >= cap {
        len - cap + 1
    } else {
        0
    }
}

/// `LruCache::with_capacity` of lru_time_cache: an empty cache holding at most
/// `capacity` entries, none of which ever expires by age.
#[verifier::external_body]
fn lru_with_capacity(capacity: usize) -> (c: CorrelationLru)
    ensures
        lru_entries(c).dom() == Set::<Seq<u8>>::empty(),
        lru_order(c) == Seq::<Seq<u8>>::empty(),
        lru_limits(c) == (capacity as nat, false),
{
    LruCache::with_capacity(capacity)
}

/// `LruCache::get` of lru_time_cache on a cache without expiry by age: a copy of the
/// value stored under `key`, if any. The entries stay as they are; a key that is
/// found becomes the most recently used.
#[verifier::external_body]
fn lru_get(c: &mut CorrelationLru, key: &[u8]) -> (r: Option<Vec<u32>>)
    requires
        !lru_limits(*old(c)).1,
        lru_consistent(lru_entries(*old(c)), lru_order(*old(c))),
    ensures
        lru_entries(*final(c)) == lru_entries(*old(c)),
        lru_limits(*final(c)) == lru_limits(*old(c)),
        lru_order(*final(c)) == touch(lru_order(*old(c)), key@),
        r is Some <==> lru_entries(*old(c)).contains_key(key@),
        r matches Some(v) ==> v@ == lru_entries(*old(c))[key@],
{
    c.get(key).cloned()
}

/// `LruCache::insert` of lru_time_cache on a cache without expiry by age and with a
/// capacity of at least one. Afterwards `key` holds `value` and is the most
/// recently used key. When `key` is new and the cache is full, the least recently
/// used keys are dropped first, as many as make room for it. The value that `key`
/// held before, if any, is returned.
#[verifier::external_body]
fn lru_insert(c: &mut CorrelationLru, key: Vec<u8>, value: Vec<u32>) -> (r: Option<Vec<u32>>)
    requires
        !lru_limits(*old(c)).1,
        lru_limits(*old(c)).0 > 0,
        lru_consistent(lru_entries(*old(c)), lru_order(*old(c))),
    ensures
        lru_limits(*final(c)) == lru_limits(*old(c)),
        lru_entries(*old(c)).contains_key(key@) ==> lru_entries(*final(c)) == lru_entries(
            *old(c),
        ).insert(key@, value@) && lru_order(*final(c)) == touch(lru_order(*old(c)), key@),
        !lru_entries(*old(c)).contains_key(key@) ==> lru_entries(*final(c)) == lru_entries(
            *old(c),
        ).remove_keys(
            lru_order(*old(c)).subrange(
                0,
                lru_evicted(lru_order(*old(c)).len(), lru_limits(*old(c)).0),
            ).to_set(),
        ).insert(key@, value@) && lru_order(*final(c)) == lru_order(*old(c)).subrange(
            lru_evicted(lru_order(*old(c)).len(), lru_limits(*old(c)).0),
            lru_order(*old(c)).len() as int,
        ).push(key@),
        r is Some <==> lru_entries(*old(c)).contains_key(key@),
        r matches Some(v) ==> v@ == lru_entries(*old(c))[key@],
{
    c.insert(key, value)
}

proof fn lemma_touch(entries: Map<Seq<u8>, Seq<u32>>, order: Seq<Seq<u8>>, key: Seq<u8>)
    requires
        lru_consistent(entries, order),
    ensures
        lru_consistent(entries, touch(order, key)),
        touch(order, key).len() == order.len(),
        order.contains(key) ==> touch(order, key).last() == key,
        order.len() > 0 && order.last() == key ==> touch(order, key) == order,
{
    if order.contains(key) {
        let i = order.index_of(key);
        let t = touch(order, key);
        let rm = order.remove(i);
        assert(t == rm.push(key));
        assert(rm.len() == order.len() - 1);
        assert forall|j: int| 0 <= j < rm.len() implies #[trigger] rm[j] == (if j < i {
            order[j]
        } else {
            order[j + 1]
        }) by {}
        assert forall|j: int, k: int|
            0 <= j < t.len() && 0 <= k < t.len() && j != k implies t[j] != t[k] by {
            if j < rm.len() && k < rm.len() {
                let oj = if j < i { j } else { j + 1 };
                let ok = if k < i { k } else { k + 1 };
                assert(t[j] == order[oj] && t[k] == order[ok]);
            } else if j < rm.len() {
                let oj = if j < i { j } else { j + 1 };
                assert(t[j] == order[oj] && oj != i);
            } else if k < rm.len() {
                let ok = if k < i { k } else { k + 1 };
                assert(t[k] == order[ok] && ok != i);
            }
        }
        assert forall|x: Seq<u8>| order.to_set().contains(x) == t.to_set().contains(x) by {
            if order.contains(x) {
                let m = choose|m: int| 0 <= m < order.len() && order[m] == x;
                if m == i {
                    assert(t[t.len() - 1] == x);
                } else if m < i {
                    assert(t[m] == x);
                } else {
                    assert(t[m - 1] == x);
                }
            }
            if t.contains(x) {
                let m = choose|m: int| 0 <= m < t.len() && t[m] == x;
                if m == t.len() - 1 {
                    assert(order[i] == x);
                } else if m < i {
                    assert(order[m] == x);
                } else {
                    assert(order[m + 1] == x);
                }
            }
        }
        assert(order.to_set() =~= t.to_set());
        if order.len() > 0 && order.last() == key {
            assert(order[order.len() - 1] == key);
            assert(i == order.len() - 1);
            assert(t =~= order);
        }
    } else {
        if order.len() > 0 && order.last() == key {
            assert(order[order.len() - 1] == key);
        }
    }
}

proof fn lemma_insert_new(
    entries: Map<Seq<u8>, Seq<u32>>,
    order: Seq<Seq<u8>>,
    key: Seq<u8>,
    value: Seq<u32>,
    d: int,
)
    requires
        lru_consistent(entries, order),
        !entries.contains_key(key),
        0 <= d <= order.len(),
    ensures
        lru_consistent(
            entries.remove_keys(order.subrange(0, d).to_set()).insert(key, value),
            order.subrange(d, order.len() as int).push(key),
        ),
{
    let ne = entries.remove_keys(order.subrange(0, d).to_set()).insert(key, value);
    let no = order.subrange(d, order.len() as int).push(key);
    assert(!order.contains(key)) by {
        if order.contains(key) {
            let m = choose|m: int| 0 <= m < order.len() && order[m] == key;
            assert(order.to_set().contains(key));
        }
    }
    assert forall|j: int, k: int|
        0 <= j < no.len() && 0 <= k < no.len() && j != k implies no[j] != no[k] by {
        if j < no.len() - 1 && k < no.len() - 1 {
            assert(no[j] == order[j + d] && no[k] == order[k + d]);
        } else if j < no.len() - 1 {
            assert(no[j] == order[j + d]);
        } else if k < no.len() - 1 {
            assert(no[k] == order[k + d]);
        }
    }
    assert forall|x: Seq<u8>| ne.dom().contains(x) == no.to_set().contains(x) by {
        if x == key {
            assert(no[no.len() - 1] == key);
        } else {
            let in_front = order.subrange(0, d).contains(x);
            if order.contains(x) {
                let m = choose|m: int| 0 <= m < order.len() && order[m] == x;
                if m < d {
                    assert(order.subrange(0, d)[m] == x);
                    assert(order.subrange(0, d).to_set().contains(x));
                    if no.contains(x) {
                        let q = choose|q: int| 0 <= q < no.len() && no[q] == x;
                        assert(order[q + d] == x);
                    }
                } else {
                    assert(no[m - d] == x);
                    if order.subrange(0, d).contains(x) {
                        let q = choose|q: int| 0 <= q < d && order.subrange(0, d)[q] == x;
                        assert(order[q] == x);
                    }
                    assert(!order.subrange(0, d).to_set().contains(x));
                }
                assert(entries.dom().contains(x));
            } else {
                assert(!entries.dom().contains(x));
                if no.contains(x) {
                    let q = choose|q: int| 0 <= q < no.len() && no[q] == x;
                    assert(order[q + d] == x);
                }
            }
        }
    }
    assert(ne.dom() =~= no.to_set());
}

/// How many query series the correlation cache remembers.
pub const CACHE_CAPACITY: usize = 5;

/// The bytes a series is looked up by: its point count and its name's length in
/// bytes (each as a little-endian `u64`), the UTF-8 name, then the points.
pub open spec fn series_key_bytes(x: SeriesView) -> Seq<u8> {
    let nb = encode_utf8(x.name);
    spec_u64_to_le_bytes(x.data.len() as u64) + spec_u64_to_le_bytes(nb.len() as u64) + nb
        + points_bytes(x.data)
}

/// The series whose lengths fit the key's 64 bit length fields: every series held
/// in memory.
pub open spec fn key_fits(x: SeriesView) -> bool {
    &&& x.data.len() <= u64::MAX
    &&& encode_utf8(x.name).len() <= u64::MAX
}

/// The lookup key of a series, as `series_key_bytes` lays it out.
pub fn series_key(data: &BinaryTimeSeries) -> (r: Vec<u8>)
    ensures
        r@ == series_key_bytes(data@),
        key_fits(data@),
{
    let nb = data.name.as_str().as_bytes();
    let mut out = u64_to_le_bytes(data.data.len() as u64);
    let mut l = u64_to_le_bytes(nb.len() as u64);
    out.append(&mut l);
    let mut name = slice_to_vec(nb);
    out.append(&mut name);
    append_points(&mut out, &data.data);
    out
}

/// Two series have the same key exactly when they have the same name and the same
/// points, so the cache never gives one series the results of another.
pub proof fn lemma_series_key_identifies(a: SeriesView, b: SeriesView)
    requires
        a.data.len() <= u64::MAX,
        b.data.len() <= u64::MAX,
        encode_utf8(a.name).len() <= u64::MAX,
        encode_utf8(b.name).len() <= u64::MAX,
    ensures
        series_key_bytes(a) == series_key_bytes(b) <==> a == b,
{
    if series_key_bytes(a) == series_key_bytes(b) {
        lemma_auto_spec_u64_to_from_le_bytes();
        lemma_points_bytes(a.data);
        lemma_points_bytes(b.data);
        vstd::utf8::encode_utf8_decode_utf8(a.name);
        vstd::utf8::encode_utf8_decode_utf8(b.name);
        vstd::bytes::lemma_auto_spec_u32_to_from_le_bytes();
        let ka = series_key_bytes(a);
        let na = encode_utf8(a.name);
        let nb = encode_utf8(b.name);
        let la = spec_u64_to_le_bytes(a.data.len() as u64);
        let lb = spec_u64_to_le_bytes(b.data.len() as u64);
        assert(ka.subrange(0, 8) =~= la);
        assert(series_key_bytes(b).subrange(0, 8) =~= lb);
        assert(a.data.len() == b.data.len());
        let ma = spec_u64_to_le_bytes(na.len() as u64);
        let mb = spec_u64_to_le_bytes(nb.len() as u64);
        assert(ka.subrange(8, 16) =~= ma);
        assert(series_key_bytes(b).subrange(8, 16) =~= mb);
        assert(na.len() == nb.len());
        let l = na.len() as int;
        assert(ka.subrange(16, 16 + l) =~= na);
        assert(series_key_bytes(b).subrange(16, 16 + l) =~= nb);
        assert(a.name == b.name);
        let pa = points_bytes(a.data);
        let pb = points_bytes(b.data);
        assert(ka.subrange(16 + l, ka.len() as int) =~= pa);
        assert(series_key_bytes(b).subrange(16 + l, ka.len() as int) =~= pb);
        assert(pa == pb);
        assert forall|j: int| 0 <= j < a.data.len() implies a.data[j] == b.data[j] by {
            assert(pa.subrange(8 * j, 8 * j + 4) == le32(a.data[j].t as u32));
            assert(pb.subrange(8 * j, 8 * j + 4) == le32(b.data[j].t as u32));
            assert(pa.subrange(8 * j + 4, 8 * j + 8) == le32(a.data[j].val));
            assert(pb.subrange(8 * j + 4, 8 * j + 8) == le32(b.data[j].val));
            let x = a.data[j].t;
            let y = b.data[j].t;
            assert(le32(x as u32).len() == 4 && le32(y as u32).len() == 4);
            let va = a.data[j].val;
            let vb = b.data[j].val;
            assert(le32(va).len() == 4 && le32(vb).len() == 4);
            assert((x as u32) == (y as u32) ==> x == y) by (bit_vector);
        }
        assert(a.data =~= b.data);
    }
}

/// The correlation results of recent query series, each a list of float32 bit
/// patterns, looked up by the query series.
pub struct CorrelationCache {
    lru: CorrelationLru,
}

impl CorrelationCache {
    /// The remembered results, by series key.
    pub closed spec fn entries(&self) -> Map<Seq<u8>, Seq<u32>> {
        lru_entries(self.lru)
    }

    /// The keys of the remembered results, from the least to the most recently used.
    pub closed spec fn recency(&self) -> Seq<Seq<u8>> {
        lru_order(self.lru)
    }

    /// Every result the cache remembers is `f` of the series it is remembered for.
    pub open spec fn holds_results_of(&self, f: spec_fn(SeriesView) -> Seq<u32>) -> bool {
        forall|x: SeriesView|
            key_fits(x) && #[trigger] self.entries().contains_key(series_key_bytes(x))
                ==> self.entries()[series_key_bytes(x)] == f(x)
    }

    /// The cache holds at most `CACHE_CAPACITY` entries, none of which expires by
    /// age, and its recency order lists each of their keys once.
    pub closed spec fn wf(&self) -> bool {
        &&& lru_limits(self.lru) == (CACHE_CAPACITY as nat, false)
        &&& lru_consistent(lru_entries(self.lru), lru_order(self.lru))
        &&& lru_order(self.lru).len() <= CACHE_CAPACITY
    }

    /// A well-formed cache never remembers more than `CACHE_CAPACITY` results, and
    /// its recency order lists exactly the keys it remembers, each once.
    pub proof fn lemma_bounded(&self)
        requires
            self.wf(),
        ensures
            self.entries().dom().finite(),
            self.entries().dom().len() <= CACHE_CAPACITY,
            self.recency().no_duplicates(),
            self.entries().dom() == self.recency().to_set(),
    {
        self.recency().unique_seq_to_set();
        vstd::seq_lib::seq_to_set_is_finite(self.recency());
    }

    /// An empty cache.
    pub fn new() -> (r: CorrelationCache)
        ensures
            r.wf(),
            r.entries() == Map::<Seq<u8>, Seq<u32>>::empty(),
            r.recency() == Seq::<Seq<u8>>::empty(),
            forall|f: spec_fn(SeriesView) -> Seq<u32>| #[trigger] r.holds_results_of(f),
    {
        let r = CorrelationCache { lru: lru_with_capacity(CACHE_CAPACITY) };
        proof {
            assert(r.entries() =~= Map::<Seq<u8>, Seq<u32>>::empty());
            assert(Seq::<Seq<u8>>::empty().to_set() =~= Set::<Seq<u8>>::empty());
        }
        r
    }

    /// The correlations remembered for `data`, if any; they are what a request for
    /// `data` is answered with without computing them again. A hit makes `data` the
    /// most recently used series. On a miss the caller computes the correlations and
    /// hands them to `remember`.
    pub fn correlate(&mut self, data: &BinaryTimeSeries) -> (r: Option<Vec<u32>>)
        requires
            old(self).wf(),
        ensures
            final(self).wf(),
            final(self).entries() == old(self).entries(),
            final(self).recency() == touch(old(self).recency(), series_key_bytes(data@)),
            r is Some <==> old(self).entries().contains_key(series_key_bytes(data@)),
            r matches Some(v) ==> v@ == old(self).entries()[series_key_bytes(data@)],
            forall|f: spec_fn(SeriesView) -> Seq<u32>|
                #[trigger] old(self).holds_results_of(f) ==> final(self).holds_results_of(f)
                    && (r matches Some(v) ==> v@ == f(data@)),
    {
        let key = series_key(data);
        proof {
            lemma_touch(self.entries(), self.recency(), key@);
        }
        lru_get(&mut self.lru, key.as_slice())
    }

    /// Remembers `correlations` for `data` as the most recently used entry and gives
    /// them back. When `data` is new and the cache is full, the least recently used
    /// entry is dropped to make room.
    pub fn remember(&mut self, data: &BinaryTimeSeries, correlations: Vec<u32>) -> (r: Vec<u32>)
        requires
            old(self).wf(),
        ensures
            final(self).wf(),
            r@ == correlations@,
            old(self).entries().contains_key(series_key_bytes(data@))
                ==> final(self).entries() == old(self).entries().insert(series_key_bytes(data@), correlations@)
                && final(self).recency() == touch(old(self).recency(), series_key_bytes(data@)),
            !old(self).entries().contains_key(series_key_bytes(data@))
                && old(self).recency().len() < CACHE_CAPACITY
                ==> final(self).entries() == old(self).entries().insert(series_key_bytes(data@), correlations@)
                && final(self).recency() == old(self).recency().push(series_key_bytes(data@)),
            !old(self).entries().contains_key(series_key_bytes(data@))
                && old(self).recency().len() >= CACHE_CAPACITY
                ==> final(self).entries() == old(self).entries().remove(old(self).recency()[0]).insert(series_key_bytes(data@), correlations@)
                && final(self).recency() == old(self).recency().drop_first().push(series_key_bytes(data@)),
            forall|f: spec_fn(SeriesView) -> Seq<u32>|
                #[trigger] old(self).holds_results_of(f) && f(data@) == correlations@
                    ==> final(self).holds_results_of(f),
    {
        let key = series_key(data);
        let ghost k = key@;
        let ghost old_entries = self.entries();
        let ghost old_order = self.recency();
        let _ = lru_insert(&mut self.lru, key.clone(), correlations.clone());
        proof {
            if old_entries.contains_key(k) {
                lemma_touch(old_entries, old_order, k);
                assert(old_order.contains(k)) by {
                    assert(old_order.to_set().contains(k));
                }
                assert(self.entries().dom() =~= old_entries.dom());
            } else {
                let d = lru_evicted(old_order.len(), CACHE_CAPACITY as nat);
                lemma_insert_new(old_entries, old_order, k, correlations@, d);
                if old_order.len() < CACHE_CAPACITY {
                    assert(old_order.subrange(0, d).to_set() =~= Set::<Seq<u8>>::empty());
                    assert(old_entries.remove_keys(Set::<Seq<u8>>::empty()) =~= old_entries);
                    assert(old_order.subrange(d, old_order.len() as int) =~= old_order);
                } else {
                    assert(d == 1);
                    assert forall|x: Seq<u8>|
                        old_order.subrange(0, 1).to_set().contains(x) == set![old_order[0]].contains(
                            x,
                        ) by {
                        if x == old_order[0] {
                            assert(old_order.subrange(0, 1)[0] == x);
                        }
                        if old_order.subrange(0, 1).contains(x) {
                            let q = choose|q: int| 0 <= q < 1 && old_order.subrange(0, 1)[q] == x;
                            assert(q == 0);
                        }
                    }
                    assert(old_order.subrange(0, 1).to_set() =~= set![old_order[0]]);
                    assert(old_entries.remove_keys(set![old_order[0]]) =~= old_entries.remove(
                        old_order[0],
                    ));
                    assert(old_order.subrange(1, old_order.len() as int) =~= old_order.drop_first());
                }
            }
            let o = self.recency();
            assert(o.len() > 0 && o.last() == k);
            lemma_touch(self.entries(), o, k);
            assert(self.entries().dom().contains(k)) by {
                assert(o[o.len() - 1] == k);
                assert(o.to_set().contains(k));
            }
        }
        let stored = lru_get(&mut self.lru, key.as_slice());
        proof {
            let ne = self.entries();
            assert(ne.contains_key(k) && ne[k] == correlations@);
            assert forall|x: SeriesView|
                key_fits(x) && #[trigger] ne.contains_key(series_key_bytes(x)) && series_key_bytes(x)
                    != k implies old_entries.contains_key(series_key_bytes(x))
                && ne[series_key_bytes(x)] == old_entries[series_key_bytes(x)] by {}
            assert forall|f: spec_fn(SeriesView) -> Seq<u32>|
                #[trigger] old(self).holds_results_of(f) && f(data@) == correlations@
                    implies self.holds_results_of(f) by {
                assert forall|x: SeriesView|
                    key_fits(x) && #[trigger] self.entries().contains_key(series_key_bytes(x))
                        implies self.entries()[series_key_bytes(x)] == f(x) by {
                    if series_key_bytes(x) == k {
                        lemma_series_key_identifies(x, data@);
                    } else {
                        assert(old_entries.contains_key(series_key_bytes(x)));
                    }
                }
            }
        }
        stored.unwrap()
    }
}

} // verus!
