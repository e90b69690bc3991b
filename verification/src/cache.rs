//! A memory-bounded LRU store with per-entry absolute expiry.
//!
//! Entries are kept in a single vector ordered by recency: the front
//! (index 0) is the least recently used slot and the back is the most
//! recently used one.  Every entry carries the number of bytes it is
//! charged for and the absolute instant (milliseconds) after which it is
//! dead.  The aggregate charge never exceeds the configured budget.

use vstd::prelude::*;

verus! {

use vstd::string::StrSliceExecFns;

/// One resident slot: a key, its value, the memory charge, and the
/// absolute instant after which the slot is dead.
#[derive(Clone)]
pub struct Entry<V> {
    pub key: String,
    pub value: V,
    pub size: usize,
    pub expires: u64,
}

/// No two slots share a key.
pub open spec fn unique_keys<V>(s: Seq<Entry<V>>) -> bool {
    forall|i: int, j: int| 0 <= i < j < s.len() ==> s[i].key@ != s[j].key@
}

/// No slot carries the key `k`.
pub open spec fn key_absent<V>(s: Seq<Entry<V>>, k: Seq<char>) -> bool {
    forall|i: int| 0 <= i < s.len() ==> s[i].key@ != k
}

/// Some slot carries the key `k`.
pub open spec fn has_key<V>(s: Seq<Entry<V>>, k: Seq<char>) -> bool {
    exists|i: int| 0 <= i < s.len() && s[i].key@ == k
}

/// The position of the slot carrying `k` (meaningful when `has_key`
/// holds and the keys are unique).
pub open spec fn key_index<V>(s: Seq<Entry<V>>, k: Seq<char>) -> int {
    choose|i: int| 0 <= i < s.len() && s[i].key@ == k
}

/// Some slot carries `k` and is still alive at `now` (strictly later
/// expiry).
pub open spec fn has_live<V>(s: Seq<Entry<V>>, k: Seq<char>, now: u64) -> bool {
    exists|i: int| 0 <= i < s.len() && s[i].key@ == k && s[i].expires > now
}

/// The total memory charge of a sequence of slots.
pub open spec fn sum_sizes<V>(s: Seq<Entry<V>>) -> int
    decreases s.len(),
{
    if s.len() == 0 {
        0
    } else {
        sum_sizes(s.drop_last()) + s.last().size
    }
}

/// The slots that survive the expiry sweep at `now`: the sweep removes
/// exactly the slots whose expiry lies strictly before `now`.
pub open spec fn swept<V>(s: Seq<Entry<V>>, now: u64) -> Seq<Entry<V>> {
    s.filter(|e: Entry<V>| e.expires >= now)
}

/// The slots other than the one keyed by `k`.
pub open spec fn without_key<V>(s: Seq<Entry<V>>, k: Seq<char>) -> Seq<Entry<V>> {
    s.filter(|e: Entry<V>| e.key@ != k)
}

/// The slots that are alive at `now`: lookups return only these.
pub open spec fn live_entries<V>(s: Seq<Entry<V>>, now: u64) -> Seq<Entry<V>> {
    s.filter(|e: Entry<V>| e.expires > now)
}

/// Eviction from the least-recently-used front: slots are dropped from
/// the front until `incoming` more bytes fit under `limit`.
pub open spec fn evict_for<V>(s: Seq<Entry<V>>, incoming: usize, limit: usize) -> Seq<Entry<V>>
    decreases s.len(),
{
    if sum_sizes(s) + incoming <= limit {
        s
    } else if s.len() == 0 {
        s
    } else {
        evict_for(s.drop_first(), incoming, limit)
    }
}

/// The state after `insert` of the slot `e` at `now` under budget
/// `limit`: the sweep runs first, then any slot under the same key is
/// reclaimed; if `e` fits the budget at all, the front is evicted until
/// it fits and `e` becomes the most recently used slot, otherwise the
/// insertion is refused.
pub open spec fn spec_insert<V>(s: Seq<Entry<V>>, e: Entry<V>, now: u64, limit: usize) -> Seq<
    Entry<V>,
> {
    let base = without_key(swept(s, now), e.key@);
    if e.size <= limit {
        evict_for(base, e.size, limit).push(e)
    } else {
        base
    }
}

proof fn lemma_sum_sizes_nonneg<V>(s: Seq<Entry<V>>)
    ensures
        sum_sizes(s) >= 0,
    decreases s.len(),
{
    if s.len() > 0 {
        lemma_sum_sizes_nonneg(s.drop_last());
    }
}

proof fn lemma_sum_sizes_add<V>(a: Seq<Entry<V>>, b: Seq<Entry<V>>)
    ensures
        sum_sizes(a + b) == sum_sizes(a) + sum_sizes(b),
    decreases b.len(),
{
    if b.len() == 0 {
        assert(a + b =~= a);
    } else {
        lemma_sum_sizes_add(a, b.drop_last());
        assert((a + b).drop_last() =~= a + b.drop_last());
        assert((a + b).last() == b.last());
    }
}

proof fn lemma_sum_sizes_remove<V>(s: Seq<Entry<V>>, i: int)
    requires
        0 <= i < s.len(),
    ensures
        sum_sizes(s.remove(i)) == sum_sizes(s) - s[i].size,
{
    let a = s.subrange(0, i);
    let m = s.subrange(i, i + 1);
    let b = s.subrange(i + 1, s.len() as int);
    assert(s =~= (a + m) + b);
    assert(s.remove(i) =~= a + b);
    lemma_sum_sizes_add(a + m, b);
    lemma_sum_sizes_add(a, m);
    lemma_sum_sizes_add(a, b);
    assert(m.last() == s[i]);
    assert(m.drop_last() =~= Seq::<Entry<V>>::empty());
    assert(sum_sizes(m.drop_last()) == 0);
    assert(sum_sizes(m) == s[i].size);
}

proof fn lemma_sum_sizes_push<V>(s: Seq<Entry<V>>, e: Entry<V>)
    ensures
        sum_sizes(s.push(e)) == sum_sizes(s) + e.size,
{
    assert(s.push(e).drop_last() =~= s);
    assert(s.push(e).last() == e);
}

proof fn lemma_unique_keys_remove<V>(s: Seq<Entry<V>>, i: int)
    requires
        unique_keys(s),
        0 <= i < s.len(),
    ensures
        unique_keys(s.remove(i)),
{
    let t = s.remove(i);
    assert forall|p: int, q: int| 0 <= p < q < t.len() implies t[p].key@ != t[q].key@ by {
        let p0 = if p < i {
            p
        } else {
            p + 1
        };
        let q0 = if q < i {
            q
        } else {
            q + 1
        };
        assert(t[p] == s[p0]);
        assert(t[q] == s[q0]);
    }
}

/// The sweep of a sequence extended at the back keeps the new slot
/// exactly when it is not yet expired.
proof fn lemma_swept_push<V>(s: Seq<Entry<V>>, e: Entry<V>, now: u64)
    ensures
        swept(s.push(e), now) == if e.expires >= now {
            swept(s, now).push(e)
        } else {
            swept(s, now)
        },
{
    reveal(Seq::filter);
    assert(s.push(e).drop_last() =~= s);
}

/// The live slots of a sequence extended at the back include the new
/// slot exactly when it is alive.
proof fn lemma_live_entries_push<V>(s: Seq<Entry<V>>, e: Entry<V>, now: u64)
    ensures
        live_entries(s.push(e), now) == if e.expires > now {
            live_entries(s, now).push(e)
        } else {
            live_entries(s, now)
        },
{
    reveal(Seq::filter);
    assert(s.push(e).drop_last() =~= s);
}

/// If `k` is absent, filtering it out changes nothing.
proof fn lemma_without_key_absent<V>(s: Seq<Entry<V>>, k: Seq<char>)
    requires
        key_absent(s, k),
    ensures
        without_key(s, k) == s,
    decreases s.len(),
{
    reveal(Seq::filter);
    if s.len() > 0 {
        let rest = s.drop_last();
        assert(key_absent(rest, k)) by {
            assert forall|i: int| 0 <= i < rest.len() implies rest[i].key@ != k by {
                assert(rest[i] == s[i]);
            }
        }
        lemma_without_key_absent(rest, k);
        assert(s.last() == s[s.len() - 1]);
        assert(without_key(s, k) =~= s);
    } else {
        assert(without_key(s, k) =~= s);
    }
}

/// Removing the unique slot keyed by `k` is the same as filtering the
/// key out.
proof fn lemma_without_key_is_remove<V>(s: Seq<Entry<V>>, k: Seq<char>, i: int)
    requires
        unique_keys(s),
        0 <= i < s.len(),
        s[i].key@ == k,
    ensures
        without_key(s, k) == s.remove(i),
    decreases s.len(),
{
    reveal(Seq::filter);
    if i == s.len() - 1 {
        let rest = s.drop_last();
        assert(key_absent(rest, k)) by {
            assert forall|t: int| 0 <= t < rest.len() implies rest[t].key@ != k by {
                assert(rest[t] == s[t]);
                assert(s[t].key@ != s[i].key@);
            }
        }
        lemma_without_key_absent(rest, k);
        assert(s.last() == s[i]);
        assert(without_key(s, k) =~= rest);
        assert(s.remove(i) =~= rest);
    } else {
        let rest = s.drop_last();
        assert(unique_keys(rest)) by {
            assert forall|p: int, q: int| 0 <= p < q < rest.len() implies rest[p].key@
                != rest[q].key@ by {
                assert(rest[p] == s[p]);
                assert(rest[q] == s[q]);
            }
        }
        assert(rest[i] == s[i]);
        lemma_without_key_is_remove(rest, k, i);
        assert(s.last() == s[s.len() - 1]);
        assert(s.last().key@ != k) by {
            assert(s[i].key@ != s[s.len() - 1].key@);
        }
        assert(without_key(s, k) == without_key(rest, k).push(s.last()));
        assert(s.remove(i) =~= rest.remove(i).push(s.last()));
    }
}

/// Eviction drops slots only from the front: the result is a suffix of
/// the sequence it started from.
proof fn lemma_evict_for_suffix<V>(s: Seq<Entry<V>>, incoming: usize, limit: usize)
    ensures
        exists|k: int|
            0 <= k <= s.len() && evict_for(s, incoming, limit) == s.subrange(k, s.len() as int),
    decreases s.len(),
{
    if sum_sizes(s) + incoming <= limit {
        assert(s.subrange(0, s.len() as int) =~= s);
    } else if s.len() == 0 {
        assert(s.subrange(0, s.len() as int) =~= s);
    } else {
        lemma_evict_for_suffix(s.drop_first(), incoming, limit);
        let k = choose|k: int|
            0 <= k <= s.drop_first().len() && evict_for(s.drop_first(), incoming, limit)
                == s.drop_first().subrange(k, s.drop_first().len() as int);
        assert(s.drop_first().subrange(k, s.drop_first().len() as int) =~= s.subrange(
            k + 1,
            s.len() as int,
        ));
    }
}

/// A sweep keeps a sequence in which nothing has yet expired unchanged.
proof fn lemma_swept_identity<V>(s: Seq<Entry<V>>, now: u64)
    requires
        forall|i: int| 0 <= i < s.len() ==> s[i].expires >= now,
    ensures
        swept(s, now) == s,
    decreases s.len(),
{
    reveal(Seq::filter);
    if s.len() > 0 {
        let rest = s.drop_last();
        assert(forall|i: int| 0 <= i < rest.len() ==> #[trigger] rest[i] == s[i]);
        lemma_swept_identity(rest, now);
        assert(s.last() == s[s.len() - 1]);
        assert(swept(s, now) =~= s);
    } else {
        assert(swept(s, now) =~= s);
    }
}

/// After an insertion that fits the budget, the key is resident as the
/// most recently used slot; an insertion larger than the budget leaves
/// exactly the swept state with any prior slot under the key reclaimed.
pub proof fn lemma_insert_resident_or_refused<V>(
    s: Seq<Entry<V>>,
    e: Entry<V>,
    now: u64,
    limit: usize,
)
    ensures
        e.size <= limit ==> ({
            let t = spec_insert(s, e, now, limit);
            t.len() > 0 && t.last() == e && has_key(t, e.key@)
        }),
        e.size > limit ==> spec_insert(s, e, now, limit) == without_key(swept(s, now), e.key@),
{
    if e.size <= limit {
        let t = spec_insert(s, e, now, limit);
        assert(t.last() == e);
        assert(t[t.len() - 1].key@ == e.key@);
    }
}

/// A lookup at `now` immediately following an insertion that fits the
/// budget and expires strictly after `now` finds the inserted value:
/// the state needs no further sweep and the key's unique slot holds the
/// value just inserted.
pub proof fn lemma_insert_then_lookup<V>(s: Seq<Entry<V>>, e: Entry<V>, now: u64, limit: usize)
    requires
        e.size <= limit,
        e.expires > now,
        unique_keys(spec_insert(s, e, now, limit)),
    ensures
        ({
            let t = spec_insert(s, e, now, limit);
            &&& swept(t, now) == t
            &&& has_live(t, e.key@, now)
            &&& t[key_index(t, e.key@)].value == e.value
        }),
{
    broadcast use Seq::lemma_filter_pred, Seq::lemma_filter_contains_rev;

    let base = without_key(swept(s, now), e.key@);
    let kept = evict_for(base, e.size, limit);
    let t = spec_insert(s, e, now, limit);
    assert(t == kept.push(e));
    lemma_evict_for_suffix(base, e.size, limit);
    let k = choose|k: int|
        0 <= k <= base.len() && kept == base.subrange(k, base.len() as int);
    assert forall|i: int| 0 <= i < t.len() implies t[i].expires >= now by {
        if i < kept.len() {
            let b = base[k + i];
            assert(t[i] == b);
            assert(base.contains(b)) by {
                assert(0 <= k + i < base.len() && base[k + i] == b);
            }
            assert(swept(s, now).contains(b));
            let j = choose|j: int| 0 <= j < swept(s, now).len() && swept(s, now)[j] == b;
            assert(swept(s, now)[j].expires >= now);
        } else {
            assert(t[i] == e);
        }
    }
    lemma_swept_identity(t, now);
    assert(t[t.len() - 1] == e);
    assert(has_live(t, e.key@, now));
    let w = key_index(t, e.key@);
    assert(0 <= w < t.len() && t[w].key@ == e.key@);
    if w != t.len() - 1 {
        assert(t[w].key@ != t[t.len() - 1].key@);
    }
}

/// Whatever a lookup reports as present is alive: when the keys are
/// unique, the slot it picks for a live key expires strictly after
/// `now`.
pub proof fn lemma_returned_entries_are_live<V>(s: Seq<Entry<V>>, k: Seq<char>, now: u64)
    requires
        unique_keys(s),
        has_live(s, k, now),
    ensures
        0 <= key_index(s, k) < s.len(),
        s[key_index(s, k)].key@ == k,
        s[key_index(s, k)].expires > now,
{
    let w = choose|w: int| 0 <= w < s.len() && s[w].key@ == k && s[w].expires > now;
    assert(has_key(s, k));
    let i = key_index(s, k);
    assert(0 <= i < s.len() && s[i].key@ == k);
    if i != w {
        assert(s[i].key@ != s[w].key@);
    }
}

/// A slot just promoted to the most recently used position is not the
/// next eviction victim: eviction removes the front, and whenever some
/// other slot remains, the front is that other slot.
pub proof fn lemma_promoted_is_not_victim<V>(s: Seq<Entry<V>>, k: Seq<char>, now: u64)
    requires
        unique_keys(s),
        has_key(s, k),
    ensures
        ({
            let t = s.remove(key_index(s, k)).push(s[key_index(s, k)]);
            &&& t.last().key@ == k
            &&& t.len() >= 2 ==> t[0].key@ != k
        }),
{
    let i = key_index(s, k);
    assert(0 <= i < s.len() && s[i].key@ == k);
    let t = s.remove(i).push(s[i]);
    if t.len() >= 2 {
        let u = s.remove(i);
        assert(t[0] == u[0]);
        let p0: int = if 0 < i {
            0
        } else {
            1
        };
        assert(u[0] == s[p0]);
        assert(p0 != i);
        if p0 < i {
            assert(s[p0].key@ != s[i].key@);
        } else {
            assert(s[i].key@ != s[p0].key@);
        }
    }
}

/// A slot exactly as large as the whole budget fits into an empty
/// store: it is inserted without any eviction and becomes resident.
pub proof fn lemma_exact_fit_is_cached<V>(e: Entry<V>, now: u64, limit: usize)
    requires
        e.size == limit,
    ensures
        spec_insert(Seq::<Entry<V>>::empty(), e, now, limit) == seq![e],
        has_key(spec_insert(Seq::<Entry<V>>::empty(), e, now, limit), e.key@),
{
    reveal(Seq::filter);
    let s = Seq::<Entry<V>>::empty();
    assert(swept(s, now) =~= s);
    assert(without_key(s, e.key@) =~= s);
    assert(sum_sizes(s) == 0);
    assert(evict_for(s, e.size, limit) == s);
    assert(s.push(e) =~= seq![e]);
    let t = spec_insert(s, e, now, limit);
    assert(t[0].key@ == e.key@);
}

/// Compares two string slices character by character.
fn str_eq(a: &str, b: &str) -> (r: bool)
    ensures
        r == (a@ == b@),
{
    let a_len = a.unicode_len();
    let b_len = b.unicode_len();
    if a_len != b_len {
        return false;
    }
    let mut i: usize = 0;
    while i < a_len
        invariant
            a_len == a@.len(),
            b_len == b@.len(),
            a_len == b_len,
            0 <= i <= a_len,
            forall|t: int| 0 <= t < i ==> a@[t] == b@[t],
        decreases a_len - i,
    {
        if a.get_char(i) != b.get_char(i) {
            return false;
        }
        i = i + 1;
    }
    proof {
        assert(a@ =~= b@);
    }
    true
}

/// A memory-bounded LRU store.  The vector order is the recency order:
/// index 0 is the least recently used slot, the back is the most
/// recently used one.
#[derive(Clone)]
pub struct LruCache<V> {
    entries: Vec<Entry<V>>,
    max_memory_size: usize,
    current_memory_size: usize,
}

impl<V> LruCache<V> {
    /// The resident slots in recency order.
    pub closed spec fn entries(&self) -> Seq<Entry<V>> {
        self.entries@
    }

    /// The configured memory budget in bytes.
    pub closed spec fn max_memory(&self) -> usize {
        self.max_memory_size
    }

    /// The aggregate memory charge of the resident slots.
    pub closed spec fn used_memory(&self) -> usize {
        self.current_memory_size
    }

    /// The store's invariant: keys are unique, the running total equals
    /// the sum of the slot charges, and the total never exceeds the
    /// budget.
    pub open spec fn wf(&self) -> bool {
        &&& unique_keys(self.entries())
        &&& self.used_memory() == sum_sizes(self.entries())
        &&& self.used_memory() <= self.max_memory()
    }

    /// Constructs an empty store with the given memory budget.
    pub fn with_memory_size(memory_size: usize) -> (cache: Self)
        ensures
            cache.wf(),
            cache.entries() == Seq::<Entry<V>>::empty(),
            cache.max_memory() == memory_size,
            cache.used_memory() == 0,
    {
        let cache = LruCache {
            entries: Vec::new(),
            max_memory_size: memory_size,
            current_memory_size: 0,
        };
        proof {
            assert(cache.entries@ =~= Seq::<Entry<V>>::empty());
        }
        cache
    }

    /// Removes every slot whose expiry lies strictly before `now`.
    fn remove_expired(&mut self, now: u64)
        requires
            old(self).wf(),
        ensures
            final(self).wf(),
            final(self).entries() == swept(old(self).entries(), now),
            final(self).max_memory() == old(self).max_memory(),
    {
        let ghost orig = self.entries@;
        let mut i: usize = 0;
        let ghost mut j: int = 0;
        proof {
            assert(orig.subrange(0, 0) =~= Seq::<Entry<V>>::empty());
            assert(swept(orig.subrange(0, 0), now) =~= Seq::<Entry<V>>::empty()) by {
                reveal(Seq::filter);
            }
            assert(orig.subrange(0, orig.len() as int) =~= orig);
            assert(self.entries@ =~= swept(orig.subrange(0, 0), now) + orig.subrange(
                0,
                orig.len() as int,
            ));
        }
        while i < self.entries.len()
            invariant
                0 <= j <= orig.len(),
                i as int == swept(orig.subrange(0, j), now).len(),
                self.entries@ == swept(orig.subrange(0, j), now) + orig.subrange(
                    j,
                    orig.len() as int,
                ),
                self.current_memory_size == sum_sizes(self.entries@),
                self.current_memory_size <= old(self).used_memory(),
                self.max_memory_size == old(self).max_memory(),
                old(self).used_memory() <= old(self).max_memory(),
                unique_keys(self.entries@),
            decreases orig.len() - j,
        {
            proof {
                assert(self.entries@[i as int] == orig[j]);
                assert(orig.subrange(0, j + 1).drop_last() =~= orig.subrange(0, j));
                assert(orig.subrange(0, j + 1) =~= orig.subrange(0, j).push(orig[j]));
            }
            if self.entries[i].expires < now {
                proof {
                    lemma_sum_sizes_remove(self.entries@, i as int);
                    lemma_sum_sizes_nonneg(self.entries@.remove(i as int));
                    lemma_unique_keys_remove(self.entries@, i as int);
                    lemma_swept_push(orig.subrange(0, j), orig[j], now);
                }
                let ghost pre = self.entries@;
                let e = self.entries.remove(i);
                self.current_memory_size = self.current_memory_size - e.size;
                proof {
                    assert(self.entries@ =~= pre.remove(i as int));
                    assert(self.entries@ =~= swept(orig.subrange(0, j + 1), now) + orig.subrange(
                        j + 1,
                        orig.len() as int,
                    ));
                    j = j + 1;
                }
            } else {
                proof {
                    lemma_swept_push(orig.subrange(0, j), orig[j], now);
                    assert(swept(orig.subrange(0, j + 1), now) =~= swept(
                        orig.subrange(0, j),
                        now,
                    ).push(orig[j]));
                    assert(self.entries@ =~= swept(orig.subrange(0, j + 1), now) + orig.subrange(
                        j + 1,
                        orig.len() as int,
                    ));
                    j = j + 1;
                }
                i = i + 1;
            }
        }
        proof {
            assert(j == orig.len());
            assert(orig.subrange(0, j) =~= orig);
            assert(orig.subrange(j, orig.len() as int) =~= Seq::<Entry<V>>::empty());
            assert(self.entries@ =~= swept(orig, now));
        }
    }

    /// Removes the slot keyed by `key`, however stale, and returns its
    /// value.
    pub fn remove(&mut self, key: &str) -> (removed: Option<V>)
        requires
            old(self).wf(),
        ensures
            final(self).wf(),
            final(self).entries() == without_key(old(self).entries(), key@),
            final(self).max_memory() == old(self).max_memory(),
            removed is Some <==> has_key(old(self).entries(), key@),
            removed is Some ==> removed->Some_0 == old(self).entries()[key_index(
                old(self).entries(),
                key@,
            )].value,
    {
        let ghost orig = self.entries@;
        let mut i: usize = 0;
        while i < self.entries.len()
            invariant
                old(self).wf(),
                self == old(self),
                self.entries@ == orig,
                0 <= i <= orig.len(),
                forall|t: int| 0 <= t < i ==> orig[t].key@ != key@,
            decreases orig.len() - i,
        {
            if str_eq(self.entries[i].key.as_str(), key) {
                proof {
                    lemma_sum_sizes_remove(orig, i as int);
                    lemma_sum_sizes_nonneg(orig.remove(i as int));
                    lemma_unique_keys_remove(orig, i as int);
                    lemma_without_key_is_remove(orig, key@, i as int);
                    assert(has_key(orig, key@));
                    assert(key_index(orig, key@) == i as int) by {
                        let w = key_index(orig, key@);
                        assert(0 <= w < orig.len() && orig[w].key@ == key@);
                        if w != i as int {
                            assert(orig[w].key@ != orig[i as int].key@);
                        }
                    }
                }
                let e = self.entries.remove(i);
                self.current_memory_size = self.current_memory_size - e.size;
                return Some(e.value);
            }
            i = i + 1;
        }
        proof {
            assert(key_absent(orig, key@));
            lemma_without_key_absent(orig, key@);
            if has_key(orig, key@) {
                let w = key_index(orig, key@);
                assert(orig[w].key@ != key@);
            }
        }
        None
    }

    /// Looks the key up, sweeping expired slots first.  A live hit is
    /// promoted to the most recently used position; a dead or missing
    /// key returns nothing and leaves the recency order alone.
    pub fn get(&mut self, key: &str, now: u64) -> (result: Option<&V>)
        requires
            old(self).wf(),
        ensures
            final(self).wf(),
            final(self).max_memory() == old(self).max_memory(),
            ({
                let s = swept(old(self).entries(), now);
                if has_live(s, key@, now) {
                    &&& result is Some
                    &&& *result->Some_0 == s[key_index(s, key@)].value
                    &&& final(self).entries() == s.remove(key_index(s, key@)).push(
                        s[key_index(s, key@)],
                    )
                } else {
                    &&& result is None
                    &&& final(self).entries() == s
                }
            }),
    {
        self.remove_expired(now);
        let ghost s = self.entries@;
        let mut i: usize = 0;
        while i < self.entries.len()
            invariant
                self.wf(),
                self.entries@ == s,
                s == swept(old(self).entries(), now),
                self.max_memory_size == old(self).max_memory(),
                0 <= i <= s.len(),
                forall|t: int| 0 <= t < i ==> s[t].key@ != key@,
            decreases s.len() - i,
        {
            if str_eq(self.entries[i].key.as_str(), key) {
                proof {
                    assert(key_index(s, key@) == i as int) by {
                        assert(has_key(s, key@));
                        let w = key_index(s, key@);
                        assert(0 <= w < s.len() && s[w].key@ == key@);
                        if w != i as int {
                            assert(s[w].key@ != s[i as int].key@);
                        }
                    }
                }
                if self.entries[i].expires > now {
                    proof {
                        lemma_sum_sizes_remove(s, i as int);
                        lemma_sum_sizes_push(s.remove(i as int), s[i as int]);
                        lemma_unique_keys_remove(s, i as int);
                        let t = s.remove(i as int).push(s[i as int]);
                        assert(unique_keys(t)) by {
                            let u = s.remove(i as int);
                            assert forall|p: int, q: int| 0 <= p < q < t.len() implies t[p].key@
                                != t[q].key@ by {
                                if q < t.len() - 1 {
                                    assert(t[p] == u[p]);
                                    assert(t[q] == u[q]);
                                } else {
                                    assert(t[p] == u[p]);
                                    assert(t[q] == s[i as int]);
                                    let p0 = if p < i as int {
                                        p
                                    } else {
                                        p + 1
                                    };
                                    assert(u[p] == s[p0]);
                                }
                            }
                        }
                    }
                    let e = self.entries.remove(i);
                    self.entries.push(e);
                    let n = self.entries.len();
                    proof {
                        assert(self.entries@ =~= s.remove(i as int).push(s[i as int]));
                        assert(has_live(s, key@, now));
                    }
                    return Some(&self.entries[n - 1].value);
                } else {
                    proof {
                        assert(!has_live(s, key@, now)) by {
                            if has_live(s, key@, now) {
                                let w = choose|w: int|
                                    0 <= w < s.len() && s[w].key@ == key@ && s[w].expires > now;
                                if w != i as int {
                                    assert(s[w].key@ != s[i as int].key@);
                                }
                            }
                        }
                    }
                    return None;
                }
            }
            i = i + 1;
        }
        proof {
            assert(!has_live(s, key@, now)) by {
                if has_live(s, key@, now) {
                    let w = choose|w: int|
                        0 <= w < s.len() && s[w].key@ == key@ && s[w].expires > now;
                    assert(s[w].key@ != key@);
                }
            }
        }
        None
    }

    /// Looks the key up without promoting it and without sweeping:
    /// a value is returned only while the slot is alive.
    pub fn peek(&self, key: &str, now: u64) -> (result: Option<&V>)
        requires
            self.wf(),
        ensures
            if has_live(self.entries(), key@, now) {
                result is Some && *result->Some_0 == self.entries()[key_index(
                    self.entries(),
                    key@,
                )].value
            } else {
                result is None
            },
    {
        let ghost s = self.entries@;
        let mut i: usize = 0;
        while i < self.entries.len()
            invariant
                self.wf(),
                self.entries@ == s,
                0 <= i <= s.len(),
                forall|t: int| 0 <= t < i ==> s[t].key@ != key@,
            decreases s.len() - i,
        {
            if str_eq(self.entries[i].key.as_str(), key) {
                proof {
                    assert(key_index(s, key@) == i as int) by {
                        assert(has_key(s, key@));
                        let w = key_index(s, key@);
                        assert(0 <= w < s.len() && s[w].key@ == key@);
                        if w != i as int {
                            assert(s[w].key@ != s[i as int].key@);
                        }
                    }
                }
                if self.entries[i].expires > now {
                    return Some(&self.entries[i].value);
                } else {
                    proof {
                        assert(!has_live(s, key@, now)) by {
                            if has_live(s, key@, now) {
                                let w = choose|w: int|
                                    0 <= w < s.len() && s[w].key@ == key@ && s[w].expires > now;
                                if w != i as int {
                                    assert(s[w].key@ != s[i as int].key@);
                                }
                            }
                        }
                    }
                    return None;
                }
            }
            i = i + 1;
        }
        proof {
            assert(!has_live(s, key@, now)) by {
                if has_live(s, key@, now) {
                    let w = choose|w: int|
                        0 <= w < s.len() && s[w].key@ == key@ && s[w].expires > now;
                    assert(s[w].key@ != key@);
                }
            }
        }
        None
    }

    /// Reports whether a live slot carries the key.
    pub fn contains_key(&self, key: &str, now: u64) -> (present: bool)
        requires
            self.wf(),
        ensures
            present == has_live(self.entries(), key@, now),
    {
        self.peek(key, now).is_some()
    }

    /// Counts the slots that are alive at `now`.
    pub fn len(&self, now: u64) -> (n: usize)
        ensures
            n == live_entries(self.entries(), now).len(),
    {
        let ghost s = self.entries@;
        let mut n: usize = 0;
        let mut i: usize = 0;
        proof {
            assert(s.subrange(0, 0) =~= Seq::<Entry<V>>::empty());
            assert(live_entries(s.subrange(0, 0), now) =~= Seq::<Entry<V>>::empty()) by {
                reveal(Seq::filter);
            }
        }
        while i < self.entries.len()
            invariant
                self.entries@ == s,
                0 <= i <= s.len(),
                n as int == live_entries(s.subrange(0, i as int), now).len(),
                n <= i,
            decreases s.len() - i,
        {
            proof {
                assert(s.subrange(0, i + 1).drop_last() =~= s.subrange(0, i as int));
                assert(s.subrange(0, i + 1) =~= s.subrange(0, i as int).push(s[i as int]));
                lemma_live_entries_push(s.subrange(0, i as int), s[i as int], now);
            }
            if self.entries[i].expires > now {
                n = n + 1;
            }
            i = i + 1;
        }
        proof {
            assert(s.subrange(0, s.len() as int) =~= s);
        }
        n
    }

    /// Reports whether no slot is alive at `now`.
    pub fn is_empty(&self, now: u64) -> (empty: bool)
        ensures
            empty == (live_entries(self.entries(), now).len() == 0),
    {
        self.len(now) == 0
    }

    /// Inserts a key-value pair, first sweeping expired slots and
    /// reclaiming any slot under the same key (whose value is returned),
    /// then evicting from the least recently used front until the new
    /// slot fits the budget.  A slot larger than the whole budget is
    /// refused.
    pub fn insert(&mut self, key: String, value: V, memory_size: usize, expires: u64, now: u64) -> (prior:
        Option<V>)
        requires
            old(self).wf(),
        ensures
            final(self).wf(),
            final(self).max_memory() == old(self).max_memory(),
            final(self).entries() == spec_insert(
                old(self).entries(),
                (Entry { key: key, value: value, size: memory_size, expires: expires }),
                now,
                old(self).max_memory(),
            ),
            prior is Some <==> has_key(swept(old(self).entries(), now), key@),
            prior is Some ==> prior->Some_0 == swept(old(self).entries(), now)[key_index(
                swept(old(self).entries(), now),
                key@,
            )].value,
    {
        let ghost orig = self.entries@;
        let ghost e_spec = (Entry {
            key: key,
            value: value,
            size: memory_size,
            expires: expires,
        });
        self.remove_expired(now);
        let prior = self.remove(key.as_str());
        let ghost base = self.entries@;
        proof {
            assert(base == without_key(swept(orig, now), key@));
        }
        if memory_size <= self.max_memory_size {
            while self.current_memory_size > self.max_memory_size - memory_size
                invariant
                    unique_keys(self.entries@),
                    self.current_memory_size == sum_sizes(self.entries@),
                    self.current_memory_size <= self.max_memory_size,
                    self.max_memory_size == old(self).max_memory(),
                    memory_size <= self.max_memory_size,
                    key_absent(self.entries@, key@),
                    evict_for(self.entries@, memory_size, self.max_memory_size) == evict_for(
                        base,
                        memory_size,
                        self.max_memory_size,
                    ),
                decreases self.entries@.len(),
            {
                proof {
                    if self.entries@.len() == 0 {
                        assert(sum_sizes(self.entries@) == 0);
                    }
                    assert(self.entries@.len() > 0);
                    lemma_sum_sizes_remove(self.entries@, 0);
                    lemma_sum_sizes_nonneg(self.entries@.remove(0));
                    lemma_unique_keys_remove(self.entries@, 0);
                }
                let ghost pre = self.entries@;
                let victim = self.entries.remove(0);
                self.current_memory_size = self.current_memory_size - victim.size;
                proof {
                    assert(pre.remove(0) =~= pre.drop_first());
                    assert(evict_for(pre, memory_size, self.max_memory_size) == evict_for(
                        pre.drop_first(),
                        memory_size,
                        self.max_memory_size,
                    ));
                    assert(key_absent(self.entries@, key@)) by {
                        assert forall|t: int| 0 <= t < self.entries@.len() implies self.entries@[t].key@
                            != key@ by {
                            assert(self.entries@[t] == pre[t + 1]);
                        }
                    }
                }
            }
            proof {
                assert(evict_for(self.entries@, memory_size, self.max_memory_size)
                    == self.entries@);
                lemma_sum_sizes_push(self.entries@, e_spec);
            }
            let ghost pre_push = self.entries@;
            self.entries.push(Entry { key, value, size: memory_size, expires });
            self.current_memory_size = self.current_memory_size + memory_size;
            proof {
                assert(self.entries@ =~= pre_push.push(e_spec));
                assert(unique_keys(self.entries@)) by {
                    let t = pre_push.push(e_spec);
                    assert forall|p: int, q: int| 0 <= p < q < t.len() implies t[p].key@
                        != t[q].key@ by {
                        if q < t.len() - 1 {
                            assert(t[p] == pre_push[p]);
                            assert(t[q] == pre_push[q]);
                        } else {
                            assert(t[p] == pre_push[p]);
                            assert(t[q] == e_spec);
                        }
                    }
                }
            }
            prior
        } else {
            prior
        }
    }

    /// Sweeps expired slots, then snapshots every live key-value pair in
    /// recency order (front first).  Unlike a lazy traversal, the
    /// snapshot leaves the recency order unchanged.
    pub fn iter(&mut self, now: u64) -> (items: Vec<(String, V)>) where V: Copy
        requires
            old(self).wf(),
        ensures
            final(self).wf(),
            final(self).entries() == swept(old(self).entries(), now),
            final(self).max_memory() == old(self).max_memory(),
            items@.len() == live_entries(final(self).entries(), now).len(),
            forall|t: int|
                0 <= t < items@.len() ==> items@[t].0@ == live_entries(
                    final(self).entries(),
                    now,
                )[t].key@ && items@[t].1 == live_entries(final(self).entries(), now)[t].value,
    {
        self.remove_expired(now);
        self.snapshot_live(now)
    }

    /// Snapshots every live key-value pair in recency order without
    /// sweeping and without touching the recency order.
    pub fn peek_iter(&self, now: u64) -> (items: Vec<(String, V)>) where V: Copy
        ensures
            items@.len() == live_entries(self.entries(), now).len(),
            forall|t: int|
                0 <= t < items@.len() ==> items@[t].0@ == live_entries(self.entries(), now)[t].key@
                    && items@[t].1 == live_entries(self.entries(), now)[t].value,
    {
        self.snapshot_live(now)
    }

    fn snapshot_live(&self, now: u64) -> (items: Vec<(String, V)>) where V: Copy
        ensures
            items@.len() == live_entries(self.entries(), now).len(),
            forall|t: int|
                0 <= t < items@.len() ==> items@[t].0@ == live_entries(self.entries(), now)[t].key@
                    && items@[t].1 == live_entries(self.entries(), now)[t].value,
    {
        let ghost s = self.entries@;
        let mut items: Vec<(String, V)> = Vec::new();
        let mut i: usize = 0;
        proof {
            assert(s.subrange(0, 0) =~= Seq::<Entry<V>>::empty());
            assert(live_entries(s.subrange(0, 0), now) =~= Seq::<Entry<V>>::empty()) by {
                reveal(Seq::filter);
            }
        }
        while i < self.entries.len()
            invariant
                self.entries@ == s,
                0 <= i <= s.len(),
                items@.len() == live_entries(s.subrange(0, i as int), now).len(),
                forall|t: int|
                    0 <= t < items@.len() ==> items@[t].0@ == live_entries(
                        s.subrange(0, i as int),
                        now,
                    )[t].key@ && items@[t].1 == live_entries(s.subrange(0, i as int), now)[t].value,
            decreases s.len() - i,
        {
            proof {
                assert(s.subrange(0, i + 1).drop_last() =~= s.subrange(0, i as int));
                assert(s.subrange(0, i + 1) =~= s.subrange(0, i as int).push(s[i as int]));
                lemma_live_entries_push(s.subrange(0, i as int), s[i as int], now);
            }
            if self.entries[i].expires > now {
                let pair = (self.entries[i].key.clone(), self.entries[i].value);
                items.push(pair);
            }
            i = i + 1;
        }
        proof {
            assert(s.subrange(0, s.len() as int) =~= s);
        }
        items
    }

    /// Drops every slot and resets the memory charge.
    pub fn clear(&mut self)
        ensures
            final(self).wf(),
            final(self).entries() == Seq::<Entry<V>>::empty(),
            final(self).max_memory() == old(self).max_memory(),
            final(self).used_memory() == 0,
    {
        self.entries.clear();
        self.current_memory_size = 0;
        proof {
            assert(self.entries@ =~= Seq::<Entry<V>>::empty());
        }
    }
}

} // verus!
