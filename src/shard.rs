//! One capacity-bounded partition of the cache, with its own eviction state.
use vstd::prelude::*;
use crate::bytes::bytes_eq;
use crate::cache::Priority;
use crate::error::Error;
use crate::sum::{sum_of, lemma_sum_push, lemma_sum_remove, lemma_sum_update, lemma_sum_nonneg, lemma_sum_ge_elem};

verus! {

/// The eviction algorithm of a shard.
#[derive(Clone, Copy, Debug, PartialEq, Eq, Structural)]
pub enum Policy {
    /// Least recently used first; entries are kept in order of use.
    Lru,
    /// Second chance: a sweep clears reference bits and evicts the first unmarked entry.
    Clock,
}

/// A cached value and its bookkeeping.
struct Entry {
    key: Vec<u8>,
    value: u64,
    charge: usize,
    /// LRU: the entry sits in the protected high-priority pool.
    in_high_pool: bool,
    /// Clock: the entry was used since the last sweep passed it.
    referenced: bool,
}

/// What is released back to the caller when an entry leaves the cache.
pub type Released = (Vec<u8>, u64);

spec fn charges(s: Seq<Entry>) -> Seq<int> {
    s.map_values(|e: Entry| e.charge as int)
}

spec fn map_of(s: Seq<Entry>) -> Map<Seq<u8>, (u64, usize)>
    decreases s.len(),
{
    if s.len() == 0 {
        Map::empty()
    } else {
        map_of(s.drop_last()).insert(s.last().key@, (s.last().value, s.last().charge))
    }
}

spec fn unique_keys(s: Seq<Entry>) -> bool {
    forall|i: int, j: int| 0 <= i < s.len() && 0 <= j < s.len() && i != j ==> s[i].key@ != s[j].key@
}

proof fn lemma_map_of_contains(s: Seq<Entry>, k: Seq<u8>)
    ensures
        map_of(s).contains_key(k) <==> exists|i: int| 0 <= i < s.len() && s[i].key@ == k,
    decreases s.len(),
{
    if s.len() > 0 {
        lemma_map_of_contains(s.drop_last(), k);
        if map_of(s).contains_key(k) && s.last().key@ != k {
            let i = choose|i: int| 0 <= i < s.drop_last().len() && s.drop_last()[i].key@ == k;
            assert(s[i].key@ == k);
        }
        if exists|i: int| 0 <= i < s.len() && s[i].key@ == k {
            let i = choose|i: int| 0 <= i < s.len() && s[i].key@ == k;
            if i < s.len() - 1 {
                assert(s.drop_last()[i].key@ == k);
            }
        }
    }
}

proof fn lemma_map_of_at(s: Seq<Entry>, i: int)
    requires
        unique_keys(s),
        0 <= i < s.len(),
    ensures
        map_of(s).contains_key(s[i].key@),
        map_of(s)[s[i].key@] == (s[i].value, s[i].charge),
    decreases s.len(),
{
    if i < s.len() - 1 {
        assert(s.drop_last()[i] == s[i]);
        lemma_map_of_at(s.drop_last(), i);
    }
}

proof fn lemma_map_of_remove(s: Seq<Entry>, i: int)
    requires
        unique_keys(s),
        0 <= i < s.len(),
    ensures
        unique_keys(s.remove(i)),
        map_of(s.remove(i)) =~= map_of(s).remove(s[i].key@),
    decreases s.len(),
{
    let k = s[i].key@;
    if i == s.len() - 1 {
        assert(s.remove(i) =~= s.drop_last());
        if map_of(s.drop_last()).contains_key(k) {
            lemma_map_of_contains(s.drop_last(), k);
            let j = choose|j: int| 0 <= j < s.drop_last().len() && s.drop_last()[j].key@ == k;
            assert(s[j].key@ == k);
        }
    } else {
        lemma_map_of_remove(s.drop_last(), i);
        assert(s.drop_last()[i] == s[i]);
        assert(s.remove(i) =~= s.drop_last().remove(i).push(s.last()));
        assert(s.remove(i).drop_last() =~= s.drop_last().remove(i));
    }
}

proof fn lemma_map_of_update(s: Seq<Entry>, i: int, e: Entry)
    requires
        unique_keys(s),
        0 <= i < s.len(),
        e.key@ == s[i].key@,
    ensures
        unique_keys(s.update(i, e)),
        map_of(s.update(i, e)) =~= map_of(s).insert(e.key@, (e.value, e.charge)),
{
    let t = s.update(i, e);
    assert(unique_keys(t)) by {
        assert forall|a: int, b: int| 0 <= a < t.len() && 0 <= b < t.len() && a != b implies t[a].key@
            != t[b].key@ by {
            assert(t[a].key@ == s[a].key@);
            assert(t[b].key@ == s[b].key@);
        }
    }
    lemma_map_of_remove(s, i);
    lemma_map_of_remove(t, i);
    assert(t.remove(i) =~= s.remove(i));
    lemma_map_of_at(t, i);
    lemma_map_of_at(s, i);
    let k = e.key@;
    assert(map_of(t) =~= map_of(t).remove(k).insert(k, (e.value, e.charge)));
}

proof fn lemma_map_of_push(s: Seq<Entry>, e: Entry)
    requires
        unique_keys(s),
        !map_of(s).contains_key(e.key@),
    ensures
        unique_keys(s.push(e)),
        map_of(s.push(e)) == map_of(s).insert(e.key@, (e.value, e.charge)),
{
    assert(s.push(e).drop_last() =~= s);
    let t = s.push(e);
    assert forall|a: int, b: int| 0 <= a < t.len() && 0 <= b < t.len() && a != b implies t[a].key@
        != t[b].key@ by {
        if a == s.len() {
            lemma_map_of_contains(s, e.key@);
            assert(s[b].key@ != e.key@);
        } else if b == s.len() {
            lemma_map_of_contains(s, e.key@);
            assert(s[a].key@ != e.key@);
        }
    }
}

proof fn lemma_charges_push(s: Seq<Entry>, e: Entry)
    ensures
        sum_of(charges(s.push(e))) == sum_of(charges(s)) + e.charge,
{
    assert(charges(s.push(e)) =~= charges(s).push(e.charge as int));
    lemma_sum_push(charges(s), e.charge as int);
}

proof fn lemma_charges_remove(s: Seq<Entry>, i: int)
    requires
        0 <= i < s.len(),
    ensures
        sum_of(charges(s.remove(i))) == sum_of(charges(s)) - s[i].charge,
        sum_of(charges(s)) >= s[i].charge,
        sum_of(charges(s.remove(i))) >= 0,
{
    assert(charges(s.remove(i)) =~= charges(s).remove(i));
    lemma_sum_remove(charges(s), i);
    lemma_sum_ge_elem(charges(s), i);
    lemma_sum_nonneg(charges(s).remove(i));
}

proof fn lemma_charges_update(s: Seq<Entry>, i: int, e: Entry)
    requires
        0 <= i < s.len(),
        e.charge == s[i].charge,
    ensures
        sum_of(charges(s.update(i, e))) == sum_of(charges(s)),
{
    assert(charges(s.update(i, e)) =~= charges(s).update(i, e.charge as int));
    lemma_sum_update(charges(s), i, e.charge as int);
}

proof fn lemma_same_entry_update(s: Seq<Entry>, i: int, e: Entry)
    requires
        unique_keys(s),
        0 <= i < s.len(),
        e.key@ == s[i].key@,
        e.value == s[i].value,
        e.charge == s[i].charge,
    ensures
        unique_keys(s.update(i, e)),
        map_of(s.update(i, e)) == map_of(s),
        sum_of(charges(s.update(i, e))) == sum_of(charges(s)),
{
    lemma_map_of_update(s, i, e);
    lemma_map_of_at(s, i);
    assert(map_of(s).insert(e.key@, (e.value, e.charge)) =~= map_of(s));
    lemma_charges_update(s, i, e);
}

proof fn lemma_empty_charges(s: Seq<Entry>)
    requires
        s.len() == 0,
    ensures
        sum_of(charges(s)) == 0,
        map_of(s) == Map::<Seq<u8>, (u64, usize)>::empty(),
{
    assert(charges(s) =~= Seq::<int>::empty());
}

/// `released` lists, with their values, exactly the entries of `before`
/// that `after` no longer holds, and `after` holds nothing new.
pub open spec fn releases(
    before: Map<Seq<u8>, (u64, usize)>,
    after: Map<Seq<u8>, (u64, usize)>,
    released: Seq<Released>,
) -> bool {
    &&& forall|k: Seq<u8>| #[trigger]
        after.contains_key(k) ==> before.contains_key(k) && after[k] == before[k]
    &&& forall|j: int|
        0 <= j < released.len() ==> before.contains_key(#[trigger] released[j].0@) && before[released[j].0@].0
            == released[j].1 && !after.contains_key(released[j].0@)
    &&& forall|k: Seq<u8>|
        before.contains_key(k) && !after.contains_key(k) ==> exists|j: int|
            0 <= j < released.len() && #[trigger] released[j].0@ == k && released[j].1 == before[k].0
    &&& forall|a: int, b: int|
        0 <= a < b < released.len() ==> #[trigger] released[a].0@ != #[trigger] released[b].0@
}

/// Nothing is released when nothing changes.
pub proof fn lemma_releases_none(c: Map<Seq<u8>, (u64, usize)>)
    ensures
        releases(c, c, Seq::empty()),
{
}

proof fn lemma_releases_step(
    before: Map<Seq<u8>, (u64, usize)>,
    cur: Map<Seq<u8>, (u64, usize)>,
    released: Seq<Released>,
    r: Released,
)
    requires
        releases(before, cur, released),
        cur.contains_key(r.0@),
        cur[r.0@].0 == r.1,
    ensures
        releases(before, cur.remove(r.0@), released.push(r)),
{
    let next = cur.remove(r.0@);
    let rel = released.push(r);
    assert forall|a: int, b: int| 0 <= a < b < rel.len() implies #[trigger] rel[a].0@ != #[trigger] rel[b].0@ by {
        assert(rel[a] == released[a]);
        if b < released.len() {
            assert(rel[b] == released[b]);
        } else {
            assert(!cur.contains_key(released[a].0@));
        }
    }
    assert forall|j: int| 0 <= j < rel.len() implies before.contains_key(#[trigger] rel[j].0@)
        && before[rel[j].0@].0 == rel[j].1 && !next.contains_key(rel[j].0@) by {
        if j < released.len() {
            assert(rel[j] == released[j]);
        }
    }
    assert forall|k: Seq<u8>| before.contains_key(k) && !next.contains_key(k) implies exists|j: int|
        0 <= j < rel.len() && #[trigger] rel[j].0@ == k && rel[j].1 == before[k].0 by {
        if k == r.0@ {
            assert(rel[released.len() as int] == r);
        } else {
            let j = choose|j: int| 0 <= j < released.len() && #[trigger] released[j].0@ == k && released[j].1 == before[k].0;
            assert(rel[j] == released[j]);
        }
    }
}

/// The position of `k` in `s`.
pub open spec fn position(s: Seq<Seq<u8>>, k: Seq<u8>) -> int {
    choose|i: int| 0 <= i < s.len() && s[i] == k
}

/// The position of the first entry outside the high-priority pool, or 0
/// when every entry is in it: the LRU victim.
pub open spec fn first_unpooled(pooled: Seq<bool>) -> int {
    if exists|i: int| 0 <= i < pooled.len() && !pooled[i] {
        choose|i: int| 0 <= i < pooled.len() && !pooled[i] && forall|j: int| 0 <= j < i ==> pooled[j]
    } else {
        0
    }
}

/// The position `k` steps after `start` on a cycle of length `n`.
pub open spec fn cycle_pos(start: int, k: int, n: int) -> int {
    if start + k < n {
        start + k
    } else {
        start + k - n
    }
}

/// The clock sweep from `start`, `k` steps in: the first unmarked entry,
/// or the entry at `start` after a full turn has cleared every mark.
pub open spec fn clock_scan(marks: Seq<bool>, start: int, k: int) -> int
    decreases marks.len() - k,
{
    if k >= marks.len() {
        start
    } else if !marks[cycle_pos(start, k, marks.len() as int)] {
        cycle_pos(start, k, marks.len() as int)
    } else {
        clock_scan(marks, start, k + 1)
    }
}

/// The clock victim for the given marks and hand.
pub open spec fn clock_victim_of(marks: Seq<bool>, hand: int) -> int {
    clock_scan(marks, if 0 <= hand < marks.len() { hand } else { 0 }, 0)
}

/// The share of a shard's capacity reserved for high-priority entries.
pub open spec fn pool_cap(capacity: usize, pct: u32) -> int {
    (capacity as int * pct as int) / 100
}

/// The charge held in the pool by the first `i` entries, saturated at
/// `u128::MAX`.
pub open spec fn pool_sum(pooled: Seq<bool>, charges: Seq<int>, i: int) -> int
    decreases i,
{
    if i <= 0 {
        0
    } else {
        let p = pool_sum(pooled, charges, i - 1);
        let a = if pooled[i - 1] {
            charges[i - 1]
        } else {
            0
        };
        if p + a > u128::MAX {
            u128::MAX as int
        } else {
            p + a
        }
    }
}

/// Moves pooled entries out of the pool, least recently used first from
/// position `i`, while the pool holds more than `cap`.
pub open spec fn demote(pooled: Seq<bool>, charges: Seq<int>, pool: int, cap: int, i: int) -> Seq<bool>
    decreases pooled.len() - i,
{
    if i < 0 || i >= pooled.len() || pool <= cap {
        pooled
    } else if pooled[i] {
        demote(
            pooled.update(i, false),
            charges,
            if pool >= charges[i] {
                pool - charges[i]
            } else {
                0
            },
            cap,
            i + 1,
        )
    } else {
        demote(pooled, charges, pool, cap, i + 1)
    }
}

/// The pool flags after the pool is brought back within `cap`.
pub open spec fn rebalanced(pooled: Seq<bool>, charges: Seq<int>, cap: int) -> Seq<bool> {
    demote(pooled, charges, pool_sum(pooled, charges, pooled.len() as int), cap, 0)
}

proof fn lemma_first_unpooled(pooled: Seq<bool>, r: int)
    requires
        0 <= r < pooled.len(),
        (exists|j: int| 0 <= j < pooled.len() && !pooled[j]) ==> !pooled[r] && forall|j: int|
            0 <= j < r ==> pooled[j],
        (forall|j: int| 0 <= j < pooled.len() ==> pooled[j]) ==> r == 0,
    ensures
        first_unpooled(pooled) == r,
{
    if exists|i: int| 0 <= i < pooled.len() && !pooled[i] {
        assert(0 <= r < pooled.len() && !pooled[r] && forall|j: int| 0 <= j < r ==> pooled[j]);
        let c = choose|i: int| 0 <= i < pooled.len() && !pooled[i] && forall|j: int| 0 <= j < i ==> pooled[j];
        if c < r {
            assert(pooled[c]);
        } else if c > r {
            assert(pooled[r]);
        }
    }
}

proof fn lemma_position(s: Seq<Entry>, i: int)
    requires
        unique_keys(s),
        0 <= i < s.len(),
    ensures
        position(s.map_values(|e: Entry| e.key@), s[i].key@) == i,
{
    let o = s.map_values(|e: Entry| e.key@);
    assert(o[i] == s[i].key@);
    let c = position(o, s[i].key@);
    assert(0 <= c < o.len() && o[c] == s[i].key@);
    assert(s[c].key@ == s[i].key@);
}

/// A capacity-bounded partition of the cache.
pub struct Shard {
    policy: Policy,
    capacity: usize,
    usage: usize,
    strict_capacity_limit: bool,
    high_pri_pool_pct: u32,
    entries: Vec<Entry>,
    hand: usize,
}

impl Shard {
    /// The shard is well formed: keys are unique, usage is the sum of the
    /// charges, and a strict shard never holds more than its capacity.
    pub closed spec fn wf(&self) -> bool {
        &&& unique_keys(self.entries@)
        &&& self.usage == sum_of(charges(self.entries@))
        &&& self.strict_capacity_limit ==> self.usage <= self.capacity
        &&& self.high_pri_pool_pct <= 100
    }

    /// What the shard holds: each key with its value and charge.
    pub closed spec fn contents(&self) -> Map<Seq<u8>, (u64, usize)> {
        map_of(self.entries@)
    }

    pub closed spec fn spec_capacity(&self) -> usize {
        self.capacity
    }

    /// The keys in eviction order. For LRU the least recently used comes
    /// first; for clock it is the order in which the hand sweeps.
    pub closed spec fn order(&self) -> Seq<Seq<u8>> {
        self.entries@.map_values(|e: Entry| e.key@)
    }

    /// For each key of `order`, whether it sits in the high-priority pool.
    pub closed spec fn pooled(&self) -> Seq<bool> {
        self.entries@.map_values(|e: Entry| e.in_high_pool)
    }

    /// Where the clock hand points.
    pub closed spec fn spec_hand(&self) -> usize {
        self.hand
    }

    /// For each key of `order`, its charge.
    pub closed spec fn charge_list(&self) -> Seq<int> {
        charges(self.entries@)
    }

    /// The share of the capacity, in percent, reserved for the
    /// high-priority pool.
    pub closed spec fn spec_pool_pct(&self) -> u32 {
        self.high_pri_pool_pct
    }

    /// For each key of `order`, whether its clock reference bit is set.
    pub closed spec fn marks(&self) -> Seq<bool> {
        self.entries@.map_values(|e: Entry| e.referenced)
    }

    pub closed spec fn spec_usage(&self) -> usize {
        self.usage
    }

    pub closed spec fn spec_strict(&self) -> bool {
        self.strict_capacity_limit
    }

    pub closed spec fn spec_policy(&self) -> Policy {
        self.policy
    }

    /// An empty shard.
    pub fn new(policy: Policy, capacity: usize, strict_capacity_limit: bool, high_pri_pool_pct: u32) -> (r: Shard)
        requires
            high_pri_pool_pct <= 100,
        ensures
            r.wf(),
            r.contents() == Map::<Seq<u8>, (u64, usize)>::empty(),
            r.spec_capacity() == capacity,
            r.spec_usage() == 0,
            r.spec_strict() == strict_capacity_limit,
            r.spec_policy() == policy,
            r.order().len() == 0,
            r.spec_pool_pct() == high_pri_pool_pct,
    {
        let r = Shard {
            policy,
            capacity,
            usage: 0,
            strict_capacity_limit,
            high_pri_pool_pct,
            entries: Vec::new(),
            hand: 0,
        };
        assert(charges(r.entries@) =~= Seq::<int>::empty());
        r
    }

    /// The capacity assigned to this shard.
    pub fn capacity(&self) -> (r: usize)
        ensures
            r == self.spec_capacity(),
    {
        self.capacity
    }

    /// The sum of the charges of the entries held.
    pub fn usage(&self) -> (r: usize)
        ensures
            r == self.spec_usage(),
    {
        self.usage
    }

    /// The position of `key`, if the shard holds it.
    fn find(&self, key: &[u8]) -> (r: Option<usize>)
        requires
            self.wf(),
        ensures
            match r {
                Some(i) => i < self.entries@.len() && self.entries@[i as int].key@ == key@,
                None => !self.contents().contains_key(key@),
            },
    {
        let mut i: usize = 0;
        while i < self.entries.len()
            invariant
                i <= self.entries@.len(),
                forall|j: int| 0 <= j < i ==> self.entries@[j].key@ != key@,
            decreases self.entries@.len() - i,
        {
            if bytes_eq(self.entries[i].key.as_slice(), key) {
                return Some(i);
            }
            i = i + 1;
        }
        proof {
            lemma_map_of_contains(self.entries@, key@);
        }
        None
    }

    /// Takes out the entry at position `i` and hands it back.
    fn remove_at(&mut self, i: usize) -> (r: Released)
        requires
            old(self).wf(),
            i < old(self).entries@.len(),
        ensures
            final(self).wf(),
            r.0@ == old(self).entries@[i as int].key@,
            old(self).contents().contains_key(r.0@),
            old(self).contents()[r.0@].0 == r.1,
            final(self).contents() == old(self).contents().remove(r.0@),
            final(self).usage == old(self).usage - old(self).contents()[r.0@].1,
            final(self).entries@.len() == old(self).entries@.len() - 1,
            final(self).capacity == old(self).capacity,
            final(self).strict_capacity_limit == old(self).strict_capacity_limit,
            final(self).policy == old(self).policy,
            final(self).high_pri_pool_pct == old(self).high_pri_pool_pct,
    {
        let ghost s0 = self.entries@;
        proof {
            lemma_charges_remove(s0, i as int);
            lemma_map_of_remove(s0, i as int);
            lemma_map_of_at(s0, i as int);
        }
        let e = self.entries.remove(i);
        self.usage = self.usage - e.charge;
        if i < self.hand {
            self.hand = self.hand - 1;
        }
        (e.key, e.value)
    }

    /// LRU victim: the least recently used entry outside the protected
    /// high-priority pool, or the least recently used entry when all are in it.
    fn lru_victim(&self) -> (r: usize)
        requires
            self.entries@.len() > 0,
        ensures
            r < self.entries@.len(),
            (exists|j: int| 0 <= j < self.entries@.len() && !self.entries@[j].in_high_pool) ==> {
                &&& !self.entries@[r as int].in_high_pool
                &&& forall|j: int| 0 <= j < r ==> self.entries@[j].in_high_pool
            },
            (forall|j: int| 0 <= j < self.entries@.len() ==> self.entries@[j].in_high_pool) ==> r == 0,
    {
        let mut i: usize = 0;
        while i < self.entries.len()
            invariant
                i <= self.entries@.len(),
                forall|j: int| 0 <= j < i ==> self.entries@[j].in_high_pool,
            decreases self.entries@.len() - i,
        {
            if !self.entries[i].in_high_pool {
                return i;
            }
            i = i + 1;
        }
        0
    }

    /// Clock victim: sweeps from the hand, clearing reference bits, and
    /// stops at the first unmarked entry; after a full turn that is the
    /// entry at the hand.
    fn clock_victim(&mut self) -> (r: usize)
        requires
            old(self).wf(),
            old(self).entries@.len() > 0,
        ensures
            final(self).wf(),
            r < final(self).entries@.len(),
            !final(self).entries@[r as int].referenced,
            r == clock_victim_of(old(self).marks(), old(self).hand as int),
            final(self).order() == old(self).order(),
            final(self).entries@.len() == old(self).entries@.len(),
            final(self).contents() == old(self).contents(),
            final(self).usage == old(self).usage,
            final(self).capacity == old(self).capacity,
            final(self).strict_capacity_limit == old(self).strict_capacity_limit,
            final(self).policy == old(self).policy,
            final(self).high_pri_pool_pct == old(self).high_pri_pool_pct,
    {
        let n = self.entries.len();
        let start: usize = if self.hand < n { self.hand } else { 0 };
        let mut k: usize = 0;
        while k < n
            invariant
                n == self.entries@.len(),
                n == old(self).entries@.len(),
                start < n,
                k <= n,
                self.wf(),
                self.contents() == old(self).contents(),
                self.usage == old(self).usage,
                self.capacity == old(self).capacity,
                self.strict_capacity_limit == old(self).strict_capacity_limit,
                self.policy == old(self).policy,
                self.high_pri_pool_pct == old(self).high_pri_pool_pct,
                k > 0 ==> !self.entries@[start as int].referenced,
                start == (if 0 <= old(self).hand < n { old(self).hand } else { 0 }),
                self.hand == old(self).hand,
                self.order() == old(self).order(),
                clock_scan(old(self).marks(), start as int, k as int) == clock_victim_of(
                    old(self).marks(),
                    old(self).hand as int,
                ),
                forall|j: int|
                    k <= j < n ==> #[trigger] self.entries@[cycle_pos(start as int, j, n as int)].referenced
                        == old(self).entries@[cycle_pos(start as int, j, n as int)].referenced,
            decreases n - k,
        {
            let idx: usize = if k < n - start { start + k } else { k - (n - start) };
            assert(idx == cycle_pos(start as int, k as int, n as int));
            assert(old(self).marks()[idx as int] == old(self).entries@[idx as int].referenced);
            if !self.entries[idx].referenced {
                self.hand = idx;
                return idx;
            }
            let ghost s0 = self.entries@;
            let ghost o0 = self.order();
            self.entries[idx].referenced = false;
            proof {
                lemma_same_entry_update(s0, idx as int, self.entries@[idx as int]);
                assert(self.order() =~= o0);
                assert forall|j: int| k + 1 <= j < n implies #[trigger] self.entries@[cycle_pos(
                    start as int,
                    j,
                    n as int,
                )].referenced == old(self).entries@[cycle_pos(start as int, j, n as int)].referenced by {
                    assert(s0[cycle_pos(start as int, j, n as int)].referenced == old(self).entries@[cycle_pos(
                        start as int,
                        j,
                        n as int,
                    )].referenced);
                }
            }
            k = k + 1;
        }
        self.hand = start;
        start
    }

    /// Evicts the next victim of the shard's policy and hands it back;
    /// `None` only when the shard is empty.
    fn evict_one(&mut self) -> (r: Option<Released>)
        requires
            old(self).wf(),
        ensures
            final(self).wf(),
            r is None <==> old(self).entries@.len() == 0,
            r is None ==> final(self).contents() == old(self).contents() && final(self).usage == old(self).usage,
            r matches Some(kv) ==> {
                &&& old(self).contents().contains_key(kv.0@)
                &&& old(self).contents()[kv.0@].0 == kv.1
                &&& final(self).contents() == old(self).contents().remove(kv.0@)
                &&& final(self).usage == old(self).usage - old(self).contents()[kv.0@].1
                &&& final(self).entries@.len() == old(self).entries@.len() - 1
                &&& old(self).policy == Policy::Lru ==> kv.0@ == old(self).order()[first_unpooled(
                    old(self).pooled(),
                )]
                &&& old(self).policy == Policy::Clock ==> kv.0@ == old(self).order()[clock_victim_of(
                    old(self).marks(),
                    old(self).hand as int,
                )]
            },
            final(self).capacity == old(self).capacity,
            final(self).strict_capacity_limit == old(self).strict_capacity_limit,
            final(self).policy == old(self).policy,
            final(self).high_pri_pool_pct == old(self).high_pri_pool_pct,
    {
        if self.entries.len() == 0 {
            return None;
        }
        let i = match self.policy {
            Policy::Lru => {
                let i = self.lru_victim();
                proof {
                    let p = old(self).pooled();
                    assert(p.len() == self.entries@.len());
                    assert forall|j: int| 0 <= j < p.len() implies p[j] == self.entries@[j].in_high_pool by {}
                    if exists|j: int| 0 <= j < p.len() && !p[j] {
                        let j = choose|j: int| 0 <= j < p.len() && !p[j];
                        assert(!self.entries@[j].in_high_pool);
                    }
                    if forall|j: int| 0 <= j < p.len() ==> p[j] {
                        assert forall|j: int| 0 <= j < self.entries@.len() implies self.entries@[j].in_high_pool by {
                            assert(p[j]);
                        }
                    }
                    lemma_first_unpooled(p, i as int);
                }
                i
            },
            Policy::Clock => self.clock_victim(),
        };
        Some(self.remove_at(i))
    }

    /// Keeps the protected high-priority pool of an LRU shard within its
    /// share of the capacity by moving its least recently used entries out
    /// of it.
    fn rebalance_high_pool(&mut self)
        requires
            old(self).wf(),
        ensures
            final(self).wf(),
            final(self).entries@.len() == old(self).entries@.len(),
            final(self).contents() == old(self).contents(),
            final(self).usage == old(self).usage,
            final(self).capacity == old(self).capacity,
            final(self).strict_capacity_limit == old(self).strict_capacity_limit,
            final(self).policy == old(self).policy,
            final(self).high_pri_pool_pct == old(self).high_pri_pool_pct,
            final(self).order() == old(self).order(),
            final(self).marks() == old(self).marks(),
            final(self).pooled() == rebalanced(
                old(self).pooled(),
                old(self).charge_list(),
                pool_cap(old(self).capacity, old(self).high_pri_pool_pct),
            ),
    {
        let c: u128 = self.capacity as u128;
        let p: u128 = self.high_pri_pool_pct as u128;
        assert(c * p <= 0xffff_ffff_ffff_ffff * 100) by (nonlinear_arith)
            requires
                c <= 0xffff_ffff_ffff_ffff,
                p <= 100,
        ;
        let limit: u128 = c * p / 100;
        let ghost p0 = self.pooled();
        let ghost ch = self.charge_list();
        let ghost cap = pool_cap(self.capacity, self.high_pri_pool_pct);
        assert(limit == cap);
        let mut pool: u128 = 0;
        let mut i: usize = 0;
        while i < self.entries.len()
            invariant
                i <= self.entries@.len(),
                p0 == self.pooled(),
                ch == self.charge_list(),
                pool == pool_sum(p0, ch, i as int),
            decreases self.entries@.len() - i,
        {
            if self.entries[i].in_high_pool {
                pool = pool.saturating_add(self.entries[i].charge as u128);
            }
            i = i + 1;
        }
        i = 0;
        while i < self.entries.len() && pool > limit
            invariant
                i <= self.entries@.len(),
                self.entries@.len() == old(self).entries@.len(),
                self.wf(),
                self.contents() == old(self).contents(),
                self.usage == old(self).usage,
                self.capacity == old(self).capacity,
                self.strict_capacity_limit == old(self).strict_capacity_limit,
                self.policy == old(self).policy,
                self.high_pri_pool_pct == old(self).high_pri_pool_pct,
                self.order() == old(self).order(),
                self.marks() == old(self).marks(),
                self.charge_list() == ch,
                self.pooled().len() == p0.len(),
                limit == cap,
                demote(self.pooled(), ch, pool as int, cap, i as int) == rebalanced(p0, ch, cap),
            decreases self.entries@.len() - i,
        {
            if self.entries[i].in_high_pool {
                let ghost s0 = self.entries@;
                let ghost pl0 = self.pooled();
                let ghost o0 = self.order();
                let ghost m0 = self.marks();
                self.entries[i].in_high_pool = false;
                proof {
                    lemma_same_entry_update(s0, i as int, self.entries@[i as int]);
                    assert(self.order() =~= o0);
                    assert(self.marks() =~= m0);
                    assert(self.pooled() =~= pl0.update(i as int, false));
                    assert(self.charge_list() =~= ch);
                }
                pool = pool.saturating_sub(self.entries[i].charge as u128);
            }
            i = i + 1;
        }
    }

    /// A well-formed strict shard never holds more than its capacity.
    pub proof fn lemma_strict_usage_bounded(&self)
        requires
            self.wf(),
        ensures
            self.spec_strict() ==> self.spec_usage() <= self.spec_capacity(),
    {
    }

    /// `order` lists each key of `contents` exactly once, `pooled` and
    /// `marks` run beside it, and the usage is the sum of the charges of
    /// the keys listed.
    pub proof fn lemma_order(&self)
        requires
            self.wf(),
        ensures
            self.pooled().len() == self.order().len(),
            self.marks().len() == self.order().len(),
            forall|i: int, j: int|
                0 <= i < self.order().len() && 0 <= j < self.order().len() && i != j ==> #[trigger] self.order()[i]
                    != #[trigger] self.order()[j],
            forall|k: Seq<u8>| #[trigger] self.contents().contains_key(k) <==> self.order().contains(k),
            self.spec_usage() == sum_of(self.order().map_values(|k: Seq<u8>| self.contents()[k].1 as int)),
            self.charge_list() == self.order().map_values(|k: Seq<u8>| self.contents()[k].1 as int),
    {
        let s = self.entries@;
        assert forall|k: Seq<u8>| #[trigger] self.contents().contains_key(k) <==> self.order().contains(k) by {
            lemma_map_of_contains(s, k);
            if self.order().contains(k) {
                let i = choose|i: int| 0 <= i < self.order().len() && self.order()[i] == k;
                assert(s[i].key@ == k);
            }
            if self.contents().contains_key(k) {
                let i = choose|i: int| 0 <= i < s.len() && s[i].key@ == k;
                assert(self.order()[i] == k);
            }
        }
        assert forall|i: int| 0 <= i < s.len() implies #[trigger] charges(s)[i] == self.order().map_values(
            |k: Seq<u8>| self.contents()[k].1 as int,
        )[i] by {
            lemma_map_of_at(s, i);
        }
        assert(charges(s) =~= self.order().map_values(|k: Seq<u8>| self.contents()[k].1 as int));
    }

    /// A shard that holds nothing has no usage.
    pub proof fn lemma_empty_usage(&self)
        requires
            self.wf(),
            self.contents() == Map::<Seq<u8>, (u64, usize)>::empty(),
        ensures
            self.spec_usage() == 0,
    {
        if self.entries@.len() > 0 {
            lemma_map_of_at(self.entries@, 0);
        } else {
            lemma_empty_charges(self.entries@);
        }
    }

    /// The charge of each entry held counts in the usage.
    pub proof fn lemma_charge_within_usage(&self, k: Seq<u8>)
        requires
            self.wf(),
            self.contents().contains_key(k),
        ensures
            self.contents()[k].1 <= self.spec_usage(),
    {
        lemma_map_of_contains(self.entries@, k);
        let i = choose|i: int| 0 <= i < self.entries@.len() && self.entries@[i].key@ == k;
        lemma_map_of_at(self.entries@, i);
        lemma_sum_ge_elem(charges(self.entries@), i);
    }

    /// Inserts `value` under `key` with the given charge, first releasing
    /// the entry that `key` held, then evicting victims until the charge fits
    /// or the shard is empty. A strict shard refuses a charge larger than its
    /// whole capacity and is then left as it was.
    #[verifier::rlimit(40)]
    pub fn insert(&mut self, key: &[u8], value: u64, charge: usize, priority: Priority) -> (r: Result<
        Vec<Released>,
        Error,
    >)
        requires
            old(self).wf(),
        ensures
            final(self).wf(),
            final(self).spec_capacity() == old(self).spec_capacity(),
            final(self).spec_strict() == old(self).spec_strict(),
            final(self).spec_policy() == old(self).spec_policy(),
            final(self).spec_pool_pct() == old(self).spec_pool_pct(),
            r is Err <==> old(self).spec_strict() && charge > old(self).spec_capacity(),
            r is Err ==> r == Err::<Vec<Released>, Error>(Error::CapacityExceeded) && *final(self) == *old(self),
            r matches Ok(rel) ==> {
                &&& final(self).contents().contains_key(key@)
                &&& final(self).contents()[key@] == (value, charge)
                &&& releases(old(self).contents(), final(self).contents().remove(key@), rel@)
                &&& charge <= old(self).spec_capacity() ==> final(self).spec_usage() <= old(self).spec_capacity()
                &&& charge > old(self).spec_capacity() ==> final(self).contents() == Map::<
                    Seq<u8>,
                    (u64, usize),
                >::empty().insert(key@, (value, charge))
                &&& !old(self).contents().contains_key(key@) && old(self).spec_usage() + charge
                    <= old(self).spec_capacity() ==> {
                    &&& rel@.len() == 0
                    &&& final(self).contents() == old(self).contents().insert(key@, (value, charge))
                    &&& final(self).spec_usage() == old(self).spec_usage() + charge
                    &&& final(self).order() == old(self).order().push(key@)
                    &&& priority == Priority::Low ==> final(self).pooled() == old(self).pooled().push(false)
                    &&& priority == Priority::High && old(self).spec_policy() == Policy::Lru
                        ==> final(self).pooled() == rebalanced(
                        old(self).pooled().push(true),
                        old(self).charge_list().push(charge as int),
                        pool_cap(old(self).spec_capacity(), old(self).spec_pool_pct()),
                    )
                }
                &&& !old(self).contents().contains_key(key@) && old(self).spec_usage() + charge
                    > old(self).spec_capacity() && old(self).order().len() > 0 ==> {
                    &&& rel@.len() >= 1
                    &&& old(self).spec_policy() == Policy::Lru ==> rel@[0].0@ == old(self).order()[first_unpooled(
                        old(self).pooled(),
                    )]
                    &&& old(self).spec_policy() == Policy::Clock ==> rel@[0].0@ == old(self).order()[clock_victim_of(
                        old(self).marks(),
                        old(self).spec_hand() as int,
                    )]
                    &&& old(self).spec_usage() - old(self).contents()[rel@[0].0@].1 + charge
                        <= old(self).spec_capacity() ==> rel@.len() == 1 && final(self).spec_usage()
                        == old(self).spec_usage() - old(self).contents()[rel@[0].0@].1 + charge
                }
                &&& final(self).order().len() > 0
                &&& final(self).order().last() == key@
                &&& final(self).marks().len() == final(self).order().len()
                &&& final(self).marks().last() == (old(self).contents().contains_key(key@)
                    && old(self).spec_policy() == Policy::Clock)
            },
    {
        if self.strict_capacity_limit && charge > self.capacity {
            return Err(Error::CapacityExceeded);
        }
        let ghost c0 = self.contents();
        let ghost fits0 = !c0.contains_key(key@) && self.usage + charge <= self.capacity;
        let ghost need0 = !c0.contains_key(key@) && self.usage + charge > self.capacity && self.entries@.len() > 0;
        let mut released: Vec<Released> = Vec::new();
        proof {
            lemma_releases_none(c0);
        }
        let mut replaced = false;
        match self.find(key) {
            Some(i) => {
                replaced = true;
                let ghost c1 = self.contents();
                let kv = self.remove_at(i);
                proof {
                    lemma_releases_step(c0, c1, released@, kv);
                }
                released.push(kv);
            },
            None => {},
        }
        while self.entries.len() > 0 && (self.usage > self.capacity || charge > self.capacity - self.usage)
            invariant
                self.wf(),
                releases(c0, self.contents(), released@),
                !self.contents().contains_key(key@),
                fits0 == (!c0.contains_key(key@) && old(self).usage + charge <= old(self).capacity),
                fits0 ==> released@.len() == 0 && self.contents() == c0 && self.usage == old(self).usage
                    && self.entries@ == old(self).entries@,
                need0 == (!c0.contains_key(key@) && old(self).usage + charge > old(self).capacity
                    && old(self).entries@.len() > 0),
                fits0 ==> self.pooled() == old(self).pooled(),
                need0 && released@.len() == 0 ==> self.entries@ == old(self).entries@ && self.usage == old(self).usage
                    && self.hand == old(self).hand,
                need0 && released@.len() >= 1 && old(self).policy == Policy::Lru ==> released@[0].0@ == old(
                    self,
                ).order()[first_unpooled(old(self).pooled())],
                need0 && released@.len() >= 1 && old(self).policy == Policy::Clock ==> released@[0].0@ == old(
                    self,
                ).order()[clock_victim_of(old(self).marks(), old(self).hand as int)],
                need0 && released@.len() >= 1 ==> c0.contains_key(released@[0].0@),
                need0 && released@.len() == 1 ==> self.usage == old(self).usage - c0[released@[0].0@].1,
                need0 && released@.len() >= 1 && old(self).usage - c0[released@[0].0@].1 + charge
                    <= old(self).capacity ==> released@.len() == 1,
                self.capacity == old(self).capacity,
                self.strict_capacity_limit == old(self).strict_capacity_limit,
                self.policy == old(self).policy,
                self.high_pri_pool_pct == old(self).high_pri_pool_pct,
            decreases self.entries@.len(),
        {
            let ghost c1 = self.contents();
            let ghost rel0 = released@;
            match self.evict_one() {
                Some(kv) => {
                    proof {
                        lemma_releases_step(c0, c1, released@, kv);
                    }
                    released.push(kv);
                    proof {
                        if need0 && rel0.len() >= 1 {
                            assert(released@[0] == rel0[0]);
                        }
                    }
                },
                None => {},
            }
        }
        if self.entries.len() == 0 {
            proof {
                lemma_empty_charges(self.entries@);
            }
        }
        let ghost c2 = self.contents();
        let ghost o2 = self.order();
        let ghost p2 = self.pooled();
        let ghost m2 = self.marks();
        let ghost ch2 = self.charge_list();
        let e = Entry {
            key: vstd::slice::slice_to_vec(key),
            value,
            charge,
            in_high_pool: self.policy == Policy::Lru && priority == Priority::High,
            referenced: self.policy == Policy::Clock && replaced,
        };
        proof {
            lemma_map_of_push(self.entries@, e);
            lemma_charges_push(self.entries@, e);
        }
        self.entries.push(e);
        proof {
            assert(self.order() =~= o2.push(key@));
            assert(priority == Priority::Low ==> self.pooled() =~= p2.push(false));
            assert(self.marks() =~= m2.push(e.referenced));
            assert(self.charge_list() =~= ch2.push(charge as int));
            assert(self.pooled() =~= p2.push(e.in_high_pool));
        }
        self.usage = self.usage + charge;
        if self.policy == Policy::Lru && priority == Priority::High {
            self.rebalance_high_pool();
        }
        assert(self.contents().remove(key@) =~= c2);
        assert(c2 == Map::<Seq<u8>, (u64, usize)>::empty() ==> self.contents() =~= Map::<Seq<u8>, (u64, usize)>::empty().insert(
            key@,
            (value, charge),
        ));
        Ok(released)
    }

    /// Sets the capacity, evicting victims until the usage fits in it.
    #[verifier::rlimit(40)]
    pub fn set_capacity(&mut self, capacity: usize) -> (released: Vec<Released>)
        requires
            old(self).wf(),
        ensures
            final(self).wf(),
            final(self).spec_capacity() == capacity,
            final(self).spec_usage() <= capacity,
            final(self).spec_strict() == old(self).spec_strict(),
            final(self).spec_policy() == old(self).spec_policy(),
            releases(old(self).contents(), final(self).contents(), released@),
            old(self).spec_usage() <= capacity ==> {
                &&& released@.len() == 0
                &&& final(self).contents() == old(self).contents()
                &&& final(self).spec_usage() == old(self).spec_usage()
            },
    {
        let ghost c0 = self.contents();
        let mut released: Vec<Released> = Vec::new();
        proof {
            lemma_releases_none(c0);
        }
        while self.usage > capacity
            invariant
                self.wf(),
                releases(c0, self.contents(), released@),
                old(self).usage <= capacity ==> released@.len() == 0 && self.contents() == c0
                    && self.usage == old(self).usage,
                self.capacity == old(self).capacity,
                self.strict_capacity_limit == old(self).strict_capacity_limit,
                self.policy == old(self).policy,
                self.high_pri_pool_pct == old(self).high_pri_pool_pct,
            decreases self.entries@.len(),
        {
            if self.entries.len() == 0 {
                proof {
                    lemma_empty_charges(self.entries@);
                }
            }
            let ghost c1 = self.contents();
            match self.evict_one() {
                Some(kv) => {
                    proof {
                        lemma_releases_step(c0, c1, released@, kv);
                    }
                    released.push(kv);
                },
                None => {},
            }
        }
        self.capacity = capacity;
        released
    }

    /// Empties the shard, handing back every entry it held.
    pub fn clear(&mut self) -> (released: Vec<Released>)
        requires
            old(self).wf(),
        ensures
            final(self).wf(),
            final(self).contents() == Map::<Seq<u8>, (u64, usize)>::empty(),
            final(self).order().len() == 0,
            final(self).spec_usage() == 0,
            final(self).spec_capacity() == old(self).spec_capacity(),
            final(self).spec_strict() == old(self).spec_strict(),
            final(self).spec_policy() == old(self).spec_policy(),
            releases(old(self).contents(), final(self).contents(), released@),
    {
        let ghost c0 = self.contents();
        let mut released: Vec<Released> = Vec::new();
        proof {
            lemma_releases_none(c0);
        }
        while self.entries.len() > 0
            invariant
                self.wf(),
                releases(c0, self.contents(), released@),
                self.capacity == old(self).capacity,
                self.strict_capacity_limit == old(self).strict_capacity_limit,
                self.policy == old(self).policy,
                self.high_pri_pool_pct == old(self).high_pri_pool_pct,
            decreases self.entries@.len(),
        {
            let ghost c1 = self.contents();
            let kv = self.remove_at(self.entries.len() - 1);
            proof {
                lemma_releases_step(c0, c1, released@, kv);
            }
            released.push(kv);
        }
        proof {
            lemma_empty_charges(self.entries@);
        }
        released
    }

    /// Returns the value stored under `key` and records the use, which
    /// protects the entry from the next evictions.
    pub fn lookup(&mut self, key: &[u8]) -> (r: Option<u64>)
        requires
            old(self).wf(),
        ensures
            final(self).wf(),
            final(self).contents() == old(self).contents(),
            final(self).spec_usage() == old(self).spec_usage(),
            final(self).spec_capacity() == old(self).spec_capacity(),
            final(self).spec_strict() == old(self).spec_strict(),
            final(self).spec_policy() == old(self).spec_policy(),
            r == (if old(self).contents().contains_key(key@) {
                Some(old(self).contents()[key@].0)
            } else {
                None::<u64>
            }),
            !old(self).contents().contains_key(key@) ==> final(self).order() == old(self).order(),
            old(self).contents().contains_key(key@) && old(self).spec_policy() == Policy::Lru
                ==> final(self).order() == old(self).order().remove(position(old(self).order(), key@)).push(
                key@,
            ) && final(self).pooled() == old(self).pooled().remove(position(old(self).order(), key@)).push(
                old(self).pooled()[position(old(self).order(), key@)],
            ),
            old(self).contents().contains_key(key@) && old(self).spec_policy() == Policy::Clock ==> {
                &&& final(self).order() == old(self).order()
                &&& final(self).marks() == old(self).marks().update(position(old(self).order(), key@), true)
            },
    {
        match self.find(key) {
            None => None,
            Some(i) => {
                let ghost s0 = self.entries@;
                proof {
                    lemma_map_of_at(s0, i as int);
                    lemma_position(s0, i as int);
                }
                match self.policy {
                    Policy::Lru => {
                        proof {
                            lemma_map_of_remove(s0, i as int);
                            lemma_charges_remove(s0, i as int);
                        }
                        let e = self.entries.remove(i);
                        let v = e.value;
                        proof {
                            lemma_map_of_push(s0.remove(i as int), e);
                            lemma_charges_push(s0.remove(i as int), e);
                            assert(map_of(s0).remove(key@).insert(key@, (e.value, e.charge)) =~= map_of(s0));
                        }
                        self.entries.push(e);
                        proof {
                            assert(self.order() =~= old(self).order().remove(i as int).push(key@));
                            assert(self.pooled() =~= old(self).pooled().remove(i as int).push(
                                old(self).pooled()[i as int],
                            ));
                        }
                        Some(v)
                    },
                    Policy::Clock => {
                        self.entries[i].referenced = true;
                        proof {
                            lemma_same_entry_update(s0, i as int, self.entries@[i as int]);
                            assert(self.order() =~= old(self).order());
                            assert(self.marks() =~= old(self).marks().update(i as int, true));
                        }
                        Some(self.entries[i].value)
                    },
                }
            },
        }
    }

    /// Removes `key`, handing back its value.
    pub fn erase(&mut self, key: &[u8]) -> (r: Option<u64>)
        requires
            old(self).wf(),
        ensures
            final(self).wf(),
            final(self).contents() == old(self).contents().remove(key@),
            final(self).spec_capacity() == old(self).spec_capacity(),
            final(self).spec_strict() == old(self).spec_strict(),
            final(self).spec_policy() == old(self).spec_policy(),
            r == (if old(self).contents().contains_key(key@) {
                Some(old(self).contents()[key@].0)
            } else {
                None::<u64>
            }),
            r is Some ==> final(self).spec_usage() == old(self).spec_usage() - old(self).contents()[key@].1,
            r is None ==> final(self).spec_usage() == old(self).spec_usage(),
    {
        match self.find(key) {
            None => {
                assert(self.contents().remove(key@) =~= self.contents());
                None
            },
            Some(i) => {
                let r = self.remove_at(i);
                Some(r.1)
            },
        }
    }
}

} // verus!
