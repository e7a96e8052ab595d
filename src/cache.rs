//! The sharded cache and its builder.
//!
//! A cache maps byte-string keys to values, each with a charge against the
//! capacity. It is split into `2^num_shard_bits` shards, picked by the top
//! bits of the key's hash; the capacity is divided evenly among them, the
//! remainder going to shard 0.
use vstd::prelude::*;
use crate::bytes::{key_hash, hash_key};
use crate::error::Error;
use crate::shard::{
    Policy, Released, Shard, releases, lemma_releases_none, position, first_unpooled, clock_victim_of,
    rebalanced, pool_cap,
};
use crate::sum::{sum_of, lemma_sum_push, lemma_sum_nonneg, lemma_sum_ge_elem, lemma_sum_update};

verus! {

/// The priority an entry is inserted with; high-priority entries may sit in
/// a protected pool of an LRU cache.
#[derive(Clone, Copy, Debug, PartialEq, Eq, Hash, Structural)]
pub enum Priority {
    High,
    Low,
}

/// Every automatically sized shard gets at least this much capacity.
pub const MIN_SHARD_CAPACITY: usize = 524288;

/// The automatic shard count never exceeds `2^MAX_AUTO_SHARD_BITS`.
pub const MAX_AUTO_SHARD_BITS: u32 = 6;

/// Explicit shard bits must stay below this bound.
pub const SHARD_BITS_LIMIT: u32 = 20;

/// The shard that a hash selects: its top `bits` bits.
pub open spec fn shard_index_spec(h: u32, bits: u32) -> int {
    if bits == 0 {
        0
    } else {
        (h >> ((32 - bits) as u32)) as int
    }
}

/// The shard that a key belongs to.
pub open spec fn shard_of(key: Seq<u8>, bits: u32) -> int {
    shard_index_spec(key_hash(key), bits)
}

/// The number of shards for the given number of shard bits.
pub open spec fn shard_count(bits: u32) -> int {
    (1u32 << bits) as int
}

/// The index of the shard that a hash selects.
pub fn shard_index(h: u32, bits: u32) -> (r: usize)
    requires
        bits < SHARD_BITS_LIMIT,
    ensures
        r == shard_index_spec(h, bits),
        r < shard_count(bits),
{
    if bits == 0 {
        assert((1u32 << 0u32) == 1) by (bit_vector);
        0
    } else {
        let r = h >> (32 - bits);
        assert(h >> ((32 - bits) as u32) < (1u32 << bits)) by (bit_vector)
            requires
                0 < bits < 20,
        ;
        r as usize
    }
}

proof fn lemma_shard_count_bounds(bits: u32)
    requires
        bits < SHARD_BITS_LIMIT,
    ensures
        1 <= shard_count(bits) <= 0x80000,
{
    assert(1 <= (1u32 << bits) <= 0x80000) by (bit_vector)
        requires
            bits < 20,
    ;
}

/// With no shard bits there is one shard, and every key belongs to it.
pub proof fn lemma_single_shard(key: Seq<u8>)
    ensures
        shard_count(0) == 1,
        shard_of(key, 0) == 0,
{
    assert((1u32 << 0u32) == 1) by (bit_vector);
}

/// Keys whose hashes differ in their top `bits` bits belong to different
/// shards; with the per-key operations of `Cache`, which change only the
/// key's own shard, such keys never touch the same shard.
pub proof fn lemma_distinct_top_bits_distinct_shards(a: Seq<u8>, b: Seq<u8>, bits: u32)
    requires
        0 < bits < SHARD_BITS_LIMIT,
        key_hash(a) >> ((32 - bits) as u32) != key_hash(b) >> ((32 - bits) as u32),
    ensures
        shard_of(a, bits) != shard_of(b, bits),
        0 <= shard_of(a, bits) < shard_count(bits),
        0 <= shard_of(b, bits) < shard_count(bits),
{
    let ha = key_hash(a);
    let hb = key_hash(b);
    assert(ha >> ((32 - bits) as u32) < (1u32 << bits)) by (bit_vector)
        requires
            0 < bits < 20,
    ;
    assert(hb >> ((32 - bits) as u32) < (1u32 << bits)) by (bit_vector)
        requires
            0 < bits < 20,
    ;
}

/// `floor(log2(x))`, and 0 for 0.
pub open spec fn log2_floor(x: nat) -> nat
    decreases x,
{
    if x <= 1 {
        0
    } else {
        1 + log2_floor(x / 2)
    }
}

/// The automatic shard bits for a capacity: as many as keep every shard at
/// `MIN_SHARD_CAPACITY` or more, and no more than `MAX_AUTO_SHARD_BITS`.
pub open spec fn default_shard_bits(capacity: usize) -> u32 {
    let l = log2_floor((capacity / MIN_SHARD_CAPACITY) as nat);
    if l < MAX_AUTO_SHARD_BITS {
        l as u32
    } else {
        MAX_AUTO_SHARD_BITS
    }
}

/// Computes `default_shard_bits`.
pub fn auto_shard_bits(capacity: usize) -> (r: u32)
    ensures
        r == default_shard_bits(capacity),
{
    let mut n: usize = capacity / MIN_SHARD_CAPACITY;
    let mut bits: u32 = 0;
    while n > 1 && bits < MAX_AUTO_SHARD_BITS
        invariant
            bits <= MAX_AUTO_SHARD_BITS,
            bits + log2_floor(n as nat) == log2_floor((capacity / MIN_SHARD_CAPACITY) as nat),
        decreases n,
    {
        n = n / 2;
        bits = bits + 1;
    }
    bits
}

/// The capacity of shard `i` out of `n` for a total `capacity`.
pub open spec fn shard_capacity(capacity: usize, n: int, i: int) -> int {
    if i == 0 {
        capacity as int / n + capacity as int % n
    } else {
        capacity as int / n
    }
}

/// Computes `shard_capacity` for shard `i` out of `n`.
pub fn shard_capacity_of(capacity: usize, n: usize, i: usize) -> (r: usize)
    requires
        n >= 1,
    ensures
        r == shard_capacity(capacity, n as int, i as int),
{
    let base: usize = capacity / n;
    if i == 0 {
        proof {
            vstd::arithmetic::div_mod::lemma_fundamental_div_mod(capacity as int, n as int);
            assert(capacity as int / n as int + capacity as int % n as int <= capacity) by (nonlinear_arith)
                requires
                    n >= 1,
                    capacity as int == n * (capacity as int / n as int) + capacity as int % n as int,
                    capacity as int / n as int >= 0,
            ;
        }
        base + capacity % n
    } else {
        base
    }
}

proof fn lemma_capacity_split(capacity: usize, n: int, m: int)
    requires
        1 <= m <= n,
    ensures
        sum_of(Seq::new(m as nat, |i: int| shard_capacity(capacity, n, i))) == m * (capacity as int / n)
            + capacity as int % n,
    decreases m,
{
    let s = Seq::new(m as nat, |i: int| shard_capacity(capacity, n, i));
    assert(s.last() == shard_capacity(capacity, n, m - 1));
    if m == 1 {
        assert(s.drop_last() =~= Seq::<int>::empty());
        assert(sum_of(s.drop_last()) == 0);
        assert(1 * (capacity as int / n) == capacity as int / n);
    } else {
        lemma_capacity_split(capacity, n, m - 1);
        assert(s.drop_last() =~= Seq::new((m - 1) as nat, |i: int| shard_capacity(capacity, n, i)));
        assert(m * (capacity as int / n) == (m - 1) * (capacity as int / n) + capacity as int / n)
            by (nonlinear_arith);
    }
}

proof fn lemma_zero_sum(n: int)
    requires
        n >= 0,
    ensures
        sum_of(Seq::new(n as nat, |i: int| 0int)) == 0,
    decreases n,
{
    if n > 0 {
        lemma_zero_sum(n - 1);
        assert(Seq::new(n as nat, |i: int| 0int).drop_last() =~= Seq::new((n - 1) as nat, |i: int| 0int));
    }
}

proof fn lemma_sum_le(a: Seq<int>, b: Seq<int>)
    requires
        a.len() == b.len(),
        forall|i: int| 0 <= i < a.len() ==> a[i] <= b[i],
    ensures
        sum_of(a) <= sum_of(b),
    decreases a.len(),
{
    if a.len() > 0 {
        lemma_sum_le(a.drop_last(), b.drop_last());
    }
}

/// What a cache holds, given what its shards hold: each key is looked up in
/// the shard that it belongs to.
pub open spec fn cache_map(ms: Seq<Map<Seq<u8>, (u64, usize)>>, bits: u32) -> Map<Seq<u8>, (u64, usize)> {
    Map::new(
        |k: Seq<u8>| 0 <= shard_of(k, bits) < ms.len() && ms[shard_of(k, bits)].contains_key(k),
        |k: Seq<u8>| ms[shard_of(k, bits)][k],
    )
}

/// Each shard holds only keys that belong to it.
pub open spec fn placed(ms: Seq<Map<Seq<u8>, (u64, usize)>>, bits: u32) -> bool {
    forall|i: int, k: Seq<u8>|
        0 <= i < ms.len() && #[trigger] ms[i].contains_key(k) ==> shard_of(k, bits) == i
}

proof fn lemma_cache_step(
    ms: Seq<Map<Seq<u8>, (u64, usize)>>,
    bits: u32,
    i: int,
    m2: Map<Seq<u8>, (u64, usize)>,
    rel: Seq<Released>,
)
    requires
        placed(ms, bits),
        0 <= i < ms.len(),
        releases(ms[i], m2, rel),
    ensures
        placed(ms.update(i, m2), bits),
        releases(cache_map(ms, bits), cache_map(ms.update(i, m2), bits), rel),
{
    let before = cache_map(ms, bits);
    let after = cache_map(ms.update(i, m2), bits);
    let ms2 = ms.update(i, m2);
    assert forall|a: int, k: Seq<u8>| 0 <= a < ms2.len() && #[trigger] ms2[a].contains_key(k) implies shard_of(
        k,
        bits,
    ) == a by {
        if a == i {
            assert(ms[i].contains_key(k));
        }
    }
    assert forall|k: Seq<u8>| #[trigger] after.contains_key(k) implies before.contains_key(k) && after[k]
        == before[k] by {
        if shard_of(k, bits) == i {
            assert(m2.contains_key(k));
        }
    }
    assert forall|j: int| 0 <= j < rel.len() implies before.contains_key(#[trigger] rel[j].0@)
        && before[rel[j].0@].0 == rel[j].1 && !after.contains_key(rel[j].0@) by {
        assert(ms[i].contains_key(rel[j].0@));
        assert(shard_of(rel[j].0@, bits) == i);
    }
    assert forall|k: Seq<u8>| before.contains_key(k) && !after.contains_key(k) implies exists|j: int|
        0 <= j < rel.len() && #[trigger] rel[j].0@ == k && rel[j].1 == before[k].0 by {
        assert(shard_of(k, bits) == i);
        assert(ms[i].contains_key(k) && !m2.contains_key(k));
    }
}

proof fn lemma_releases_trans(
    a: Map<Seq<u8>, (u64, usize)>,
    b: Map<Seq<u8>, (u64, usize)>,
    c: Map<Seq<u8>, (u64, usize)>,
    r1: Seq<Released>,
    r2: Seq<Released>,
)
    requires
        releases(a, b, r1),
        releases(b, c, r2),
    ensures
        releases(a, c, r1 + r2),
{
    let r = r1 + r2;
    assert forall|x: int, y: int| 0 <= x < y < r.len() implies #[trigger] r[x].0@ != #[trigger] r[y].0@ by {
        if y < r1.len() {
            assert(r[x] == r1[x] && r[y] == r1[y]);
        } else if x >= r1.len() {
            assert(r[x] == r2[x - r1.len()] && r[y] == r2[y - r1.len()]);
        } else {
            assert(r[x] == r1[x] && r[y] == r2[y - r1.len()]);
            assert(!b.contains_key(r1[x].0@));
            assert(b.contains_key(r2[y - r1.len()].0@));
        }
    }
    assert forall|j: int| 0 <= j < r.len() implies a.contains_key(#[trigger] r[j].0@) && a[r[j].0@].0
        == r[j].1 && !c.contains_key(r[j].0@) by {
        if j < r1.len() {
            assert(r[j] == r1[j]);
        } else {
            assert(r[j] == r2[j - r1.len()]);
        }
    }
    assert forall|k: Seq<u8>| a.contains_key(k) && !c.contains_key(k) implies exists|j: int|
        0 <= j < r.len() && #[trigger] r[j].0@ == k && r[j].1 == a[k].0 by {
        if b.contains_key(k) {
            let j = choose|j: int| 0 <= j < r2.len() && #[trigger] r2[j].0@ == k && r2[j].1 == b[k].0;
            assert(r[r1.len() + j] == r2[j]);
        } else {
            let j = choose|j: int| 0 <= j < r1.len() && #[trigger] r1[j].0@ == k && r1[j].1 == a[k].0;
            assert(r[j] == r1[j]);
        }
    }
}

#[derive(Clone, Copy, Debug, PartialEq, Eq, Structural)]
enum CacheType {
    Lru,
    Clock,
}

/// Options of a cache, set one at a time before `build`.
pub struct CacheBuilder {
    type_: CacheType,
    capacity: usize,
    num_shard_bits: i32,
    strict_capacity_limit: bool,
    high_pri_pool_ratio: Option<u32>,
}

impl CacheBuilder {
    pub closed spec fn spec_is_lru(&self) -> bool {
        self.type_ == CacheType::Lru
    }

    pub closed spec fn spec_capacity(&self) -> usize {
        self.capacity
    }

    pub closed spec fn spec_num_shard_bits(&self) -> i32 {
        self.num_shard_bits
    }

    pub closed spec fn spec_strict(&self) -> bool {
        self.strict_capacity_limit
    }

    /// The share of the capacity reserved for high-priority entries, in
    /// percent, if one was chosen.
    pub closed spec fn spec_high_pri_pool_ratio(&self) -> Option<u32> {
        self.high_pri_pool_ratio
    }

    /// The options can be built: a high-priority share only on an LRU cache
    /// and at most 100 percent, and explicit shard bits below the limit.
    pub open spec fn valid_config(&self) -> bool {
        &&& self.spec_high_pri_pool_ratio() is Some ==> self.spec_is_lru()
            && self.spec_high_pri_pool_ratio()->0 <= 100
        &&& self.spec_num_shard_bits() < SHARD_BITS_LIMIT
    }

    /// The shard bits that `build` uses: the explicit ones, or the automatic
    /// ones when the setting is negative.
    pub open spec fn effective_shard_bits(&self) -> u32 {
        if self.spec_num_shard_bits() < 0 {
            default_shard_bits(self.spec_capacity())
        } else {
            self.spec_num_shard_bits() as u32
        }
    }

    /// Options of an LRU cache of the given capacity: automatic shard bits,
    /// no strict limit, no high-priority pool.
    pub fn new_lru(capacity: usize) -> (r: CacheBuilder)
        ensures
            r.spec_is_lru(),
            r.spec_capacity() == capacity,
            r.spec_num_shard_bits() == -1,
            !r.spec_strict(),
            r.spec_high_pri_pool_ratio() is None,
    {
        CacheBuilder {
            type_: CacheType::Lru,
            capacity: capacity,
            num_shard_bits: -1,
            strict_capacity_limit: false,
            high_pri_pool_ratio: None,
        }
    }

    /// Options of a clock cache of the given capacity: automatic shard bits,
    /// no strict limit.
    pub fn new_clock(capacity: usize) -> (r: CacheBuilder)
        ensures
            !r.spec_is_lru(),
            r.spec_capacity() == capacity,
            r.spec_num_shard_bits() == -1,
            !r.spec_strict(),
            r.spec_high_pri_pool_ratio() is None,
    {
        CacheBuilder {
            type_: CacheType::Clock,
            capacity: capacity,
            num_shard_bits: -1,
            strict_capacity_limit: false,
            high_pri_pool_ratio: None,
        }
    }

    /// Sets the shard bits; a negative value asks for automatic ones.
    pub fn num_shard_bits(&mut self, bits: i32) -> (r: &mut Self)
        ensures
            r.spec_num_shard_bits() == bits,
            r.spec_is_lru() == old(self).spec_is_lru(),
            r.spec_capacity() == old(self).spec_capacity(),
            r.spec_strict() == old(self).spec_strict(),
            r.spec_high_pri_pool_ratio() == old(self).spec_high_pri_pool_ratio(),
            *final(self) == *final(r),
    {
        self.num_shard_bits = bits;
        self
    }

    /// Makes inserts fail rather than exceed the capacity.
    pub fn strict_capacity_limit(&mut self, strict: bool) -> (r: &mut Self)
        ensures
            r.spec_strict() == strict,
            r.spec_is_lru() == old(self).spec_is_lru(),
            r.spec_capacity() == old(self).spec_capacity(),
            r.spec_num_shard_bits() == old(self).spec_num_shard_bits(),
            r.spec_high_pri_pool_ratio() == old(self).spec_high_pri_pool_ratio(),
            *final(self) == *final(r),
    {
        self.strict_capacity_limit = strict;
        self
    }

    /// Reserves `percent` percent of each shard for high-priority entries.
    /// Only an LRU cache has such a pool: on a clock cache `build` reports
    /// a configuration error.
    pub fn high_pri_pool_ratio(&mut self, percent: u32) -> (r: &mut Self)
        ensures
            r.spec_high_pri_pool_ratio() == Some(percent),
            r.spec_is_lru() == old(self).spec_is_lru(),
            r.spec_capacity() == old(self).spec_capacity(),
            r.spec_num_shard_bits() == old(self).spec_num_shard_bits(),
            r.spec_strict() == old(self).spec_strict(),
            *final(self) == *final(r),
    {
        self.high_pri_pool_ratio = Some(percent);
        self
    }

    /// The empty shards of the cache that `build` makes, with its shard
    /// bits: for callers that guard each shard with a lock of its own and
    /// route each key with `shard_index(hash_key(key), bits)`.
    pub fn build_shards(&mut self) -> (r: Result<(u32, Vec<Shard>), Error>)
        ensures
            *final(self) == *old(self),
            r is Ok <==> old(self).valid_config(),
            r is Err ==> r == Err::<(u32, Vec<Shard>), Error>(Error::ConfigurationError),
            r matches Ok((bits, shards)) ==> {
                &&& bits == old(self).effective_shard_bits()
                &&& bits < SHARD_BITS_LIMIT
                &&& shards@.len() == shard_count(bits)
                &&& sum_of(shard_usages(shards@)) == 0
                &&& forall|j: int|
                    0 <= j < shards@.len() ==> {
                        &&& (#[trigger] shards@[j]).wf()
                        &&& shards@[j].spec_strict() == old(self).spec_strict()
                        &&& shards@[j].spec_policy() == (if old(self).spec_is_lru() {
                            Policy::Lru
                        } else {
                            Policy::Clock
                        })
                        &&& shards@[j].spec_capacity() == shard_capacity(
                            old(self).spec_capacity(),
                            shards@.len() as int,
                            j,
                        )
                        &&& shards@[j].contents() == Map::<Seq<u8>, (u64, usize)>::empty()
                        &&& shards@[j].order().len() == 0
                        &&& shards@[j].spec_usage() == 0
                        &&& shards@[j].spec_pool_pct() == (match old(self).spec_high_pri_pool_ratio() {
                            Some(p) => p,
                            None => 0u32,
                        })
                    }
            },
    {
        let pct: u32 = match self.high_pri_pool_ratio {
            Some(p) => {
                if self.type_ != CacheType::Lru || p > 100 {
                    return Err(Error::ConfigurationError);
                }
                p
            },
            None => 0,
        };
        if self.num_shard_bits >= SHARD_BITS_LIMIT as i32 {
            return Err(Error::ConfigurationError);
        }
        let bits: u32 = if self.num_shard_bits < 0 {
            auto_shard_bits(self.capacity)
        } else {
            self.num_shard_bits as u32
        };
        proof {
            lemma_shard_count_bounds(bits);
        }
        let n: usize = (1u32 << bits) as usize;
        let policy = match self.type_ {
            CacheType::Lru => Policy::Lru,
            CacheType::Clock => Policy::Clock,
        };
        let capacity = self.capacity;
        let mut shards: Vec<Shard> = Vec::new();
        let mut i: usize = 0;
        while i < n
            invariant
                n == shard_count(bits),
                i <= n,
                i == shards@.len(),
                pct <= 100,
                forall|j: int|
                    0 <= j < i ==> {
                        &&& (#[trigger] shards@[j]).wf()
                        &&& shards@[j].spec_strict() == self.strict_capacity_limit
                        &&& shards@[j].spec_policy() == policy
                        &&& shards@[j].spec_capacity() == shard_capacity(capacity, n as int, j)
                        &&& shards@[j].contents() == Map::<Seq<u8>, (u64, usize)>::empty()
                        &&& shards@[j].order().len() == 0
                        &&& shards@[j].spec_usage() == 0
                        &&& shards@[j].spec_pool_pct() == pct
                    },
                pct == (match self.spec_high_pri_pool_ratio() {
                            Some(p) => p,
                            None => 0u32,
                        }),
                sum_of(shard_usages(shards@)) == 0,
            decreases n - i,
        {
            let c: usize = shard_capacity_of(capacity, n, i);
            let sh = Shard::new(policy, c, self.strict_capacity_limit, pct);
            proof {
                assert(shard_usages(shards@.push(sh)) =~= shard_usages(shards@).push(0));
                lemma_sum_push(shard_usages(shards@), 0);
            }
            shards.push(sh);
            i = i + 1;
        }
        Ok((bits, shards))
    }

    /// Builds the cache: a configuration error unless `valid_config`,
    /// otherwise an empty cache with the chosen options.
    pub fn build(&mut self) -> (r: Result<Cache, Error>)
        ensures
            *final(self) == *old(self),
            r is Ok <==> old(self).valid_config(),
            r is Err ==> r == Err::<Cache, Error>(Error::ConfigurationError),
            r matches Ok(c) ==> {
                &&& c.wf()
                &&& c.contents() == Map::<Seq<u8>, (u64, usize)>::empty()
                &&& c.spec_usage() == 0
                &&& c.spec_capacity() == old(self).spec_capacity()
                &&& c.spec_strict() == old(self).spec_strict()
                &&& c.spec_is_lru() == old(self).spec_is_lru()
                &&& c.spec_num_shard_bits() == old(self).effective_shard_bits()
                &&& forall|i: int|
                    0 <= i < shard_count(c.spec_num_shard_bits()) ==> {
                        &&& #[trigger] c.shard_at(i).spec_capacity() == shard_capacity(
                            old(self).spec_capacity(),
                            shard_count(c.spec_num_shard_bits()),
                            i,
                        )
                        &&& c.shard_at(i).contents() == Map::<Seq<u8>, (u64, usize)>::empty()
                        &&& c.shard_at(i).order().len() == 0
                        &&& c.shard_at(i).spec_usage() == 0
                        &&& c.shard_at(i).spec_pool_pct() == (match old(self).spec_high_pri_pool_ratio() {
                            Some(p) => p,
                            None => 0u32,
                        })
                    }
            },
    {
        match self.build_shards() {
            Ok((bits, shards)) => {
                let c = Cache {
                    type_: self.type_,
                    capacity: self.capacity,
                    num_shard_bits: bits,
                    strict_capacity_limit: self.strict_capacity_limit,
                    shards,
                };
                assert(c.contents() =~= Map::<Seq<u8>, (u64, usize)>::empty());
                Ok(c)
            },
            Err(e) => Err(e),
        }
    }
}

/// What each shard of a sequence holds.
pub open spec fn shard_maps(s: Seq<Shard>) -> Seq<Map<Seq<u8>, (u64, usize)>> {
    s.map_values(|sh: Shard| sh.contents())
}

/// The usage of each shard of a sequence.
pub open spec fn shard_usages(s: Seq<Shard>) -> Seq<int> {
    s.map_values(|sh: Shard| sh.spec_usage() as int)
}

/// The capacity of each shard of a sequence.
pub open spec fn shard_capacities(s: Seq<Shard>) -> Seq<int> {
    s.map_values(|sh: Shard| sh.spec_capacity() as int)
}

proof fn lemma_usage_update(s: Seq<Shard>, i: int, x: Shard)
    requires
        0 <= i < s.len(),
    ensures
        sum_of(shard_usages(s.update(i, x))) == sum_of(shard_usages(s)) - s[i].spec_usage() + x.spec_usage(),
{
    assert(shard_usages(s.update(i, x)) =~= shard_usages(s).update(i, x.spec_usage() as int));
    lemma_sum_update(shard_usages(s), i, x.spec_usage() as int);
}

/// A capacity-bounded map from byte-string keys to values, split into
/// shards by the top bits of the keys' hashes.
pub struct Cache {
    type_: CacheType,
    capacity: usize,
    num_shard_bits: u32,
    strict_capacity_limit: bool,
    shards: Vec<Shard>,
}

impl Cache {
    /// The cache is well formed: one well-formed shard per index, each with
    /// its share of the capacity, the cache's policy and strictness, and
    /// only keys that belong to it.
    pub closed spec fn wf(&self) -> bool {
        &&& self.num_shard_bits < SHARD_BITS_LIMIT
        &&& self.shards@.len() == shard_count(self.num_shard_bits)
        &&& forall|i: int|
            0 <= i < self.shards@.len() ==> {
                &&& (#[trigger] self.shards@[i]).wf()
                &&& self.shards@[i].spec_strict() == self.strict_capacity_limit
                &&& self.shards@[i].spec_policy() == (if self.type_ == CacheType::Lru {
                    Policy::Lru
                } else {
                    Policy::Clock
                })
                &&& self.shards@[i].spec_capacity() == shard_capacity(
                    self.capacity,
                    self.shards@.len() as int,
                    i,
                )
            }
        &&& placed(shard_maps(self.shards@), self.num_shard_bits)
    }

    /// What the cache holds: each key with its value and charge.
    pub closed spec fn contents(&self) -> Map<Seq<u8>, (u64, usize)> {
        cache_map(shard_maps(self.shards@), self.num_shard_bits)
    }

    /// The total capacity.
    pub closed spec fn spec_capacity(&self) -> usize {
        self.capacity
    }

    /// The sum of the shards' usages.
    pub closed spec fn spec_usage(&self) -> int {
        sum_of(shard_usages(self.shards@))
    }

    pub closed spec fn spec_strict(&self) -> bool {
        self.strict_capacity_limit
    }

    pub closed spec fn spec_is_lru(&self) -> bool {
        self.type_ == CacheType::Lru
    }

    pub closed spec fn spec_num_shard_bits(&self) -> u32 {
        self.num_shard_bits
    }

    /// The shard at index `i`.
    pub closed spec fn shard_at(&self, i: int) -> Shard {
        self.shards@[i]
    }

    /// The shard that `key` belongs to.
    pub open spec fn home(&self, key: Seq<u8>) -> Shard {
        self.shard_at(shard_of(key, self.spec_num_shard_bits()))
    }

    /// Every shard but the one that `key` belongs to is as it was.
    pub open spec fn only_shard_of(&self, other: &Cache, key: Seq<u8>) -> bool {
        forall|i: int|
            0 <= i < shard_count(self.spec_num_shard_bits()) && i != shard_of(key, self.spec_num_shard_bits())
                ==> #[trigger] self.shard_at(i) == other.shard_at(i)
    }

    /// The capacity of the shard that `key` belongs to.
    pub open spec fn capacity_for(&self, key: Seq<u8>) -> int {
        shard_capacity(
            self.spec_capacity(),
            shard_count(self.spec_num_shard_bits()),
            shard_of(key, self.spec_num_shard_bits()),
        )
    }

    /// The name of the eviction algorithm.
    pub fn name(&self) -> (r: &str)
        ensures
            self.spec_is_lru() ==> r@ == "LRUCache"@,
            !self.spec_is_lru() ==> r@ == "ClockCache"@,
    {
        match self.type_ {
            CacheType::Lru => "LRUCache",
            CacheType::Clock => "ClockCache",
        }
    }

    /// Returns the configured total capacity.
    pub fn get_capacity(&self) -> (r: usize)
        ensures
            r == self.spec_capacity(),
    {
        self.capacity
    }

    /// Returns the sum of the charges held, saturated at `usize::MAX`.
    pub fn get_usage(&self) -> (r: usize)
        requires
            self.wf(),
        ensures
            r == (if self.spec_usage() <= usize::MAX {
                self.spec_usage()
            } else {
                usize::MAX as int
            }),
    {
        let mut acc: usize = 0;
        let mut i: usize = 0;
        while i < self.shards.len()
            invariant
                i <= self.shards@.len(),
                acc == (if sum_of(shard_usages(self.shards@).subrange(0, i as int)) <= usize::MAX {
                    sum_of(shard_usages(self.shards@).subrange(0, i as int))
                } else {
                    usize::MAX as int
                }),
            decreases self.shards@.len() - i,
        {
            let ghost u = shard_usages(self.shards@);
            proof {
                assert(u.subrange(0, i + 1).drop_last() =~= u.subrange(0, i as int));
                lemma_sum_nonneg(u.subrange(0, i as int));
            }
            acc = acc.saturating_add(self.shards[i].usage());
            i = i + 1;
        }
        assert(shard_usages(self.shards@).subrange(0, self.shards@.len() as int) =~= shard_usages(
            self.shards@,
        ));
        acc
    }

    /// The shard that `key` belongs to.
    fn shard_for(&self, key: &[u8]) -> (r: usize)
        requires
            self.wf(),
        ensures
            r == shard_of(key@, self.num_shard_bits),
            r < self.shards@.len(),
    {
        shard_index(hash_key(key), self.num_shard_bits)
    }

    /// Returns the value stored under `key`, recording the use in its
    /// shard's eviction state.
    pub fn get(&mut self, key: &[u8]) -> (r: Option<u64>)
        requires
            old(self).wf(),
        ensures
            final(self).wf(),
            final(self).contents() == old(self).contents(),
            final(self).spec_usage() == old(self).spec_usage(),
            final(self).spec_capacity() == old(self).spec_capacity(),
            final(self).spec_strict() == old(self).spec_strict(),
            final(self).spec_is_lru() == old(self).spec_is_lru(),
            final(self).spec_num_shard_bits() == old(self).spec_num_shard_bits(),
            final(self).only_shard_of(old(self), key@),
            r == (if old(self).contents().contains_key(key@) {
                Some(old(self).contents()[key@].0)
            } else {
                None::<u64>
            }),
            old(self).contents().contains_key(key@) && old(self).spec_is_lru() ==> final(self).home(key@).order()
                == old(self).home(key@).order().remove(position(old(self).home(key@).order(), key@)).push(key@)
                && final(self).home(key@).pooled() == old(self).home(key@).pooled().remove(
                position(old(self).home(key@).order(), key@),
            ).push(old(self).home(key@).pooled()[position(old(self).home(key@).order(), key@)]),
            old(self).contents().contains_key(key@) && !old(self).spec_is_lru() ==> {
                &&& final(self).home(key@).order() == old(self).home(key@).order()
                &&& final(self).home(key@).marks() == old(self).home(key@).marks().update(
                    position(old(self).home(key@).order(), key@),
                    true,
                )
            },
    {
        let i = self.shard_for(key);
        let ghost s0 = self.shards@;
        let r = self.shards[i].lookup(key);
        proof {
            assert(self.shards@ =~= s0.update(i as int, self.shards@[i as int]));
            assert(shard_maps(self.shards@) =~= shard_maps(s0));
            assert(shard_usages(self.shards@) =~= shard_usages(s0));
        }
        r
    }

    /// Removes `key`, handing back its value.
    pub fn erase(&mut self, key: &[u8]) -> (r: Option<u64>)
        requires
            old(self).wf(),
        ensures
            final(self).wf(),
            final(self).contents() == old(self).contents().remove(key@),
            final(self).spec_capacity() == old(self).spec_capacity(),
            final(self).spec_strict() == old(self).spec_strict(),
            final(self).spec_is_lru() == old(self).spec_is_lru(),
            final(self).spec_num_shard_bits() == old(self).spec_num_shard_bits(),
            final(self).only_shard_of(old(self), key@),
            r == (if old(self).contents().contains_key(key@) {
                Some(old(self).contents()[key@].0)
            } else {
                None::<u64>
            }),
            r is Some ==> final(self).spec_usage() == old(self).spec_usage() - old(self).contents()[key@].1,
            r is None ==> final(self).spec_usage() == old(self).spec_usage(),
    {
        let i = self.shard_for(key);
        let ghost s0 = self.shards@;
        let ghost bits = self.num_shard_bits;
        let r = self.shards[i].erase(key);
        proof {
            lemma_usage_update(s0, i as int, self.shards@[i as int]);
            assert(self.shards@ =~= s0.update(i as int, self.shards@[i as int]));
            let ms0 = shard_maps(s0);
            let ms1 = shard_maps(self.shards@);
            assert(ms1 =~= ms0.update(i as int, ms0[i as int].remove(key@)));
            assert forall|a: int, k: Seq<u8>| 0 <= a < ms1.len() && #[trigger] ms1[a].contains_key(k) implies shard_of(
                k,
                bits,
            ) == a by {
                assert(ms0[a].contains_key(k));
            }
            assert(cache_map(ms1, bits) =~= cache_map(ms0, bits).remove(key@));
        }
        r
    }

    /// Inserts `value` under `key` with the given charge into the key's
    /// shard, handing back every entry that left the cache: the one that
    /// `key` held and the victims evicted to make room. A strict cache
    /// refuses a charge larger than the key's shard capacity, and is then
    /// left as it was.
    #[verifier::rlimit(40)]
    pub fn insert(&mut self, key: &[u8], value: u64, charge: usize, priority: Priority) -> (r: Result<
        Vec<Released>,
        Error,
    >)
        requires
            old(self).wf(),
        ensures
            final(self).wf(),
            final(self).spec_capacity() == old(self).spec_capacity(),
            final(self).spec_strict() == old(self).spec_strict(),
            final(self).spec_is_lru() == old(self).spec_is_lru(),
            final(self).spec_num_shard_bits() == old(self).spec_num_shard_bits(),
            final(self).only_shard_of(old(self), key@),
            r is Err <==> old(self).spec_strict() && charge > old(self).capacity_for(key@),
            old(self).spec_strict() && charge > old(self).spec_capacity() ==> r is Err,
            r is Err ==> {
                &&& r == Err::<Vec<Released>, Error>(Error::CapacityExceeded)
                &&& final(self).contents() == old(self).contents()
                &&& final(self).spec_usage() == old(self).spec_usage()
            },
            r matches Ok(rel) ==> {
                &&& final(self).contents().contains_key(key@)
                &&& final(self).contents()[key@] == (value, charge)
                &&& releases(old(self).contents(), final(self).contents().remove(key@), rel@)
                &&& charge <= old(self).capacity_for(key@) ==> final(self).shard_at(
                    shard_of(key@, old(self).spec_num_shard_bits()),
                ).spec_usage() <= old(self).capacity_for(key@)
                &&& charge > old(self).capacity_for(key@) ==> final(self).shard_at(
                    shard_of(key@, old(self).spec_num_shard_bits()),
                ).contents() == Map::<Seq<u8>, (u64, usize)>::empty().insert(key@, (value, charge))
                &&& !old(self).contents().contains_key(key@) && old(self).shard_at(
                    shard_of(key@, old(self).spec_num_shard_bits()),
                ).spec_usage() + charge <= old(self).capacity_for(key@) ==> {
                    &&& rel@.len() == 0
                    &&& final(self).contents() == old(self).contents().insert(key@, (value, charge))
                    &&& final(self).spec_usage() == old(self).spec_usage() + charge
                    &&& final(self).home(key@).order() == old(self).home(key@).order().push(key@)
                    &&& priority == Priority::Low ==> final(self).home(key@).pooled() == old(self).home(
                        key@,
                    ).pooled().push(false)
                    &&& priority == Priority::High && old(self).spec_is_lru()
                        ==> final(self).home(key@).pooled() == rebalanced(
                        old(self).home(key@).pooled().push(true),
                        old(self).home(key@).charge_list().push(charge as int),
                        pool_cap(old(self).home(key@).spec_capacity(), old(self).home(key@).spec_pool_pct()),
                    )
                }
                &&& !old(self).contents().contains_key(key@) && old(self).home(key@).spec_usage() + charge
                    > old(self).capacity_for(key@) && old(self).home(key@).order().len() > 0 ==> {
                    &&& rel@.len() >= 1
                    &&& old(self).spec_is_lru() ==> rel@[0].0@ == old(self).home(key@).order()[first_unpooled(
                        old(self).home(key@).pooled(),
                    )]
                    &&& !old(self).spec_is_lru() ==> rel@[0].0@ == old(self).home(key@).order()[clock_victim_of(
                        old(self).home(key@).marks(),
                        old(self).home(key@).spec_hand() as int,
                    )]
                    &&& old(self).home(key@).spec_usage() - old(self).home(key@).contents()[rel@[0].0@].1
                        + charge <= old(self).capacity_for(key@) ==> {
                        &&& rel@.len() == 1
                        &&& final(self).home(key@).spec_usage() == old(self).home(key@).spec_usage()
                            - old(self).home(key@).contents()[rel@[0].0@].1 + charge
                        &&& final(self).spec_usage() == old(self).spec_usage() - old(self).home(
                            key@,
                        ).contents()[rel@[0].0@].1 + charge
                    }
                }
                &&& final(self).home(key@).order().len() > 0
                &&& final(self).home(key@).order().last() == key@
                &&& final(self).home(key@).marks().len() == final(self).home(key@).order().len()
                &&& final(self).home(key@).marks().last() == (old(self).contents().contains_key(key@)
                    && !old(self).spec_is_lru())
            },
    {
        let i = self.shard_for(key);
        let ghost s0 = self.shards@;
        let ghost bits = self.num_shard_bits;
        proof {
            lemma_shard_count_bounds(bits);
            if self.strict_capacity_limit && charge > self.capacity {
                let n = s0.len() as int;
                vstd::arithmetic::div_mod::lemma_fundamental_div_mod(self.capacity as int, n);
                assert(self.capacity as int / n + self.capacity as int % n <= self.capacity) by (nonlinear_arith)
                    requires
                        n >= 1,
                        self.capacity as int == n * (self.capacity as int / n) + self.capacity as int % n,
                        self.capacity as int / n >= 0,
                ;
            }
        }
        let r = self.shards[i].insert(key, value, charge, priority);
        proof {
            assert(self.shards@ =~= s0.update(i as int, self.shards@[i as int]));
            let ms0 = shard_maps(s0);
            let ms1 = shard_maps(self.shards@);
            let ns = self.shards@[i as int].contents();
            assert(ms1 =~= ms0.update(i as int, ns));
            match &r {
                Ok(rel) => {
                    let m2 = ns.remove(key@);
                    lemma_cache_step(ms0, bits, i as int, m2, rel@);
                    let ms2 = ms0.update(i as int, m2);
                    assert forall|a: int, k: Seq<u8>| 0 <= a < ms1.len() && #[trigger] ms1[a].contains_key(k) implies shard_of(
                        k,
                        bits,
                    ) == a by {
                        if k != key@ || a != i {
                            assert(ms2[a].contains_key(k));
                        }
                    }
                    assert(cache_map(ms2, bits) =~= cache_map(ms1, bits).remove(key@));
                    lemma_usage_update(s0, i as int, self.shards@[i as int]);
                    if !cache_map(ms0, bits).contains_key(key@) && s0[i as int].spec_usage() + charge
                        <= s0[i as int].spec_capacity() {
                        assert(!ms0[i as int].contains_key(key@));
                        assert(cache_map(ms1, bits) =~= cache_map(ms0, bits).insert(key@, (value, charge)));
                    }
                },
                Err(_) => {
                    assert(ms1 =~= ms0);
                    assert(shard_usages(self.shards@) =~= shard_usages(s0));
                },
            }
        }
        r
    }

    /// Sets the total capacity, divides it among the shards as at build
    /// time, and evicts in each shard until its usage fits, handing back the
    /// evicted entries.
    #[verifier::rlimit(40)]
    pub fn set_capacity(&mut self, capacity: usize) -> (released: Vec<Released>)
        requires
            old(self).wf(),
        ensures
            final(self).wf(),
            final(self).spec_capacity() == capacity,
            final(self).spec_usage() <= capacity,
            final(self).spec_strict() == old(self).spec_strict(),
            final(self).spec_is_lru() == old(self).spec_is_lru(),
            final(self).spec_num_shard_bits() == old(self).spec_num_shard_bits(),
            releases(old(self).contents(), final(self).contents(), released@),
            forall|i: int|
                0 <= i < shard_count(old(self).spec_num_shard_bits()) ==> #[trigger] final(self).shard_at(
                    i,
                ).spec_capacity() == shard_capacity(
                    capacity,
                    shard_count(old(self).spec_num_shard_bits()),
                    i,
                ),
            forall|i: int|
                0 <= i < shard_count(old(self).spec_num_shard_bits()) && old(self).shard_at(i).spec_usage()
                    <= shard_capacity(capacity, shard_count(old(self).spec_num_shard_bits()), i) ==> {
                    &&& (#[trigger] final(self).shard_at(i)).contents() == old(self).shard_at(i).contents()
                    &&& final(self).shard_at(i).spec_usage() == old(self).shard_at(i).spec_usage()
                },
            (forall|i: int|
                0 <= i < shard_count(old(self).spec_num_shard_bits()) ==> #[trigger] old(self).shard_at(
                    i,
                ).spec_usage() <= shard_capacity(capacity, shard_count(old(self).spec_num_shard_bits()), i))
                ==> {
                &&& released@.len() == 0
                &&& final(self).contents() == old(self).contents()
                &&& final(self).spec_usage() == old(self).spec_usage()
            },
    {
        let n = self.shards.len();
        let ghost bits = self.num_shard_bits;
        let ghost c0 = self.contents();
        proof {
            lemma_shard_count_bounds(bits);
            lemma_releases_none(c0);
        }
        let mut released: Vec<Released> = Vec::new();
        let mut i: usize = 0;
        while i < n
            invariant
                n == self.shards@.len(),
                n == shard_count(bits),
                bits == self.num_shard_bits,
                bits < SHARD_BITS_LIMIT,
                i <= n,
                self.type_ == old(self).type_,
                self.strict_capacity_limit == old(self).strict_capacity_limit,
                self.capacity == old(self).capacity,
                forall|j: int|
                    0 <= j < n ==> {
                        &&& (#[trigger] self.shards@[j]).wf()
                        &&& self.shards@[j].spec_strict() == self.strict_capacity_limit
                        &&& self.shards@[j].spec_policy() == (if self.type_ == CacheType::Lru {
                            Policy::Lru
                        } else {
                            Policy::Clock
                        })
                    },
                forall|j: int|
                    0 <= j < i ==> {
                        &&& (#[trigger] self.shards@[j]).spec_capacity() == shard_capacity(capacity, n as int, j)
                        &&& self.shards@[j].spec_usage() <= self.shards@[j].spec_capacity()
                    },
                placed(shard_maps(self.shards@), bits),
                releases(c0, self.contents(), released@),
                old(self).shards@.len() == n,
                forall|j: int| i <= j < n ==> #[trigger] self.shards@[j] == old(self).shards@[j],
                forall|j: int|
                    0 <= j < i && old(self).shards@[j].spec_usage() <= shard_capacity(capacity, n as int, j)
                        ==> {
                        &&& (#[trigger] self.shards@[j]).contents() == old(self).shards@[j].contents()
                        &&& self.shards@[j].spec_usage() == old(self).shards@[j].spec_usage()
                    },
                (forall|j: int|
                    0 <= j < i ==> #[trigger] old(self).shards@[j].spec_usage() <= shard_capacity(
                        capacity,
                        n as int,
                        j,
                    )) ==> released@.len() == 0,
            decreases n - i,
        {
            let c: usize = shard_capacity_of(capacity, n, i);
            let ghost s0 = self.shards@;
            let ghost len0 = released@.len();
            let mut rel = self.shards[i].set_capacity(c);
            proof {
                assert(self.shards@ =~= s0.update(i as int, self.shards@[i as int]));
                if forall|j: int|
                    0 <= j < i + 1 ==> #[trigger] old(self).shards@[j].spec_usage() <= shard_capacity(
                        capacity,
                        n as int,
                        j,
                    ) {
                    assert(old(self).shards@[i as int].spec_usage() <= shard_capacity(capacity, n as int, i as int));
                    assert(rel@.len() == 0);
                }
                let ms0 = shard_maps(s0);
                let ms1 = shard_maps(self.shards@);
                assert(ms1 =~= ms0.update(i as int, self.shards@[i as int].contents()));
                lemma_cache_step(ms0, bits, i as int, self.shards@[i as int].contents(), rel@);
                lemma_releases_trans(c0, cache_map(ms0, bits), cache_map(ms1, bits), released@, rel@);
            }
            released.append(&mut rel);
            i = i + 1;
        }
        self.capacity = capacity;
        proof {
            if forall|j: int|
                0 <= j < n ==> #[trigger] old(self).shard_at(j).spec_usage() <= shard_capacity(
                    capacity,
                    n as int,
                    j,
                ) {
                assert forall|j: int| 0 <= j < n implies #[trigger] old(self).shards@[j].spec_usage()
                    <= shard_capacity(capacity, n as int, j) by {
                    assert(old(self).shard_at(j).spec_usage() <= shard_capacity(capacity, n as int, j));
                }
                assert forall|j: int| 0 <= j < n implies #[trigger] self.shards@[j].contents()
                    == old(self).shards@[j].contents() && self.shards@[j].spec_usage()
                    == old(self).shards@[j].spec_usage() by {
                    assert(old(self).shards@[j].spec_usage() <= shard_capacity(capacity, n as int, j));
                }
                assert(shard_maps(self.shards@) =~= shard_maps(old(self).shards@));
                assert(shard_usages(self.shards@) =~= shard_usages(old(self).shards@));
            }
            self.lemma_capacities();
            assert(shard_capacities(self.shards@) =~= Seq::new(n as nat, |j: int| shard_capacity(capacity, n as int, j)));
            lemma_sum_le(shard_usages(self.shards@), shard_capacities(self.shards@));
        }
        released
    }

    /// Empties the cache, handing back every entry it held.
    pub fn clear(&mut self) -> (released: Vec<Released>)
        requires
            old(self).wf(),
        ensures
            final(self).wf(),
            final(self).contents() == Map::<Seq<u8>, (u64, usize)>::empty(),
            final(self).spec_usage() == 0,
            final(self).spec_capacity() == old(self).spec_capacity(),
            final(self).spec_strict() == old(self).spec_strict(),
            final(self).spec_is_lru() == old(self).spec_is_lru(),
            final(self).spec_num_shard_bits() == old(self).spec_num_shard_bits(),
            releases(old(self).contents(), final(self).contents(), released@),
    {
        let n = self.shards.len();
        let ghost bits = self.num_shard_bits;
        let ghost c0 = self.contents();
        proof {
            lemma_releases_none(c0);
        }
        let mut released: Vec<Released> = Vec::new();
        let mut i: usize = 0;
        while i < n
            invariant
                n == self.shards@.len(),
                n == shard_count(bits),
                bits == self.num_shard_bits,
                bits < SHARD_BITS_LIMIT,
                i <= n,
                self.type_ == old(self).type_,
                self.strict_capacity_limit == old(self).strict_capacity_limit,
                self.capacity == old(self).capacity,
                forall|j: int|
                    0 <= j < n ==> {
                        &&& (#[trigger] self.shards@[j]).wf()
                        &&& self.shards@[j].spec_strict() == self.strict_capacity_limit
                        &&& self.shards@[j].spec_policy() == (if self.type_ == CacheType::Lru {
                            Policy::Lru
                        } else {
                            Policy::Clock
                        })
                        &&& self.shards@[j].spec_capacity() == shard_capacity(self.capacity, n as int, j)
                    },
                forall|j: int| 0 <= j < i ==> (#[trigger] self.shards@[j]).contents() == Map::<Seq<u8>, (u64, usize)>::empty(),
                placed(shard_maps(self.shards@), bits),
                releases(c0, self.contents(), released@),
            decreases n - i,
        {
            let ghost s0 = self.shards@;
            let mut rel = self.shards[i].clear();
            proof {
                assert(self.shards@ =~= s0.update(i as int, self.shards@[i as int]));
                let ms0 = shard_maps(s0);
                let ms1 = shard_maps(self.shards@);
                assert(ms1 =~= ms0.update(i as int, self.shards@[i as int].contents()));
                lemma_cache_step(ms0, bits, i as int, self.shards@[i as int].contents(), rel@);
                lemma_releases_trans(c0, cache_map(ms0, bits), cache_map(ms1, bits), released@, rel@);
            }
            released.append(&mut rel);
            i = i + 1;
        }
        assert(self.contents() =~= Map::<Seq<u8>, (u64, usize)>::empty());
        proof {
            self.lemma_empty_usage();
        }
        released
    }

    /// A well-formed strict cache never holds more than its capacity.
    pub proof fn lemma_strict_usage_within_capacity(&self)
        requires
            self.wf(),
        ensures
            self.spec_strict() ==> self.spec_usage() <= self.spec_capacity(),
    {
        if self.strict_capacity_limit {
            self.lemma_capacities();
            assert forall|i: int| 0 <= i < self.shards@.len() implies shard_usages(self.shards@)[i]
                <= shard_capacities(self.shards@)[i] by {
                self.shards@[i].lemma_strict_usage_bounded();
            }
            lemma_sum_le(shard_usages(self.shards@), shard_capacities(self.shards@));
        }
    }

    /// The charge of each entry held counts in the usage.
    pub proof fn lemma_charge_within_usage(&self, k: Seq<u8>)
        requires
            self.wf(),
            self.contents().contains_key(k),
        ensures
            self.contents()[k].1 <= self.spec_usage(),
    {
        let i = shard_of(k, self.num_shard_bits);
        let u = shard_usages(self.shards@);
        self.shards@[i].lemma_charge_within_usage(k);
        assert forall|j: int| 0 <= j < u.len() implies u[j] >= 0 by {}
        lemma_sum_ge_elem(u, i);
    }

    /// Each shard has its share of the capacity: the total divided evenly,
    /// the remainder to shard 0; the shares add up to the total.
    pub proof fn lemma_shard_capacities(&self)
        requires
            self.wf(),
        ensures
            forall|i: int|
                0 <= i < shard_count(self.spec_num_shard_bits()) ==> #[trigger] self.shard_at(i).spec_capacity()
                    == shard_capacity(self.spec_capacity(), shard_count(self.spec_num_shard_bits()), i),
            sum_of(
                Seq::new(
                    shard_count(self.spec_num_shard_bits()) as nat,
                    |i: int| self.shard_at(i).spec_capacity() as int,
                ),
            ) == self.spec_capacity(),
    {
        self.lemma_capacities();
        assert(shard_capacities(self.shards@) =~= Seq::new(
            shard_count(self.spec_num_shard_bits()) as nat,
            |i: int| self.shard_at(i).spec_capacity() as int,
        ));
    }

    /// The usage is the sum of the shards' usages.
    pub proof fn lemma_usage_is_shard_sum(&self)
        requires
            self.wf(),
        ensures
            self.spec_usage() == sum_of(
                Seq::new(
                    shard_count(self.spec_num_shard_bits()) as nat,
                    |i: int| self.shard_at(i).spec_usage() as int,
                ),
            ),
    {
        assert(shard_usages(self.shards@) =~= Seq::new(
            shard_count(self.spec_num_shard_bits()) as nat,
            |i: int| self.shard_at(i).spec_usage() as int,
        ));
    }

    /// The cache holds `k` exactly when `k`'s shard does, with the same
    /// value and charge.
    pub proof fn lemma_home(&self, k: Seq<u8>)
        requires
            self.wf(),
        ensures
            0 <= shard_of(k, self.spec_num_shard_bits()) < shard_count(self.spec_num_shard_bits()),
            self.contents().contains_key(k) <==> self.home(k).contents().contains_key(k),
            self.contents().contains_key(k) ==> self.contents()[k] == self.home(k).contents()[k],
    {
        let h = key_hash(k);
        let bits = self.num_shard_bits;
        lemma_shard_count_bounds(bits);
        if bits > 0 {
            assert(h >> ((32 - bits) as u32) < (1u32 << bits)) by (bit_vector)
                requires
                    0 < bits < 20,
            ;
        }
    }

    /// A cache that holds nothing has no usage.
    pub proof fn lemma_empty_usage(&self)
        requires
            self.wf(),
            self.contents() == Map::<Seq<u8>, (u64, usize)>::empty(),
        ensures
            self.spec_usage() == 0,
    {
        let u = shard_usages(self.shards@);
        assert forall|i: int| 0 <= i < u.len() implies u[i] <= 0 by {
            let sh = self.shards@[i];
            assert forall|k: Seq<u8>| !sh.contents().contains_key(k) by {
                if sh.contents().contains_key(k) {
                    assert(shard_maps(self.shards@)[i].contains_key(k));
                    assert(self.contents().contains_key(k));
                }
            }
            assert(sh.contents() =~= Map::<Seq<u8>, (u64, usize)>::empty());
            sh.lemma_empty_usage();
        }
        lemma_sum_le(u, Seq::new(u.len(), |i: int| 0int));
        lemma_zero_sum(u.len() as int);
        lemma_sum_nonneg(u);
    }

    /// The shards' capacities add up to the total capacity.
    proof fn lemma_capacities(&self)
        requires
            self.wf(),
        ensures
            sum_of(shard_capacities(self.shards@)) == self.capacity,
    {
        let n = self.shards@.len() as int;
        lemma_shard_count_bounds(self.num_shard_bits);
        lemma_capacity_split(self.capacity, n, n);
        assert(shard_capacities(self.shards@) =~= Seq::new(n as nat, |i: int| shard_capacity(self.capacity, n, i)));
        vstd::arithmetic::div_mod::lemma_fundamental_div_mod(self.capacity as int, n);
    }
}

} // verus!
