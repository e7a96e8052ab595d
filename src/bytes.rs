//! Byte-string comparison and hashing, the default key order of this library.
use vstd::prelude::*;

verus! {

/// Byte-wise lexicographic order: `a` sorts strictly before `b`.
pub open spec fn lex_lt(a: Seq<u8>, b: Seq<u8>) -> bool
    decreases a.len(),
{
    if b.len() == 0 {
        false
    } else if a.len() == 0 {
        true
    } else if a[0] != b[0] {
        a[0] < b[0]
    } else {
        lex_lt(a.drop_first(), b.drop_first())
    }
}

/// Returns whether two byte strings are equal.
pub fn bytes_eq(a: &[u8], b: &[u8]) -> (r: bool)
    ensures
        r == (a@ == b@),
{
    if a.len() != b.len() {
        return false;
    }
    let mut i: usize = 0;
    while i < a.len()
        invariant
            a@.len() == b@.len(),
            i <= a@.len(),
            forall|j: int| 0 <= j < i ==> a@[j] == b@[j],
        decreases a@.len() - i,
    {
        if a[i] != b[i] {
            return false;
        }
        i = i + 1;
    }
    assert(a@ =~= b@);
    true
}

proof fn lemma_lex_lt_suffix(a: Seq<u8>, b: Seq<u8>, i: int)
    requires
        0 <= i < a.len(),
        i < b.len(),
        a[i] == b[i],
    ensures
        lex_lt(a.subrange(i, a.len() as int), b.subrange(i, b.len() as int)) == lex_lt(
            a.subrange(i + 1, a.len() as int),
            b.subrange(i + 1, b.len() as int),
        ),
{
    assert(a.subrange(i, a.len() as int).drop_first() =~= a.subrange(i + 1, a.len() as int));
    assert(b.subrange(i, b.len() as int).drop_first() =~= b.subrange(i + 1, b.len() as int));
}

/// Returns whether `a` sorts strictly before `b` in byte-wise order.
pub fn bytes_less(a: &[u8], b: &[u8]) -> (r: bool)
    ensures
        r == lex_lt(a@, b@),
{
    let mut i: usize = 0;
    assert(a@.subrange(0, a@.len() as int) =~= a@);
    assert(b@.subrange(0, b@.len() as int) =~= b@);
    while i < a.len() && i < b.len()
        invariant
            i <= a@.len(),
            i <= b@.len(),
            lex_lt(a@, b@) == lex_lt(
                a@.subrange(i as int, a@.len() as int),
                b@.subrange(i as int, b@.len() as int),
            ),
        decreases a@.len() - i,
    {
        if a[i] != b[i] {
            return a[i] < b[i];
        }
        proof {
            lemma_lex_lt_suffix(a@, b@, i as int);
        }
        i = i + 1;
    }
    i < b.len()
}

pub const FNV_OFFSET: u32 = 2166136261;

pub const FNV_PRIME: u32 = 16777619;

/// One step of the 32-bit FNV-1a hash.
pub open spec fn fnv_step(h: u32, b: u8) -> u32 {
    (((h ^ (b as u32)) as int * FNV_PRIME as int) % 0x1_0000_0000) as u32
}

/// The 32-bit FNV-1a hash of a byte string.
pub open spec fn fnv1a(s: Seq<u8>) -> u32
    decreases s.len(),
{
    if s.len() == 0 {
        FNV_OFFSET
    } else {
        fnv_step(fnv1a(s.drop_last()), s.last())
    }
}

/// Multiplies modulo 2^32.
pub open spec fn mul32(a: u32, b: u32) -> u32 {
    ((a as int * b as int) % 0x1_0000_0000) as u32
}

/// The 32-bit finalizer of MurmurHash3: spreads every input bit over the
/// whole word, so that the top bits depend on all of them.
pub open spec fn fmix32(h: u32) -> u32 {
    let a = h ^ (h >> 16u32);
    let b = mul32(a, 0x85eb_ca6b);
    let c = b ^ (b >> 13u32);
    let d = mul32(c, 0xc2b2_ae35);
    d ^ (d >> 16u32)
}

/// The hash of a key: FNV-1a, then the finalizer.
pub open spec fn key_hash(s: Seq<u8>) -> u32 {
    fmix32(fnv1a(s))
}

fn mul_mod32(a: u32, b: u32) -> (r: u32)
    ensures
        r == mul32(a, b),
{
    assert((a as u64) * (b as u64) <= 0xffff_ffff * 0xffff_ffff) by (nonlinear_arith)
        requires
            a <= 0xffff_ffff,
            b <= 0xffff_ffff,
    ;
    let p: u64 = (a as u64) * (b as u64);
    (p % 0x1_0000_0000) as u32
}

/// Hashes a key; the cache picks a shard by the top bits of this hash.
pub fn hash_key(key: &[u8]) -> (r: u32)
    ensures
        r == key_hash(key@),
{
    let h = fnv1a_hash(key);
    let a = h ^ (h >> 16);
    let b = mul_mod32(a, 0x85eb_ca6b);
    let c = b ^ (b >> 13);
    let d = mul_mod32(c, 0xc2b2_ae35);
    d ^ (d >> 16)
}

/// Computes `fnv1a`.
pub fn fnv1a_hash(key: &[u8]) -> (r: u32)
    ensures
        r == fnv1a(key@),
{
    let mut h: u32 = FNV_OFFSET;
    let mut i: usize = 0;
    while i < key.len()
        invariant
            i <= key@.len(),
            h == fnv1a(key@.subrange(0, i as int)),
        decreases key@.len() - i,
    {
        let x: u32 = h ^ (key[i] as u32);
        assert((x as u64) * (FNV_PRIME as u64) < 0x1_0000_0000_0000_0000) by (nonlinear_arith)
            requires
                x <= 0xffff_ffff,
        ;
        let p: u64 = (x as u64) * (FNV_PRIME as u64);
        h = (p % 0x1_0000_0000) as u32;
        proof {
            assert(key@.subrange(0, i + 1).drop_last() =~= key@.subrange(0, i as int));
        }
        i = i + 1;
    }
    assert(key@.subrange(0, key@.len() as int) =~= key@);
    h
}

} // verus!
