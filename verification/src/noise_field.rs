//! The permutation table behind Perlin-style noise.

use vstd::prelude::*;

verus! {

/// One step of the 64-bit LCG (Knuth's MMIX constants), modulo 2^64.
pub open spec fn mmix_next(s: u64) -> u64 {
    ((s * 6364136223846793005 + 1442695040888963407) % 0x1_0000_0000_0000_0000) as u64
}

/// The LCG state after `k` steps from `s`.
pub open spec fn mmix_iter(s: u64, k: nat) -> u64
    decreases k,
{
    if k == 0 {
        s
    } else {
        mmix_next(mmix_iter(s, (k - 1) as nat))
    }
}

/// `s` with the entries at `i` and `j` exchanged.
pub open spec fn swap(s: Seq<u8>, i: int, j: int) -> Seq<u8> {
    s.update(i, s[j]).update(j, s[i])
}

/// The identity arrangement `0, 1, …, 255`.
pub open spec fn identity_perm() -> Seq<u8> {
    Seq::new(256, |i: int| i as u8)
}

/// The Fisher–Yates shuffle after `k` of its 255 swaps: swap `k` exchanges
/// position `i = 256 - k` with position `(state >> 33) mod (i + 1)`, where
/// `state` is the LCG state after `k` steps from `seed + 1` (wrapping).
pub open spec fn shuffle(seed: u64, k: nat) -> Seq<u8>
    decreases k,
{
    if k == 0 {
        identity_perm()
    } else {
        let i = 256 - k;
        let state = mmix_iter(seed.wrapping_add(1), k);
        let j = ((state >> 33u64) as int) % (i + 1);
        swap(shuffle(seed, (k - 1) as nat), i, j)
    }
}

/// Whether `s` holds each of `0..256` exactly once.
pub open spec fn is_byte_permutation(s: Seq<u8>) -> bool {
    &&& s.len() == 256
    &&& forall|a: int, b: int| 0 <= a < b < 256 ==> s[a] != s[b]
    &&& forall|v: u8| #[trigger] s.contains(v)
}

proof fn lemma_mmix_step(s: u64)
    ensures
        s.wrapping_mul(6364136223846793005).wrapping_add(1442695040888963407) == mmix_next(s),
{
    let m = 0x1_0000_0000_0000_0000int;
    let c = 1442695040888963407int;
    let p = (s as int * 6364136223846793005) % m;
    vstd::arithmetic::div_mod::lemma_mod_bound(s as int * 6364136223846793005, m);
    vstd::arithmetic::div_mod::lemma_small_mod(c as nat, m as nat);
    vstd::arithmetic::div_mod::lemma_add_mod_noop(s as int * 6364136223846793005, c, m);
    vstd::arithmetic::div_mod::lemma_small_mod(p as nat, m as nat);
    if p + c >= m {
        vstd::arithmetic::div_mod::lemma_fundamental_div_mod_converse(p + c, m, 1, p + c - m);
    } else {
        vstd::arithmetic::div_mod::lemma_small_mod((p + c) as nat, m as nat);
    }
}

/// Build a 512-entry permutation table: a Fisher–Yates shuffle of
/// `0..256` driven by an LCG seeded with `seed`, written out twice.
pub fn permutation_table(seed: u64) -> (table: [u8; 512])
    ensures
        forall|i: int| 0 <= i < 256 ==> #[trigger] table@[i] == shuffle(seed, 255)[i],
        forall|i: int| 256 <= i < 512 ==> #[trigger] table@[i] == shuffle(seed, 255)[i - 256],
{
    let mut perm: [u8; 256] = [0u8; 256];
    let mut i: usize = 0;
    while i < 256
        invariant
            i <= 256,
            forall|k: int| 0 <= k < i ==> #[trigger] perm@[k] == k as u8,
        decreases 256 - i,
    {
        perm[i] = i as u8;
        i += 1;
    }
    proof {
        assert(perm@ =~= identity_perm());
    }

    // LCG shuffle
    let mut state = seed.wrapping_add(1);
    let mut i: usize = 255;
    while i >= 1
        invariant
            i <= 255,
            state == mmix_iter(seed.wrapping_add(1), (255 - i) as nat),
            perm@ == shuffle(seed, (255 - i) as nat),
        decreases i,
    {
        proof {
            lemma_mmix_step(state);
        }
        state = state.wrapping_mul(6364136223846793005).wrapping_add(1442695040888963407);
        let hi = state >> 33;
        proof {
            assert(hi < 0x8000_0000) by (bit_vector)
                requires hi == state >> 33u64;
        }
        let j = hi as usize % (i + 1);
        let ghost k: nat = (256 - i) as nat;
        let ghost prev = perm@;
        let a = perm[i];
        let b = perm[j];
        perm[i] = b;
        perm[j] = a;
        proof {
            assert(perm@ =~= swap(prev, i as int, j as int));
            lemma_shuffle_step(seed, k, state, j as int);
        }
        i -= 1;
    }

    let mut table: [u8; 512] = [0u8; 512];
    let mut i: usize = 0;
    while i < 256
        invariant
            i <= 256,
            perm@ == shuffle(seed, 255),
            forall|k: int| 0 <= k < i ==> #[trigger] table@[k] == perm@[k],
            forall|k: int| 256 <= k < 256 + i ==> #[trigger] table@[k] == perm@[k - 256],
        decreases 256 - i,
    {
        table[i] = perm[i];
        table[i + 256] = perm[i];
        i += 1;
    }
    table
}

proof fn lemma_shuffle_step(seed: u64, k: nat, state: u64, j: int)
    requires
        1 <= k <= 256,
        state == mmix_iter(seed.wrapping_add(1), k),
        j == ((state >> 33u64) as int) % (257 - k),
    ensures
        shuffle(seed, k) == swap(shuffle(seed, (k - 1) as nat), 256 - k, j),
{
}

/// Every stage of the shuffle is an arrangement of `0..256`: no value twice,
/// every value somewhere.
pub proof fn lemma_shuffle_is_permutation(seed: u64, k: nat)
    requires
        k <= 255,
    ensures
        is_byte_permutation(shuffle(seed, k)),
    decreases k,
{
    if k == 0 {
        let s = identity_perm();
        assert forall|v: u8| #[trigger] s.contains(v) by {
            assert(s[v as int] == v);
        }
    } else {
        lemma_shuffle_is_permutation(seed, (k - 1) as nat);
        let prev = shuffle(seed, (k - 1) as nat);
        let i = 256 - k;
        let state = mmix_iter(seed.wrapping_add(1), k);
        let j = ((state >> 33u64) as int) % (i + 1);
        let s = shuffle(seed, k);
        assert(s == swap(prev, i, j));
        assert(0 <= j < i + 1);
        assert forall|a: int, b: int| 0 <= a < b < 256 implies s[a] != s[b] by {
            let pa = if a == i { j } else if a == j { i } else { a };
            let pb = if b == i { j } else if b == j { i } else { b };
            assert(s[a] == prev[pa]);
            assert(s[b] == prev[pb]);
            assert(pa != pb);
            if pa < pb {
                assert(prev[pa] != prev[pb]);
            } else {
                assert(prev[pb] != prev[pa]);
            }
        }
        assert forall|v: u8| #[trigger] s.contains(v) by {
            assert(prev.contains(v));
            let w = choose|q: int| 0 <= q < prev.len() && prev[q] == v;
            let q = if w == i { j } else if w == j { i } else { w };
            assert(s[q] == v);
        }
    }
}

/// The table returned by `permutation_table` holds every byte value exactly
/// once in its first half, and repeats the first half in the second.
pub proof fn lemma_permutation_table_shape(seed: u64, table: Seq<u8>)
    requires
        table.len() == 512,
        forall|i: int| 0 <= i < 256 ==> #[trigger] table[i] == shuffle(seed, 255)[i],
        forall|i: int| 256 <= i < 512 ==> #[trigger] table[i] == shuffle(seed, 255)[i - 256],
    ensures
        is_byte_permutation(table.take(256)),
        forall|i: int| 0 <= i < 256 ==> #[trigger] table[i + 256] == table[i],
{
    lemma_shuffle_is_permutation(seed, 255);
    let p = shuffle(seed, 255);
    assert(table.take(256) =~= p);
    assert forall|i: int| 0 <= i < 256 implies #[trigger] table[i + 256] == table[i] by {
        assert(table[i + 256] == p[i]);
    }
}

} // verus!
