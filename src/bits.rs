use vstd::prelude::*;

verus! {

/// The mask of qubit `q` within a basis index.
pub open spec fn bit_mask(q: u32) -> usize {
    1usize << (q as usize)
}

/// The basis index that differs from `k` in qubit `q` alone.
pub open spec fn flip(k: usize, q: u32) -> usize {
    k ^ bit_mask(q)
}

/// Whether qubit `q` is set in basis index `k`.
pub open spec fn bit_set(k: usize, q: u32) -> bool {
    k & bit_mask(q) != 0
}

/// Number of basis indices of an `n`-qubit register.
pub open spec fn dim(n: u32) -> usize {
    1usize << (n as usize)
}

pub proof fn lemma_flip(k: usize, q: u32, n: u32)
    requires
        q < n,
        n <= 30,
        k < dim(n),
    ensures
        flip(k, q) < dim(n),
        flip(flip(k, q), q) == k,
        flip(k, q) != k,
        bit_set(flip(k, q), q) == !bit_set(k, q),
        !bit_set(k, q) ==> k < flip(k, q),
        bit_set(k, q) ==> flip(k, q) < k,
        k & !bit_mask(q) == flip(k, q) & !bit_mask(q),
        k | bit_mask(q) == flip(k, q) | bit_mask(q),
        k | bit_mask(q) < dim(n),
        dim(n) > 0,
{
    let qq = q as usize;
    let nn = n as usize;
    assert(qq < nn && nn <= 30 && k < (1usize << nn) ==> (k ^ (1usize << qq)) < (1usize << nn)
        && (k | (1usize << qq)) < (1usize << nn) && (1usize << nn) > 0) by (bit_vector);
    assert(qq < 32 ==> ((k ^ (1usize << qq)) ^ (1usize << qq)) == k && (k ^ (1usize << qq)) != k
        && (((k ^ (1usize << qq)) & (1usize << qq)) != 0) == !((k & (1usize << qq)) != 0) && ((k
        & (1usize << qq)) == 0 ==> k < (k ^ (1usize << qq))) && ((k & (1usize << qq)) != 0 ==> (k
        ^ (1usize << qq)) < k) && (k & !(1usize << qq)) == ((k ^ (1usize << qq)) & !(1usize
        << qq)) && (k | (1usize << qq)) == ((k ^ (1usize << qq)) | (1usize << qq)))
        by (bit_vector);
}

/// Flipping one qubit leaves every other qubit as it was.
pub proof fn lemma_flip_other(k: usize, q: u32, c: u32)
    requires
        q < 32,
        c < 32,
        q != c,
    ensures
        bit_set(flip(k, q), c) == bit_set(k, c),
{
    let qq = q as usize;
    let cc = c as usize;
    assert(qq < 32 && cc < 32 && qq != cc ==> (((k ^ (1usize << qq)) & (1usize << cc)) != 0) == ((k
        & (1usize << cc)) != 0)) by (bit_vector);
}

} // verus!
