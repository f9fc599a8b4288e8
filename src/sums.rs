use vstd::prelude::*;

verus! {

/// Sum of `f(0) + ... + f(n - 1)`.
pub open spec fn total(n: int, f: spec_fn(int) -> int) -> int
    decreases n,
{
    if n <= 0 {
        0
    } else {
        total(n - 1, f) + f(n - 1)
    }
}

/// Changing the summand at one index changes the sum by exactly the difference there.
pub proof fn lemma_total_point(n: int, f: spec_fn(int) -> int, g: spec_fn(int) -> int, x: int)
    requires
        0 <= x < n,
        forall|k: int| 0 <= k < n && k != x ==> #[trigger] f(k) == g(k),
    ensures
        total(n, g) == total(n, f) - f(x) + g(x),
    decreases n,
{
    if n - 1 == x {
        lemma_total_ext(n - 1, f, g);
    } else {
        lemma_total_point(n - 1, f, g, x);
    }
}

/// Sums of summands that agree below `n` are equal.
pub proof fn lemma_total_ext(n: int, f: spec_fn(int) -> int, g: spec_fn(int) -> int)
    requires
        forall|k: int| 0 <= k < n ==> #[trigger] f(k) == g(k),
    ensures
        total(n, f) == total(n, g),
    decreases n,
{
    if n > 0 {
        lemma_total_ext(n - 1, f, g);
    }
}

/// The sum is linear: a sum of two summands is the sum of their sums.
pub proof fn lemma_total_add(n: int, f: spec_fn(int) -> int, g: spec_fn(int) -> int)
    ensures
        total(n, |k: int| f(k) + g(k)) == total(n, f) + total(n, g),
    decreases n,
{
    if n > 0 {
        lemma_total_add(n - 1, f, g);
    }
}

/// `sigma` is its own inverse on `0..n`.
pub open spec fn is_involution(n: int, sigma: spec_fn(int) -> int) -> bool {
    forall|k: int| 0 <= k < n ==> 0 <= #[trigger] sigma(k) < n && sigma(sigma(k)) == k
}

/// Reordering the summands by an involution leaves the sum unchanged.
pub proof fn lemma_total_involution(n: int, f: spec_fn(int) -> int, sigma: spec_fn(int) -> int)
    requires
        0 <= n,
        is_involution(n, sigma),
    ensures
        total(n, |k: int| f(sigma(k))) == total(n, f),
{
    lemma_total_involution_from(n, f, sigma, 0);
}

proof fn lemma_total_involution_from(
    n: int,
    f: spec_fn(int) -> int,
    sigma: spec_fn(int) -> int,
    t: int,
)
    requires
        0 <= t <= n,
        is_involution(n, sigma),
        forall|k: int| 0 <= k < t ==> #[trigger] sigma(k) == k,
    ensures
        total(n, |k: int| f(sigma(k))) == total(n, f),
    decreases n - t,
{
    if t == n {
        lemma_total_ext(n, |k: int| f(sigma(k)), f);
    } else {
        let j = sigma(t);
        if j == t {
            assert forall|k: int| 0 <= k < t + 1 implies #[trigger] sigma(k) == k by {
                if k < t {
                    assert(sigma(k) == k);
                }
            }
            lemma_total_involution_from(n, f, sigma, t + 1);
        } else {
            assert(sigma(j) == t);
            if j < t {
                assert(sigma(j) == j);
            }
            assert(j > t);
            let tau = |k: int|
                if k == t {
                    j
                } else if k == j {
                    t
                } else {
                    k
                };
            let ft = |k: int| f(tau(k));
            let rest = |k: int|
                if k == t || k == j {
                    k
                } else {
                    sigma(k)
                };
            assert forall|k: int| 0 <= k < n implies 0 <= #[trigger] rest(k) < n && rest(rest(k))
                == k by {
                if k != t && k != j {
                    assert(sigma(sigma(k)) == k);
                    if sigma(k) == t {
                        assert(sigma(t) == k);
                    }
                    if sigma(k) == j {
                        assert(sigma(j) == k);
                    }
                }
            }
            assert forall|k: int| 0 <= k < t + 1 implies #[trigger] rest(k) == k by {
                if k < t {
                    assert(sigma(k) == k);
                }
            }
            lemma_total_involution_from(n, ft, rest, t + 1);
            assert forall|k: int| 0 <= k < n implies #[trigger] ft(rest(k)) == f(sigma(k)) by {
                if k != t && k != j {
                    assert(sigma(sigma(k)) == k);
                    if sigma(k) == t {
                        assert(sigma(t) == k);
                    }
                    if sigma(k) == j {
                        assert(sigma(j) == k);
                    }
                }
            }
            lemma_total_ext(n, |k: int| ft(rest(k)), |k: int| f(sigma(k)));
            let f1 = |k: int|
                if k == t {
                    f(j)
                } else {
                    f(k)
                };
            lemma_total_point(n, f, f1, t);
            lemma_total_point(n, f1, ft, j);
        }
    }
}

} // verus!
