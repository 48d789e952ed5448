//! Finite sums `f(0) + ... + f(n - 1)` and the algebra of them that the
//! Laplacian laws use.

use vstd::prelude::*;

verus! {

/// `f(0) + f(1) + ... + f(n - 1)`.
pub open spec fn sum_to(f: spec_fn(int) -> int, n: int) -> int
    decreases n,
{
    if n <= 0 {
        0
    } else {
        sum_to(f, n - 1) + f(n - 1)
    }
}

/// Sums of functions that agree below `n` agree.
pub proof fn lemma_sum_ext(f: spec_fn(int) -> int, g: spec_fn(int) -> int, n: int)
    requires
        forall|i: int| 0 <= i < n ==> #[trigger] f(i) == g(i),
    ensures
        sum_to(f, n) == sum_to(g, n),
    decreases n,
{
    if n > 0 {
        lemma_sum_ext(f, g, n - 1);
    }
}

/// The sum of a pointwise sum is the sum of the sums.
pub proof fn lemma_sum_add(f: spec_fn(int) -> int, g: spec_fn(int) -> int, h: spec_fn(int) -> int, n: int)
    requires
        forall|i: int| 0 <= i < n ==> #[trigger] h(i) == f(i) + g(i),
    ensures
        sum_to(h, n) == sum_to(f, n) + sum_to(g, n),
    decreases n,
{
    if n > 0 {
        lemma_sum_add(f, g, h, n - 1);
    }
}

/// The sum of a pointwise difference is the difference of the sums.
pub proof fn lemma_sum_sub(f: spec_fn(int) -> int, g: spec_fn(int) -> int, h: spec_fn(int) -> int, n: int)
    requires
        forall|i: int| 0 <= i < n ==> #[trigger] h(i) == f(i) - g(i),
    ensures
        sum_to(h, n) == sum_to(f, n) - sum_to(g, n),
    decreases n,
{
    if n > 0 {
        lemma_sum_sub(f, g, h, n - 1);
    }
}

/// A constant factor comes out of a sum.
pub proof fn lemma_sum_scale(f: spec_fn(int) -> int, g: spec_fn(int) -> int, c: int, n: int)
    requires
        forall|i: int| 0 <= i < n ==> #[trigger] g(i) == c * f(i),
    ensures
        sum_to(g, n) == c * sum_to(f, n),
    decreases n,
{
    if n > 0 {
        lemma_sum_scale(f, g, c, n - 1);
        let a = sum_to(f, n - 1);
        let b = f(n - 1);
        assert(c * a + c * b == c * (a + b)) by (nonlinear_arith);
    }
}

/// A function that vanishes below `n` except at `p` sums to its value at `p`.
pub proof fn lemma_sum_point(f: spec_fn(int) -> int, n: int, p: int)
    requires
        0 <= p < n,
        forall|i: int| 0 <= i < n && i != p ==> #[trigger] f(i) == 0,
    ensures
        sum_to(f, n) == f(p),
    decreases n,
{
    if n - 1 > p {
        lemma_sum_point(f, n - 1, p);
    } else {
        lemma_sum_zero(f, n - 1);
    }
}

/// A function that vanishes below `n` sums to zero.
pub proof fn lemma_sum_zero(f: spec_fn(int) -> int, n: int)
    requires
        forall|i: int| 0 <= i < n ==> #[trigger] f(i) == 0,
    ensures
        sum_to(f, n) == 0,
    decreases n,
{
    if n > 0 {
        lemma_sum_zero(f, n - 1);
    }
}

/// A sum of nonnegative terms is nonnegative.
pub proof fn lemma_sum_nonneg(f: spec_fn(int) -> int, n: int)
    requires
        forall|i: int| 0 <= i < n ==> #[trigger] f(i) >= 0,
    ensures
        sum_to(f, n) >= 0,
    decreases n,
{
    if n > 0 {
        lemma_sum_nonneg(f, n - 1);
    }
}

/// The order of summation in a double sum does not matter.
pub proof fn lemma_sum_swap(f: spec_fn(int, int) -> int, m: int, n: int)
    ensures
        sum_to(|i: int| sum_to(|j: int| f(i, j), n), m) == sum_to(|j: int| sum_to(|i: int| f(i, j), m), n),
    decreases m,
{
    if m <= 0 {
        lemma_sum_zero(|j: int| sum_to(|i: int| f(i, j), m), n);
    } else {
        lemma_sum_swap(f, m - 1, n);
        lemma_sum_add(
            |j: int| sum_to(|i: int| f(i, j), m - 1),
            |j: int| f(m - 1, j),
            |j: int| sum_to(|i: int| f(i, j), m),
            n,
        );
    }
}

/// Counting the states below `n` that a duplicate-free list of such states holds
/// gives its length.
pub proof fn lemma_count_members(l: Seq<usize>, n: int)
    requires
        0 <= n <= usize::MAX,
        l.no_duplicates(),
        forall|k: int| 0 <= k < l.len() ==> #[trigger] l[k] < n,
    ensures
        sum_to(|t: int| if l.contains(t as usize) { 1int } else { 0int }, n) == l.len(),
    decreases l.len(),
{
    if l.len() == 0 {
        lemma_sum_zero(|t: int| if l.contains(t as usize) { 1int } else { 0int }, n);
    } else {
        let rest = l.drop_last();
        let x = l.last();
        assert(l == rest.push(x));
        assert(rest.no_duplicates());
        lemma_count_members(rest, n);
        let before = |t: int| if rest.contains(t as usize) { 1int } else { 0int };
        let at_x = |t: int| if t == x { 1int } else { 0int };
        let after = |t: int| if l.contains(t as usize) { 1int } else { 0int };
        assert(!rest.contains(x)) by {
            if rest.contains(x) {
                let k = choose|k: int| 0 <= k < rest.len() && rest[k] == x;
                assert(l[k] == l[l.len() - 1]);
            }
        }
        assert forall|t: int| 0 <= t < n implies #[trigger] after(t) == before(t) + at_x(t) by {
            if t == x {
                assert(l[l.len() - 1] == x);
            }
            if rest.contains(t as usize) {
                let k = choose|k: int| 0 <= k < rest.len() && rest[k] == t as usize;
                assert(l[k] == t as usize);
            }
            if l.contains(t as usize) && t != x {
                let k = choose|k: int| 0 <= k < l.len() && l[k] == t as usize;
                assert(rest[k] == t as usize);
            }
        }
        lemma_sum_add(before, at_x, after, n);
        lemma_sum_point(at_x, n, x as int);
    }
}

} // verus!
