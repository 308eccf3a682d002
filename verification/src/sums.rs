//! Finite sums of an integer-valued function over an index range, with the
//! handful of algebraic facts the flow proofs rest on.

use vstd::prelude::*;

verus! {

/// `f(0) + f(1) + ... + f(n - 1)`; zero when `n <= 0`.
pub open spec fn sum(f: spec_fn(int) -> int, n: int) -> int
    decreases n,
{
    if n <= 0 {
        0
    } else {
        sum(f, n - 1) + f(n - 1)
    }
}

/// Two functions that agree on `0..n` have the same sum.
pub proof fn lemma_sum_ext(f: spec_fn(int) -> int, g: spec_fn(int) -> int, n: int)
    requires
        forall|i: int| 0 <= i < n ==> #[trigger] f(i) == g(i),
    ensures
        sum(f, n) == sum(g, n),
    decreases n,
{
    if n > 0 {
        lemma_sum_ext(f, g, n - 1);
    }
}

/// A pointwise bound carries over to the sums.
pub proof fn lemma_sum_le(f: spec_fn(int) -> int, g: spec_fn(int) -> int, n: int)
    requires
        forall|i: int| 0 <= i < n ==> #[trigger] f(i) <= g(i),
    ensures
        sum(f, n) <= sum(g, n),
    decreases n,
{
    if n > 0 {
        lemma_sum_le(f, g, n - 1);
    }
}

/// A function that is non-negative on `0..n` has a non-negative sum.
pub proof fn lemma_sum_nonneg(f: spec_fn(int) -> int, n: int)
    requires
        forall|i: int| 0 <= i < n ==> 0 <= #[trigger] f(i),
    ensures
        0 <= sum(f, n),
    decreases n,
{
    if n > 0 {
        lemma_sum_nonneg(f, n - 1);
    }
}

/// A function that vanishes on `0..n` sums to zero.
pub proof fn lemma_sum_zero(f: spec_fn(int) -> int, n: int)
    requires
        forall|i: int| 0 <= i < n ==> #[trigger] f(i) == 0,
    ensures
        sum(f, n) == 0,
    decreases n,
{
    if n > 0 {
        lemma_sum_zero(f, n - 1);
    }
}

/// Sums are additive: if `h = f + g` pointwise then `sum h = sum f + sum g`.
pub proof fn lemma_sum_add(
    f: spec_fn(int) -> int,
    g: spec_fn(int) -> int,
    h: spec_fn(int) -> int,
    n: int,
)
    requires
        forall|i: int| 0 <= i < n ==> #[trigger] h(i) == f(i) + g(i),
    ensures
        sum(h, n) == sum(f, n) + sum(g, n),
    decreases n,
{
    if n > 0 {
        lemma_sum_add(f, g, h, n - 1);
    }
}

/// Changing one term changes the sum by the difference at that term.
pub proof fn lemma_sum_change_one(
    f: spec_fn(int) -> int,
    g: spec_fn(int) -> int,
    n: int,
    a: int,
)
    requires
        0 <= a < n,
        forall|i: int| 0 <= i < n && i != a ==> #[trigger] f(i) == g(i),
    ensures
        sum(g, n) == sum(f, n) + g(a) - f(a),
    decreases n,
{
    if n - 1 == a {
        lemma_sum_ext(f, g, n - 1);
    } else {
        lemma_sum_change_one(f, g, n - 1, a);
    }
}

/// A sum of non-negative terms is at least the number of chosen, pairwise
/// different indices at which the term is at least one.
pub proof fn lemma_sum_ge_picks(f: spec_fn(int) -> int, n: int, picks: Seq<int>)
    requires
        forall|i: int| 0 <= i < n ==> 0 <= #[trigger] f(i),
        forall|k: int| 0 <= k < picks.len() ==> 0 <= #[trigger] picks[k] < n && f(picks[k]) >= 1,
        forall|k: int, l: int| 0 <= k < l < picks.len() ==> picks[k] < picks[l],
    ensures
        sum(f, n) >= picks.len(),
    decreases n,
{
    if picks.len() == 0 {
        lemma_sum_nonneg(f, n);
    } else {
        let last = picks.len() - 1;
        if picks[last] == n - 1 {
            let rest = picks.drop_last();
            assert forall|k: int| 0 <= k < rest.len() implies 0 <= #[trigger] rest[k] < n - 1 && f(
                rest[k],
            ) >= 1 by {
                assert(rest[k] == picks[k]);
                assert(picks[k] < picks[last]);
            }
            assert forall|k: int, l: int| 0 <= k < l < rest.len() implies rest[k] < rest[l] by {
                assert(rest[k] == picks[k] && rest[l] == picks[l]);
            }
            lemma_sum_ge_picks(f, n - 1, rest);
        } else {
            assert forall|k: int| 0 <= k < picks.len() implies 0 <= #[trigger] picks[k] < n - 1
                && f(picks[k]) >= 1 by {
                if k < last {
                    assert(picks[k] < picks[last]);
                }
            }
            lemma_sum_ge_picks(f, n - 1, picks);
        }
    }
}

/// A sum of terms that are at most one, and at least one only at chosen,
/// pairwise different indices, is at most the number of those indices.
pub proof fn lemma_sum_le_picks(f: spec_fn(int) -> int, n: int, picks: Seq<int>)
    requires
        forall|i: int| 0 <= i < n ==> #[trigger] f(i) <= 1,
        forall|i: int| 0 <= i < n && #[trigger] f(i) >= 1 ==> picks.contains(i),
        forall|k: int, l: int| 0 <= k < l < picks.len() ==> picks[k] < picks[l],
    ensures
        sum(f, n) <= picks.len(),
    decreases n,
{
    if n > 0 {
        if picks.len() > 0 && picks.last() >= n - 1 {
            let rest = picks.drop_last();
            assert forall|i: int| 0 <= i < n - 1 && #[trigger] f(i) >= 1 implies rest.contains(
                i,
            ) by {
                let k = choose|k: int| 0 <= k < picks.len() && picks[k] == i;
                assert(rest[k] == i);
            }
            assert forall|k: int, l: int| 0 <= k < l < rest.len() implies rest[k] < rest[l] by {
                assert(rest[k] == picks[k] && rest[l] == picks[l]);
            }
            lemma_sum_le_picks(f, n - 1, rest);
        } else {
            assert forall|i: int| 0 <= i < n - 1 && #[trigger] f(i) >= 1 implies picks.contains(
                i,
            ) by {}
            if f(n - 1) >= 1 {
                let k = choose|k: int| 0 <= k < picks.len() && picks[k] == n - 1;
                if k < picks.len() - 1 {
                    assert(picks[k] < picks[picks.len() - 1]);
                }
            }
            lemma_sum_le_picks(f, n - 1, picks);
        }
    }
}

/// A function that vanishes everywhere but at three indices sums to its
/// values there.
pub proof fn lemma_sum_three(f: spec_fn(int) -> int, n: int, a: int, b: int, c: int)
    requires
        0 <= a < b < c < n,
        forall|i: int| 0 <= i < n && i != a && i != b && i != c ==> #[trigger] f(i) == 0,
    ensures
        sum(f, n) == f(a) + f(b) + f(c),
{
    let g0 = |i: int| 0int;
    let g1 = |i: int|
        if i == a {
            f(a)
        } else {
            0
        };
    let g2 = |i: int|
        if i == a || i == b {
            f(i)
        } else {
            0
        };
    assert forall|i: int| 0 <= i < n implies #[trigger] g0(i) == 0 by {}
    lemma_sum_zero(g0, n);
    assert forall|i: int| 0 <= i < n && i != a implies #[trigger] g0(i) == g1(i) by {}
    lemma_sum_change_one(g0, g1, n, a);
    assert forall|i: int| 0 <= i < n && i != b implies #[trigger] g1(i) == g2(i) by {}
    lemma_sum_change_one(g1, g2, n, b);
    assert forall|i: int| 0 <= i < n && i != c implies #[trigger] g2(i) == f(i) by {}
    lemma_sum_change_one(g2, f, n, c);
}

/// A function that is one on `0..n` sums to `n`.
pub proof fn lemma_sum_ones(f: spec_fn(int) -> int, n: int)
    requires
        0 <= n,
        forall|i: int| 0 <= i < n ==> #[trigger] f(i) == 1,
    ensures
        sum(f, n) == n,
    decreases n,
{
    if n > 0 {
        lemma_sum_ones(f, n - 1);
    }
}

/// Two more terms: the sum over `0..n + 2` of a function that agrees with
/// `f` below `n`.
pub proof fn lemma_sum_extend_two(f: spec_fn(int) -> int, g: spec_fn(int) -> int, n: int)
    requires
        0 <= n,
        forall|i: int| 0 <= i < n ==> #[trigger] f(i) == g(i),
    ensures
        sum(g, n + 2) == sum(f, n) + g(n) + g(n + 1),
{
    lemma_sum_ext(f, g, n);
    assert(sum(g, n + 1) == sum(g, n) + g(n));
    assert(sum(g, n + 2) == sum(g, n + 1) + g(n + 1));
}

} // verus!
