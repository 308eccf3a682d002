//! Quantities of the flow that a residual network carries, read off the
//! edge pairs: the flow on a pair is the residual capacity of its reverse
//! edge, its capacity is the residual capacity of both edges together.

use crate::graph::{edge_ok, edges_wf, head_ok, link_ok, mate, Edge};
use crate::sums::{
    lemma_sum_add, lemma_sum_change_one, lemma_sum_ext, lemma_sum_extend_two, lemma_sum_le,
    lemma_sum_nonneg, lemma_sum_zero, sum,
};
use vstd::prelude::*;

verus! {

/// Flow on the pair of reverse edge `i` as seen from the node set `p`:
/// counted positive where the pair leaves `p`, negative where it enters.
pub open spec fn net_term(e: Seq<Edge>, p: Set<int>) -> spec_fn(int) -> int {
    |i: int|
        if i % 2 == 1 {
            (if p.contains(e[i].v as int) {
                e[i].w as int
            } else {
                0
            }) - (if p.contains(e[i].u as int) {
                e[i].w as int
            } else {
                0
            })
        } else {
            0
        }
}

/// Net flow out of the node set `p`.
pub open spec fn net_out(e: Seq<Edge>, p: Set<int>) -> int {
    sum(net_term(e, p), e.len() as int)
}

/// Capacity of the pair of reverse edge `i` if the pair leaves a node of `p`.
pub open spec fn cap_out_term(e: Seq<Edge>, p: Set<int>) -> spec_fn(int) -> int {
    |i: int|
        if i % 2 == 1 && p.contains(e[i].v as int) {
            e[i].w + e[i - 1].w
        } else {
            0
        }
}

/// Total capacity of the pairs that leave a node of `p`.
pub open spec fn cap_out(e: Seq<Edge>, p: Set<int>) -> int {
    sum(cap_out_term(e, p), e.len() as int)
}

/// Capacity of the pair of reverse edge `i` if the pair enters a node of `p`.
pub open spec fn cap_in_term(e: Seq<Edge>, p: Set<int>) -> spec_fn(int) -> int {
    |i: int|
        if i % 2 == 1 && p.contains(e[i].u as int) {
            e[i].w + e[i - 1].w
        } else {
            0
        }
}

/// Total capacity of the pairs that enter a node of `p`.
pub open spec fn cap_in(e: Seq<Edge>, p: Set<int>) -> int {
    sum(cap_in_term(e, p), e.len() as int)
}

/// Cost of the flow on the pair of reverse edge `i`.
pub open spec fn cost_term(e: Seq<Edge>) -> spec_fn(int) -> int {
    |i: int|
        if i % 2 == 1 {
            e[i].w * e[i - 1].c
        } else {
            0
        }
}

/// Total cost of the flow: flow times unit cost, over all pairs.
pub open spec fn flow_cost(e: Seq<Edge>) -> int {
    sum(cost_term(e), e.len() as int)
}

/// The magnitude of a cost.
pub open spec fn abs(x: int) -> int {
    if x < 0 {
        -x
    } else {
        x
    }
}

/// The most that the pair of reverse edge `i` can cost or earn.
pub open spec fn weight_term(e: Seq<Edge>) -> spec_fn(int) -> int {
    |i: int|
        if i % 2 == 1 {
            (e[i].w + e[i - 1].w) * abs(e[i - 1].c as int)
        } else {
            0
        }
}

/// Capacity times cost magnitude, over all pairs: a bound on the magnitude
/// of the cost of any flow.
pub open spec fn weight(e: Seq<Edge>) -> int {
    sum(weight_term(e), e.len() as int)
}

/// `e` is `e0` with flow moved: same edges, same pair capacities, and
/// residual capacities that are still non-negative.
pub open spec fn rerouted(e0: Seq<Edge>, e: Seq<Edge>) -> bool {
    &&& e.len() == e0.len()
    &&& forall|i: int|
        0 <= i < e.len() ==> {
            &&& (#[trigger] e[i]).u == e0[i].u
            &&& e[i].v == e0[i].v
            &&& e[i].c == e0[i].c
            &&& e[i].next == e0[i].next
            &&& e[i].w >= 0
            &&& e[i].w + e[mate(i)].w == e0[i].w + e0[mate(i)].w
        }
}

/// No flow on any pair.
pub open spec fn idle(e: Seq<Edge>) -> bool {
    forall|i: int| 0 <= i < e.len() && i % 2 == 1 ==> (#[trigger] e[i]).w == 0
}

/// Moving flow keeps the edge array well-formed.
pub proof fn lemma_rerouted_wf(e0: Seq<Edge>, e: Seq<Edge>, head: Seq<usize>, sz: int)
    requires
        edges_wf(e0, head, sz),
        rerouted(e0, e),
    ensures
        edges_wf(e, head, sz),
{
    assert(e[0].w + e[mate(0)].w == e0[0].w + e0[mate(0)].w);
    assert(e[1].w >= 0);
    assert forall|i: int| 2 <= i < e.len() implies #[trigger] edge_ok(e, sz, i) by {
        assert(edge_ok(e0, sz, i));
        assert(e[i].u == e0[i].u);
        assert(e[mate(i)].u == e0[mate(i)].u);
    }
    assert forall|i: int| 2 <= i < e.len() implies #[trigger] link_ok(e, i) by {
        assert(link_ok(e0, i));
        assert(e[i].u == e0[i].u);
        assert(e[e[i].next as int].u == e0[e[i].next as int].u);
        assert forall|j: int| e[i].next < j < i && 2 <= j implies (#[trigger] e[j]).u
            != e[i].u by {
            assert(e0[j].u != e0[i].u);
        }
    }
    assert forall|u: int| 0 <= u < sz implies #[trigger] head_ok(e, head, u) by {
        assert(head_ok(e0, head, u));
        assert(e[head[u] as int].u == e0[head[u] as int].u);
        assert forall|j: int| head[u] < j < e.len() && 2 <= j implies (#[trigger] e[j]).u != u by {
            assert(e0[j].u != u);
        }
    }
}

/// Flow moved twice is flow moved.
pub proof fn lemma_rerouted_chain(e0: Seq<Edge>, e1: Seq<Edge>, e2: Seq<Edge>)
    requires
        rerouted(e0, e1),
        rerouted(e1, e2),
    ensures
        rerouted(e0, e2),
{
    assert forall|i: int| 0 <= i < e2.len() implies {
        &&& (#[trigger] e2[i]).u == e0[i].u
        &&& e2[i].v == e0[i].v
        &&& e2[i].c == e0[i].c
        &&& e2[i].next == e0[i].next
        &&& e2[i].w >= 0
        &&& e2[i].w + e2[mate(i)].w == e0[i].w + e0[mate(i)].w
    } by {
        assert(e1[i].u == e0[i].u);
        if 0 <= mate(i) < e2.len() {
            assert(e1[mate(i)].u == e0[mate(i)].u);
        }
    }
}

/// Moving flow changes no pair capacity, so none of the capacity totals.
pub proof fn lemma_rerouted_caps(e0: Seq<Edge>, e: Seq<Edge>, p: Set<int>)
    requires
        rerouted(e0, e),
        e0.len() % 2 == 0,
    ensures
        cap_out(e, p) == cap_out(e0, p),
        cap_in(e, p) == cap_in(e0, p),
        weight(e) == weight(e0),
{
    let n = e.len() as int;
    assert forall|i: int| 0 <= i < n implies #[trigger] cap_out_term(e0, p)(i) == cap_out_term(
        e,
        p,
    )(i) by {
        if i % 2 == 1 {
            assert(e[i].v == e0[i].v);
            assert(mate(i) == i - 1);
        }
    }
    lemma_sum_ext(cap_out_term(e0, p), cap_out_term(e, p), n);
    assert forall|i: int| 0 <= i < n implies #[trigger] cap_in_term(e0, p)(i) == cap_in_term(
        e,
        p,
    )(i) by {
        if i % 2 == 1 {
            assert(e[i].u == e0[i].u);
            assert(mate(i) == i - 1);
        }
    }
    lemma_sum_ext(cap_in_term(e0, p), cap_in_term(e, p), n);
    assert forall|i: int| 0 <= i < n implies #[trigger] weight_term(e0)(i) == weight_term(e)(
        i,
    ) by {
        if i % 2 == 1 {
            assert(e[i].v == e0[i].v);
            assert(mate(i) == i - 1);
            assert(e[i - 1].c == e0[i - 1].c);
        }
    }
    lemma_sum_ext(weight_term(e0), weight_term(e), n);
}

/// The net flow out of a node set is at most the capacity that leaves it,
/// and at least minus the capacity that enters it.
pub proof fn lemma_net_within_caps(e: Seq<Edge>, p: Set<int>)
    requires
        forall|i: int| 0 <= i < e.len() ==> (#[trigger] e[i]).w >= 0,
        e.len() % 2 == 0,
    ensures
        -cap_in(e, p) <= net_out(e, p) <= cap_out(e, p),
{
    let n = e.len() as int;
    assert forall|i: int| 0 <= i < n implies #[trigger] net_term(e, p)(i) <= cap_out_term(e, p)(
        i,
    ) by {
        if i % 2 == 1 {
            assert(e[i].w >= 0 && e[i - 1].w >= 0);
        }
    }
    lemma_sum_le(net_term(e, p), cap_out_term(e, p), n);
    let neg = |i: int| -cap_in_term(e, p)(i);
    assert forall|i: int| 0 <= i < n implies #[trigger] neg(i) <= net_term(e, p)(i) by {
        if i % 2 == 1 {
            assert(e[i].w >= 0 && e[i - 1].w >= 0);
        }
    }
    lemma_sum_le(neg, net_term(e, p), n);
    lemma_sum_negate(cap_in_term(e, p), neg, n);
}

/// The sum of the negated terms is the negated sum.
pub proof fn lemma_sum_negate(f: spec_fn(int) -> int, g: spec_fn(int) -> int, n: int)
    requires
        forall|i: int| 0 <= i < n ==> #[trigger] g(i) == -f(i),
    ensures
        sum(g, n) == -sum(f, n),
    decreases n,
{
    if n > 0 {
        lemma_sum_negate(f, g, n - 1);
    }
}

/// The cost of a flow is bounded in magnitude by the weight of the network.
pub proof fn lemma_cost_within_weight(e: Seq<Edge>)
    requires
        forall|i: int| 0 <= i < e.len() ==> (#[trigger] e[i]).w >= 0,
        e.len() % 2 == 0,
    ensures
        -weight(e) <= flow_cost(e) <= weight(e),
{
    let n = e.len() as int;
    assert forall|i: int| 0 <= i < n implies #[trigger] cost_term(e)(i) <= weight_term(e)(i) by {
        if i % 2 == 1 {
            assert(e[i].w >= 0 && e[i - 1].w >= 0);
            lemma_product_bound(e[i].w as int, e[i - 1].w as int, e[i - 1].c as int);
        }
    }
    lemma_sum_le(cost_term(e), weight_term(e), n);
    let neg = |i: int| -weight_term(e)(i);
    assert forall|i: int| 0 <= i < n implies #[trigger] neg(i) <= cost_term(e)(i) by {
        if i % 2 == 1 {
            assert(e[i].w >= 0 && e[i - 1].w >= 0);
            lemma_product_bound(e[i].w as int, e[i - 1].w as int, e[i - 1].c as int);
        }
    }
    lemma_sum_le(neg, cost_term(e), n);
    lemma_sum_negate(weight_term(e), neg, n);
}

/// `|f * c| <= (f + g) * |c|` for non-negative `f` and `g`.
pub proof fn lemma_product_bound(f: int, g: int, c: int)
    requires
        0 <= f,
        0 <= g,
    ensures
        -((f + g) * abs(c)) <= f * c <= (f + g) * abs(c),
{
    let a = abs(c);
    assert(-((f + g) * a) <= f * c <= (f + g) * a) by (nonlinear_arith)
        requires
            0 <= f,
            0 <= g,
            a >= 0,
            c == a || c == -a,
    ;
}

/// A network without flow has zero net flow out of every node set and zero
/// cost.
pub proof fn lemma_idle(e: Seq<Edge>, p: Set<int>)
    requires
        idle(e),
    ensures
        net_out(e, p) == 0,
        flow_cost(e) == 0,
{
    let n = e.len() as int;
    assert forall|i: int| 0 <= i < n implies #[trigger] net_term(e, p)(i) == 0 by {
        if i % 2 == 1 {
            assert(e[i].w == 0);
        }
    }
    lemma_sum_zero(net_term(e, p), n);
    assert forall|i: int| 0 <= i < n implies #[trigger] cost_term(e)(i) == 0 by {
        if i % 2 == 1 {
            assert(e[i].w == 0);
            assert(e[i].w * e[i - 1].c == 0) by (nonlinear_arith)
                requires
                    e[i].w == 0,
            ;
        }
    }
    lemma_sum_zero(cost_term(e), n);
}

/// Flow on the pair of reverse edge `i` if the pair leads out of `p`.
pub open spec fn leave_term(e: Seq<Edge>, p: Set<int>) -> spec_fn(int) -> int {
    |i: int|
        if i % 2 == 1 && p.contains(e[i].v as int) && !p.contains(e[i].u as int) {
            e[i].w as int
        } else {
            0
        }
}

/// Flow on the pairs that lead from a node of `p` to a node outside.
pub open spec fn leaving(e: Seq<Edge>, p: Set<int>) -> int {
    sum(leave_term(e, p), e.len() as int)
}

/// Flow on the pair of reverse edge `i` if the pair leads into `p`.
pub open spec fn enter_term(e: Seq<Edge>, p: Set<int>) -> spec_fn(int) -> int {
    |i: int|
        if i % 2 == 1 && p.contains(e[i].u as int) && !p.contains(e[i].v as int) {
            e[i].w as int
        } else {
            0
        }
}

/// Flow on the pairs that lead from a node outside `p` to a node of `p`.
pub open spec fn entering(e: Seq<Edge>, p: Set<int>) -> int {
    sum(enter_term(e, p), e.len() as int)
}

/// The net flow out of a node set is what leaves it less what enters it,
/// and neither is more than the capacity across.
pub proof fn lemma_cut_balance(e: Seq<Edge>, p: Set<int>)
    requires
        forall|i: int| 0 <= i < e.len() ==> (#[trigger] e[i]).w >= 0,
        e.len() % 2 == 0,
    ensures
        net_out(e, p) == leaving(e, p) - entering(e, p),
        0 <= leaving(e, p) <= cap_out(e, p),
        0 <= entering(e, p) <= cap_in(e, p),
{
    let n = e.len() as int;
    let neg = |i: int| -enter_term(e, p)(i);
    assert forall|i: int| 0 <= i < n implies #[trigger] net_term(e, p)(i) == leave_term(e, p)(i)
        + neg(i) by {}
    lemma_sum_add(leave_term(e, p), neg, net_term(e, p), n);
    lemma_sum_negate(enter_term(e, p), neg, n);
    assert forall|i: int| 0 <= i < n implies 0 <= #[trigger] leave_term(e, p)(i) by {}
    lemma_sum_nonneg(leave_term(e, p), n);
    assert forall|i: int| 0 <= i < n implies 0 <= #[trigger] enter_term(e, p)(i) by {}
    lemma_sum_nonneg(enter_term(e, p), n);
    assert forall|i: int| 0 <= i < n implies #[trigger] leave_term(e, p)(i) <= cap_out_term(e, p)(
        i,
    ) by {
        if i % 2 == 1 {
            assert(e[i - 1].w >= 0);
        }
    }
    lemma_sum_le(leave_term(e, p), cap_out_term(e, p), n);
    assert forall|i: int| 0 <= i < n implies #[trigger] enter_term(e, p)(i) <= cap_in_term(e, p)(
        i,
    ) by {
        if i % 2 == 1 {
            assert(e[i - 1].w >= 0);
        }
    }
    lemma_sum_le(enter_term(e, p), cap_in_term(e, p), n);
}

/// Every forward edge has a non-negative cost.
pub open spec fn thrifty(e: Seq<Edge>) -> bool {
    forall|i: int| 2 <= i < e.len() && i % 2 == 0 ==> (#[trigger] e[i]).c >= 0
}

/// What a fresh pair `u -> v` with capacity `w` and cost `c` adds to the
/// totals: capacity `w` out of `u` and into `v`, weight `w * |c|`, and no
/// flow.
pub proof fn lemma_pair_sums(e: Seq<Edge>, x: Edge, y: Edge, p: Set<int>)
    requires
        e.len() % 2 == 0,
        y.w == 0,
        x.w >= 0,
        y.u == x.v,
        y.v == x.u,
    ensures
        net_out(e.push(x).push(y), p) == net_out(e, p),
        flow_cost(e.push(x).push(y)) == flow_cost(e),
        weight(e.push(x).push(y)) == weight(e) + x.w * abs(x.c as int),
        cap_out(e.push(x).push(y), p) == cap_out(e, p) + gain(p.contains(x.u as int), x.w as int),
        cap_in(e.push(x).push(y), p) == cap_in(e, p) + gain(p.contains(x.v as int), x.w as int),
        idle(e) ==> idle(e.push(x).push(y)),
{
    let n = e.len() as int;
    let e2 = e.push(x).push(y);
    assert(e2[n] == x && e2[n + 1] == y);
    assert forall|i: int| 0 <= i < n implies #[trigger] net_term(e, p)(i) == net_term(e2, p)(
        i,
    ) by {
        assert(e2[i] == e[i]);
    }
    lemma_sum_extend_two(net_term(e, p), net_term(e2, p), n);
    assert forall|i: int| 0 <= i < n implies #[trigger] cost_term(e)(i) == cost_term(e2)(i) by {
        if i % 2 == 1 {
            assert(e2[i] == e[i] && e2[i - 1] == e[i - 1]);
        }
    }
    lemma_sum_extend_two(cost_term(e), cost_term(e2), n);
    assert(y.w * x.c == 0) by (nonlinear_arith)
        requires
            y.w == 0,
    ;
    assert forall|i: int| 0 <= i < n implies #[trigger] weight_term(e)(i) == weight_term(e2)(
        i,
    ) by {
        if i % 2 == 1 {
            assert(e2[i] == e[i] && e2[i - 1] == e[i - 1]);
        }
    }
    lemma_sum_extend_two(weight_term(e), weight_term(e2), n);
    assert forall|i: int| 0 <= i < n implies #[trigger] cap_out_term(e, p)(i) == cap_out_term(
        e2,
        p,
    )(i) by {
        if i % 2 == 1 {
            assert(e2[i] == e[i] && e2[i - 1] == e[i - 1]);
        }
    }
    lemma_sum_extend_two(cap_out_term(e, p), cap_out_term(e2, p), n);
    assert forall|i: int| 0 <= i < n implies #[trigger] cap_in_term(e, p)(i) == cap_in_term(
        e2,
        p,
    )(i) by {
        if i % 2 == 1 {
            assert(e2[i] == e[i] && e2[i - 1] == e[i - 1]);
        }
    }
    lemma_sum_extend_two(cap_in_term(e, p), cap_in_term(e2, p), n);
    if idle(e) {
        assert forall|i: int| 0 <= i < e2.len() && i % 2 == 1 implies (#[trigger] e2[i]).w
            == 0 by {
            if i < n {
                assert(e2[i] == e[i]);
            }
        }
    }
}

/// `f` is added to `x` where `b` holds.
pub open spec fn gain(b: bool, f: int) -> int {
    if b {
        f
    } else {
        0
    }
}

/// Sending `f` units along residual edge `i` raises the net flow out of
/// every node set that holds the edge's tail, lowers it for every set that
/// holds its head, and adds `f` times the edge cost to the cost of the flow.
pub proof fn lemma_push(e0: Seq<Edge>, e: Seq<Edge>, sz: int, i: int, f: int, p: Set<int>)
    requires
        e0.len() % 2 == 0,
        2 <= i < e0.len(),
        edge_ok(e0, sz, i),
        e =~= e0.update(i, Edge { w: (e0[i].w - f) as i32, ..e0[i] }).update(
            mate(i),
            Edge { w: (e0[mate(i)].w + f) as i32, ..e0[mate(i)] },
        ),
        0 <= f <= e0[i].w,
    ensures
        net_out(e, p) == net_out(e0, p) + gain(p.contains(e0[i].u as int), f) - gain(
            p.contains(e0[i].v as int),
            f,
        ),
        flow_cost(e) == flow_cost(e0) + f * e0[i].c,
{
    let n = e0.len() as int;
    let o = if i % 2 == 1 {
        i
    } else {
        i + 1
    };
    assert(e.len() == n);
    assert forall|j: int| 0 <= j < n && j != o implies #[trigger] net_term(e0, p)(j) == net_term(
        e,
        p,
    )(j) by {
        if j != mate(o) {
            assert(e[j] == e0[j]);
        }
    }
    lemma_sum_change_one(net_term(e0, p), net_term(e, p), n, o);
    assert forall|j: int| 0 <= j < n && j != o implies #[trigger] cost_term(e0)(j) == cost_term(
        e,
    )(j) by {
        if j % 2 == 1 {
            assert(e[j] == e0[j]);
            assert(e[j - 1].c == e0[j - 1].c);
        }
    }
    lemma_sum_change_one(cost_term(e0), cost_term(e), n, o);
    let c = e0[i].c as int;
    if i % 2 == 1 {
        assert(e0[i - 1].c == -c);
        assert(e[i].w * e[i - 1].c == e0[i].w * e0[i - 1].c + f * c) by (nonlinear_arith)
            requires
                e[i].w == e0[i].w - f,
                e[i - 1].c == -c,
                e0[i - 1].c == -c,
        ;
    } else {
        assert(e[i + 1].w * e[i].c == e0[i + 1].w * e0[i].c + f * c) by (nonlinear_arith)
            requires
                e[i + 1].w == e0[i + 1].w + f,
                e[i].c == c,
                e0[i].c == c,
        ;
    }
}

} // verus!
