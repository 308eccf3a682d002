//! Why the flow that the solver leaves behind is a best one: a flow that no
//! residual path can extend has the largest value, and a flow whose
//! residual network admits a potential has the least cost among the flows
//! with the same balance at every node.

use crate::augment::cut_off;
use crate::flow::{
    cost_term, enter_term, flow_cost, leave_term, lemma_cut_balance, lemma_sum_negate, net_out,
    net_term, rerouted,
};
use crate::graph::{edge_ok, edges_wf, mate, Edge, Mcmf, Net};
use crate::search::feasible;
use crate::sums::{lemma_sum_add, lemma_sum_le, lemma_sum_nonneg, lemma_sum_zero, sum};
use vstd::prelude::*;

verus! {

/// The net flow out of a node set with one more node is the net flow out of
/// the set plus the net flow out of the node.
pub proof fn lemma_net_out_insert(e: Seq<Edge>, p: Set<int>, y: int)
    requires
        !p.contains(y),
    ensures
        net_out(e, p.insert(y)) == net_out(e, p) + net_out(e, set![y]),
{
    let n = e.len() as int;
    let q = p.insert(y);
    let one = set![y];
    assert forall|i: int| 0 <= i < n implies #[trigger] net_term(e, q)(i) == net_term(e, p)(i)
        + net_term(e, one)(i) by {}
    lemma_sum_add(net_term(e, p), net_term(e, one), net_term(e, q), n);
}

/// The labelled nodes below `k`.
pub open spec fn reached_below(d: Seq<i32>, k: int) -> Set<int> {
    Set::new(|v: int| 0 <= v < k && d[v] < Mcmf::INF)
}

/// Two flows with the same balance at every node but `src` and `dst` differ
/// in their net flow out of the labelled nodes below `k` by what they
/// differ at `src` and `dst`, as far as these are among them.
proof fn lemma_reached_balance(
    e: Seq<Edge>,
    e2: Seq<Edge>,
    d: Seq<i32>,
    src: int,
    dst: int,
    k: int,
)
    requires
        0 <= k <= d.len(),
        0 <= src < d.len(),
        0 <= dst < d.len(),
        d[src] < Mcmf::INF,
        d[dst] >= Mcmf::INF,
        forall|y: int|
            0 <= y < d.len() && y != src && y != dst ==> #[trigger] net_out(e2, set![y]) == net_out(
                e,
                set![y],
            ),
    ensures
        net_out(e2, reached_below(d, k)) - net_out(e, reached_below(d, k)) == (if src < k {
            net_out(e2, set![src]) - net_out(e, set![src])
        } else {
            0
        }),
    decreases k,
{
    if k == 0 {
        let none = reached_below(d, 0);
        assert forall|i: int| 0 <= i < e.len() implies #[trigger] net_term(e, none)(i) == 0 by {}
        lemma_sum_zero(net_term(e, none), e.len() as int);
        assert forall|i: int| 0 <= i < e2.len() implies #[trigger] net_term(e2, none)(i) == 0 by {}
        lemma_sum_zero(net_term(e2, none), e2.len() as int);
    } else {
        lemma_reached_balance(e, e2, d, src, dst, k - 1);
        let prev = reached_below(d, k - 1);
        let now = reached_below(d, k);
        if d[k - 1] < Mcmf::INF {
            assert(now =~= prev.insert(k - 1));
            lemma_net_out_insert(e, prev, k - 1);
            lemma_net_out_insert(e2, prev, k - 1);
            if k - 1 != src {
                assert(net_out(e2, set![k - 1]) == net_out(e, set![k - 1]));
            }
        } else {
            assert(now =~= prev);
        }
    }
}

/// A flow that no residual path can extend is a maximum flow: any other
/// flow on the same network, with the same balance at every node but the
/// source and the sink, sends no more out of the source.
#[verifier::rlimit(40)]
pub proof fn lemma_max_flow(net: Net, e2: Seq<Edge>)
    requires
        net.wf(),
        0 <= net.ss < net.size(),
        0 <= net.tt < net.size(),
        cut_off(net),
        rerouted(net.e, e2),
        forall|y: int|
            0 <= y < net.size() && y != net.ss && y != net.tt ==> #[trigger] net_out(e2, set![y])
                == net_out(net.e, set![y]),
    ensures
        net_out(e2, set![net.ss as int]) <= net_out(net.e, set![net.ss as int]),
{
    let e = net.e;
    let sz = net.size();
    let n = e.len() as int;
    let r = reached_below(net.d, sz);
    lemma_reached_balance(e, e2, net.d, net.ss as int, net.tt as int, sz);
    assert forall|i: int| 0 <= i < n implies (#[trigger] e[i]).w >= 0 by {
        if i >= 2 {
            assert(edge_ok(e, sz, i));
        }
    }
    assert forall|i: int| 0 <= i < n implies (#[trigger] e2[i]).w >= 0 by {}
    lemma_cut_balance(e, r);
    lemma_cut_balance(e2, r);
    assert forall|i: int| 0 <= i < n implies #[trigger] leave_term(e2, r)(i) <= leave_term(e, r)(
        i,
    ) by {
        if i % 2 == 1 {
            assert(e2[i].u == e[i].u && e2[i].v == e[i].v);
            assert(e2[i].w + e2[mate(i)].w == e[i].w + e[mate(i)].w);
            assert(e2[i - 1].w >= 0);
            if i >= 2 && r.contains(e[i].v as int) && !r.contains(e[i].u as int) {
                assert(edge_ok(e, sz, i));
                assert(edge_ok(e, sz, i - 1));
                assert(e[i - 1].w == 0);
            }
        }
    }
    lemma_sum_le(leave_term(e2, r), leave_term(e, r), n);
    assert forall|i: int| 0 <= i < n implies #[trigger] enter_term(e, r)(i) <= enter_term(e2, r)(
        i,
    ) by {
        if i % 2 == 1 {
            assert(e2[i].u == e[i].u && e2[i].v == e[i].v);
            if i >= 2 && r.contains(e[i].u as int) && !r.contains(e[i].v as int) {
                assert(edge_ok(e, sz, i));
                assert(e[i].w == 0);
            }
        }
    }
    lemma_sum_le(enter_term(e, r), enter_term(e2, r), n);
}

/// The potential `pi` on the nodes below `k`, zero elsewhere.
pub open spec fn below(pi: Seq<int>, k: int, y: int) -> int {
    if 0 <= y < k {
        pi[y]
    } else {
        0
    }
}

/// The change of flow on the pair of reverse edge `i`, times the drop of
/// the potential (as far as it counts) along the pair.
pub open spec fn drop_term(e: Seq<Edge>, e2: Seq<Edge>, pi: Seq<int>, k: int) -> spec_fn(int) -> int {
    |i: int|
        if i % 2 == 1 {
            (e2[i].w - e[i].w) * (below(pi, k, e[i].v as int) - below(pi, k, e[i].u as int))
        } else {
            0
        }
}

/// The sum of `c` times each term is `c` times the sum.
pub proof fn lemma_sum_scale(f: spec_fn(int) -> int, g: spec_fn(int) -> int, n: int, c: int)
    requires
        forall|i: int| 0 <= i < n ==> #[trigger] g(i) == c * f(i),
    ensures
        sum(g, n) == c * sum(f, n),
    decreases n,
{
    if n > 0 {
        lemma_sum_scale(f, g, n - 1, c);
        assert(c * (sum(f, n - 1) + f(n - 1)) == c * sum(f, n - 1) + c * f(n - 1))
            by (nonlinear_arith);
    } else {
        assert(c * 0 == 0);
    }
}

/// Between two flows with the same balance at every node, the changes of
/// flow weighted by the drop of a potential cancel.
#[verifier::rlimit(40)]
proof fn lemma_drops_cancel(e: Seq<Edge>, e2: Seq<Edge>, pi: Seq<int>, k: int)
    requires
        0 <= k <= pi.len(),
        e2.len() == e.len(),
        forall|i: int| 0 <= i < e.len() ==> (#[trigger] e2[i]).u == e[i].u && e2[i].v == e[i].v,
        forall|y: int| 0 <= y < pi.len() ==> #[trigger] net_out(e2, set![y]) == net_out(e, set![y]),
    ensures
        sum(drop_term(e, e2, pi, k), e.len() as int) == 0,
    decreases k,
{
    let n = e.len() as int;
    if k == 0 {
        assert forall|i: int| 0 <= i < n implies #[trigger] drop_term(e, e2, pi, 0)(i) == 0 by {
            assert((e2[i].w - e[i].w) * 0 == 0);
        }
        lemma_sum_zero(drop_term(e, e2, pi, 0), n);
    } else {
        lemma_drops_cancel(e, e2, pi, k - 1);
        let y = k - 1;
        let one = set![y];
        let diff = |i: int| net_term(e2, one)(i) - net_term(e, one)(i);
        let neg = |i: int| -net_term(e, one)(i);
        assert forall|i: int| 0 <= i < n implies #[trigger] diff(i) == net_term(e2, one)(i) + neg(
            i,
        ) by {}
        lemma_sum_add(net_term(e2, one), neg, diff, n);
        lemma_sum_negate(net_term(e, one), neg, n);
        assert(net_out(e2, set![y]) == net_out(e, set![y]));
        assert(net_out(e2, one) == sum(net_term(e2, one), n));
        assert(sum(diff, n) == 0);
        let scaled = |i: int| pi[y] * diff(i);
        lemma_sum_scale(diff, scaled, n, pi[y]);
        assert(pi[y] * 0 == 0);
        assert forall|i: int| 0 <= i < n implies #[trigger] drop_term(e, e2, pi, k)(i)
            == drop_term(e, e2, pi, k - 1)(i) + scaled(i) by {
            if i % 2 == 1 {
                assert(e2[i].u == e[i].u && e2[i].v == e[i].v);
                let dw = e2[i].w - e[i].w;
                let t = e[i].v as int;
                let h = e[i].u as int;
                let bt = below(pi, k - 1, t);
                let bh = below(pi, k - 1, h);
                let at = if t == y {
                    1int
                } else {
                    0int
                };
                let ah = if h == y {
                    1int
                } else {
                    0int
                };
                assert(below(pi, k, t) == bt + at * pi[y]) by (nonlinear_arith)
                    requires
                        below(pi, k, t) == (if t == y {
                            pi[y]
                        } else {
                            bt
                        }),
                        t == y ==> bt == 0,
                        at == (if t == y {
                            1int
                        } else {
                            0int
                        }),
                ;
                assert(below(pi, k, h) == bh + ah * pi[y]) by (nonlinear_arith)
                    requires
                        below(pi, k, h) == (if h == y {
                            pi[y]
                        } else {
                            bh
                        }),
                        h == y ==> bh == 0,
                        ah == (if h == y {
                            1int
                        } else {
                            0int
                        }),
                ;
                assert(diff(i) == dw * (at - ah)) by (nonlinear_arith)
                    requires
                        diff(i) == (if t == y {
                            e2[i].w as int
                        } else {
                            0
                        }) - (if h == y {
                            e2[i].w as int
                        } else {
                            0
                        }) - ((if t == y {
                            e[i].w as int
                        } else {
                            0
                        }) - (if h == y {
                            e[i].w as int
                        } else {
                            0
                        })),
                        dw == e2[i].w - e[i].w,
                        at == (if t == y {
                            1int
                        } else {
                            0int
                        }),
                        ah == (if h == y {
                            1int
                        } else {
                            0int
                        }),
                ;
                assert(dw * ((bt + at * pi[y]) - (bh + ah * pi[y])) == dw * (bt - bh) + pi[y] * (dw
                    * (at - ah))) by (nonlinear_arith);
            } else {
                assert(pi[y] * 0 == 0);
            }
        }
        lemma_sum_add(drop_term(e, e2, pi, k - 1), scaled, drop_term(e, e2, pi, k), n);
    }
}

/// A flow whose residual network admits a potential is a cheapest flow: any
/// other flow on the same network with the same balance at every node
/// costs no less.
#[verifier::rlimit(40)]
pub proof fn lemma_min_cost(e: Seq<Edge>, head: Seq<usize>, sz: int, pi: Seq<int>, e2: Seq<Edge>)
    requires
        edges_wf(e, head, sz),
        pi.len() == sz,
        feasible(e, pi),
        rerouted(e, e2),
        forall|y: int| 0 <= y < sz ==> #[trigger] net_out(e2, set![y]) == net_out(e, set![y]),
    ensures
        flow_cost(e) <= flow_cost(e2),
{
    let n = e.len() as int;
    lemma_drops_cancel(e, e2, pi, sz);
    let drops = drop_term(e, e2, pi, sz);
    let gap = |i: int| cost_term(e2)(i) - cost_term(e)(i);
    let neg = |i: int| -cost_term(e)(i);
    assert forall|i: int| 0 <= i < n implies #[trigger] gap(i) == cost_term(e2)(i) + neg(i) by {}
    lemma_sum_add(cost_term(e2), neg, gap, n);
    lemma_sum_negate(cost_term(e), neg, n);
    let reduced = |i: int| gap(i) + drops(i);
    lemma_sum_add(gap, drops, reduced, n);
    assert forall|i: int| 0 <= i < n implies 0 <= #[trigger] reduced(i) by {
        if i % 2 == 1 {
            assert(e2[i].u == e[i].u && e2[i].v == e[i].v);
            assert(e2[i - 1].c == e[i - 1].c);
            assert(e2[i].w + e2[mate(i)].w == e[i].w + e[mate(i)].w);
            assert(e2[i - 1].w >= 0 && e2[i].w >= 0);
            let dw = e2[i].w - e[i].w;
            let c = e[i - 1].c as int;
            if i >= 2 {
                assert(edge_ok(e, sz, i));
                assert(edge_ok(e, sz, i - 1));
                let t = e[i].v as int;
                let h = e[i].u as int;
                let rc = c + pi[t] - pi[h];
                assert(below(pi, sz, t) == pi[t] && below(pi, sz, h) == pi[h]);
                if dw > 0 {
                    assert(e[i - 1].w > 0);
                    assert(pi[e[i - 1].u as int] + e[i - 1].c >= pi[e[i - 1].v as int]);
                } else if dw < 0 {
                    assert(e[i].w > 0);
                    assert(pi[e[i].u as int] + e[i].c >= pi[e[i].v as int]);
                }
                assert(e2[i].w * c - e[i].w * c + dw * (pi[t] - pi[h]) == dw * rc && dw * rc >= 0)
                    by (nonlinear_arith)
                    requires
                        dw == e2[i].w - e[i].w,
                        rc == c + pi[t] - pi[h],
                        dw > 0 ==> rc >= 0,
                        dw < 0 ==> rc <= 0,
                ;
            } else {
                assert(e[1].w == 0 && e[0].w == 0);
                assert(dw == 0);
                assert(e2[i].w * c - e[i].w * c + dw * (below(pi, sz, e[i].v as int) - below(
                    pi,
                    sz,
                    e[i].u as int,
                )) == 0) by (nonlinear_arith)
                    requires
                        e2[i].w == 0,
                        e[i].w == 0,
                        dw == 0,
                ;
            }
        }
    }
    lemma_sum_nonneg(reduced, n);
}

} // verus!
