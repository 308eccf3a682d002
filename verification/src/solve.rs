//! The two-phase solve: first the flow that the booked lower bounds demand,
//! routed between two extra nodes, then the cheapest maximum flow from the
//! source to the sink on top of it.

use crate::augment::{augmented, cut_off, lemma_idle_priced, potential, priced, ran, roomy};
use crate::optimality::lemma_max_flow;
use crate::flow::{
    abs, cap_in, cap_in_term, cap_out, cap_out_term, cost_term, flow_cost, gain, idle,
    lemma_cost_within_weight, lemma_idle, lemma_net_within_caps, lemma_pair_sums,
    lemma_rerouted_caps, lemma_rerouted_chain, net_out, net_term, rerouted, thrifty, weight,
    weight_term,
};
use crate::graph::{edge_ok, edges_wf, head_ok, lemma_with_pair_wf, link_ok, mate, Edge, Mcmf, Net};
use crate::search::{costs_within, feasible};
use crate::sums::{lemma_sum_change_one, lemma_sum_ext, lemma_sum_nonneg};
use vstd::arithmetic::div_mod::{lemma_div_pos_is_pos, lemma_remainder_lower};
use vstd::prelude::*;

verus! {

/// The network after the excess of the nodes `1..=k` has been wired up: an
/// edge from `ss` to each node with positive excess, an edge to `tt` from
/// each node with negative excess, with the excess as capacity and no cost.
pub open spec fn with_excess(net: Net, k: int) -> Net
    decreases k,
{
    if k <= 0 {
        net
    } else {
        let prev = with_excess(net, k - 1);
        let a = prev.a[k];
        if a > 0 {
            prev.with_bounded(prev.ss, k as i32, 0, a, 0)
        } else if a < 0 {
            prev.with_bounded(k as i32, prev.tt, 0, (-a) as i32, 0)
        } else {
            prev
        }
    }
}

/// The network as the first phase sees it: source `n + 1` and sink `n + 2`,
/// wired to the nodes with excess, and a closing edge of capacity `INF` and
/// no cost from `t` back to `s`.
pub open spec fn staged(net: Net) -> Net {
    let base = Net { ss: (net.n + 1) as i32, tt: (net.n + 2) as i32, ..net };
    with_excess(base, net.n as int).with_bounded(net.t, net.s, 0, Mcmf::INF, 0)
}

/// The edge array with its last pair taken out of use.
pub open spec fn unclosed(e: Seq<Edge>) -> Seq<Edge> {
    e.update(e.len() - 1, Edge { w: 0, ..e[e.len() - 1] }).update(
        e.len() - 2,
        Edge { w: 0, ..e[e.len() - 2] },
    )
}

/// The state between the phases: source and sink are the real ones, the
/// closing pair is out of use, the cost of the first phase is booked, and
/// the counters start again.
pub open spec fn between(net: Net) -> Net {
    Net {
        ss: net.s,
        tt: net.t,
        a1: (net.a1 + net.cost) as i32,
        maxflow: 0,
        cost: 0,
        e: unclosed(net.e),
        ..net
    }
}

/// The state that `solve` leaves: staged, run, switched to the real source
/// and sink, run again, and the totals booked.
pub open spec fn solved_to(net: Net) -> Net {
    let last = ran(between(ran(staged(net))));
    Net { a0: (last.a0 + last.maxflow) as i32, a1: (last.a1 + last.cost) as i32, ..last }
}

/// The largest edge cost that `solve` takes on a network of `sz` node slots
/// whose booked lower bounds add up to `x`: small enough that no path cost
/// reaches `INF`, whatever the first phase does.
pub open spec fn cost_limit(sz: int, x: int) -> int {
    (Mcmf::INF - 1) / ((x + 1) * sz)
}

/// What `solve` asks of a network: well-formed with nodes `0..n + 3`,
/// source and sink among `0..=n` and distinct, no flow yet, no negative
/// cost on a forward edge, costs within the limit, and room in `i32` for
/// the totals.
pub open spec fn solvable(net: Net) -> bool {
    let g = staged(net);
    let x = cap_out(g.e, set![net.n + 1]);
    &&& net.wf()
    &&& 0 <= net.n
    &&& net.n + 3 == net.size()
    &&& 0 <= net.s <= net.n
    &&& 0 <= net.t <= net.n
    &&& net.s != net.t
    &&& idle(net.e)
    &&& thrifty(net.e)
    &&& forall|i: int| 1 <= i <= net.n ==> #[trigger] net.a[i] > i32::MIN
    &&& costs_within(net.e, cost_limit(net.size(), x))
    &&& net.maxflow + x <= i32::MAX
    &&& cap_out(g.e, set![net.s as int]) <= i32::MAX
    &&& net.a0 + cap_out(g.e, set![net.s as int]) <= i32::MAX
    &&& 2 * weight(net.e) <= i32::MAX
    &&& i32::MIN <= net.cost - weight(net.e)
    &&& net.cost + weight(net.e) <= i32::MAX
    &&& i32::MIN <= net.a1 + net.cost - weight(net.e)
    &&& net.a1 + net.cost + weight(net.e) <= i32::MAX
}

/// The flow of `e` is a flow from `s` to `t` of value `val` as far as the
/// node sets without `n + 1` and `n + 2` can tell: `val` leaves every set
/// that holds `s` and not `t`, and every set that holds neither is in
/// balance.
pub open spec fn carries(e: Seq<Edge>, n: int, s: int, t: int, val: int) -> bool {
    forall|p: Set<int>|
        !p.contains(n + 1) && !p.contains(n + 2) ==> #[trigger] net_out(e, p) == gain(
            p.contains(s),
            val,
        ) - gain(p.contains(t), val)
}

/// The result of `solve`: on the staged network, with the closing pair out
/// of use again, a flow from `s` to `t` that no residual path can extend
/// and no residual cycle can make cheaper. `maxflow` is what the second
/// phase sent, and `a0` grew by it; the first phase sent `x` more through
/// the closing edge, none if nothing was booked. `a1` grew by `cost` as it
/// stood at the start and by the cost of the whole flow. The first phase
/// left no residual path from `n + 1` to `n + 2`: it met as much of the
/// booked lower bounds as can be met.
pub open spec fn solved(old: Net, new: Net) -> bool {
    let g = staged(old);
    &&& new == (Net {
        ss: old.s,
        tt: old.t,
        e: new.e,
        head: g.head,
        maxflow: new.maxflow,
        cost: new.cost,
        a0: new.a0,
        a1: new.a1,
        d: new.d,
        incf: new.incf,
        pre: new.pre,
        vis: new.vis,
        q: new.q,
        ..old
    })
    &&& new.wf()
    &&& rerouted(unclosed(g.e), new.e)
    &&& 0 <= new.maxflow
    &&& new.a0 == old.a0 + new.maxflow
    &&& new.a1 == old.a1 + old.cost + flow_cost(new.e)
    &&& exists|x: int|
        0 <= x && (cap_out(g.e, set![old.n + 1]) == 0 ==> x == 0) && #[trigger] carries(
            new.e,
            old.n as int,
            old.s as int,
            old.t as int,
            x + new.maxflow,
        )
    &&& cut_off(new)
    &&& exists|pi: Seq<int>, hi: int| potential(new.e, pi, old.size(), hi)
    &&& augmented(staged(old), ran(staged(old)))
    &&& cut_off(ran(staged(old)))
}

/// What wiring up the excess keeps: a well-formed network without flow,
/// with the old edges in front, no new cost and no new weight.
pub open spec fn plain_extension(base: Net, g: Net, cmax: int) -> bool {
    &&& g == (Net { e: g.e, head: g.head, ..base })
    &&& g.wf()
    &&& idle(g.e)
    &&& thrifty(g.e)
    &&& costs_within(g.e, cmax)
    &&& weight(g.e) == weight(base.e)
    &&& base.e.len() <= g.e.len()
    &&& forall|i: int| 0 <= i < base.e.len() ==> g.e[i] == base.e[i]
}

/// Adding a pair without cost to a plain extension gives a plain extension.
proof fn lemma_extend_plain(base: Net, g: Net, cmax: int, u: i32, v: i32, w: i32)
    requires
        plain_extension(base, g, cmax),
        0 <= cmax,
        0 <= u < g.size(),
        0 <= v < g.size(),
        0 <= w,
        g.e.len() + 2 <= usize::MAX,
    ensures
        plain_extension(base, g.with_bounded(u, v, 0, w, 0), cmax),
        g.with_bounded(u, v, 0, w, 0).e.len() == g.e.len() + 2,
        ({
            let x = g.with_bounded(u, v, 0, w, 0).e[g.e.len() as int];
            let y = g.with_bounded(u, v, 0, w, 0).e[g.e.len() as int + 1];
            &&& x.u == u && x.v == v && x.w == w && x.c == 0
            &&& y.u == v && y.v == u && y.w == 0 && y.c == 0
        }),
{
    let h = g.with_bounded(u, v, 0, w, 0);
    assert(h.a =~= g.a);
    let mid = Net { a: h.a, ..g };
    assert(mid == g);
    lemma_with_pair_wf(g, u, v, w, 0);
    let n = g.e.len() as int;
    let x = h.e[n];
    let y = h.e[n + 1];
    assert(h.e =~= g.e.push(x).push(y));
    lemma_pair_sums(g.e, x, y, Set::empty());
    assert(x.w * abs(x.c as int) == 0) by (nonlinear_arith)
        requires
            x.c == 0,
    ;
    assert forall|i: int| 2 <= i < h.e.len() && i % 2 == 0 implies (#[trigger] h.e[i]).c >= 0 by {
        if i < n {
            assert(h.e[i] == g.e[i]);
        }
    }
    assert forall|i: int| 2 <= i < h.e.len() implies -cmax <= (#[trigger] h.e[i]).c <= cmax by {
        if i < n {
            assert(h.e[i] == g.e[i]);
        }
    }
    assert forall|i: int| 0 <= i < base.e.len() implies h.e[i] == base.e[i] by {
        assert(h.e[i] == g.e[i]);
    }
}

/// Wiring up the excess adds no negative capacity.
proof fn lemma_excess_nonneg(base: Net, k: int)
    requires
        forall|i: int| 0 <= i < base.e.len() ==> (#[trigger] base.e[i]).w >= 0,
        forall|i: int| 1 <= i <= k ==> #[trigger] base.a[i] > i32::MIN,
        k < base.a.len(),
        base.a.len() <= i32::MAX,
        0 <= base.ss < base.a.len(),
        0 <= base.tt < base.a.len(),
    ensures
        forall|i: int|
            0 <= i < with_excess(base, k).e.len() ==> (#[trigger] with_excess(base, k).e[i]).w >= 0,
        with_excess(base, k).a == base.a,
        with_excess(base, k).ss == base.ss,
        with_excess(base, k).tt == base.tt,
        with_excess(base, k).d == base.d,
    decreases k,
{
    if k > 0 {
        lemma_excess_nonneg(base, k - 1);
        let prev = with_excess(base, k - 1);
        let a = prev.a[k];
        assert(a == base.a[k]);
        if a > 0 {
            let h = prev.with_bounded(prev.ss, k as i32, 0, a, 0);
            assert(h.a =~= prev.a);
            assert forall|i: int| 0 <= i < h.e.len() implies (#[trigger] h.e[i]).w >= 0 by {
                if i < prev.e.len() {
                    assert(h.e[i] == prev.e[i]);
                }
            }
        } else if a < 0 {
            let h = prev.with_bounded(k as i32, prev.tt, 0, (-a) as i32, 0);
            assert(h.a =~= prev.a);
            assert forall|i: int| 0 <= i < h.e.len() implies (#[trigger] h.e[i]).w >= 0 by {
                if i < prev.e.len() {
                    assert(h.e[i] == prev.e[i]);
                }
            }
        }
    }
}

/// With nothing booked at the nodes `1..=k`, wiring up their excess adds
/// nothing.
pub proof fn lemma_no_excess(base: Net, k: int)
    requires
        0 <= k < base.a.len(),
        forall|i: int| 1 <= i <= k ==> #[trigger] base.a[i] == 0,
    ensures
        with_excess(base, k) == base,
    decreases k,
{
    if k > 0 {
        lemma_no_excess(base, k - 1);
        assert(base.a[k] == 0);
    }
}

/// With nothing booked, staging only switches to the extra source and sink
/// and appends the closing pair.
pub proof fn lemma_staged_plain(net: Net)
    requires
        net.wf(),
        0 <= net.n,
        net.n + 3 == net.size(),
        0 <= net.s < net.size(),
        0 <= net.t < net.size(),
        forall|i: int| 1 <= i <= net.n ==> #[trigger] net.a[i] == 0,
    ensures
        staged(net) == (Net {
            ss: (net.n + 1) as i32,
            tt: (net.n + 2) as i32,
            ..net
        }).with_bounded(net.t, net.s, 0, Mcmf::INF, 0),
        staged(net).e.len() == net.e.len() + 2,
        forall|i: int| 0 <= i < net.e.len() ==> staged(net).e[i] == net.e[i],
        ({
            let x = staged(net).e[net.e.len() as int];
            let y = staged(net).e[net.e.len() as int + 1];
            &&& staged(net).e == net.e.push(x).push(y)
            &&& x.u == net.t && x.v == net.s && x.w == Mcmf::INF && x.c == 0
            &&& y.u == net.s && y.v == net.t && y.w == 0 && y.c == 0
        }),
{
    let base = Net { ss: (net.n + 1) as i32, tt: (net.n + 2) as i32, ..net };
    lemma_no_excess(base, net.n as int);
    let g = staged(net);
    let m = net.e.len() as int;
    assert(g.e =~= net.e.push(g.e[m]).push(g.e[m + 1]));
}

/// The capacity that the first phase can send is not negative.
proof fn lemma_staged_nonneg(net: Net)
    requires
        net.wf(),
        0 <= net.n,
        net.n + 3 == net.size(),
        forall|i: int| 1 <= i <= net.n ==> #[trigger] net.a[i] > i32::MIN,
    ensures
        0 <= cap_out(staged(net).e, set![net.n + 1]),
{
    let base = Net { ss: (net.n + 1) as i32, tt: (net.n + 2) as i32, ..net };
    lemma_wf_nonneg(net.e, net.head, net.size(), Set::empty());
    lemma_excess_nonneg(base, net.n as int);
    let w = with_excess(base, net.n as int);
    let g = staged(net);
    let p = set![net.n + 1];
    assert forall|i: int| 0 <= i < g.e.len() implies (#[trigger] g.e[i]).w >= 0 by {
        if i < w.e.len() {
            assert(g.e[i] == w.e[i]);
        }
    }
    assert forall|i: int| 0 <= i < g.e.len() implies 0 <= #[trigger] cap_out_term(g.e, p)(i) by {
        if i % 2 == 1 {
            assert(g.e[i].w >= 0 && g.e[i - 1].w >= 0);
        }
    }
    lemma_sum_nonneg(cap_out_term(g.e, p), g.e.len() as int);
}

/// No residual capacity of a well-formed edge array is negative, so no
/// capacity total is.
proof fn lemma_wf_nonneg(e: Seq<Edge>, head: Seq<usize>, sz: int, p: Set<int>)
    requires
        edges_wf(e, head, sz),
    ensures
        forall|i: int| 0 <= i < e.len() ==> (#[trigger] e[i]).w >= 0,
        0 <= cap_out(e, p),
{
    assert forall|i: int| 0 <= i < e.len() implies (#[trigger] e[i]).w >= 0 by {
        if i >= 2 {
            assert(edge_ok(e, sz, i));
        }
    }
    assert forall|i: int| 0 <= i < e.len() implies 0 <= #[trigger] cap_out_term(e, p)(i) by {
        if i % 2 == 1 {
            assert(e[i].w >= 0 && e[i - 1].w >= 0);
        }
    }
    lemma_sum_nonneg(cap_out_term(e, p), e.len() as int);
}

/// Taking the last pair out of use keeps the edge array well-formed, keeps
/// every potential, and, where the pair has no cost, keeps the cost and the
/// weight; the flow that the pair carried is missing at its ends.
#[verifier::rlimit(40)]
pub proof fn lemma_unclose(e: Seq<Edge>, head: Seq<usize>, sz: int)
    requires
        edges_wf(e, head, sz),
        e.len() >= 4,
        e[e.len() - 2].c == 0,
    ensures
        edges_wf(unclosed(e), head, sz),
        forall|pi: Seq<int>| feasible(e, pi) ==> feasible(unclosed(e), pi),
        forall|cmax: int| costs_within(e, cmax) ==> costs_within(unclosed(e), cmax),
        forall|p: Set<int>| #[trigger]
            net_out(unclosed(e), p) == net_out(e, p) + gain(
                p.contains(e[e.len() - 1].u as int),
                e[e.len() - 1].w as int,
            ) - gain(p.contains(e[e.len() - 1].v as int), e[e.len() - 1].w as int),
        forall|p: Set<int>|
            !p.contains(e[e.len() - 1].v as int) ==> #[trigger] cap_out(unclosed(e), p) == cap_out(
                e,
                p,
            ),
        forall|p: Set<int>|
            !p.contains(e[e.len() - 1].u as int) ==> #[trigger] cap_in(unclosed(e), p) == cap_in(
                e,
                p,
            ),
        flow_cost(unclosed(e)) == flow_cost(e),
        weight(unclosed(e)) == weight(e),
{
    let n = e.len() as int;
    let e2 = unclosed(e);
    assert(edge_ok(e, sz, n - 1));
    assert(edge_ok(e, sz, n - 2));
    assert(mate(n - 1) == n - 2);
    assert forall|i: int| 2 <= i < n implies #[trigger] edge_ok(e2, sz, i) by {
        assert(edge_ok(e, sz, i));
    }
    assert forall|i: int| 2 <= i < n implies #[trigger] link_ok(e2, i) by {
        assert(link_ok(e, i));
        assert forall|j: int| e2[i].next < j < i && 2 <= j implies (#[trigger] e2[j]).u
            != e2[i].u by {
            assert(e[j].u != e[i].u);
        }
    }
    assert forall|u: int| 0 <= u < sz implies #[trigger] head_ok(e2, head, u) by {
        assert(head_ok(e, head, u));
        assert forall|j: int| head[u] < j < n && 2 <= j implies (#[trigger] e2[j]).u != u by {
            assert(e[j].u != u);
        }
    }
    assert forall|pi: Seq<int>| feasible(e, pi) implies feasible(e2, pi) by {
        assert forall|i: int| 2 <= i < n && (#[trigger] e2[i]).w > 0 implies pi[e2[i].u as int]
            + e2[i].c >= pi[e2[i].v as int] by {
            assert(e[i].w > 0);
        }
    }
    assert forall|cmax: int| costs_within(e, cmax) implies costs_within(e2, cmax) by {
        assert forall|i: int| 2 <= i < n implies -cmax <= (#[trigger] e2[i]).c <= cmax by {
            assert(e2[i].c == e[i].c);
        }
    }
    assert forall|p: Set<int>| #[trigger]
        net_out(e2, p) == net_out(e, p) + gain(p.contains(e[n - 1].u as int), e[n - 1].w as int)
            - gain(p.contains(e[n - 1].v as int), e[n - 1].w as int) by {
        assert forall|i: int| 0 <= i < n && i != n - 1 implies #[trigger] net_term(e, p)(i)
            == net_term(e2, p)(i) by {}
        lemma_sum_change_one(net_term(e, p), net_term(e2, p), n, n - 1);
    }
    assert forall|p: Set<int>| !p.contains(e[n - 1].v as int) implies #[trigger] cap_out(e2, p)
        == cap_out(e, p) by {
        assert forall|i: int| 0 <= i < n implies #[trigger] cap_out_term(e, p)(i) == cap_out_term(
            e2,
            p,
        )(i) by {}
        lemma_sum_ext(cap_out_term(e, p), cap_out_term(e2, p), n);
    }
    assert forall|p: Set<int>| !p.contains(e[n - 1].u as int) implies #[trigger] cap_in(e2, p)
        == cap_in(e, p) by {
        assert forall|i: int| 0 <= i < n implies #[trigger] cap_in_term(e, p)(i) == cap_in_term(
            e2,
            p,
        )(i) by {}
        lemma_sum_ext(cap_in_term(e, p), cap_in_term(e2, p), n);
    }
    assert forall|i: int| 0 <= i < n implies #[trigger] cost_term(e)(i) == cost_term(e2)(i) by {
        if i == n - 1 {
            assert(e[i].w * e[i - 1].c == 0 && e2[i].w * e2[i - 1].c == 0) by (nonlinear_arith)
                requires
                    e[i - 1].c == 0,
                    e2[i - 1].c == 0,
            ;
        }
    }
    lemma_sum_ext(cost_term(e), cost_term(e2), n);
    assert forall|i: int| 0 <= i < n implies #[trigger] weight_term(e)(i) == weight_term(e2)(
        i,
    ) by {
        if i == n - 1 {
            assert((e[i].w + e[i - 1].w) * abs(e[i - 1].c as int) == 0 && (e2[i].w + e2[i - 1].w)
                * abs(e2[i - 1].c as int) == 0) by (nonlinear_arith)
                requires
                    e[i - 1].c == 0,
                    e2[i - 1].c == 0,
            ;
        }
    }
    lemma_sum_ext(weight_term(e), weight_term(e2), n);
}

/// Flow moved before the last pair is taken out of use is flow moved after.
proof fn lemma_unclosed_rerouted(e0: Seq<Edge>, e: Seq<Edge>)
    requires
        rerouted(e0, e),
        e0.len() >= 4,
        e0.len() % 2 == 0,
    ensures
        rerouted(unclosed(e0), unclosed(e)),
{
    let a = unclosed(e0);
    let b = unclosed(e);
    let n = e0.len() as int;
    assert(mate(n - 1) == n - 2);
    assert forall|i: int| 0 <= i < b.len() implies {
        &&& (#[trigger] b[i]).u == a[i].u
        &&& b[i].v == a[i].v
        &&& b[i].c == a[i].c
        &&& b[i].next == a[i].next
        &&& b[i].w >= 0
        &&& b[i].w + b[mate(i)].w == a[i].w + a[mate(i)].w
    } by {
        assert(e[i].u == e0[i].u);
        assert(e[mate(i)].u == e0[mate(i)].u);
    }
}

/// The cost limit is non-negative and keeps `(x + 1) * sz` times itself
/// below `INF`.
proof fn lemma_cost_limit(sz: int, x: int)
    requires
        1 <= sz,
        0 <= x,
    ensures
        0 <= cost_limit(sz, x),
        (x + 1) * sz * cost_limit(sz, x) < Mcmf::INF,
        sz * cost_limit(sz, x) < Mcmf::INF,
        x * (sz * cost_limit(sz, x)) + cost_limit(sz, x) < Mcmf::INF,
{
    let k = (x + 1) * sz;
    assert(k >= 1) by (nonlinear_arith)
        requires
            k == (x + 1) * sz,
            1 <= sz,
            0 <= x,
    ;
    let c = cost_limit(sz, x);
    lemma_div_pos_is_pos(Mcmf::INF - 1, k);
    lemma_remainder_lower(Mcmf::INF - 1, k);
    assert(c * k <= Mcmf::INF - 1);
    assert(k * c == c * k && sz * c <= k * c && x * (sz * c) + c <= k * c) by (nonlinear_arith)
        requires
            k == (x + 1) * sz,
            1 <= sz,
            0 <= x,
            0 <= c,
    ;
}

/// The first phase meets the booked lower bounds if they can be met: if
/// any flow on the staged network, in balance at every node but the two
/// extra ones, uses the edges out of node `n + 1` to the full, then so does
/// the flow of the first phase.
pub proof fn lemma_bounds_met(old: Net, new: Net, e2: Seq<Edge>)
    requires
        solvable(old),
        solved(old, new),
        rerouted(staged(old).e, e2),
        forall|y: int|
            0 <= y < old.size() && y != old.n + 1 && y != old.n + 2 ==> #[trigger] net_out(
                e2,
                set![y],
            ) == 0,
        net_out(e2, set![old.n + 1]) == cap_out(staged(old).e, set![old.n + 1]),
    ensures
        net_out(ran(staged(old)).e, set![old.n + 1]) == cap_out(staged(old).e, set![old.n + 1]),
{
    let g = staged(old);
    let m1 = ran(g);
    let only = set![old.n + 1];
    assert(g.ss == old.n + 1 && g.tt == old.n + 2 && g.size() == old.size()) by {
        let base = Net { ss: (old.n + 1) as i32, tt: (old.n + 2) as i32, ..old };
        lemma_wf_nonneg(old.e, old.head, old.size(), Set::empty());
        lemma_excess_nonneg(base, old.n as int);
    }
    lemma_rerouted_chain_back(g.e, m1.e, e2);
    assert forall|y: int| 0 <= y < m1.size() && y != m1.ss && y != m1.tt implies #[trigger] net_out(
        e2,
        set![y],
    ) == net_out(m1.e, set![y]) by {
        let p = set![y];
        lemma_idle_staged(old, p);
        assert(net_out(m1.e, p) == net_out(g.e, p) + gain(
            p.contains(g.ss as int),
            m1.maxflow - g.maxflow,
        ) - gain(p.contains(g.tt as int), m1.maxflow - g.maxflow));
    }
    lemma_max_flow(m1, e2);
    lemma_wf_nonneg(m1.e, m1.head, m1.size(), only);
    lemma_net_within_caps(m1.e, only);
    lemma_rerouted_caps(g.e, m1.e, only);
}

/// The staged network carries no flow.
proof fn lemma_idle_staged(old: Net, p: Set<int>)
    requires
        solvable(old),
    ensures
        net_out(staged(old).e, p) == 0,
{
    let base = Net { ss: (old.n + 1) as i32, tt: (old.n + 2) as i32, ..old };
    lemma_excess_idle(base, old.n as int);
    let w = with_excess(base, old.n as int);
    let g = staged(old);
    assert forall|i: int| 0 <= i < g.e.len() && i % 2 == 1 implies (#[trigger] g.e[i]).w == 0 by {
        if i < w.e.len() {
            assert(g.e[i] == w.e[i]);
        }
    }
    lemma_idle(g.e, p);
}

/// Wiring up the excess adds no flow.
proof fn lemma_excess_idle(base: Net, k: int)
    requires
        idle(base.e),
        base.e.len() % 2 == 0,
        0 <= k,
    ensures
        idle(with_excess(base, k).e),
        with_excess(base, k).e.len() % 2 == 0,
    decreases k,
{
    if k > 0 {
        lemma_excess_idle(base, k - 1);
        let prev = with_excess(base, k - 1);
        let a = prev.a[k];
        if a > 0 {
            let h = prev.with_bounded(prev.ss, k as i32, 0, a, 0);
            assert forall|i: int| 0 <= i < h.e.len() && i % 2 == 1 implies (#[trigger] h.e[i]).w
                == 0 by {
                if i < prev.e.len() {
                    assert(h.e[i] == prev.e[i]);
                }
            }
        } else if a < 0 {
            let h = prev.with_bounded(k as i32, prev.tt, 0, (-a) as i32, 0);
            assert forall|i: int| 0 <= i < h.e.len() && i % 2 == 1 implies (#[trigger] h.e[i]).w
                == 0 by {
                if i < prev.e.len() {
                    assert(h.e[i] == prev.e[i]);
                }
            }
        }
    }
}

/// If `e1` and `e2` are both `e0` with flow moved, then `e2` is `e1` with
/// flow moved.
proof fn lemma_rerouted_chain_back(e0: Seq<Edge>, e1: Seq<Edge>, e2: Seq<Edge>)
    requires
        rerouted(e0, e1),
        rerouted(e0, e2),
    ensures
        rerouted(e1, e2),
{
    assert forall|i: int| 0 <= i < e2.len() implies {
        &&& (#[trigger] e2[i]).u == e1[i].u
        &&& e2[i].v == e1[i].v
        &&& e2[i].c == e1[i].c
        &&& e2[i].next == e1[i].next
        &&& e2[i].w >= 0
        &&& e2[i].w + e2[mate(i)].w == e1[i].w + e1[mate(i)].w
    } by {
        assert(e1[i].u == e0[i].u);
        if 0 <= mate(i) < e2.len() {
            assert(e1[mate(i)].u == e0[mate(i)].u);
        }
    }
}

impl Mcmf {
    /// Solves the network in two phases. The first wires the nodes `n + 1`
    /// and `n + 2` to the nodes with booked excess, closes the circulation
    /// with an edge from `t` to `s`, and sends as much as it can from
    /// `n + 1` to `n + 2` at the least cost. The second takes the closing
    /// edge out of use and sends the cheapest maximum flow from `s` to `t`.
    /// The flow value of the second phase is added to `a0`, the cost of
    /// both to `a1`.
    #[verifier::rlimit(40)]
    pub fn solve(&mut self)
        requires
            solvable(old(self)@),
        ensures
            solved(old(self)@, final(self)@),
            final(self)@ == solved_to(old(self)@),
    {
        let ghost start = self@;
        let ghost sz = self@.size();
        let ghost x = cap_out(staged(start).e, set![start.n + 1]);
        let ghost cmax = cost_limit(sz, x);
        self.ss = self.n + 1;
        self.tt = self.n + 2;
        let ghost base = self@;
        let n = self.n;
        let mut i: i32 = 1;
        proof {
            lemma_staged_nonneg(start);
            lemma_cost_limit(sz, x);
        }
        while i <= n
            invariant
                1 <= i <= n + 1,
                n == start.n,
                base == (Net { ss: (start.n + 1) as i32, tt: (start.n + 2) as i32, ..start }),
                solvable(start),
                self@ == with_excess(base, i - 1),
                plain_extension(base, self@, cmax),
                0 <= cmax,
                sz == base.size(),
            decreases n + 1 - i,
        {
            proof {
                assert(start.a[i as int] > i32::MIN);
            }
            let ghost prior = self@;
            let ai = self.a[i as usize];
            if ai > 0 {
                let _ = self.add_edge(self.ss, i, 0, ai, 0);
                proof {
                    lemma_extend_plain(base, prior, cmax, prior.ss, i, ai);
                }
            } else if ai < 0 {
                let _ = self.add_edge(i, self.tt, 0, -ai, 0);
                proof {
                    lemma_extend_plain(base, prior, cmax, i, prior.tt, (-ai) as i32);
                }
            }
            i = i + 1;
        }
        let ghost wired = self@;
        let _ = self.add_edge(self.t, self.s, 0, Self::INF, 0);
        let ghost g = self@;
        let ghost zeros = Seq::new(sz as nat, |v: int| 0int);
        proof {
            assert(g == staged(start));
            lemma_wf_nonneg(g.e, g.head, sz, set![start.n + 1]);
            lemma_cost_limit(sz, x);
            lemma_extend_plain(base, wired, cmax, start.t, start.s, Self::INF);
            assert(plain_extension(base, g, cmax));
            lemma_idle_priced(g, cmax);
            lemma_idle(g.e, set![start.n + 1]);
            lemma_idle(g.e, set![start.s as int]);
            assert(roomy(g, g.ss as int));
        }
        let Ghost(pi1) = self.run(Ghost(zeros), Ghost(0int), Ghost(cmax));
        let ghost m1 = self@;
        let ghost f1 = m1.maxflow - g.maxflow;
        let ghost hi1 = 0 + f1 * (sz * cmax + 0);
        proof {
            let only = set![start.n + 1];
            assert(net_out(m1.e, only) == net_out(g.e, only) + gain(only.contains(g.ss as int), f1)
                - gain(only.contains(g.tt as int), f1));
            lemma_wf_nonneg(m1.e, m1.head, sz, only);
            lemma_net_within_caps(m1.e, only);
            lemma_rerouted_caps(g.e, m1.e, only);
            assert(f1 <= x);
            assert(hi1 <= x * (sz * cmax)) by (nonlinear_arith)
                requires
                    hi1 == f1 * (sz * cmax),
                    0 <= f1 <= x,
                    0 <= sz * cmax,
            ;
            lemma_cost_within_weight(m1.e);
            lemma_rerouted_caps(g.e, m1.e, set![start.s as int]);
            lemma_idle(g.e, Set::empty());
        }
        self.ss = self.s;
        self.tt = self.t;
        self.a1 = self.a1 + self.cost;
        self.maxflow = 0;
        self.cost = 0;
        let len = self.e.len();
        let last = Edge {
            u: self.e[len - 1].u,
            next: self.e[len - 1].next,
            v: self.e[len - 1].v,
            w: 0,
            c: self.e[len - 1].c,
        };
        self.e.set(len - 1, last);
        let prev = Edge {
            u: self.e[len - 2].u,
            next: self.e[len - 2].next,
            v: self.e[len - 2].v,
            w: 0,
            c: self.e[len - 2].c,
        };
        self.e.set(len - 2, prev);
        let ghost m2 = self@;
        let ghost through = m1.e[len - 1].w as int;
        proof {
            assert(m2.e =~= unclosed(m1.e));
            assert(m1.e[len - 2].c == g.e[len - 2].c);
            assert(m1.e[len - 1].u == g.e[len - 1].u);
            assert(m1.e[len - 1].v == g.e[len - 1].v);
            lemma_unclose(m1.e, m1.head, sz);
            lemma_wf_nonneg(m2.e, m2.head, sz, Set::empty());
            lemma_cost_within_weight(m2.e);
            assert(m1.e[len - 1].u == start.s && m1.e[len - 1].v == start.t);
            assert(through >= 0);
            let at_s = set![start.s as int];
            assert(net_out(m1.e, at_s) == net_out(g.e, at_s) + gain(at_s.contains(g.ss as int), f1)
                - gain(at_s.contains(g.tt as int), f1));
            assert(net_out(m2.e, at_s) == net_out(m1.e, at_s) + gain(
                at_s.contains(m1.e[len - 1].u as int),
                through,
            ) - gain(at_s.contains(m1.e[len - 1].v as int), through));
            assert(cap_out(m2.e, at_s) == cap_out(m1.e, at_s));
            assert(priced(m2, pi1, hi1, cmax));
            assert(roomy(m2, m2.ss as int));
            assert(m2 == between(m1));
        }
        let Ghost(pi2) = self.run(Ghost(pi1), Ghost(hi1), Ghost(cmax));
        let ghost m3 = self@;
        proof {
            let at_s = set![start.s as int];
            assert(net_out(m3.e, at_s) == net_out(m2.e, at_s) + gain(
                at_s.contains(m2.ss as int),
                m3.maxflow - m2.maxflow,
            ) - gain(at_s.contains(m2.tt as int), m3.maxflow - m2.maxflow));
            lemma_wf_nonneg(m3.e, m3.head, sz, at_s);
            lemma_net_within_caps(m3.e, at_s);
            lemma_rerouted_caps(m2.e, m3.e, at_s);
            lemma_cost_within_weight(m3.e);
            lemma_unclosed_rerouted(g.e, m1.e);
            lemma_rerouted_chain(unclosed(g.e), m2.e, m3.e);
            assert forall|p: Set<int>| !p.contains(start.n + 1) && !p.contains(
                start.n + 2,
            ) implies #[trigger] net_out(m3.e, p) == gain(
                p.contains(start.s as int),
                through + m3.maxflow,
            ) - gain(p.contains(start.t as int), through + m3.maxflow) by {
                lemma_idle(g.e, p);
                assert(net_out(m1.e, p) == net_out(g.e, p) + gain(p.contains(g.ss as int), f1)
                    - gain(p.contains(g.tt as int), f1));
                assert(net_out(m2.e, p) == net_out(m1.e, p) + gain(
                    p.contains(m1.e[len - 1].u as int),
                    through,
                ) - gain(p.contains(m1.e[len - 1].v as int), through));
                assert(net_out(m3.e, p) == net_out(m2.e, p) + gain(
                    p.contains(m2.ss as int),
                    m3.maxflow - m2.maxflow,
                ) - gain(p.contains(m2.tt as int), m3.maxflow - m2.maxflow));
            }
            assert(carries(
                m3.e,
                start.n as int,
                start.s as int,
                start.t as int,
                through + m3.maxflow,
            ));
        }
        self.a0 = self.a0 + self.maxflow;
        self.a1 = self.a1 + self.cost;
    }
}

} // verus!
