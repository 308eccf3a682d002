//! Augmentation: sending the bottleneck amount along the shortest path that
//! the search found, and repeating search and augmentation until the sink
//! is out of reach.

use crate::flow::{
    cap_out, flow_cost, gain, idle, lemma_cost_within_weight, lemma_net_within_caps, lemma_push,
    lemma_rerouted_caps, lemma_rerouted_chain, lemma_rerouted_wf, net_out, rerouted, thrifty,
    weight,
};
use crate::graph::{edge_ok, mate, Edge, Mcmf, Net};
use crate::search::{costs_within, feasible, hooked, searched, settled, tree};
use vstd::prelude::*;

verus! {

/// Edge `i` joins two labelled nodes and its cost is exactly the difference
/// of their labels.
pub open spec fn tight(d: Seq<i32>, e: Seq<Edge>, i: int) -> bool {
    &&& d[e[i].u as int] < Mcmf::INF
    &&& d[e[i].v as int] < Mcmf::INF
    &&& d[e[i].v as int] == d[e[i].u as int] + e[i].c
}

/// `e` is `e0` after `f` units were sent from `src` to `dst` along edges
/// that are tight for the labels `d`: the net flow out of a node set grows
/// by `f` if it holds `src` and shrinks by `f` if it holds `dst`, and the
/// cost of the flow grows by `f` times the label of `dst`.
pub open spec fn pushed(e0: Seq<Edge>, e: Seq<Edge>, d: Seq<i32>, src: int, dst: int, f: int) -> bool {
    &&& rerouted(e0, e)
    &&& forall|i: int| 0 <= i < e.len() && (#[trigger] e[i]).w != e0[i].w ==> tight(d, e0, i)
    &&& forall|p: Set<int>| #[trigger]
        net_out(e, p) == net_out(e0, p) + gain(p.contains(src), f) - gain(p.contains(dst), f)
    &&& flow_cost(e) == flow_cost(e0) + f * d[dst]
}

/// The tree edge of node `y` still has the residual capacity it had in `e0`.
pub open spec fn intact(e0: Seq<Edge>, e: Seq<Edge>, pre: Seq<usize>, y: int) -> bool {
    e[pre[y] as int].w == e0[pre[y] as int].w
}

/// There is room in `i32` for every flow value and flow cost that
/// augmenting from `src` can produce.
pub open spec fn roomy(net: Net, src: int) -> bool {
    &&& net.maxflow + cap_out(net.e, set![src]) - net_out(net.e, set![src]) <= i32::MAX
    &&& i32::MIN <= net.cost - flow_cost(net.e) - weight(net.e)
    &&& net.cost - flow_cost(net.e) + weight(net.e) <= i32::MAX
}

/// `pi` is a potential for the residual network with values in `0..=hi`.
pub open spec fn potential(e: Seq<Edge>, pi: Seq<int>, sz: int, hi: int) -> bool {
    &&& pi.len() == sz
    &&& feasible(e, pi)
    &&& forall|v: int| 0 <= v < sz ==> 0 <= #[trigger] pi[v] <= hi
}

/// What repeated augmentation needs: a well-formed network with distinct
/// source and sink, a potential (so that no cycle of residual edges has
/// negative cost), and costs and potential small enough for the labels.
pub open spec fn priced(net: Net, pi: Seq<int>, hi: int, cmax: int) -> bool {
    &&& net.wf()
    &&& 0 <= net.ss < net.size()
    &&& 0 <= net.tt < net.size()
    &&& net.ss != net.tt
    &&& potential(net.e, pi, net.size(), hi)
    &&& 0 <= cmax
    &&& costs_within(net.e, cmax)
    &&& net.size() * cmax < Mcmf::INF
    &&& hi + cmax <= 0x4000_0000
}

/// A network without flow and without negative cost on a forward edge has
/// the zero potential.
pub proof fn lemma_idle_priced(net: Net, cmax: int)
    requires
        net.wf(),
        0 <= net.ss < net.size(),
        0 <= net.tt < net.size(),
        net.ss != net.tt,
        idle(net.e),
        thrifty(net.e),
        0 <= cmax < 0x4000_0000,
        costs_within(net.e, cmax),
        net.size() * cmax < Mcmf::INF,
    ensures
        priced(net, Seq::new(net.size() as nat, |v: int| 0int), 0, cmax),
{
    let zeros = Seq::new(net.size() as nat, |v: int| 0int);
    assert forall|j: int| 2 <= j < net.e.len() && (#[trigger] net.e[j]).w > 0 implies zeros[net.e[j].u as int]
        + net.e[j].c >= zeros[net.e[j].v as int] by {
        assert(edge_ok(net.e, net.size(), j));
    }
}

/// `new` is `old` after some amount of flow has been sent from `ss` to
/// `tt`: the amount is the growth of `maxflow` (if it is zero, no edge has
/// changed), it leaves every node set that holds `ss` and enters every one
/// that holds `tt`, all other node sets keep their balance, and `cost` grew
/// by the cost of the added flow.
pub open spec fn augmented(old: Net, new: Net) -> bool {
    &&& new == (Net {
        e: new.e,
        maxflow: new.maxflow,
        cost: new.cost,
        d: new.d,
        incf: new.incf,
        pre: new.pre,
        vis: new.vis,
        q: new.q,
        ..old
    })
    &&& new.wf()
    &&& new.maxflow >= old.maxflow
    &&& new.maxflow == old.maxflow ==> new.e == old.e
    &&& rerouted(old.e, new.e)
    &&& forall|p: Set<int>| #[trigger]
        net_out(new.e, p) == net_out(old.e, p) + gain(
            p.contains(old.ss as int),
            new.maxflow - old.maxflow,
        ) - gain(p.contains(old.tt as int), new.maxflow - old.maxflow)
    &&& new.cost - old.cost == flow_cost(new.e) - flow_cost(old.e)
}

/// No residual path leads from `ss` to `tt`: the nodes with a finite label
/// hold `ss`, not `tt`, and no edge with residual capacity leaves them.
pub open spec fn cut_off(net: Net) -> bool {
    &&& net.d[net.ss as int] < Mcmf::INF
    &&& net.d[net.tt as int] >= Mcmf::INF
    &&& forall|i: int|
        2 <= i < net.e.len() && (#[trigger] net.e[i]).w > 0 && net.d[net.e[i].u as int]
            < Mcmf::INF ==> net.d[net.e[i].v as int] < Mcmf::INF
}

/// The potential after an augmentation: labelled nodes take their label
/// plus `base`, the others are lifted by `lift`.
pub open spec fn repriced(pi: Seq<int>, d: Seq<i32>, base: int, lift: int) -> Seq<int> {
    Seq::new(
        pi.len(),
        |v: int|
            if d[v] < Mcmf::INF {
                base + d[v]
            } else {
                pi[v] + lift
            },
    )
}

/// After flow has been sent along tight edges, the final labels give a new
/// potential.
#[verifier::rlimit(40)]
proof fn lemma_reprice(net: Net, e1: Seq<Edge>, pi: Seq<int>, hi: int, top: int, f: int)
    requires
        net.wf(),
        0 <= net.ss < net.size(),
        potential(net.e, pi, net.size(), hi),
        settled(net, pi, pi[net.ss as int], top),
        net.d[net.ss as int] == 0,
        0 <= top,
        pushed(net.e, e1, net.d, net.ss as int, net.tt as int, f),
    ensures
        potential(
            e1,
            repriced(pi, net.d, pi[net.ss as int], top + pi[net.ss as int]),
            net.size(),
            hi + top + pi[net.ss as int],
        ),
        repriced(pi, net.d, pi[net.ss as int], top + pi[net.ss as int])[net.ss as int]
            == pi[net.ss as int],
{
    let sz = net.size();
    let shift = pi[net.ss as int];
    let pj = repriced(pi, net.d, shift, top + shift);
    assert forall|i: int| 2 <= i < e1.len() && (#[trigger] e1[i]).w > 0 implies pj[e1[i].u as int]
        + e1[i].c >= pj[e1[i].v as int] by {
        assert(edge_ok(net.e, sz, i));
        let x = net.e[i];
        assert(e1[i].u == x.u && e1[i].v == x.v && e1[i].c == x.c);
        let u = x.u as int;
        let v = x.v as int;
        assert(net.d[u] <= Mcmf::INF && net.d[v] <= Mcmf::INF);
        if e1[i].w != x.w {
            assert(tight(net.d, net.e, i));
        } else {
            assert(x.w > 0);
            assert(pi[u] + x.c >= pi[v]);
        }
    }
    assert forall|v: int| 0 <= v < sz implies 0 <= #[trigger] pj[v] <= hi + top + shift by {
        assert(net.d[v] <= Mcmf::INF);
        assert(0 <= pi[v] <= hi);
    }
}

/// Moved flow keeps every edge cost.
proof fn lemma_rerouted_costs(e0: Seq<Edge>, e: Seq<Edge>, cmax: int)
    requires
        rerouted(e0, e),
        costs_within(e0, cmax),
    ensures
        costs_within(e, cmax),
{
    assert forall|i: int| 2 <= i < e.len() implies -cmax <= (#[trigger] e[i]).c <= cmax by {
        assert(e[i].c == e0[i].c);
    }
}

/// The state of the walk back from the sink when it stands at node `x`:
/// `flow` units have been moved on the tree edges between `x` and the sink
/// and on no other edge.
#[verifier::opaque]
pub open spec fn walked(start: Net, rank: Seq<nat>, e: Seq<Edge>, x: int, flow: int) -> bool {
    let e0 = start.e;
    let src = start.ss as int;
    let dst = start.tt as int;
    &&& rerouted(e0, e)
    &&& forall|y: int|
        0 <= y < start.size() && y != src && start.d[y] < Mcmf::INF && rank[y] <= rank[x]
            ==> #[trigger] intact(e0, e, start.pre, y)
    &&& forall|i: int| 0 <= i < e0.len() && (#[trigger] e[i]).w != e0[i].w ==> tight(start.d, e0, i)
    &&& forall|p: Set<int>| #[trigger]
        net_out(e, p) == net_out(e0, p) + gain(p.contains(x), flow) - gain(p.contains(dst), flow)
    &&& flow_cost(e) == flow_cost(e0) + flow * (start.d[dst] - start.d[x])
}

/// The edge array after `flow` units have been sent along edge `i`.
pub open spec fn sent(e: Seq<Edge>, i: int, flow: int) -> Seq<Edge> {
    e.update(i, Edge { w: (e[i].w - flow) as i32, ..e[i] }).update(
        mate(i),
        Edge { w: (e[mate(i)].w + flow) as i32, ..e[mate(i)] },
    )
}

/// One step back along the path: from node `x`, unless it is the source,
/// the bottleneck amount is moved on the tree edge of `x`, and the walk
/// stands at the tail of that edge.
pub open spec fn step_back(net: Net, at: (int, Seq<Edge>)) -> (int, Seq<Edge>) {
    if at.0 == net.ss {
        at
    } else {
        let i = net.pre[at.0] as int;
        (at.1[mate(i)].v as int, sent(at.1, i, net.incf[net.tt as int] as int))
    }
}

/// Where the walk back from the sink stands after `n` steps, and the edges
/// as they are then.
pub open spec fn walk(net: Net, n: nat) -> (int, Seq<Edge>)
    decreases n,
{
    if n == 0 {
        (net.tt as int, net.e)
    } else {
        step_back(net, walk(net, (n - 1) as nat))
    }
}

/// The state after the bottleneck amount has been sent along the tree path
/// from the source to the sink.
pub open spec fn updated(net: Net) -> Net {
    let n = choose|n: nat| walk(net, n).0 == net.ss;
    Net {
        e: walk(net, n).1,
        maxflow: (net.maxflow + net.incf[net.tt as int]) as i32,
        cost: (net.cost + net.incf[net.tt as int] * net.d[net.tt as int]) as i32,
        ..net
    }
}

/// Once the walk has reached the source, it stays there.
pub proof fn lemma_walk_settles(net: Net, n: nat, m: nat)
    requires
        walk(net, n).0 == net.ss,
        n <= m,
    ensures
        walk(net, m) == walk(net, n),
    decreases m - n,
{
    if m > n {
        lemma_walk_settles(net, n, (m - 1) as nat);
    }
}

/// Whenever the walk reaches the source, the edges are those of the
/// updated state.
pub proof fn lemma_updated(net: Net, n: nat)
    requires
        walk(net, n).0 == net.ss,
    ensures
        updated(net).e == walk(net, n).1,
{
    let m = choose|m: nat| walk(net, m).0 == net.ss;
    if m <= n {
        lemma_walk_settles(net, m, n);
    } else {
        lemma_walk_settles(net, n, m);
    }
}

/// One step of the walk: moving the flow on the tree edge of `x` takes the
/// walk to the tail of that edge, one step closer to the source.
#[verifier::rlimit(40)]
proof fn lemma_walk_step(start: Net, rank: Seq<nat>, cur: Seq<Edge>, x: int, flow: int)
    requires
        start.wf(),
        tree(start, rank),
        0 <= x < start.size(),
        x != start.ss,
        start.d[x] < Mcmf::INF,
        start.incf[x] >= flow,
        flow >= 1,
        walked(start, rank, cur, x, flow),
    ensures
        ({
            let i = start.pre[x] as int;
            let u = start.e[i].u as int;
            &&& 2 <= i < cur.len()
            &&& 2 <= mate(i) < cur.len()
            &&& cur.len() == start.e.len()
            &&& cur[i].w >= flow
            &&& cur[mate(i)].w + flow <= i32::MAX
            &&& cur[mate(i)].v == u
            &&& 0 <= u < start.size()
            &&& start.d[u] < Mcmf::INF
            &&& start.incf[u] >= flow
            &&& rank[u] < rank[x]
            &&& walked(start, rank, sent(cur, i, flow), u, flow)
        }),
{
    reveal(walked);
    let e0 = start.e;
    let sz = start.size();
    let src = start.ss as int;
    let dst = start.tt as int;
    let i = start.pre[x] as int;
    let ri = mate(i);
    assert(hooked(start, rank, x));
    assert(intact(e0, cur, start.pre, x));
    lemma_rerouted_wf(e0, cur, start.head, sz);
    assert(edge_ok(cur, sz, i));
    assert(edge_ok(e0, sz, i));
    assert(cur[i].u == e0[i].u);
    assert(cur[ri].u == e0[ri].u);
    let u = e0[i].u as int;
    let c = e0[i].c as int;
    let now = sent(cur, i, flow);
    assert forall|j: int| 0 <= j < now.len() implies {
        &&& (#[trigger] now[j]).u == e0[j].u
        &&& now[j].v == e0[j].v
        &&& now[j].c == e0[j].c
        &&& now[j].next == e0[j].next
        &&& now[j].w >= 0
        &&& now[j].w + now[mate(j)].w == e0[j].w + e0[mate(j)].w
    } by {
        assert(cur[j].u == e0[j].u);
        assert(cur[mate(j)].u == e0[mate(j)].u);
    }
    assert forall|y: int|
        0 <= y < sz && y != src && start.d[y] < Mcmf::INF && rank[y] <= rank[u] implies #[trigger] intact(
        e0,
        now,
        start.pre,
        y,
    ) by {
        assert(hooked(start, rank, y));
        assert(intact(e0, cur, start.pre, y));
    }
    assert forall|j: int| 0 <= j < e0.len() && (#[trigger] now[j]).w != e0[j].w implies tight(
        start.d,
        e0,
        j,
    ) by {
        if j != i && j != ri {
            assert(cur[j].w != e0[j].w);
        }
    }
    assert forall|p: Set<int>| #[trigger]
        net_out(now, p) == net_out(e0, p) + gain(p.contains(u), flow) - gain(
            p.contains(dst),
            flow,
        ) by {
        lemma_push(cur, now, sz, i, flow, p);
        assert(net_out(cur, p) == net_out(e0, p) + gain(p.contains(x), flow) - gain(
            p.contains(dst),
            flow,
        ));
    }
    lemma_push(cur, now, sz, i, flow, Set::empty());
    assert(flow * (start.d[dst] - start.d[x]) + flow * c == flow * (start.d[dst] - start.d[u]))
        by (nonlinear_arith)
        requires
            start.d[x] == start.d[u] + c,
    ;
}

/// One round on a searched state: if the sink was reached, the flow is
/// updated and the search run again.
pub open spec fn round(net: Net) -> Net {
    if net.d[net.tt as int] != Mcmf::INF {
        searched(updated(net))
    } else {
        net
    }
}

/// The state after `n` rounds.
pub open spec fn rounds(net: Net, n: nat) -> Net
    decreases n,
{
    if n == 0 {
        net
    } else {
        round(rounds(net, (n - 1) as nat))
    }
}

/// The rounds have come to an end: the sink is out of reach.
pub open spec fn spent(net: Net) -> bool {
    net.d[net.tt as int] == Mcmf::INF
}

/// The state in which searching and augmenting ends.
pub open spec fn ran(net: Net) -> Net {
    let first = searched(net);
    rounds(first, choose|n: nat| spent(rounds(first, n)))
}

/// Once the sink is out of reach, the state stays as it is.
pub proof fn lemma_rounds_settle(net: Net, n: nat, m: nat)
    requires
        spent(rounds(net, n)),
        n <= m,
    ensures
        rounds(net, m) == rounds(net, n),
    decreases m - n,
{
    if m > n {
        lemma_rounds_settle(net, n, (m - 1) as nat);
    }
}

/// Whenever the sink is out of reach, searching and augmenting has ended in
/// the same state.
pub proof fn lemma_ran(net: Net, n: nat)
    requires
        spent(rounds(searched(net), n)),
    ensures
        ran(net) == rounds(searched(net), n),
{
    let first = searched(net);
    let m = choose|m: nat| spent(rounds(first, m));
    if m <= n {
        lemma_rounds_settle(first, m, n);
    } else {
        lemma_rounds_settle(first, n, m);
    }
}

impl Mcmf {
    /// Sends the bottleneck amount `incf[tt]` along the tree path from `ss`
    /// to `tt`, and adds it to `maxflow` and its cost to `cost`.
    #[verifier::rlimit(40)]
    pub(crate) fn update(&mut self, Ghost(rank): Ghost<Seq<nat>>)
        requires
            old(self)@.wf(),
            0 <= old(self)@.ss < old(self)@.size(),
            0 <= old(self)@.tt < old(self)@.size(),
            old(self)@.ss != old(self)@.tt,
            tree(old(self)@, rank),
            old(self)@.d[old(self)@.tt as int] < Mcmf::INF,
            roomy(old(self)@, old(self)@.ss as int),
        ensures
            final(self)@ == (Net {
                e: final(self)@.e,
                maxflow: final(self)@.maxflow,
                cost: final(self)@.cost,
                ..old(self)@
            }),
            final(self)@.wf(),
            old(self)@.incf[old(self)@.tt as int] >= 1,
            final(self)@.maxflow == old(self)@.maxflow + old(self)@.incf[old(self)@.tt as int],
            final(self)@.cost == old(self)@.cost + old(self)@.incf[old(self)@.tt as int]
                * old(self)@.d[old(self)@.tt as int],
            pushed(
                old(self)@.e,
                final(self)@.e,
                old(self)@.d,
                old(self)@.ss as int,
                old(self)@.tt as int,
                old(self)@.incf[old(self)@.tt as int] as int,
            ),
            final(self)@ == updated(old(self)@),
    {
        let ghost start = self@;
        let ghost mut steps: nat = 0;
        let ghost e0 = self@.e;
        let ghost sz = self@.size();
        let ghost src = self.ss as int;
        let ghost dst = self.tt as int;
        let mut x = self.tt;
        let flow = self.incf[self.tt as usize];
        proof {
            assert(hooked(start, rank, dst));
            assert(e0[0].w + e0[mate(0)].w == e0[0].w + e0[mate(0)].w);
            assert forall|i: int| 0 <= i < e0.len() implies (#[trigger] e0[i]).w >= 0 by {
                if i >= 2 {
                    assert(edge_ok(e0, sz, i));
                }
            }
            assert(flow * (self@.d[dst] - self@.d[dst]) == 0) by (nonlinear_arith);
            reveal(walked);
        }
        while x != self.ss
            invariant
                self@ == (Net { e: self@.e, ..start }),
                start.wf(),
                e0 == start.e,
                sz == start.size(),
                src == start.ss,
                dst == start.tt,
                0 <= dst < sz,
                tree(start, rank),
                flow == start.incf[dst],
                flow >= 1,
                0 <= x < sz,
                start.d[x as int] < Mcmf::INF,
                start.incf[x as int] >= flow,
                walked(start, rank, self@.e, x as int, flow as int),
                walk(start, steps) == (x as int, self@.e),
            decreases rank[x as int],
        {
            let ghost cur = self@.e;
            proof {
                lemma_walk_step(start, rank, cur, x as int, flow as int);
            }
            let i = self.pre[x as usize];
            let ri = i ^ 1;
            proof {
                assert(i % 2 == 0 ==> (i ^ 1) == (i + 1) as usize) by (bit_vector);
                assert(i % 2 == 1 ==> (i ^ 1) == (i - 1) as usize) by (bit_vector);
                assert(ri == mate(i as int));
            }
            let fwd = Edge {
                u: self.e[i].u,
                next: self.e[i].next,
                v: self.e[i].v,
                w: self.e[i].w - flow,
                c: self.e[i].c,
            };
            self.e.set(i, fwd);
            let back = Edge {
                u: self.e[ri].u,
                next: self.e[ri].next,
                v: self.e[ri].v,
                w: self.e[ri].w + flow,
                c: self.e[ri].c,
            };
            let u = back.v;
            self.e.set(ri, back);
            proof {
                assert(self@.e =~= sent(cur, i as int, flow as int));
                assert(step_back(start, (x as int, cur)) == (u as int, self@.e));
                steps = steps + 1;
            }
            x = u;
        }
        proof {
            lemma_updated(start, steps);
        }
        proof {
            reveal(walked);
            let now = self@.e;
            let p = set![src];
            lemma_rerouted_wf(e0, now, start.head, sz);
            assert(net_out(now, p) == net_out(e0, p) + gain(p.contains(src), flow as int) - gain(
                p.contains(dst),
                flow as int,
            ));
            lemma_net_within_caps(now, p);
            lemma_rerouted_caps(e0, now, p);
            lemma_cost_within_weight(now);
            assert(start.d[src] == 0);
            assert(flow * (start.d[dst] - 0) == flow * start.d[dst]);
        }
        self.maxflow = self.maxflow + flow;
        let reach = self.d[self.tt as usize];
        assert(-0x4000_0000_0000_0000 <= reach * flow <= 0x4000_0000_0000_0000) by (nonlinear_arith)
            requires
                -0x8000_0000 <= reach <= 0x8000_0000,
                0 <= flow <= 0x8000_0000,
        ;
        let spent: i64 = (reach as i64) * (flow as i64);
        assert(spent == flow * start.d[dst]) by (nonlinear_arith)
            requires
                spent == reach * flow,
                reach == start.d[dst],
        ;
        self.cost = (self.cost as i64 + spent) as i32;
    }

    /// Searches and augments until the sink is out of reach, keeping a
    /// potential for the residual network along the way.
    #[verifier::rlimit(40)]
    pub(crate) fn run(
        &mut self,
        Ghost(pi0): Ghost<Seq<int>>,
        Ghost(hi): Ghost<int>,
        Ghost(cmax): Ghost<int>,
    ) -> (r: Ghost<Seq<int>>)
        requires
            priced(old(self)@, pi0, hi, cmax),
            roomy(old(self)@, old(self)@.ss as int),
        ensures
            augmented(old(self)@, final(self)@),
            cut_off(final(self)@),
            potential(
                final(self)@.e,
                r@,
                old(self)@.size(),
                hi + (final(self)@.maxflow - old(self)@.maxflow) * (old(self)@.size() * cmax + hi),
            ),
            final(self)@ == ran(old(self)@),
    {
        let ghost start = self@;
        let ghost mut done: nat = 0;
        let ghost sz = self@.size();
        let ghost src = self.ss as int;
        let ghost dst = self.tt as int;
        let ghost shift = pi0[src];
        let ghost top = (sz - 1) * cmax;
        let ghost step = sz * cmax + hi;
        let ghost mut pi = pi0;
        let ghost mut h = hi;
        proof {
            assert(0 <= pi0[src] <= hi);
            assert(top >= 0 && top + cmax == sz * cmax) by (nonlinear_arith)
                requires
                    top == (sz - 1) * cmax,
                    sz >= 1,
                    cmax >= 0,
            ;
            assert(0 * step == 0);
            assert(rerouted(start.e, start.e)) by {
                assert forall|i: int| 0 <= i < start.e.len() implies (#[trigger] start.e[i]).w
                    >= 0 by {
                    if i >= 2 {
                        assert(edge_ok(start.e, sz, i));
                    }
                }
            }
            assert forall|v: int| 0 <= v < sz implies #[trigger] pi[v] >= pi[src] - shift by {}
        }
        let mut r = self.spfa(Ghost(pi), Ghost(cmax), Ghost(shift));
        while r.0
            invariant
                priced(start, pi0, hi, cmax),
                roomy(start, src),
                sz == start.size(),
                src == start.ss,
                dst == start.tt,
                shift == pi0[src],
                0 <= shift <= hi,
                top == (sz - 1) * cmax,
                0 <= top,
                top + cmax == sz * cmax,
                step == sz * cmax + hi,
                augmented(start, self@),
                potential(self@.e, pi, sz, h),
                pi[src] == shift,
                h <= hi + (self@.maxflow - start.maxflow) * step,
                settled(self@, pi, shift, top),
                tree(self@, r.1@),
                r.0 == (self@.d[dst] != Mcmf::INF),
                self@ == rounds(searched(start), done),
            decreases cap_out(start.e, set![src]) - net_out(self@.e, set![src]),
        {
            let ghost before = self@;
            let ghost only = set![src];
            proof {
                lemma_rerouted_caps(start.e, before.e, only);
                assert(net_out(before.e, only) == net_out(start.e, only) + gain(
                    only.contains(src),
                    before.maxflow - start.maxflow,
                ) - gain(only.contains(dst), before.maxflow - start.maxflow));
                assert(before.d[dst] <= Mcmf::INF);
            }
            self.update(r.1);
            let ghost f = before.incf[dst] as int;
            proof {
                let after = self@;
                lemma_reprice(before, after.e, pi, h, top, f);
                pi = repriced(pi, before.d, shift, top + shift);
                assert(h + top + shift <= hi + (after.maxflow - start.maxflow) * step)
                    by (nonlinear_arith)
                    requires
                        h <= hi + (before.maxflow - start.maxflow) * step,
                        after.maxflow == before.maxflow + f,
                        f >= 1,
                        top + shift <= step,
                        0 <= step,
                ;
                h = h + top + shift;
                lemma_rerouted_chain(start.e, before.e, after.e);
                lemma_rerouted_costs(start.e, after.e, cmax);
                assert forall|p: Set<int>| #[trigger]
                    net_out(after.e, p) == net_out(start.e, p) + gain(
                        p.contains(src),
                        after.maxflow - start.maxflow,
                    ) - gain(p.contains(dst), after.maxflow - start.maxflow) by {
                    assert(net_out(before.e, p) == net_out(start.e, p) + gain(
                        p.contains(src),
                        before.maxflow - start.maxflow,
                    ) - gain(p.contains(dst), before.maxflow - start.maxflow));
                    assert(net_out(after.e, p) == net_out(before.e, p) + gain(p.contains(src), f)
                        - gain(p.contains(dst), f));
                }
                assert(net_out(after.e, only) == net_out(before.e, only) + gain(
                    only.contains(src),
                    f,
                ) - gain(only.contains(dst), f));
                lemma_net_within_caps(after.e, only);
                lemma_rerouted_caps(start.e, after.e, only);
                assert forall|v: int| 0 <= v < sz implies #[trigger] pi[v] >= pi[src] - shift by {}
            }
            r = self.spfa(Ghost(pi), Ghost(cmax), Ghost(shift));
            proof {
                assert(self@ == round(before));
                done = done + 1;
            }
        }
        proof {
            lemma_ran(start, done);
        }
        Ghost(pi)
    }

    /// Sends flow from `ss` to `tt` along cheapest residual paths until no
    /// residual path is left, adding the amount to `maxflow` and its cost
    /// to `cost`.
    pub fn work(&mut self)
        requires
            exists|pi: Seq<int>, hi: int, cmax: int| priced(old(self)@, pi, hi, cmax),
            roomy(old(self)@, old(self)@.ss as int),
        ensures
            augmented(old(self)@, final(self)@),
            cut_off(final(self)@),
            exists|pi: Seq<int>, hi: int| potential(final(self)@.e, pi, old(self)@.size(), hi),
            final(self)@ == ran(old(self)@),
    {
        let ghost w = choose|w: (Seq<int>, int, int)| priced(self@, w.0, w.1, w.2);
        proof {
            let (pi, hi, cmax) = choose|pi: Seq<int>, hi: int, cmax: int|
                priced(self@, pi, hi, cmax);
            assert(priced(self@, (pi, hi, cmax).0, (pi, hi, cmax).1, (pi, hi, cmax).2));
        }
        let _r = self.run(Ghost(w.0), Ghost(w.1), Ghost(w.2));
    }
}

} // verus!
