//! Shortest-path labelling of the residual network from the current source,
//! by queue-driven relaxation.

use crate::graph::{edge_ok, head_ok, link_ok, Edge, Mcmf, Net};
use crate::sums::{lemma_sum_change_one, lemma_sum_nonneg, lemma_sum_ones, sum};
use vstd::prelude::*;

verus! {

/// `pi` is a potential for the residual network: no edge with residual
/// capacity is cheaper than the drop in potential along it.
pub open spec fn feasible(e: Seq<Edge>, pi: Seq<int>) -> bool {
    forall|i: int|
        2 <= i < e.len() && (#[trigger] e[i]).w > 0 ==> pi[e[i].u as int] + e[i].c >= pi[e[i].v as int]
}

/// Every edge cost lies within `-cmax..=cmax`.
pub open spec fn costs_within(e: Seq<Edge>, cmax: int) -> bool {
    forall|i: int| 2 <= i < e.len() ==> -cmax <= (#[trigger] e[i]).c <= cmax
}

/// Edge `i` has residual capacity and would shorten the label of its head.
pub open spec fn tense(d: Seq<i32>, e: Seq<Edge>, i: int) -> bool {
    &&& e[i].w > 0
    &&& d[e[i].u as int] < Mcmf::INF
    &&& d[e[i].u as int] + e[i].c < d[e[i].v as int]
}

/// The lower bound that the potential puts on the label of `v`, capped at
/// the label of an unreached node.
pub open spec fn floor_at(pi: Seq<int>, src: int, v: int) -> int {
    let x = pi[v] - pi[src];
    if x < Mcmf::INF {
        x
    } else {
        Mcmf::INF as int
    }
}

/// How far each label is above its lower bound.
pub open spec fn slack_term(d: Seq<i32>, pi: Seq<int>, src: int) -> spec_fn(int) -> int {
    |v: int| d[v] - floor_at(pi, src, v)
}

/// One for each node without a finite label.
pub open spec fn far_term(d: Seq<i32>) -> spec_fn(int) -> int {
    |v: int|
        if d[v] < Mcmf::INF {
            0
        } else {
            1
        }
}

/// What the search needs: a well-formed network, source and sink among its
/// nodes, a potential that bounds labels from below by `-slack`, and costs
/// small enough that no label can reach `INF` or leave `i32`.
pub open spec fn search_ready(net: Net, pi: Seq<int>, cmax: int, slack: int) -> bool {
    &&& net.wf()
    &&& 0 <= net.ss < net.size()
    &&& 0 <= net.tt < net.size()
    &&& pi.len() == net.size()
    &&& feasible(net.e, pi)
    &&& forall|v: int| 0 <= v < net.size() ==> #[trigger] pi[v] >= pi[net.ss as int] - slack
    &&& 0 <= slack
    &&& 0 <= cmax
    &&& costs_within(net.e, cmax)
    &&& net.size() * cmax < Mcmf::INF
    &&& slack + cmax <= 0x4000_0000
}

/// Node `v` records how its label was last set: through edge `pre[v]`, from
/// a labelled tail. While the tail's label has not improved since, the
/// label of `v` is the tail's plus the edge cost, `v` is one step further
/// from the source, and its bottleneck is the smaller of the tail's and the
/// edge's capacity.
pub open spec fn hooked_weak(net: Net, rank: Seq<nat>, v: int) -> bool {
    let i = net.pre[v] as int;
    let x = net.e[i];
    let u = x.u as int;
    &&& 2 <= i < net.e.len()
    &&& x.v == v
    &&& x.w > 0
    &&& net.d[u] < Mcmf::INF
    &&& net.incf[v] >= 1
    &&& net.d[v] >= net.d[u] + x.c
    &&& net.d[v] == net.d[u] + x.c ==> {
        &&& rank[v] == rank[u] + 1
        &&& net.incf[v] == if net.incf[u] < x.w {
            net.incf[u]
        } else {
            x.w
        }
    }
}

/// Node `v` hangs off the shortest-path tree by edge `pre[v]`.
pub open spec fn hooked(net: Net, rank: Seq<nat>, v: int) -> bool {
    let i = net.pre[v] as int;
    let x = net.e[i];
    let u = x.u as int;
    &&& 2 <= i < net.e.len()
    &&& x.v == v
    &&& x.w > 0
    &&& net.d[u] < Mcmf::INF
    &&& net.incf[v] >= 1
    &&& net.d[v] == net.d[u] + x.c
    &&& rank[v] == rank[u] + 1
    &&& net.incf[v] == if net.incf[u] < x.w {
        net.incf[u]
    } else {
        x.w
    }
}

/// Every labelled node but the source hangs off the tree, `rank` counts the
/// steps from the source, and the source's bottleneck is unbounded.
pub open spec fn tree(net: Net, rank: Seq<nat>) -> bool {
    &&& rank.len() == net.size()
    &&& net.d[net.ss as int] == 0
    &&& net.incf[net.ss as int] == i32::MAX
    &&& forall|v: int|
        0 <= v < net.size() && v != net.ss && net.d[v] < Mcmf::INF ==> #[trigger] hooked(
            net,
            rank,
            v,
        )
}

/// The labels are final: finite labels lie between `-slack` and `top` and
/// respect the potential, and no edge with residual capacity leaves the
/// labelled nodes or could shorten a label.
pub open spec fn settled(net: Net, pi: Seq<int>, slack: int, top: int) -> bool {
    &&& forall|v: int|
        0 <= v < net.size() ==> (#[trigger] net.d[v]) <= Mcmf::INF && (net.d[v] < Mcmf::INF ==> {
            &&& -slack <= net.d[v] <= top
            &&& net.d[v] >= pi[v] - pi[net.ss as int]
        })
    &&& forall|i: int|
        2 <= i < net.e.len() && (#[trigger] net.e[i]).w > 0 && net.d[net.e[i].u as int]
            < Mcmf::INF ==> {
            &&& net.d[net.e[i].v as int] < Mcmf::INF
            &&& net.d[net.e[i].u as int] + net.e[i].c >= net.d[net.e[i].v as int]
        }
}

/// Every tense edge has its tail in the queue, or is an edge of `hold` at
/// or below index `upto` (the part of `hold`'s list not yet scanned).
pub open spec fn calm(net: Net, hold: int, upto: int) -> bool {
    forall|j: int|
        2 <= j < net.e.len() && #[trigger] tense(net.d, net.e, j) ==> net.q.contains(net.e[j].u)
            || (net.e[j].u == hold && j <= upto)
}

/// What holds between relaxations.
pub open spec fn search_inv(
    net: Net,
    start: Net,
    pi: Seq<int>,
    cmax: int,
    slack: int,
    rank: Seq<nat>,
    rem: int,
    top: int,
) -> bool {
    let sz = start.size();
    let src = start.ss as int;
    &&& search_ready(start, pi, cmax, slack)
    &&& net == (Net { d: net.d, incf: net.incf, pre: net.pre, vis: net.vis, q: net.q, ..start })
    &&& net.d.len() == sz
    &&& net.incf.len() == sz
    &&& net.pre.len() == sz
    &&& net.vis.len() == sz
    &&& rank.len() == sz
    &&& net.d[src] == 0
    &&& net.incf[src] == i32::MAX
    &&& 0 <= top
    &&& top + cmax < Mcmf::INF
    &&& 0 <= rem
    &&& rem == sum(far_term(net.d), sz) * cmax
    &&& forall|v: int| 0 <= v < sz ==> floor_at(pi, src, v) <= (#[trigger] net.d[v]) <= Mcmf::INF
    &&& forall|v: int| 0 <= v < sz && (#[trigger] net.d[v]) < Mcmf::INF ==> net.d[v] + rem <= top
    &&& forall|k: int|
        0 <= k < net.q.len() ==> 0 <= (#[trigger] net.q[k]) < sz && net.d[net.q[k] as int]
            < Mcmf::INF
    &&& forall|v: int| 0 <= v < sz && (#[trigger] net.vis[v]) ==> net.q.contains(v as i32)
    &&& forall|v: int|
        0 <= v < sz && v != src && net.d[v] < Mcmf::INF ==> #[trigger] hooked_weak(net, rank, v)
}

/// Pushing onto a queue keeps what it held and adds what was pushed.
pub proof fn lemma_contains_push(q: Seq<i32>, x: i32, y: i32)
    ensures
        q.push(x).contains(x),
        q.contains(y) ==> q.push(x).contains(y),
{
    assert(q.push(x)[q.len() as int] == x);
    if q.contains(y) {
        let k = choose|k: int| 0 <= k < q.len() && q[k] == y;
        assert(q.push(x)[k] == y);
    }
}

/// Taking the first element out of a queue keeps the others.
pub proof fn lemma_contains_pop(q: Seq<i32>, y: i32)
    requires
        q.len() > 0,
        q.contains(y),
        y != q[0],
    ensures
        q.subrange(1, q.len() as int).contains(y),
{
    let k = choose|k: int| 0 <= k < q.len() && q[k] == y;
    assert(q.subrange(1, q.len() as int)[k - 1] == y);
}

/// The state after the label of the head of edge `i` has been shortened
/// through that edge.
pub open spec fn relaxed(net: Net, i: int) -> Net {
    let x = net.e[i];
    let u = x.u as int;
    let v = x.v as int;
    Net {
        d: net.d.update(v, (net.d[u] + x.c) as i32),
        pre: net.pre.update(v, i as usize),
        incf: net.incf.update(
            v,
            if net.incf[u] < x.w {
                net.incf[u]
            } else {
                x.w
            },
        ),
        vis: net.vis.update(v, true),
        q: if net.vis[v] {
            net.q
        } else {
            net.q.push(x.v)
        },
        ..net
    }
}

/// The state in which the search starts: only the source is labelled, and
/// only the source waits in the queue.
pub open spec fn search_start(net: Net) -> Net {
    Net {
        q: seq![net.ss],
        vis: Seq::new(net.vis.len(), |v: int| false),
        d: Seq::new(net.d.len(), |v: int| Mcmf::INF).update(net.ss as int, 0),
        incf: net.incf.update(net.ss as int, i32::MAX),
        ..net
    }
}

/// The state after the adjacency list that holds edge `i` has been scanned
/// from edge `i` on: each edge that shortens the label of its head is
/// relaxed.
pub open spec fn scan(net: Net, i: int) -> Net
    decreases i,
{
    if 2 <= i < net.e.len() {
        let x = net.e[i];
        let step = if x.w > 0 && net.d[x.u as int] + x.c < net.d[x.v as int] {
            relaxed(net, i)
        } else {
            net
        };
        if x.next < i {
            scan(step, x.next as int)
        } else {
            step
        }
    } else {
        net
    }
}

/// The state after the first node of the queue has been taken out and its
/// adjacency list scanned; the state itself if the queue is empty.
pub open spec fn pop_scan(net: Net) -> Net {
    if net.q.len() == 0 {
        net
    } else {
        let u = net.q[0] as int;
        scan(
            Net { q: net.q.subrange(1, net.q.len() as int), vis: net.vis.update(u, false), ..net },
            net.head[u] as int,
        )
    }
}

/// The state after `n` nodes have been taken out of the queue.
pub open spec fn search_steps(net: Net, n: nat) -> Net
    decreases n,
{
    if n == 0 {
        net
    } else {
        pop_scan(search_steps(net, (n - 1) as nat))
    }
}

/// The state in which the search ends: the queue has run empty.
pub open spec fn searched(net: Net) -> Net {
    let start = search_start(net);
    search_steps(start, choose|n: nat| search_steps(start, n).q.len() == 0)
}

/// Once the queue is empty, the state stays as it is.
pub proof fn lemma_search_settles(net: Net, n: nat, m: nat)
    requires
        search_steps(net, n).q.len() == 0,
        n <= m,
    ensures
        search_steps(net, m) == search_steps(net, n),
    decreases m - n,
{
    if m > n {
        lemma_search_settles(net, n, (m - 1) as nat);
    }
}

/// Whenever the queue runs empty, the search has ended in the same state.
pub proof fn lemma_searched(net: Net, n: nat)
    requires
        search_steps(search_start(net), n).q.len() == 0,
    ensures
        searched(net) == search_steps(search_start(net), n),
{
    let start = search_start(net);
    let m = choose|m: nat| search_steps(start, m).q.len() == 0;
    if m <= n {
        lemma_search_settles(start, m, n);
    } else {
        lemma_search_settles(start, n, m);
    }
}

/// One relaxation keeps what holds between relaxations, settles the edge
/// that was relaxed, and brings the labels closer to their lower bounds.
#[verifier::rlimit(40)]
proof fn lemma_relax(
    net: Net,
    start: Net,
    pi: Seq<int>,
    cmax: int,
    slack: int,
    rank: Seq<nat>,
    rem: int,
    top: int,
    i: int,
) -> (r: (Seq<nat>, int))
    requires
        search_inv(net, start, pi, cmax, slack, rank, rem, top),
        2 <= i < net.e.len(),
        i <= usize::MAX,
        calm(net, net.e[i].u as int, i),
        tense(net.d, net.e, i),
    ensures
        search_inv(relaxed(net, i), start, pi, cmax, slack, r.0, r.1, top),
        calm(relaxed(net, i), net.e[i].u as int, i - 1),
        sum(slack_term(relaxed(net, i).d, pi, start.ss as int), start.size()) < sum(
            slack_term(net.d, pi, start.ss as int),
            start.size(),
        ),
        net.e[i].v != net.e[i].u,
{
    let sz = start.size();
    let src = start.ss as int;
    let x = net.e[i];
    let u = x.u as int;
    let v = x.v as int;
    let out = relaxed(net, i);
    assert(edge_ok(net.e, sz, i));
    assert(net.d[u] >= floor_at(pi, src, u));
    assert(pi[u] + x.c >= pi[v]);
    assert(net.d[v] <= Mcmf::INF);
    assert(net.d[u] + rem <= top);
    assert(pi[u] >= pi[src] - slack);
    let nd = net.d[u] + x.c;
    assert(-0x4000_0000 <= nd < Mcmf::INF);
    assert(out.d[v] == nd);
    assert(u != v);
    assert(v != src);
    let rank1 = rank.update(v, rank[u] + 1);
    let fresh = !(net.d[v] < Mcmf::INF);
    let rem1 = if fresh {
        rem - cmax
    } else {
        rem
    };
    let far0 = sum(far_term(net.d), sz);
    let far1 = sum(far_term(out.d), sz);
    assert forall|y: int| 0 <= y < sz && y != v implies #[trigger] far_term(net.d)(y) == far_term(
        out.d,
    )(y) by {}
    lemma_sum_change_one(far_term(net.d), far_term(out.d), sz, v);
    assert forall|y: int| 0 <= y < sz implies 0 <= #[trigger] far_term(out.d)(y) by {}
    lemma_sum_nonneg(far_term(out.d), sz);
    if fresh {
        assert(far1 == far0 - 1);
        assert(rem1 == far1 * cmax && rem1 >= 0) by (nonlinear_arith)
            requires
                rem == far0 * cmax,
                far1 == far0 - 1,
                far1 >= 0,
                cmax >= 0,
                rem1 == rem - cmax,
        ;
    } else {
        assert(far1 == far0);
    }
    assert forall|y: int| 0 <= y < sz && y != v implies #[trigger] slack_term(net.d, pi, src)(y)
        == slack_term(out.d, pi, src)(y) by {}
    lemma_sum_change_one(slack_term(net.d, pi, src), slack_term(out.d, pi, src), sz, v);
    assert forall|y: int| 0 <= y < sz implies floor_at(pi, src, y) <= (#[trigger] out.d[y])
        <= Mcmf::INF by {
        if y != v {
            assert(out.d[y] == net.d[y]);
        }
    }
    assert forall|y: int| 0 <= y < sz && (#[trigger] out.d[y]) < Mcmf::INF implies out.d[y] + rem1
        <= top by {
        if y != v {
            assert(out.d[y] == net.d[y]);
        }
    }
    assert forall|k: int| 0 <= k < out.q.len() implies 0 <= (#[trigger] out.q[k]) < sz
        && out.d[out.q[k] as int] < Mcmf::INF by {
        if k < net.q.len() {
            assert(out.q[k] == net.q[k]);
        }
    }
    assert forall|y: int| 0 <= y < sz && (#[trigger] out.vis[y]) implies out.q.contains(
        y as i32,
    ) by {
        lemma_contains_push(net.q, x.v, y as i32);
        if y != v {
            assert(net.vis[y]);
        }
    }
    assert(net.incf[u] >= 1) by {
        if u != src {
            assert(hooked_weak(net, rank, u));
        }
    }
    assert forall|y: int| 0 <= y < sz && y != src && out.d[y] < Mcmf::INF implies #[trigger] hooked_weak(
        out,
        rank1,
        y,
    ) by {
        if y != v {
            assert(net.d[y] == out.d[y]);
            assert(hooked_weak(net, rank, y));
            let j = net.pre[y] as int;
            assert(edge_ok(net.e, sz, j));
            let t = net.e[j].u as int;
            if t == v {
                assert(out.d[t] < net.d[t]);
            } else {
                assert(out.d[t] == net.d[t]);
                assert(out.incf[t] == net.incf[t]);
                assert(rank1[t] == rank[t]);
            }
        } else {
            assert(out.pre[v] == i);
            assert(out.d[u] == net.d[u]);
            assert(out.incf[u] == net.incf[u]);
            assert(rank1[u] == rank[u]);
        }
    }
    assert forall|j: int| 2 <= j < out.e.len() && #[trigger] tense(out.d, out.e, j) implies out.q.contains(
        out.e[j].u,
    ) || (out.e[j].u == u && j <= i - 1) by {
        assert(edge_ok(net.e, sz, j));
        lemma_contains_push(net.q, x.v, out.e[j].u);
        if tense(net.d, net.e, j) {
        } else {
            assert(out.e[j].u == v);
            assert(out.vis[v]);
        }
    }
    (rank1, rem1)
}

/// Sets every element of `v` to `x`.
pub(crate) fn fill_labels(v: &mut Vec<i32>, x: i32)
    ensures
        final(v)@.len() == old(v)@.len(),
        forall|i: int| 0 <= i < final(v)@.len() ==> final(v)@[i] == x,
{
    let n = v.len();
    let mut k: usize = 0;
    while k < n
        invariant
            v@.len() == n,
            k <= n,
            forall|i: int| 0 <= i < k ==> v@[i] == x,
        decreases n - k,
    {
        v.set(k, x);
        k = k + 1;
    }
}

/// Sets every element of `v` to `x`.
fn fill_flags(v: &mut Vec<bool>, x: bool)
    ensures
        final(v)@.len() == old(v)@.len(),
        forall|i: int| 0 <= i < final(v)@.len() ==> final(v)@[i] == x,
{
    let n = v.len();
    let mut k: usize = 0;
    while k < n
        invariant
            v@.len() == n,
            k <= n,
            forall|i: int| 0 <= i < k ==> v@[i] == x,
        decreases n - k,
    {
        v.set(k, x);
        k = k + 1;
    }
}

impl Mcmf {
    /// Labels every node with the cost of a cheapest residual path from the
    /// source `ss`, together with the last edge of one such path and the
    /// bottleneck capacity along it; nodes that no residual path reaches
    /// keep the label `INF`. Returns whether the sink `tt` was reached.
    #[verifier::rlimit(40)]
    pub(crate) fn spfa(
        &mut self,
        Ghost(pi): Ghost<Seq<int>>,
        Ghost(cmax): Ghost<int>,
        Ghost(slack): Ghost<int>,
    ) -> (r: (bool, Ghost<Seq<nat>>))
        requires
            search_ready(old(self)@, pi, cmax, slack),
        ensures
            final(self)@ == (Net {
                d: final(self)@.d,
                incf: final(self)@.incf,
                pre: final(self)@.pre,
                vis: final(self)@.vis,
                q: final(self)@.q,
                ..old(self)@
            }),
            final(self)@.wf(),
            r.0 == (final(self)@.d[old(self)@.tt as int] != Mcmf::INF),
            settled(final(self)@, pi, slack, (old(self)@.size() - 1) * cmax),
            tree(final(self)@, r.1@),
            final(self)@ == searched(old(self)@),
    {
        let sz = self.d.len();
        let ghost top = (sz - 1) * cmax;
        assert(top >= 0 && top + cmax == sz * cmax) by (nonlinear_arith)
            requires
                top == (sz - 1) * cmax,
                sz >= 1,
                cmax >= 0,
        ;
        self.q.clear();
        fill_flags(&mut self.vis, false);
        fill_labels(&mut self.d, Self::INF);
        let ghost blank = self.d@;
        self.q.push_back(self.ss);
        let src = self.ss as usize;
        self.d.set(src, 0);
        self.incf.set(src, i32::MAX);
        let ghost mut rank: Seq<nat> = Seq::new(sz as nat, |v: int| 0nat);
        let ghost mut rem: int = top;
        let ghost begun = search_start(old(self)@);
        let ghost mut taken: nat = 0;
        proof {
            assert(self@.vis =~= begun.vis);
            assert(self@.d =~= begun.d);
            assert(self@.q =~= begun.q);
            assert(self@ == begun);
            assert forall|v: int| 0 <= v < sz implies #[trigger] far_term(blank)(v) == 1 by {}
            lemma_sum_ones(far_term(blank), sz as int);
            assert forall|v: int| 0 <= v < sz && v != src implies #[trigger] far_term(blank)(v)
                == far_term(self@.d)(v) by {}
            lemma_sum_change_one(far_term(blank), far_term(self@.d), sz as int, src as int);
            assert(sum(far_term(self@.d), sz as int) == sz - 1);
            assert(self@.q[0] == self.ss);
            assert forall|j: int| 2 <= j < self@.e.len() && #[trigger] tense(
                self@.d,
                self@.e,
                j,
            ) implies self@.q.contains(self@.e[j].u) by {
                assert(edge_ok(self@.e, sz as int, j));
            }
        }
        while self.q.len() > 0
            invariant
                search_inv(self@, old(self)@, pi, cmax, slack, rank, rem, top),
                calm(self@, -1, 0),
                sz == old(self)@.size(),
                src == old(self)@.ss,
                top == (sz - 1) * cmax,
                self@ == search_steps(begun, taken),
            decreases
                    sum(slack_term(self@.d, pi, old(self)@.ss as int), sz as int),
                    self@.q.len(),
        {
            let ghost before = self@;
            let u = self.q.pop_front().unwrap();
            let uu = u as usize;
            self.vis.set(uu, false);
            let mut i = self.head[uu];
            let ghost m0 = sum(slack_term(self@.d, pi, old(self)@.ss as int), sz as int);
            let ghost q0 = self@.q.len();
            let ghost goal = pop_scan(before);
            proof {
                assert(self@.q =~= before.q.subrange(1, before.q.len() as int));
                assert(self@ == (Net {
                    q: before.q.subrange(1, before.q.len() as int),
                    vis: before.vis.update(u as int, false),
                    ..before
                }));
            }
            proof {
                assert forall|y: int| 0 <= y < sz implies 0 <= #[trigger] slack_term(
                    self@.d,
                    pi,
                    old(self)@.ss as int,
                )(y) by {
                    assert(floor_at(pi, old(self)@.ss as int, y) <= self@.d[y]);
                }
                assert(before.q[0] == u);
                assert(head_ok(self@.e, self@.head, uu as int));
                assert forall|k: int| 0 <= k < self@.q.len() implies 0 <= (#[trigger] self@.q[k])
                    < sz && self@.d[self@.q[k] as int] < Mcmf::INF by {
                    assert(self@.q[k] == before.q[k + 1]);
                }
                assert forall|y: int| 0 <= y < sz && (#[trigger] self@.vis[y]) implies self@.q.contains(
                y as i32) by {
                    assert(before.vis[y]);
                    lemma_contains_pop(before.q, y as i32);
                }
                assert forall|y: int|
                    0 <= y < sz && y != src && self@.d[y] < Mcmf::INF implies #[trigger] hooked_weak(
                    self@,
                    rank,
                    y,
                ) by {
                    assert(hooked_weak(before, rank, y));
                }
                assert forall|j: int| 2 <= j < self@.e.len() && #[trigger] tense(
                    self@.d,
                    self@.e,
                    j,
                ) implies self@.q.contains(self@.e[j].u) || (self@.e[j].u == u && j <= i) by {
                    assert(tense(before.d, before.e, j));
                    if self@.e[j].u != u {
                        lemma_contains_pop(before.q, self@.e[j].u);
                    }
                }
            }
            while i != 0
                invariant
                    search_inv(self@, old(self)@, pi, cmax, slack, rank, rem, top),
                    calm(self@, u as int, i as int),
                    sz == old(self)@.size(),
                    src == old(self)@.ss,
                    top == (sz - 1) * cmax,
                    0 <= u < sz,
                    uu == u,
                    self@.d[u as int] < Mcmf::INF,
                    i < self@.e.len(),
                    i != 1,
                    i != 0 ==> self@.e[i as int].u == u,
                    sum(slack_term(self@.d, pi, old(self)@.ss as int), sz as int) <= m0,
                    sum(slack_term(self@.d, pi, old(self)@.ss as int), sz as int) == m0
                        ==> self@.q.len() == q0,
                    scan(self@, i as int) == goal,
                decreases i,
            {
                proof {
                    assert(edge_ok(self@.e, sz as int, i as int));
                    assert(link_ok(self@.e, i as int));
                    assert(self@.d[u as int] >= floor_at(pi, old(self)@.ss as int, u as int));
                    assert(pi[u as int] >= pi[old(self)@.ss as int] - slack);
                    assert(self@.d[u as int] + rem <= top);
                    assert(-cmax <= self@.e[i as int].c <= cmax);
                }
                let ghost entry = self@;
                let w = self.e[i].w;
                let c = self.e[i].c;
                let v = self.e[i].v;
                let next = self.e[i].next;
                let vv = v as usize;
                let nd = self.d[uu] + c;
                if w > 0 && nd < self.d[vv] {
                    let ghost prior = self@;
                    proof {
                        let r = lemma_relax(prior, old(self)@, pi, cmax, slack, rank, rem, top, i as int);
                        rank = r.0;
                        rem = r.1;
                    }
                    self.d.set(vv, nd);
                    self.pre.set(vv, i);
                    let through = self.incf[uu];
                    let f = if through < w {
                        through
                    } else {
                        w
                    };
                    self.incf.set(vv, f);
                    if !self.vis[vv] {
                        self.vis.set(vv, true);
                        self.q.push_back(v);
                    }
                    proof {
                        assert(self@.vis =~= relaxed(prior, i as int).vis);
                        assert(self@ == relaxed(prior, i as int));
                    }
                }
                proof {
                    assert forall|j: int| 2 <= j < self@.e.len() && #[trigger] tense(
                        self@.d,
                        self@.e,
                        j,
                    ) implies self@.q.contains(self@.e[j].u) || (self@.e[j].u == u && j
                        <= next) by {
                        if !self@.q.contains(self@.e[j].u) {
                            assert(j != i);
                            assert(self@.e[j].u == u && j < i);
                        }
                    }
                    assert(scan(entry, i as int) == scan(self@, next as int));
                }
                i = next;
            }
            proof {
                assert forall|y: int| 0 <= y < sz implies 0 <= #[trigger] slack_term(
                    self@.d,
                    pi,
                    old(self)@.ss as int,
                )(y) by {
                    assert(floor_at(pi, old(self)@.ss as int, y) <= self@.d[y]);
                }
                lemma_sum_nonneg(slack_term(self@.d, pi, old(self)@.ss as int), sz as int);
                assert(self@ == pop_scan(search_steps(begun, taken)));
                taken = taken + 1;
            }
        }
        proof {
            lemma_searched(old(self)@, taken);
        }
        let found = self.d[self.tt as usize] != Self::INF;
        proof {
            let net = self@;
            assert forall|v: int| 0 <= v < net.size() implies (#[trigger] net.d[v]) <= Mcmf::INF && (
            net.d[v] < Mcmf::INF ==> {
                &&& -slack <= net.d[v] <= top
                &&& net.d[v] >= pi[v] - pi[net.ss as int]
            }) by {
                assert(floor_at(pi, net.ss as int, v) <= net.d[v]);
                assert(pi[v] >= pi[net.ss as int] - slack);
            }
            assert forall|i: int|
                2 <= i < net.e.len() && (#[trigger] net.e[i]).w > 0 && net.d[net.e[i].u as int]
                    < Mcmf::INF implies {
                &&& net.d[net.e[i].v as int] < Mcmf::INF
                &&& net.d[net.e[i].u as int] + net.e[i].c >= net.d[net.e[i].v as int]
            } by {
                assert(edge_ok(net.e, sz as int, i));
                assert(!tense(net.d, net.e, i));
                assert(net.d[net.e[i].u as int] + rem <= top);
                assert(net.e[i].c <= cmax);
            }
            assert forall|v: int|
                0 <= v < net.size() && v != net.ss && net.d[v] < Mcmf::INF implies #[trigger] hooked(
                net,
                rank,
                v,
            ) by {
                assert(hooked_weak(net, rank, v));
                let i = net.pre[v] as int;
                assert(net.e[i].w > 0);
            }
        }
        (found, Ghost(rank))
    }
}

} // verus!
