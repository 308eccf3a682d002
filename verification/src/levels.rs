//! Maximum flow by level graphs: a breadth-first search labels every node
//! with its distance from the source in residual edges, and a depth-first
//! search sends flow along edges that lead one level further, until no
//! such path is left; then the levels are taken anew.

use crate::augment::{cut_off, sent, spent};
use crate::flow::{
    cap_out, gain, lemma_net_within_caps, lemma_push, lemma_rerouted_caps, lemma_rerouted_chain,
    lemma_rerouted_wf, net_out, rerouted,
};
use crate::graph::{edge_ok, head_ok, link_ok, mate, Edge, Mcmf, Net};
use crate::routing::lemma_sent_rerouted;
use crate::search::{far_term, fill_labels, lemma_contains_pop, lemma_contains_push};
use crate::sums::{lemma_sum_change_one, lemma_sum_ge_picks, lemma_sum_nonneg, lemma_sum_ones, sum};
use vstd::prelude::*;

verus! {

/// Node `v` was reached through edge `via[v]`, which has residual capacity
/// and comes from a node one level nearer to the source.
pub open spec fn stepped(net: Net, via: Seq<int>, v: int) -> bool {
    let i = via[v];
    &&& 2 <= i < net.e.len()
    &&& net.e[i].v == v
    &&& net.e[i].w > 0
    &&& net.d[net.e[i].u as int] < Mcmf::INF
    &&& net.d[v] == net.d[net.e[i].u as int] + 1
}

/// The labels are levels: the source has level zero, every other labelled
/// node was reached from the level before, and no edge with residual
/// capacity leads from a labelled node to an unlabelled one.
pub open spec fn levelled(net: Net, via: Seq<int>) -> bool {
    &&& via.len() == net.size()
    &&& net.d[net.ss as int] == 0
    &&& forall|v: int| 0 <= v < net.size() ==> 0 <= (#[trigger] net.d[v]) <= Mcmf::INF
    &&& forall|v: int|
        0 <= v < net.size() && v != net.ss && net.d[v] < Mcmf::INF ==> #[trigger] stepped(
            net,
            via,
            v,
        )
    &&& forall|i: int|
        2 <= i < net.e.len() && (#[trigger] net.e[i]).w > 0 && net.d[net.e[i].u as int]
            < Mcmf::INF ==> net.d[net.e[i].v as int] < Mcmf::INF
}

/// Edge `i` has residual capacity and leads from a labelled node to an
/// unlabelled one.
pub open spec fn open_end(net: Net, i: int) -> bool {
    &&& net.e[i].w > 0
    &&& net.d[net.e[i].u as int] < Mcmf::INF
    &&& net.d[net.e[i].v as int] >= Mcmf::INF
}

/// What holds while the levels are taken: labelled nodes were reached from
/// the level before, the queue holds labelled nodes, and every edge with
/// an open end has its tail in the queue, or is an edge of `hold` at or
/// below index `upto`.
pub open spec fn levelling(net: Net, start: Net, via: Seq<int>, hold: int, upto: int) -> bool {
    let sz = start.size();
    &&& start.wf()
    &&& 0 <= start.ss < sz
    &&& net == (Net { d: net.d, q: net.q, ..start })
    &&& net.d.len() == sz
    &&& via.len() == sz
    &&& net.d[start.ss as int] == 0
    &&& forall|v: int| 0 <= v < sz ==> 0 <= (#[trigger] net.d[v]) <= Mcmf::INF
    &&& forall|v: int|
        0 <= v < sz && v != start.ss && net.d[v] < Mcmf::INF ==> #[trigger] stepped(net, via, v)
    &&& forall|k: int|
        0 <= k < net.q.len() ==> 0 <= (#[trigger] net.q[k]) < sz && net.d[net.q[k] as int]
            < Mcmf::INF
    &&& forall|i: int|
        2 <= i < net.e.len() && #[trigger] open_end(net, i) ==> net.q.contains(net.e[i].u) || (
        net.e[i].u == hold && i <= upto)
    &&& sz <= Mcmf::INF
    &&& forall|v: int|
        0 <= v < sz && (#[trigger] net.d[v]) < Mcmf::INF ==> net.d[v] + sum(far_term(net.d), sz)
            <= sz - 1
}

/// The state in which the levels are taken anew: only the source is
/// labelled, and only the source waits in the queue.
pub open spec fn level_start(net: Net) -> Net {
    Net {
        q: seq![net.ss],
        d: Seq::new(net.d.len(), |v: int| Mcmf::INF).update(net.ss as int, 0),
        ..net
    }
}

/// The state after edge `i` has been looked at: if it has residual
/// capacity and its head has no level, the head gets the level after its
/// tail's and joins the queue.
pub open spec fn reach(net: Net, i: int) -> Net {
    let x = net.e[i];
    if x.w > 0 && net.d[x.v as int] == Mcmf::INF {
        Net {
            d: net.d.update(x.v as int, (net.d[x.u as int] + 1) as i32),
            q: net.q.push(x.v),
            ..net
        }
    } else {
        net
    }
}

/// The state after the adjacency list that holds edge `i` has been looked
/// at from edge `i` on.
pub open spec fn sweep(net: Net, i: int) -> Net
    decreases i,
{
    if 2 <= i < net.e.len() {
        let step = reach(net, i);
        if net.e[i].next < i {
            sweep(step, net.e[i].next as int)
        } else {
            step
        }
    } else {
        net
    }
}

/// The state after the first node of the queue has been taken out and its
/// adjacency list looked at; the state itself if the queue is empty.
pub open spec fn pop_sweep(net: Net) -> Net {
    if net.q.len() == 0 {
        net
    } else {
        sweep(
            Net { q: net.q.subrange(1, net.q.len() as int), ..net },
            net.head[net.q[0] as int] as int,
        )
    }
}

/// The state after `n` nodes have been taken out of the queue.
pub open spec fn level_steps(net: Net, n: nat) -> Net
    decreases n,
{
    if n == 0 {
        net
    } else {
        pop_sweep(level_steps(net, (n - 1) as nat))
    }
}

/// The state in which the taking of levels ends: the queue has run empty.
pub open spec fn levelled_to(net: Net) -> Net {
    let start = level_start(net);
    level_steps(start, choose|n: nat| level_steps(start, n).q.len() == 0)
}

/// Once the queue is empty, the state stays as it is.
pub proof fn lemma_level_settles(net: Net, n: nat, m: nat)
    requires
        level_steps(net, n).q.len() == 0,
        n <= m,
    ensures
        level_steps(net, m) == level_steps(net, n),
    decreases m - n,
{
    if m > n {
        lemma_level_settles(net, n, (m - 1) as nat);
    }
}

/// Whenever the queue runs empty, the levels have been taken.
pub proof fn lemma_levelled_to(net: Net, n: nat)
    requires
        level_steps(level_start(net), n).q.len() == 0,
    ensures
        levelled_to(net) == level_steps(level_start(net), n),
{
    let start = level_start(net);
    let m = choose|m: nat| level_steps(start, m).q.len() == 0;
    if m <= n {
        lemma_level_settles(start, m, n);
    } else {
        lemma_level_settles(start, n, m);
    }
}

/// Labels every node that a path of edges with residual capacity reaches
/// from `ss` with the length of a shortest such path; the other nodes keep
/// the label `INF`. Returns whether `tt` was reached.
#[verifier::rlimit(40)]
pub(crate) fn bfs(mf: &mut Mcmf) -> (r: (bool, Ghost<Seq<int>>))
    requires
        old(mf)@.wf(),
        0 <= old(mf)@.ss < old(mf)@.size(),
        0 <= old(mf)@.tt < old(mf)@.size(),
        old(mf)@.size() <= Mcmf::INF,
    ensures
        final(mf)@ == (Net { d: final(mf)@.d, q: final(mf)@.q, ..old(mf)@ }),
        final(mf)@.wf(),
        r.0 == (final(mf)@.d[old(mf)@.tt as int] != Mcmf::INF),
        levelled(final(mf)@, r.1@),
        final(mf)@ == levelled_to(old(mf)@),
{
    let ghost start = mf@;
    let sz = mf.d.len();
    mf.q.clear();
    fill_labels(&mut mf.d, Mcmf::INF);
    let ghost blank = mf.d@;
    let src = mf.ss as usize;
    mf.d.set(src, 0);
    mf.q.push_back(mf.ss);
    let ghost mut via: Seq<int> = Seq::new(sz as nat, |v: int| 0int);
    let ghost begun = level_start(start);
    let ghost mut popped: nat = 0;
    proof {
        assert(mf@.d =~= begun.d);
        assert(mf@.q =~= begun.q);
        assert(mf@ == begun);
        assert forall|v: int| 0 <= v < sz implies #[trigger] far_term(blank)(v) == 1 by {}
        lemma_sum_ones(far_term(blank), sz as int);
        assert forall|v: int| 0 <= v < sz && v != src implies #[trigger] far_term(blank)(v)
            == far_term(mf@.d)(v) by {}
        lemma_sum_change_one(far_term(blank), far_term(mf@.d), sz as int, src as int);
        assert(mf@.q[0] == mf.ss);
        assert forall|i: int| 2 <= i < mf@.e.len() && #[trigger] open_end(mf@, i) implies mf@.q.contains(
        mf@.e[i].u) by {
            assert(edge_ok(mf@.e, sz as int, i));
        }
    }
    while mf.q.len() > 0
        invariant
            levelling(mf@, start, via, -1, 0),
            sz == start.size(),
            src == start.ss,
            0 <= sum(far_term(mf@.d), sz as int),
            mf@ == level_steps(begun, popped),
        decreases sum(far_term(mf@.d), sz as int), mf@.q.len(),
    {
        let ghost before = mf@;
        let u = mf.q.pop_front().unwrap();
        let uu = u as usize;
        let mut i = mf.head[uu];
        let ghost far0 = sum(far_term(mf@.d), sz as int);
        let ghost q0 = mf@.q.len();
        let ghost goal = pop_sweep(before);
        proof {
            assert(mf@.q =~= before.q.subrange(1, before.q.len() as int));
            assert(mf@ == (Net { q: before.q.subrange(1, before.q.len() as int), ..before }));
            assert(before.q[0] == u);
            assert(head_ok(mf@.e, mf@.head, uu as int));
            assert forall|k: int| 0 <= k < mf@.q.len() implies 0 <= (#[trigger] mf@.q[k]) < sz
                && mf@.d[mf@.q[k] as int] < Mcmf::INF by {
                assert(mf@.q[k] == before.q[k + 1]);
            }
            assert forall|v: int| 0 <= v < sz && v != src && mf@.d[v] < Mcmf::INF implies #[trigger] stepped(
                mf@,
                via,
                v,
            ) by {
                assert(stepped(before, via, v));
            }
            assert(mf@.d[u as int] + far0 <= sz - 1);
            assert forall|j: int| 2 <= j < mf@.e.len() && #[trigger] open_end(mf@, j) implies mf@.q.contains(
            mf@.e[j].u) || (mf@.e[j].u == u && j <= i) by {
                assert(open_end(before, j));
                if mf@.e[j].u != u {
                    lemma_contains_pop(before.q, mf@.e[j].u);
                }
            }
        }
        while i != 0
            invariant
                levelling(mf@, start, via, u as int, i as int),
                sz == start.size(),
                src == start.ss,
                0 <= u < sz,
                uu == u,
                mf@.d[u as int] < Mcmf::INF,
                i < mf@.e.len(),
                i != 1,
                i != 0 ==> mf@.e[i as int].u == u,
                0 <= sum(far_term(mf@.d), sz as int) <= far0,
                sum(far_term(mf@.d), sz as int) == far0 ==> mf@.q.len() == q0,
                sweep(mf@, i as int) == goal,
            decreases i,
        {
            proof {
                assert(edge_ok(mf@.e, sz as int, i as int));
                assert(link_ok(mf@.e, i as int));
            }
            let ghost entry = mf@;
            let w = mf.e[i].w;
            let v = mf.e[i].v;
            let next = mf.e[i].next;
            let vv = v as usize;
            if w > 0 && mf.d[vv] == Mcmf::INF {
                let ghost prior = mf@;
                proof {
                    assert(prior.d[u as int] + sum(far_term(prior.d), sz as int) <= sz - 1);
                    assert(far_term(prior.d)(vv as int) == 1);
                    assert forall|y: int| 0 <= y < sz implies 0 <= #[trigger] far_term(prior.d)(
                        y,
                    ) by {}
                    lemma_sum_ge_picks(far_term(prior.d), sz as int, seq![vv as int]);
                }
                let level = mf.d[uu] + 1;
                mf.d.set(vv, level);
                mf.q.push_back(v);
                proof {
                    let via0 = via;
                    via = via.update(vv as int, i as int);
                    assert(vv != src);
                    assert forall|y: int| 0 <= y < sz && y != vv implies #[trigger] far_term(
                        prior.d,
                    )(y) == far_term(mf@.d)(y) by {}
                    lemma_sum_change_one(far_term(prior.d), far_term(mf@.d), sz as int, vv as int);
                    assert forall|y: int| 0 <= y < sz implies 0 <= #[trigger] far_term(mf@.d)(
                        y,
                    ) by {}
                    lemma_sum_nonneg(far_term(mf@.d), sz as int);
                    assert(sum(far_term(mf@.d), sz as int) == sum(far_term(prior.d), sz as int) - 1);
                    assert forall|y: int| 0 <= y < sz && (#[trigger] mf@.d[y])
                        < Mcmf::INF implies mf@.d[y] + sum(far_term(mf@.d), sz as int) <= sz
                        - 1 by {
                        if y != vv {
                            assert(prior.d[y] == mf@.d[y]);
                        }
                    }
                    assert forall|k: int| 0 <= k < mf@.q.len() implies 0 <= (#[trigger] mf@.q[k])
                        < sz && mf@.d[mf@.q[k] as int] < Mcmf::INF by {
                        if k < prior.q.len() {
                            assert(mf@.q[k] == prior.q[k]);
                        }
                    }
                    assert forall|y: int| 0 <= y < sz && y != src && mf@.d[y] < Mcmf::INF implies #[trigger] stepped(
                        mf@,
                        via,
                        y,
                    ) by {
                        if y != vv {
                            assert(stepped(prior, via0, y));
                            assert(edge_ok(prior.e, sz as int, via0[y]));
                        }
                    }
                    assert forall|j: int| 2 <= j < mf@.e.len() && #[trigger] open_end(
                        mf@,
                        j,
                    ) implies mf@.q.contains(mf@.e[j].u) || (mf@.e[j].u == u && j <= next) by {
                        assert(edge_ok(prior.e, sz as int, j));
                        lemma_contains_push(prior.q, v, mf@.e[j].u);
                        if open_end(prior, j) {
                            if !prior.q.contains(prior.e[j].u) {
                                assert(j != i);
                            }
                        }
                    }
                }
            } else {
                proof {
                    assert forall|j: int| 2 <= j < mf@.e.len() && #[trigger] open_end(
                        mf@,
                        j,
                    ) implies mf@.q.contains(mf@.e[j].u) || (mf@.e[j].u == u && j <= next) by {
                        if !mf@.q.contains(mf@.e[j].u) {
                            assert(j != i);
                        }
                    }
                }
            }
            proof {
                assert(mf@ == reach(entry, i as int));
                assert(sweep(entry, i as int) == sweep(mf@, next as int));
            }
            i = next;
        }
        proof {
            assert(mf@ == pop_sweep(level_steps(begun, popped)));
            popped = popped + 1;
        }
    }
    proof {
        lemma_levelled_to(start, popped);
    }
    let found = mf.d[mf.tt as usize] != Mcmf::INF;
    proof {
        let net = mf@;
        assert forall|i: int|
            2 <= i < net.e.len() && (#[trigger] net.e[i]).w > 0 && net.d[net.e[i].u as int]
                < Mcmf::INF implies net.d[net.e[i].v as int] < Mcmf::INF by {
            assert(edge_ok(net.e, sz as int, i));
            if net.d[net.e[i].v as int] >= Mcmf::INF {
                assert(open_end(net, i));
            }
        }
    }
    (found, Ghost(via))
}

/// Edge `i` is of no use in this round: it has no residual capacity, or it
/// does not lead one level further, or it leads to a node, not the sink,
/// whose edges have all been found of no use.
pub open spec fn dead(net: Net, cur: Seq<usize>, i: int) -> bool {
    ||| net.e[i].w == 0
    ||| net.d[net.e[i].v as int] != net.d[net.e[i].u as int] + 1
    ||| (net.e[i].v != net.tt && cur[net.e[i].v as int] == 0)
}

/// The current edge of each node, `cur[v]`, is an edge of that node or
/// zero, and the edges that come before it in the list of the node are of
/// no use in this round.
#[verifier::opaque]
pub open spec fn arcs_ok(net: Net, cur: Seq<usize>) -> bool {
    &&& cur.len() == net.size()
    &&& forall|v: int|
        0 <= v < net.size() ==> (#[trigger] cur[v]) == 0 || (2 <= cur[v] < net.e.len()
            && net.e[cur[v] as int].u == v)
    &&& forall|i: int|
        2 <= i < net.e.len() && i > cur[net.e[i].u as int] ==> #[trigger] dead(net, cur, i)
}

/// What the depth-first search from `u` with the current edges `cur` and
/// the limit `limit` leaves behind: the edges, the current edges, and the
/// amount sent. The edges of `u` are tried from the current one on; an
/// edge with residual capacity that leads one level further is followed,
/// and the first that sends something ends the search.
#[verifier::opaque]
pub open spec fn plunge(net: Net, cur: Seq<usize>, u: int, limit: int) -> (
    Seq<Edge>,
    Seq<usize>,
    int,
)
    decreases Mcmf::INF - net.d[u], cur[u],
{
    if u == net.tt {
        (net.e, cur, limit)
    } else if !(0 <= u < cur.len()) || cur[u] == 0 {
        (net.e, cur, 0)
    } else {
        let i = cur[u] as int;
        let x = net.e[i];
        let v = x.v as int;
        if x.next >= cur[u] {
            (net.e, cur, 0)
        } else if x.w > 0 && net.d[v] == net.d[u] + 1 && net.d[v] <= Mcmf::INF {
            let room = if limit < x.w {
                limit
            } else {
                x.w as int
            };
            let below = plunge(net, cur, v, room);
            if below.2 > 0 {
                (sent(below.0, i, below.2), below.1, below.2)
            } else if u < below.1.len() {
                plunge(Net { e: below.0, ..net }, below.1.update(u, x.next), u, limit)
            } else {
                (below.0, below.1, 0)
            }
        } else {
            plunge(net, cur.update(u, x.next), u, limit)
        }
    }
}

/// The current edge of a node, unless it is zero, is an edge of that node.
proof fn lemma_arc_at(net: Net, cur: Seq<usize>, u: int)
    requires
        arcs_ok(net, cur),
        0 <= u < net.size(),
    ensures
        cur.len() == net.size(),
        cur[u] != 0 ==> 2 <= cur[u] < net.e.len() && net.e[cur[u] as int].u == u,
{
    reveal(arcs_ok);
}

/// The current edge of a node may be left behind once it is of no use.
proof fn lemma_arcs_skip(net: Net, cur: Seq<usize>, u: int)
    requires
        net.wf(),
        arcs_ok(net, cur),
        0 <= u < net.size(),
        cur[u] != 0,
        dead(net, cur, cur[u] as int),
    ensures
        arcs_ok(net, cur.update(u, net.e[cur[u] as int].next)),
{
    reveal(arcs_ok);
    let i = cur[u] as int;
    let sz = net.size();
    assert(edge_ok(net.e, sz, i));
    assert(link_ok(net.e, i));
    let now = cur.update(u, net.e[i].next);
    assert forall|j: int| 2 <= j < net.e.len() && j > now[net.e[j].u as int] implies #[trigger] dead(
        net,
        now,
        j,
    ) by {
        assert(edge_ok(net.e, sz, j));
        if net.e[j].u == u {
            if j != i {
                assert(j > i);
                assert(dead(net, cur, j));
            }
        } else {
            assert(cur[net.e[j].u as int] == now[net.e[j].u as int]);
            assert(dead(net, cur, j));
        }
    }
}

/// Sending flow along the current edge of a node, which leads one level
/// further, leaves the edges that were of no use of no use.
proof fn lemma_arcs_push(net: Net, cur: Seq<usize>, u: int, f: int)
    requires
        net.wf(),
        arcs_ok(net, cur),
        0 <= u < net.size(),
        cur[u] != 0,
        1 <= f <= net.e[cur[u] as int].w,
        net.d[net.e[cur[u] as int].v as int] == net.d[u] + 1,
    ensures
        arcs_ok(Net { e: sent(net.e, cur[u] as int, f), ..net }, cur),
{
    reveal(arcs_ok);
    let i = cur[u] as int;
    let ri = mate(i);
    let sz = net.size();
    assert(edge_ok(net.e, sz, i));
    let e2 = sent(net.e, i, f);
    let out = Net { e: e2, ..net };
    assert forall|j: int| 2 <= j < e2.len() && j > cur[e2[j].u as int] implies #[trigger] dead(
        out,
        cur,
        j,
    ) by {
        assert(e2[j].u == net.e[j].u && e2[j].v == net.e[j].v);
        if j != i && j != ri {
            assert(e2[j] == net.e[j]);
            assert(dead(net, cur, j));
        }
    }
    assert forall|x: int| 0 <= x < sz implies (#[trigger] cur[x]) == 0 || (2 <= cur[x] < e2.len()
        && e2[cur[x] as int].u == x) by {
        if cur[x] != 0 {
            assert(e2[cur[x] as int].u == net.e[cur[x] as int].u);
        }
    }
}

/// Sends up to `limit` units from `u` to the sink along edges that lead one
/// level further, trying the edges of each node from its current edge on
/// and leaving behind those that turn out to be of no use. Returns the
/// amount sent; zero if no such path is left from `u`.
#[verifier::rlimit(60)]
pub(crate) fn dfs(mf: &mut Mcmf, cur: &mut Vec<usize>, u: i32, limit: i32) -> (f: i32)
    requires
        old(mf)@.wf(),
        0 <= old(mf)@.tt < old(mf)@.size(),
        0 <= u < old(mf)@.size(),
        forall|v: int| 0 <= v < old(mf)@.size() ==> 0 <= (#[trigger] old(mf)@.d[v]) <= Mcmf::INF,
        1 <= limit,
        arcs_ok(old(mf)@, old(cur)@),
    ensures
        0 <= f <= limit,
        final(mf)@ == (Net { e: final(mf)@.e, ..old(mf)@ }),
        final(mf)@.wf(),
        rerouted(old(mf)@.e, final(mf)@.e),
        arcs_ok(final(mf)@, final(cur)@),
        final(cur)@.len() == old(cur)@.len(),
        forall|v: int| 0 <= v < old(mf)@.size() ==> (#[trigger] final(cur)@[v]) <= old(cur)@[v],
        forall|v: int|
            0 <= v < old(mf)@.size() && old(mf)@.d[v] < old(mf)@.d[u as int] ==> (
            #[trigger] final(cur)@[v]) == old(cur)@[v],
        forall|j: int|
            0 <= j < old(mf)@.e.len() && (#[trigger] final(mf)@.e[j]).w != old(mf)@.e[j].w ==> {
                &&& old(mf)@.d[old(mf)@.e[j].u as int] >= old(mf)@.d[u as int]
                &&& old(mf)@.d[old(mf)@.e[j].v as int] >= old(mf)@.d[u as int]
            },
        f == 0 ==> final(mf)@.e == old(mf)@.e && u != old(mf)@.tt && final(cur)@[u as int] == 0,
        forall|p: Set<int>| #[trigger]
            net_out(final(mf)@.e, p) == net_out(old(mf)@.e, p) + gain(p.contains(u as int), f as int)
                - gain(p.contains(old(mf)@.tt as int), f as int),
        (final(mf)@.e, final(cur)@, f as int) == plunge(
            old(mf)@,
            old(cur)@,
            u as int,
            limit as int,
        ),
    decreases Mcmf::INF - old(mf)@.d[u as int],
{
    let ghost start = mf@;
    let ghost cur0 = cur@;
    let ghost sz = mf@.size();
    proof {
        assert(rerouted(start.e, start.e)) by {
            assert forall|i: int| 0 <= i < start.e.len() implies (#[trigger] start.e[i]).w >= 0 by {
                if i >= 2 {
                    assert(edge_ok(start.e, sz, i));
                }
            }
        }
    }
    if u == mf.tt {
        proof {
            reveal(plunge);
        }
        return limit;
    }
    let uu = u as usize;
    proof {
        lemma_arc_at(start, cur@, u as int);
    }
    while cur[uu] != 0
        invariant
            mf@ == start,
            start == old(mf)@,
            cur0 == old(cur)@,
            start.wf(),
            sz == start.size(),
            0 <= start.tt < sz,
            0 <= u < sz,
            uu == u,
            u != start.tt,
            1 <= limit,
            forall|v: int| 0 <= v < sz ==> 0 <= (#[trigger] start.d[v]) <= Mcmf::INF,
            rerouted(start.e, start.e),
            arcs_ok(start, cur@),
            cur@.len() == sz,
            cur0.len() == sz,
            forall|v: int| 0 <= v < sz ==> (#[trigger] cur@[v]) <= cur0[v],
            forall|v: int|
                0 <= v < sz && start.d[v] < start.d[u as int] ==> (#[trigger] cur@[v]) == cur0[v],
            plunge(start, cur0, u as int, limit as int) == plunge(
                start,
                cur@,
                u as int,
                limit as int,
            ),
        decreases cur@[uu as int],
    {
        let i = cur[uu];
        proof {
            lemma_arc_at(start, cur@, u as int);
            assert(edge_ok(start.e, sz, i as int));
            assert(link_ok(start.e, i as int));
        }
        let v = mf.e[i].v;
        let w = mf.e[i].w;
        let next = mf.e[i].next;
        let vv = v as usize;
        let ghost cur_before = cur@;
        if w > 0 && mf.d[vv] == mf.d[uu] + 1 {
            let room = if limit < w {
                limit
            } else {
                w
            };
            let f = dfs(mf, cur, v, room);
            if f > 0 {
                let ghost e1 = mf@.e;
                let ghost cur1 = cur@;
                let ri = i ^ 1;
                proof {
                    assert(i % 2 == 0 ==> (i ^ 1) == (i + 1) as usize) by (bit_vector);
                    assert(i % 2 == 1 ==> (i ^ 1) == (i - 1) as usize) by (bit_vector);
                    assert(ri == mate(i as int));
                    assert(edge_ok(e1, sz, i as int));
                    assert(e1[i as int].u == start.e[i as int].u);
                    assert(e1[ri as int].u == start.e[ri as int].u);
                    assert(e1[i as int].w == start.e[i as int].w);
                    assert(e1[ri as int].w == start.e[ri as int].w);
                    assert(cur1[u as int] == cur_before[u as int]);
                }
                let fwd = Edge {
                    u: mf.e[i].u,
                    next: mf.e[i].next,
                    v: mf.e[i].v,
                    w: mf.e[i].w - f,
                    c: mf.e[i].c,
                };
                mf.e.set(i, fwd);
                let back = Edge {
                    u: mf.e[ri].u,
                    next: mf.e[ri].next,
                    v: mf.e[ri].v,
                    w: mf.e[ri].w + f,
                    c: mf.e[ri].c,
                };
                mf.e.set(ri, back);
                proof {
                    let e2 = mf@.e;
                    assert(e2 =~= sent(e1, i as int, f as int));
                    lemma_sent_rerouted(start.e, e1, i as int, f as int);
                    lemma_rerouted_wf(start.e, e2, start.head, sz);
                    lemma_arcs_push(Net { e: e1, ..start }, cur1, u as int, f as int);
                    assert(plunge(start, cur_before, u as int, limit as int) == (
                        sent(e1, i as int, f as int),
                        cur1,
                        f as int,
                    )) by {
                        reveal(plunge);
                    }
                    assert forall|p: Set<int>| #[trigger]
                        net_out(e2, p) == net_out(start.e, p) + gain(p.contains(u as int), f as int)
                            - gain(p.contains(start.tt as int), f as int) by {
                        lemma_push(e1, e2, sz, i as int, f as int, p);
                        assert(net_out(e1, p) == net_out(start.e, p) + gain(
                            p.contains(v as int),
                            f as int,
                        ) - gain(p.contains(start.tt as int), f as int));
                    }
                    assert forall|j: int| 0 <= j < start.e.len() && (#[trigger] e2[j]).w
                        != start.e[j].w implies {
                        &&& start.d[start.e[j].u as int] >= start.d[u as int]
                        &&& start.d[start.e[j].v as int] >= start.d[u as int]
                    } by {
                        if j != i && j != ri {
                            assert(e2[j] == e1[j]);
                            assert(e1[j].w != start.e[j].w);
                        }
                    }
                }
                return f;
            }
            proof {
                assert(dead(start, cur@, i as int));
                assert(mf@ == start);
                assert((Net { e: mf@.e, ..start }) == start);
                assert(plunge(start, cur_before, u as int, limit as int) == plunge(
                    start,
                    cur@.update(u as int, next),
                    u as int,
                    limit as int,
                )) by {
                    reveal(plunge);
                }
            }
        } else {
            proof {
                assert(plunge(start, cur_before, u as int, limit as int) == plunge(
                    start,
                    cur@.update(u as int, next),
                    u as int,
                    limit as int,
                )) by {
                    reveal(plunge);
                }
            }
        }
        let ghost mid = cur@;
        proof {
            assert(mid[u as int] == cur_before[u as int]);
            assert(mf@ == start);
            assert(dead(start, mid, i as int));
            lemma_arcs_skip(start, mid, u as int);
        }
        cur.set(uu, next);
        proof {
            assert(cur@ =~= mid.update(u as int, next));
        }
    }
    proof {
        assert(plunge(start, cur@, u as int, limit as int) == (start.e, cur@, 0int)) by {
            reveal(plunge);
        }
    }
    0
}

/// While the levels stand and no flow has been sent, the current edge of a
/// node from which the tree of the search leads to a node of use is still
/// there: so that of the source is, as long as the sink is labelled.
pub proof fn lemma_live(net: Net, via: Seq<int>, cur: Seq<usize>, v: int)
    requires
        net.wf(),
        0 <= net.ss < net.size(),
        0 <= net.tt < net.size(),
        net.ss != net.tt,
        levelled(net, via),
        arcs_ok(net, cur),
        0 <= v < net.size(),
        net.d[v] < Mcmf::INF,
        v == net.tt || cur[v] != 0,
    ensures
        cur[net.ss as int] != 0,
    decreases net.d[v],
{
    reveal(arcs_ok);
    if v != net.ss {
        assert(stepped(net, via, v));
        let i = via[v];
        assert(edge_ok(net.e, net.size(), i));
        let u = net.e[i].u as int;
        if u != net.tt && cur[u] == 0 {
            assert(dead(net, cur, i));
        }
        lemma_live(net, via, cur, u);
    }
}

/// One more search from the source within a round, unless the last one
/// sent nothing: the state is the edges, the current edges, the flow so
/// far, and whether to go on.
pub open spec fn drain_step(net: Net, s: (Seq<Edge>, Seq<usize>, int, bool)) -> (
    Seq<Edge>,
    Seq<usize>,
    int,
    bool,
) {
    if !s.3 {
        s
    } else {
        let r = plunge(Net { e: s.0, ..net }, s.1, net.ss as int, i32::MAX as int);
        (r.0, r.1, s.2 + r.2, r.2 != 0)
    }
}

/// The state after `n` searches of a round.
pub open spec fn drain_steps(net: Net, s: (Seq<Edge>, Seq<usize>, int, bool), n: nat) -> (
    Seq<Edge>,
    Seq<usize>,
    int,
    bool,
)
    decreases n,
{
    if n == 0 {
        s
    } else {
        drain_step(net, drain_steps(net, s, (n - 1) as nat))
    }
}

/// The edges and the flow at the end of a round that starts with the flow
/// `flow`: the searches start from the list heads and go on until one
/// sends nothing.
pub open spec fn drained(net: Net, flow: int) -> (Seq<Edge>, int) {
    let s0 = (net.e, net.head, flow, true);
    let s = drain_steps(net, s0, choose|n: nat| !drain_steps(net, s0, n).3);
    (s.0, s.2)
}

/// Once a search has sent nothing, the round stays as it is.
pub proof fn lemma_drain_settles(net: Net, s: (Seq<Edge>, Seq<usize>, int, bool), n: nat, m: nat)
    requires
        !drain_steps(net, s, n).3,
        n <= m,
    ensures
        drain_steps(net, s, m) == drain_steps(net, s, n),
    decreases m - n,
{
    if m > n {
        lemma_drain_settles(net, s, n, (m - 1) as nat);
    }
}

/// Whenever a search sends nothing, the round has ended.
pub proof fn lemma_drained(net: Net, flow: int, n: nat)
    requires
        !drain_steps(net, (net.e, net.head, flow, true), n).3,
    ensures
        drained(net, flow) == (
            drain_steps(net, (net.e, net.head, flow, true), n).0,
            drain_steps(net, (net.e, net.head, flow, true), n).2,
        ),
{
    let s0 = (net.e, net.head, flow, true);
    let m = choose|m: nat| !drain_steps(net, s0, m).3;
    if m <= n {
        lemma_drain_settles(net, s0, m, n);
    } else {
        lemma_drain_settles(net, s0, n, m);
    }
}

/// One round on a levelled state: if the sink has a level, flow is sent
/// until a search sends nothing, and the levels are taken anew.
pub open spec fn lap(s: (Net, int)) -> (Net, int) {
    if spent(s.0) {
        s
    } else {
        let r = drained(s.0, s.1);
        (levelled_to(Net { e: r.0, ..s.0 }), r.1)
    }
}

/// The state and the flow after `n` rounds.
pub open spec fn laps(s: (Net, int), n: nat) -> (Net, int)
    decreases n,
{
    if n == 0 {
        s
    } else {
        lap(laps(s, (n - 1) as nat))
    }
}

/// The state and the flow in which the rounds end: the sink has no level.
pub open spec fn burst(net: Net) -> (Net, int) {
    let s0 = (levelled_to(net), 0int);
    laps(s0, choose|n: nat| spent(laps(s0, n).0))
}

/// Once the sink has no level, the state stays as it is.
pub proof fn lemma_laps_settle(s: (Net, int), n: nat, m: nat)
    requires
        spent(laps(s, n).0),
        n <= m,
    ensures
        laps(s, m) == laps(s, n),
    decreases m - n,
{
    if m > n {
        lemma_laps_settle(s, n, (m - 1) as nat);
    }
}

/// Whenever the sink has no level, the rounds have ended.
pub proof fn lemma_burst(net: Net, n: nat)
    requires
        spent(laps((levelled_to(net), 0int), n).0),
    ensures
        burst(net) == laps((levelled_to(net), 0int), n),
{
    let s0 = (levelled_to(net), 0int);
    let m = choose|m: nat| spent(laps(s0, m).0);
    if m <= n {
        lemma_laps_settle(s0, m, n);
    } else {
        lemma_laps_settle(s0, n, m);
    }
}

/// A copy of the list heads.
fn copy_heads(head: &Vec<usize>, cur: &mut Vec<usize>)
    ensures
        final(cur)@ == head@,
{
    cur.clear();
    let n = head.len();
    let mut k: usize = 0;
    while k < n
        invariant
            k <= n,
            n == head@.len(),
            cur@ == head@.subrange(0, k as int),
        decreases n - k,
    {
        cur.push(head[k]);
        assert(cur@ =~= head@.subrange(0, k + 1));
        k = k + 1;
    }
    assert(cur@ =~= head@);
}

/// Sends a maximum flow from `ss` to `tt`: round after round, the nodes
/// are levelled by a breadth-first search and flow is sent along paths that
/// climb one level with each edge, until a search does not reach `tt` any
/// more. Returns the amount sent.
#[verifier::rlimit(60)]
pub fn dinic(mf: &mut Mcmf) -> (flow: i32)
    requires
        old(mf)@.wf(),
        0 <= old(mf)@.ss < old(mf)@.size(),
        0 <= old(mf)@.tt < old(mf)@.size(),
        old(mf)@.ss != old(mf)@.tt,
        old(mf)@.size() <= Mcmf::INF,
        cap_out(old(mf)@.e, set![old(mf)@.ss as int]) - net_out(
            old(mf)@.e,
            set![old(mf)@.ss as int],
        ) <= i32::MAX,
    ensures
        final(mf)@ == (Net { e: final(mf)@.e, d: final(mf)@.d, q: final(mf)@.q, ..old(mf)@ }),
        final(mf)@.wf(),
        rerouted(old(mf)@.e, final(mf)@.e),
        0 <= flow,
        forall|p: Set<int>| #[trigger]
            net_out(final(mf)@.e, p) == net_out(old(mf)@.e, p) + gain(
                p.contains(old(mf)@.ss as int),
                flow as int,
            ) - gain(p.contains(old(mf)@.tt as int), flow as int),
        cut_off(final(mf)@),
        (final(mf)@, flow as int) == burst(old(mf)@),
{
    let ghost start = mf@;
    let ghost first_levels = (levelled_to(start), 0int);
    let ghost mut done: nat = 0;
    let ghost sz = mf@.size();
    let ghost src = mf.ss as int;
    let ghost dst = mf.tt as int;
    let ghost only = set![src];
    let mut flow: i32 = 0;
    let mut cur: Vec<usize> = Vec::new();
    proof {
        assert(rerouted(start.e, start.e)) by {
            assert forall|i: int| 0 <= i < start.e.len() implies (#[trigger] start.e[i]).w >= 0 by {
                if i >= 2 {
                    assert(edge_ok(start.e, sz, i));
                }
            }
        }
        lemma_net_within_caps(start.e, only);
    }
    let first = bfs(mf);
    let mut found = first.0;
    let Ghost(mut via) = first.1;
    while found
        invariant
            start.wf(),
            sz == start.size(),
            src == start.ss,
            dst == start.tt,
            0 <= src < sz,
            0 <= dst < sz,
            src != dst,
            sz <= Mcmf::INF,
            only == set![src],
            cap_out(start.e, only) - net_out(start.e, only) <= i32::MAX,
            mf@ == (Net { e: mf@.e, d: mf@.d, q: mf@.q, ..start }),
            mf@.wf(),
            rerouted(start.e, mf@.e),
            0 <= flow,
            forall|p: Set<int>| #[trigger]
                net_out(mf@.e, p) == net_out(start.e, p) + gain(p.contains(src), flow as int)
                    - gain(p.contains(dst), flow as int),
            net_out(mf@.e, only) <= cap_out(start.e, only),
            levelled(mf@, via),
            found == (mf@.d[dst] != Mcmf::INF),
            first_levels == (levelled_to(start), 0int),
            (mf@, flow as int) == laps(first_levels, done),
        decreases cap_out(start.e, only) - net_out(mf@.e, only),
    {
        copy_heads(&mf.head, &mut cur);
        let ghost phase = mf@;
        let ghost flow0 = flow as int;
        let ghost s0 = (phase.e, phase.head, flow0, true);
        let ghost mut tries: nat = 0;
        let ghost mut fresh = true;
        let mut more = true;
        proof {
            reveal(arcs_ok);
            assert forall|v: int| 0 <= v < sz implies (#[trigger] cur@[v]) == 0 || (2 <= cur@[v]
                < phase.e.len() && phase.e[cur@[v] as int].u == v) by {
                assert(head_ok(phase.e, phase.head, v));
            }
            assert forall|i: int| 2 <= i < phase.e.len() && i > cur@[phase.e[i].u as int] implies #[trigger] dead(
                phase,
                cur@,
                i,
            ) by {
                assert(edge_ok(phase.e, sz, i));
                assert(head_ok(phase.e, phase.head, phase.e[i].u as int));
            }
        }
        while more
            invariant
                start.wf(),
                sz == start.size(),
                src == start.ss,
                dst == start.tt,
                0 <= src < sz,
                0 <= dst < sz,
                src != dst,
                only == set![src],
                cap_out(start.e, only) - net_out(start.e, only) <= i32::MAX,
                mf@ == (Net { e: mf@.e, ..phase }),
                phase == (Net { e: phase.e, d: phase.d, q: phase.q, ..start }),
                mf@.wf(),
                rerouted(start.e, mf@.e),
                0 <= flow,
                forall|p: Set<int>| #[trigger]
                    net_out(mf@.e, p) == net_out(start.e, p) + gain(p.contains(src), flow as int)
                        - gain(p.contains(dst), flow as int),
                net_out(mf@.e, only) <= cap_out(start.e, only),
                forall|v: int| 0 <= v < sz ==> 0 <= (#[trigger] phase.d[v]) <= Mcmf::INF,
                arcs_ok(mf@, cur@),
                fresh ==> mf@.e == phase.e,
                !fresh ==> net_out(mf@.e, only) > net_out(phase.e, only),
                !more ==> cur@[src] == 0,
                s0 == (phase.e, phase.head, flow0, true),
                (mf@.e, cur@, flow as int, more) == drain_steps(phase, s0, tries),
            decreases
                    cap_out(start.e, only) - net_out(mf@.e, only),
                    (if more {
                        1int
                    } else {
                        0int
                    }),
        {
            let ghost before = mf@;
            let f = dfs(mf, &mut cur, mf.ss, i32::MAX);
            proof {
                lemma_rerouted_chain(start.e, before.e, mf@.e);
                assert(net_out(mf@.e, only) == net_out(before.e, only) + gain(
                    only.contains(src),
                    f as int,
                ) - gain(only.contains(dst), f as int));
                lemma_net_within_caps(mf@.e, only);
                lemma_rerouted_caps(start.e, mf@.e, only);
                assert forall|p: Set<int>| #[trigger]
                    net_out(mf@.e, p) == net_out(start.e, p) + gain(
                        p.contains(src),
                        flow as int + f as int,
                    ) - gain(p.contains(dst), flow as int + f as int) by {
                    assert(net_out(before.e, p) == net_out(start.e, p) + gain(
                        p.contains(src),
                        flow as int,
                    ) - gain(p.contains(dst), flow as int));
                    assert(net_out(mf@.e, p) == net_out(before.e, p) + gain(
                        p.contains(src),
                        f as int,
                    ) - gain(p.contains(dst), f as int));
                }
                assert(net_out(start.e, only) + flow + f <= cap_out(start.e, only)) by {
                    assert(net_out(mf@.e, only) == net_out(start.e, only) + gain(
                        only.contains(src),
                        flow as int + f as int,
                    ) - gain(only.contains(dst), flow as int + f as int));
                }
            }
            let ghost flow_before = flow as int;
            let ghost cur_after = cur@;
            if f == 0 {
                more = false;
            } else {
                flow = flow + f;
                proof {
                    fresh = false;
                }
            }
            proof {
                assert((Net { e: before.e, ..phase }) == before);
                assert(drain_step(phase, drain_steps(phase, s0, tries)) == (
                    mf@.e,
                    cur_after,
                    flow_before + f,
                    f != 0,
                ));
                tries = tries + 1;
            }
        }
        let ghost drawn = mf@;
        proof {
            if fresh {
                lemma_live(mf@, via, cur@, dst);
            }
            lemma_drained(phase, flow0, tries);
            assert(drawn == (Net { e: drawn.e, ..phase }));
        }
        let next = bfs(mf);
        found = next.0;
        proof {
            via = next.1@;
            assert(!spent(phase));
            assert((mf@, flow as int) == lap((phase, flow0)));
            done = done + 1;
        }
    }
    proof {
        lemma_burst(start, done);
    }
    flow
}

} // verus!
