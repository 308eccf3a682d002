//! The flow of an assignment: every valid assignment can be routed through
//! the layout, one unit from the source to the sink for each slot that it
//! gives to a user, at the cost of the cheapest tiers of that user.

use crate::augment::sent;
use crate::flow::{
    flow_cost, gain, idle, lemma_idle, lemma_push, lemma_rerouted_wf, net_out, rerouted,
};
use crate::graph::{edge_ok, edges_wf, mate, Edge};
use crate::layout::{
    cast, day_node, increasing, indexed, lemma_day_node_range, plays, sink_node, slot_node,
    source_node, tier_cost, user_node, valid_assignment, well_posed, Role,
};
use crate::sums::sum;
use vstd::prelude::*;

verus! {

/// The number of slots of each user.
pub open spec fn len_term(got: Seq<Seq<int>>) -> spec_fn(int) -> int {
    |j: int| got[j].len() as int
}

/// The number of slots that the assignment gives to the users before `j`.
pub open spec fn before(got: Seq<Seq<int>>, j: int) -> int {
    sum(len_term(got), j)
}

/// The number of slots that the assignment gives out.
pub open spec fn total(got: Seq<Seq<int>>) -> int {
    before(got, got.len() as int)
}

/// What the first `m` slots of a user cost: 20 for the first, 50 for the
/// second, 100 for the third.
pub open spec fn tier_sum(m: int) -> int {
    if m <= 0 {
        0
    } else if m == 1 {
        20
    } else if m == 2 {
        70
    } else {
        170
    }
}

/// The cost of the slots of each user.
pub open spec fn tier_term(got: Seq<Seq<int>>) -> spec_fn(int) -> int {
    |j: int| tier_sum(got[j].len() as int)
}

/// The cost of the slots of the users before `j`.
pub open spec fn tier_before(got: Seq<Seq<int>>, j: int) -> int {
    sum(tier_term(got), j)
}

/// The cost of the assignment: the sum of what each user's slots cost.
pub open spec fn tier_total(got: Seq<Seq<int>>) -> int {
    tier_before(got, got.len() as int)
}

/// No valid assignment gives out more slots than `got`, and none that
/// gives out as many is cheaper.
pub open spec fn optimal(avail: Seq<Seq<int>>, days: Seq<int>, got: Seq<Seq<int>>) -> bool {
    forall|other: Seq<Seq<int>>| #[trigger]
        valid_assignment(avail, days, other) ==> total(other) <= total(got) && (total(other)
            == total(got) ==> tier_total(got) <= tier_total(other))
}

/// The edge array with all flow taken back.
pub open spec fn zeroed(e: Seq<Edge>) -> Seq<Edge> {
    Seq::new(
        e.len(),
        |i: int|
            if i % 2 == 0 {
                Edge { w: (e[i].w + e[i + 1].w) as i32, ..e[i] }
            } else {
                Edge { w: 0, ..e[i] }
            },
    )
}

/// Taking all flow back moves flow, and leaves none.
pub proof fn lemma_zeroed(e: Seq<Edge>, head: Seq<usize>, sz: int)
    requires
        edges_wf(e, head, sz),
    ensures
        rerouted(e, zeroed(e)),
        idle(zeroed(e)),
        edges_wf(zeroed(e), head, sz),
{
    let z = zeroed(e);
    assert forall|i: int| 0 <= i < z.len() implies {
        &&& (#[trigger] z[i]).u == e[i].u
        &&& z[i].v == e[i].v
        &&& z[i].c == e[i].c
        &&& z[i].next == e[i].next
        &&& z[i].w >= 0
        &&& z[i].w + z[mate(i)].w == e[i].w + e[mate(i)].w
    } by {
        if i >= 2 {
            assert(edge_ok(e, sz, i));
            assert(edge_ok(e, sz, mate(i)));
        }
    }
    lemma_rerouted_wf(e, z, head, sz);
}

/// Moving flow on a cast edge array leaves it cast.
pub proof fn lemma_cast_moved(
    e: Seq<Edge>,
    e2: Seq<Edge>,
    roles: Seq<Role>,
    avail: Seq<Seq<int>>,
    days: Seq<int>,
)
    requires
        cast(e, roles, avail, days),
        rerouted(e, e2),
    ensures
        cast(e2, roles, avail, days),
{
    assert forall|k: int| 0 <= k < roles.len() implies {
        &&& plays(e2[2 * k + 2], #[trigger] roles[k], avail, days)
        &&& e2[2 * k + 3].u == e2[2 * k + 2].v
        &&& e2[2 * k + 3].v == e2[2 * k + 2].u
        &&& e2[2 * k + 2].w >= 0
        &&& e2[2 * k + 3].w >= 0
        &&& e2[2 * k + 2].w + e2[2 * k + 3].w == 1
    } by {
        let i = 2 * k + 2;
        assert(plays(e[i], roles[k], avail, days));
        assert(e2[i].u == e[i].u);
        assert(e2[i + 1].u == e[i + 1].u);
        assert(mate(i) == i + 1);
    }
}

/// A place of `x` in `s`.
pub open spec fn pos(s: Seq<int>, x: int) -> int {
    choose|i: int| 0 <= i < s.len() && s[i] == x
}

/// The pair of the `r`-th edge from the source to user `j`.
pub open spec fn tier_at(j: int, r: int) -> int {
    3 * j + r
}

/// The pair of the edge from user `j` to the day node of day `d`.
pub open spec fn day_at(nu: int, j: int, d: int) -> int {
    3 * nu + d * nu + j
}

/// The pair of an edge from user `j`'s day node to slot `x`.
pub open spec fn pick_at(spot: Seq<Seq<int>>, avail: Seq<Seq<int>>, j: int, x: int) -> int {
    spot[j][pos(avail[j], x)]
}

/// The pair of the edge from slot `x` to the sink, with `rlen` pairs and
/// `ns` slots in all.
pub open spec fn sink_at(rlen: int, ns: int, x: int) -> int {
    rlen - ns + x
}

/// Pair `q` lies on the path of the `k`-th slot of user `j`.
pub open spec fn uses(
    q: int,
    rlen: int,
    spot: Seq<Seq<int>>,
    avail: Seq<Seq<int>>,
    days: Seq<int>,
    got: Seq<Seq<int>>,
    j: int,
    k: int,
) -> bool {
    let x = got[j][k];
    ||| q == tier_at(j, k)
    ||| q == day_at(avail.len() as int, j, days[x])
    ||| q == pick_at(spot, avail, j, x)
    ||| q == sink_at(rlen, days.len() as int, x)
}

/// The `k2`-th slot of user `j2` comes before the `k`-th slot of user `j`.
pub open spec fn earlier(j2: int, k2: int, j: int, k: int) -> bool {
    j2 < j || (j2 == j && k2 < k)
}

/// A layout to route through: a well-formed edge array whose pairs play the
/// roles `roles`, found at the places that `spot` and the order of the
/// layout give.
pub open spec fn plan(
    e: Seq<Edge>,
    head: Seq<usize>,
    roles: Seq<Role>,
    spot: Seq<Seq<int>>,
    avail: Seq<Seq<int>>,
    days: Seq<int>,
) -> bool {
    &&& well_posed(avail, days)
    &&& edges_wf(e, head, sink_node(avail.len() as int, days.len() as int) + 3)
    &&& e.len() == 2 + 2 * roles.len() + 2
    &&& cast(e, roles, avail, days)
    &&& indexed(roles, avail, days, spot)
}

/// The state of the routing when the slots before the `k`-th of user `j`
/// have their unit of flow: so many units run from the source to the sink,
/// at the cost of the tiers used, and every pair that carries flow lies on
/// the path of one of those slots.
pub open spec fn carrying(
    base: Seq<Edge>,
    e: Seq<Edge>,
    roles: Seq<Role>,
    spot: Seq<Seq<int>>,
    avail: Seq<Seq<int>>,
    days: Seq<int>,
    got: Seq<Seq<int>>,
    j: int,
    k: int,
) -> bool {
    let nu = avail.len() as int;
    let ns = days.len() as int;
    &&& rerouted(base, e)
    &&& forall|p: Set<int>| #[trigger]
        net_out(e, p) == gain(p.contains(source_node()), before(got, j) + k) - gain(
            p.contains(sink_node(nu, ns)),
            before(got, j) + k,
        )
    &&& flow_cost(e) == tier_before(got, j) + tier_sum(k)
    &&& forall|q: int|
        0 <= q < roles.len() && (#[trigger] e[2 * q + 3]).w != 0 ==> exists|j2: int, k2: int|
            0 <= j2 < nu && 0 <= k2 < got[j2].len() && earlier(j2, k2, j, k) && #[trigger] uses(
                q,
                roles.len() as int,
                spot,
                avail,
                days,
                got,
                j2,
                k2,
            )
}

/// Sending flow along an edge with enough residual capacity moves flow.
pub proof fn lemma_sent_rerouted(base: Seq<Edge>, e: Seq<Edge>, i: int, f: int)
    requires
        rerouted(base, e),
        base.len() % 2 == 0,
        2 <= i < e.len(),
        0 <= f <= e[i].w,
        e[i].w + e[mate(i)].w <= i32::MAX,
    ensures
        rerouted(base, sent(e, i, f)),
{
    let s = sent(e, i, f);
    assert forall|a: int| 0 <= a < s.len() implies {
        &&& (#[trigger] s[a]).u == base[a].u
        &&& s[a].v == base[a].v
        &&& s[a].c == base[a].c
        &&& s[a].next == base[a].next
        &&& s[a].w >= 0
        &&& s[a].w + s[mate(a)].w == base[a].w + base[mate(a)].w
    } by {
        assert(e[a].u == base[a].u);
        assert(e[mate(a)].u == base[mate(a)].u);
    }
}

/// One unit of flow onto a pair that carries none.
pub proof fn lemma_push_pair(
    base: Seq<Edge>,
    head: Seq<usize>,
    sz: int,
    e: Seq<Edge>,
    q: int,
) -> (e1: Seq<Edge>)
    requires
        edges_wf(base, head, sz),
        rerouted(base, e),
        0 <= q,
        2 * q + 3 < e.len(),
        e[2 * q + 3].w == 0,
        base[2 * q + 2].w + base[2 * q + 3].w == 1,
    ensures
        e1 == sent(e, 2 * q + 2, 1),
        rerouted(base, e1),
        forall|p: Set<int>| #[trigger]
            net_out(e1, p) == net_out(e, p) + gain(p.contains(base[2 * q + 2].u as int), 1) - gain(
                p.contains(base[2 * q + 2].v as int),
                1,
            ),
        flow_cost(e1) == flow_cost(e) + base[2 * q + 2].c,
        e1[2 * q + 3].w == 1,
        forall|q2: int|
            0 <= q2 && 2 * q2 + 3 < e.len() && q2 != q ==> (#[trigger] e1[2 * q2 + 3]) == e[2 * q2
                + 3],
{
    let i = 2 * q + 2;
    lemma_rerouted_wf(base, e, head, sz);
    assert(edge_ok(e, sz, i));
    assert(mate(i) == i + 1);
    assert(e[i].u == base[i].u && e[i + 1].u == base[i + 1].u);
    assert(e[i].w + e[mate(i)].w == base[i].w + base[mate(i)].w);
    let e1 = sent(e, i, 1);
    lemma_sent_rerouted(base, e, i, 1);
    assert forall|p: Set<int>| #[trigger]
        net_out(e1, p) == net_out(e, p) + gain(p.contains(base[i].u as int), 1) - gain(
            p.contains(base[i].v as int),
            1,
        ) by {
        lemma_push(e, e1, sz, i, 1, p);
    }
    lemma_push(e, e1, sz, i, 1, Set::empty());
    assert(1 * e[i].c == e[i].c);
    e1
}

/// The four pairs on the path of a slot of a valid assignment, and the
/// nodes that they join.
#[verifier::rlimit(40)]
pub proof fn lemma_path(
    e: Seq<Edge>,
    head: Seq<usize>,
    roles: Seq<Role>,
    spot: Seq<Seq<int>>,
    avail: Seq<Seq<int>>,
    days: Seq<int>,
    got: Seq<Seq<int>>,
    j: int,
    k: int,
)
    requires
        plan(e, head, roles, spot, avail, days),
        valid_assignment(avail, days, got),
        0 <= j < avail.len(),
        0 <= k < got[j].len(),
    ensures
        ({
            let nu = avail.len() as int;
            let ns = days.len() as int;
            let rlen = roles.len() as int;
            let x = got[j][k];
            let d = days[x];
            let q1 = tier_at(j, k);
            let q2 = day_at(nu, j, d);
            let q3 = pick_at(spot, avail, j, x);
            let q4 = sink_at(rlen, ns, x);
            &&& 0 <= x < ns
            &&& 0 <= d < 7
            &&& 0 <= k < 3
            &&& 0 <= q1 < 3 * nu
            &&& 3 * nu <= q2 < 10 * nu
            &&& 10 * nu <= q3 < rlen - ns
            &&& rlen - ns <= q4 < rlen
            &&& roles[q1] == (Role::Tier { user: j, cost: tier_cost(k) })
            &&& roles[q2] == (Role::Day { user: j, day: d })
            &&& roles[q3] == (Role::Pick { user: j, slot: x })
            &&& roles[q4] == (Role::Sink { slot: x })
            &&& e[2 * q1 + 2].u == source_node()
            &&& e[2 * q1 + 2].v == user_node(j)
            &&& e[2 * q1 + 2].c == tier_cost(k)
            &&& e[2 * q2 + 2].u == user_node(j)
            &&& e[2 * q2 + 2].v == day_node(nu, j, d)
            &&& e[2 * q2 + 2].c == 0
            &&& e[2 * q3 + 2].u == day_node(nu, j, d)
            &&& e[2 * q3 + 2].v == slot_node(nu, x)
            &&& e[2 * q3 + 2].c == 0
            &&& e[2 * q4 + 2].u == slot_node(nu, x)
            &&& e[2 * q4 + 2].v == sink_node(nu, ns)
            &&& e[2 * q4 + 2].c == 0
        }),
{
    reveal(indexed);
    let nu = avail.len() as int;
    let ns = days.len() as int;
    let rlen = roles.len() as int;
    let x = got[j][k];
    assert(increasing(got[j]) && got[j].len() <= 3);
    assert(avail[j].contains(got[j][k]));
    let a = pos(avail[j], x);
    assert(0 <= avail[j][a] < days.len());
    let d = days[x];
    assert(0 <= days[x] < 7);
    lemma_day_node_range(nu, j, d);
    let q1 = tier_at(j, k);
    let q2 = day_at(nu, j, d);
    let q3 = pick_at(spot, avail, j, x);
    let q4 = sink_at(rlen, ns, x);
    assert(roles[3 * j + k] == (Role::Tier { user: j, cost: tier_cost(k) }));
    assert(roles[3 * nu + d * nu + j] == (Role::Day { user: j, day: d }));
    assert(10 * nu <= spot[j][a] < roles.len() - ns);
    assert(roles[roles.len() - ns + x] == (Role::Sink { slot: x }));
    assert(plays(e[2 * q1 + 2], roles[q1], avail, days));
    assert(plays(e[2 * q2 + 2], roles[q2], avail, days));
    assert(plays(e[2 * q3 + 2], roles[q3], avail, days));
    assert(plays(e[2 * q4 + 2], roles[q4], avail, days));
}

/// The paths of two different slots of a valid assignment share no pair.
#[verifier::rlimit(40)]
pub proof fn lemma_uses_once(
    e: Seq<Edge>,
    head: Seq<usize>,
    roles: Seq<Role>,
    spot: Seq<Seq<int>>,
    avail: Seq<Seq<int>>,
    days: Seq<int>,
    got: Seq<Seq<int>>,
    q: int,
    j: int,
    k: int,
    j2: int,
    k2: int,
)
    requires
        plan(e, head, roles, spot, avail, days),
        valid_assignment(avail, days, got),
        0 <= j < avail.len(),
        0 <= k < got[j].len(),
        0 <= j2 < avail.len(),
        0 <= k2 < got[j2].len(),
        uses(q, roles.len() as int, spot, avail, days, got, j, k),
        uses(q, roles.len() as int, spot, avail, days, got, j2, k2),
    ensures
        j == j2,
        k == k2,
{
    let nu = avail.len() as int;
    lemma_path(e, head, roles, spot, avail, days, got, j, k);
    lemma_path(e, head, roles, spot, avail, days, got, j2, k2);
    let x = got[j][k];
    let x2 = got[j2][k2];
    assert(increasing(got[j]));
    if q == day_at(nu, j, days[x]) {
        assert(j == j2 && days[x] == days[x2]) by (nonlinear_arith)
            requires
                0 <= j < nu,
                0 <= j2 < nu,
                0 <= days[x],
                0 <= days[x2],
                3 * nu + days[x] * nu + j == 3 * nu + days[x2] * nu + j2,
        ;
        if k != k2 {
            assert(days[got[j][k]] != days[got[j][k2]]);
        }
    } else if q == pick_at(spot, avail, j, x) {
        assert(roles[q] == (Role::Pick { user: j, slot: x }));
        assert(roles[q] == (Role::Pick { user: j2, slot: x2 }));
        if k < k2 {
            assert(got[j][k] < got[j][k2]);
        } else if k2 < k {
            assert(got[j][k2] < got[j][k]);
        }
    } else if q == sink_at(roles.len() as int, days.len() as int, x) {
        assert(x == x2);
        if j != j2 {
            assert(got[j][k] != got[j2][k2]);
        } else if k < k2 {
            assert(got[j][k] < got[j][k2]);
        } else if k2 < k {
            assert(got[j][k2] < got[j][k]);
        }
    }
}

/// One more slot routed: a unit of flow along the path of the `k`-th slot
/// of user `j`, whose pairs carry nothing yet.
#[verifier::rlimit(40)]
pub proof fn lemma_route_one(
    base: Seq<Edge>,
    head: Seq<usize>,
    roles: Seq<Role>,
    spot: Seq<Seq<int>>,
    avail: Seq<Seq<int>>,
    days: Seq<int>,
    got: Seq<Seq<int>>,
    e: Seq<Edge>,
    j: int,
    k: int,
) -> (e4: Seq<Edge>)
    requires
        plan(base, head, roles, spot, avail, days),
        valid_assignment(avail, days, got),
        0 <= j < avail.len(),
        0 <= k < got[j].len(),
        carrying(base, e, roles, spot, avail, days, got, j, k),
    ensures
        carrying(base, e4, roles, spot, avail, days, got, j, k + 1),
{
    let nu = avail.len() as int;
    let ns = days.len() as int;
    let rlen = roles.len() as int;
    let sz = sink_node(nu, ns) + 3;
    let x = got[j][k];
    let d = days[x];
    let q1 = tier_at(j, k);
    let q2 = day_at(nu, j, d);
    let q3 = pick_at(spot, avail, j, x);
    let q4 = sink_at(rlen, ns, x);
    lemma_path(base, head, roles, spot, avail, days, got, j, k);
    assert(uses(q1, rlen, spot, avail, days, got, j, k));
    assert(uses(q2, rlen, spot, avail, days, got, j, k));
    assert(uses(q3, rlen, spot, avail, days, got, j, k));
    assert(uses(q4, rlen, spot, avail, days, got, j, k));
    assert forall|q: int|
        0 <= q < rlen && uses(q, rlen, spot, avail, days, got, j, k) implies (#[trigger] e[2 * q
        + 3]).w == 0 by {
        if e[2 * q + 3].w != 0 {
            let (j2, k2) = choose|j2: int, k2: int|
                0 <= j2 < nu && 0 <= k2 < got[j2].len() && earlier(j2, k2, j, k) && #[trigger] uses(
                    q,
                    rlen,
                    spot,
                    avail,
                    days,
                    got,
                    j2,
                    k2,
                );
            lemma_uses_once(base, head, roles, spot, avail, days, got, q, j, k, j2, k2);
        }
    }
    assert(e[2 * q1 + 3].w == 0);
    assert(e[2 * q2 + 3].w == 0);
    assert(e[2 * q3 + 3].w == 0);
    assert(e[2 * q4 + 3].w == 0);
    let e1 = lemma_push_pair(base, head, sz, e, q1);
    assert(e1[2 * q2 + 3] == e[2 * q2 + 3]);
    let e2 = lemma_push_pair(base, head, sz, e1, q2);
    assert(e1[2 * q3 + 3] == e[2 * q3 + 3]);
    assert(e2[2 * q3 + 3] == e1[2 * q3 + 3]);
    let e3 = lemma_push_pair(base, head, sz, e2, q3);
    assert(e1[2 * q4 + 3] == e[2 * q4 + 3]);
    assert(e2[2 * q4 + 3] == e1[2 * q4 + 3]);
    assert(e3[2 * q4 + 3] == e2[2 * q4 + 3]);
    let e4 = lemma_push_pair(base, head, sz, e3, q4);
    assert forall|p: Set<int>| #[trigger]
        net_out(e4, p) == gain(p.contains(source_node()), before(got, j) + k + 1) - gain(
            p.contains(sink_node(nu, ns)),
            before(got, j) + k + 1,
        ) by {
        assert(net_out(e, p) == gain(p.contains(source_node()), before(got, j) + k) - gain(
            p.contains(sink_node(nu, ns)),
            before(got, j) + k,
        ));
        assert(net_out(e1, p) == net_out(e, p) + gain(p.contains(base[2 * q1 + 2].u as int), 1)
            - gain(p.contains(base[2 * q1 + 2].v as int), 1));
        assert(net_out(e2, p) == net_out(e1, p) + gain(p.contains(base[2 * q2 + 2].u as int), 1)
            - gain(p.contains(base[2 * q2 + 2].v as int), 1));
        assert(net_out(e3, p) == net_out(e2, p) + gain(p.contains(base[2 * q3 + 2].u as int), 1)
            - gain(p.contains(base[2 * q3 + 2].v as int), 1));
        assert(net_out(e4, p) == net_out(e3, p) + gain(p.contains(base[2 * q4 + 2].u as int), 1)
            - gain(p.contains(base[2 * q4 + 2].v as int), 1));
    }
    assert forall|q: int| 0 <= q < rlen && (#[trigger] e4[2 * q + 3]).w != 0 implies exists|
        j2: int,
        k2: int,
    |
        0 <= j2 < nu && 0 <= k2 < got[j2].len() && earlier(j2, k2, j, k + 1) && #[trigger] uses(
            q,
            rlen,
            spot,
            avail,
            days,
            got,
            j2,
            k2,
        ) by {
        if q == q1 || q == q2 || q == q3 || q == q4 {
            assert(earlier(j, k, j, k + 1) && uses(q, rlen, spot, avail, days, got, j, k));
        } else {
            assert(e1[2 * q + 3] == e[2 * q + 3]);
            assert(e2[2 * q + 3] == e1[2 * q + 3]);
            assert(e3[2 * q + 3] == e2[2 * q + 3]);
            assert(e4[2 * q + 3] == e3[2 * q + 3]);
            let (j2, k2) = choose|j2: int, k2: int|
                0 <= j2 < nu && 0 <= k2 < got[j2].len() && earlier(j2, k2, j, k) && #[trigger] uses(
                    q,
                    rlen,
                    spot,
                    avail,
                    days,
                    got,
                    j2,
                    k2,
                );
            assert(earlier(j2, k2, j, k + 1) && uses(q, rlen, spot, avail, days, got, j2, k2));
        }
    }
    e4
}

/// The routing of the slots before the `k`-th of user `j`.
pub proof fn lemma_route(
    base: Seq<Edge>,
    head: Seq<usize>,
    roles: Seq<Role>,
    spot: Seq<Seq<int>>,
    avail: Seq<Seq<int>>,
    days: Seq<int>,
    got: Seq<Seq<int>>,
    j: int,
    k: int,
) -> (e: Seq<Edge>)
    requires
        plan(base, head, roles, spot, avail, days),
        idle(base),
        valid_assignment(avail, days, got),
        0 <= j <= avail.len(),
        j < avail.len() ==> 0 <= k <= got[j].len(),
        j == avail.len() ==> k == 0,
    ensures
        carrying(base, e, roles, spot, avail, days, got, j, k),
    decreases j, k,
{
    let nu = avail.len() as int;
    let ns = days.len() as int;
    if k > 0 {
        let e = lemma_route(base, head, roles, spot, avail, days, got, j, k - 1);
        lemma_route_one(base, head, roles, spot, avail, days, got, e, j, k - 1)
    } else if j > 0 {
        let m = got[j - 1].len() as int;
        let e = lemma_route(base, head, roles, spot, avail, days, got, j - 1, m);
        assert(before(got, j) == before(got, j - 1) + len_term(got)(j - 1));
        assert(tier_before(got, j) == tier_before(got, j - 1) + tier_term(got)(j - 1));
        assert forall|q: int| 0 <= q < roles.len() && (#[trigger] e[2 * q + 3]).w != 0 implies exists|
            j2: int,
            k2: int,
        |
            0 <= j2 < nu && 0 <= k2 < got[j2].len() && earlier(j2, k2, j, 0) && #[trigger] uses(
                q,
                roles.len() as int,
                spot,
                avail,
                days,
                got,
                j2,
                k2,
            ) by {
            let (j2, k2) = choose|j2: int, k2: int|
                0 <= j2 < nu && 0 <= k2 < got[j2].len() && earlier(j2, k2, j - 1, m) && #[trigger] uses(
                    q,
                    roles.len() as int,
                    spot,
                    avail,
                    days,
                    got,
                    j2,
                    k2,
                );
            assert(earlier(j2, k2, j, 0) && uses(
                q,
                roles.len() as int,
                spot,
                avail,
                days,
                got,
                j2,
                k2,
            ));
        }
        e
    } else {
        let sz = sink_node(nu, ns) + 3;
        assert forall|i: int| 0 <= i < base.len() implies (#[trigger] base[i]).w >= 0 by {
            if i >= 2 {
                assert(edge_ok(base, sz, i));
            }
        }
        assert forall|p: Set<int>| #[trigger]
            net_out(base, p) == gain(p.contains(source_node()), before(got, 0) + 0) - gain(
                p.contains(sink_node(nu, ns)),
                before(got, 0) + 0,
            ) by {
            lemma_idle(base, p);
        }
        lemma_idle(base, Set::empty());
        assert forall|q: int| 0 <= q < roles.len() implies (#[trigger] base[2 * q + 3]).w == 0 by {}
        base
    }
}

/// Every valid assignment is a flow through the layout: as many units from
/// the source to the sink as it gives out slots, in balance everywhere
/// else, at the cost of the assignment.
pub proof fn lemma_assignment_flow(
    base: Seq<Edge>,
    head: Seq<usize>,
    roles: Seq<Role>,
    spot: Seq<Seq<int>>,
    avail: Seq<Seq<int>>,
    days: Seq<int>,
    got: Seq<Seq<int>>,
) -> (e: Seq<Edge>)
    requires
        plan(base, head, roles, spot, avail, days),
        idle(base),
        valid_assignment(avail, days, got),
    ensures
        rerouted(base, e),
        forall|p: Set<int>| #[trigger]
            net_out(e, p) == gain(p.contains(source_node()), total(got)) - gain(
                p.contains(sink_node(avail.len() as int, days.len() as int)),
                total(got),
            ),
        flow_cost(e) == tier_total(got),
{
    lemma_route(base, head, roles, spot, avail, days, got, avail.len() as int, 0)
}

} // verus!
