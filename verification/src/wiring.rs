//! Building the layout on a solver, stage by stage, and reading the slots
//! of each user off the solved network.

use crate::flow::{
    abs, cap_in, cap_in_term, cap_out, cap_out_term, gain, idle, lemma_pair_sums,
    lemma_rerouted_caps, net_out, rerouted, thrifty, weight, weight_term,
};
use crate::graph::{blank_edge, head_ok, lemma_with_pair_wf, mate, Edge, Mcmf, Net};
use crate::layout::{
    cast, day_node, indexed, lemma_day_node_apart, lemma_day_node_range, lemma_role_of, plays,
    routed, sink_node, slot_node, source_node, stamps_of, taken, tier_cost, user_node, weekdays,
    well_posed, wishes, Role, Spare, User,
};
use crate::search::costs_within;
use crate::solve::{
    carries, cost_limit, lemma_staged_plain, lemma_unclose, solvable, solved, staged, unclosed,
};
use crate::sums::lemma_sum_zero;
use vstd::arithmetic::div_mod::{
    lemma_div_is_ordered, lemma_div_multiples_vanish, lemma_fundamental_div_mod_converse_mod,
};
use vstd::prelude::*;
use vstd::relations::{antisymmetric, reflexive, sorted_by, strongly_connected, transitive};
use vstd::seq_lib::lemma_sorted_unique;

verus! {

/// A network that is still being laid out: well-formed, nothing booked, no
/// flow, and no cost outside `0..=100`.
pub open spec fn blank(net: Net) -> bool {
    &&& net.wf()
    &&& forall|v: int| 0 <= v < net.size() ==> #[trigger] net.a[v] == 0
    &&& idle(net.e)
    &&& thrifty(net.e)
    &&& costs_within(net.e, 100)
}

/// `new` is `old` with one more pair of capacity one: `u -> v` at cost `c`
/// and its reverse.
pub open spec fn linked(old: Net, new: Net, u: int, v: int, c: int) -> bool {
    let m = old.e.len() as int;
    &&& new == (Net { e: new.e, head: new.head, ..old })
    &&& blank(new)
    &&& new.e.len() == m + 2
    &&& forall|i: int| 0 <= i < m ==> new.e[i] == old.e[i]
    &&& new.e[m].u == u
    &&& new.e[m].v == v
    &&& new.e[m].w == 1
    &&& new.e[m].c == c
    &&& new.e[m + 1].u == v
    &&& new.e[m + 1].v == u
    &&& new.e[m + 1].w == 0
    &&& forall|p: Set<int>| #[trigger] cap_in(new.e, p) == cap_in(old.e, p) + gain(p.contains(v), 1)
    &&& forall|p: Set<int>| #[trigger]
        cap_out(new.e, p) == cap_out(old.e, p) + gain(p.contains(u), 1)
    &&& weight(new.e) == weight(old.e) + c
}

/// Adds the pair `u -> v` with capacity one and cost `c`.
pub(crate) fn link(mf: &mut Mcmf, u: i32, v: i32, c: i32)
    requires
        blank(old(mf)@),
        0 <= u < old(mf)@.size(),
        0 <= v < old(mf)@.size(),
        0 <= c <= 100,
    ensures
        linked(old(mf)@, final(mf)@, u as int, v as int, c as int),
        final(mf)@ == unit(old(mf)@, u as int, v as int, c as int),
{
    let ghost before = mf@;
    let _ = mf.add_edge(u, v, 0, 1, c);
    proof {
        let after = mf@;
        let m = before.e.len() as int;
        assert(after.a =~= before.a);
        let x = after.e[m];
        let y = after.e[m + 1];
        assert(after.e =~= before.e.push(x).push(y));
        assert forall|p: Set<int>| #[trigger]
            cap_in(after.e, p) == cap_in(before.e, p) + gain(p.contains(v as int), 1) by {
            lemma_pair_sums(before.e, x, y, p);
        }
        assert forall|p: Set<int>| #[trigger]
            cap_out(after.e, p) == cap_out(before.e, p) + gain(p.contains(u as int), 1) by {
            lemma_pair_sums(before.e, x, y, p);
        }
        lemma_pair_sums(before.e, x, y, Set::empty());
        assert(x.w * abs(x.c as int) == c) by (nonlinear_arith)
            requires
                x.w == 1,
                x.c == c,
                c >= 0,
        ;
        assert forall|i: int| 2 <= i < after.e.len() && i % 2 == 0 implies (
        #[trigger] after.e[i]).c >= 0 by {
            if i < m {
                assert(after.e[i] == before.e[i]);
            }
        }
        assert forall|i: int| 2 <= i < after.e.len() implies -100 <= (#[trigger] after.e[i]).c
            <= 100 by {
            if i < m {
                assert(after.e[i] == before.e[i]);
            }
        }
    }
}

/// The network with one more pair of capacity one, `u -> v` at cost `c`.
pub open spec fn unit(net: Net, u: int, v: int, c: int) -> Net {
    net.with_bounded(u as i32, v as i32, 0, 1, c as i32)
}

/// The network after the first `i` users have their three edges from the
/// source.
pub open spec fn tiers_to(net: Net, i: int) -> Net
    decreases i,
{
    if i <= 0 {
        net
    } else {
        unit(unit(unit(tiers_to(net, i - 1), 1, i + 1, 20), 1, i + 1, 50), 1, i + 1, 100)
    }
}

/// The network after the first `j` of `nu` users have their edge to their
/// node of day `day - 1`.
pub open spec fn day_row(net: Net, nu: int, day: int, j: int) -> Net
    decreases j,
{
    if j <= 0 {
        net
    } else {
        unit(day_row(net, nu, day, j - 1), j + 1, j + 1 + day * nu, 0)
    }
}

/// The network after all users have their edges to their nodes of the
/// first `day` days.
pub open spec fn days_to(net: Net, nu: int, day: int) -> Net
    decreases day,
{
    if day <= 0 {
        net
    } else {
        day_row(days_to(net, nu, day - 1), nu, day, nu)
    }
}

/// The network after the first `k` slots that user `i` names have their
/// edge from the user's day node.
pub open spec fn pick_row(net: Net, nu: int, i: int, wish: Seq<int>, days: Seq<int>, k: int) -> Net
    decreases k,
{
    if k <= 0 {
        net
    } else {
        let x = wish[k - 1];
        unit(pick_row(net, nu, i, wish, days, k - 1), i + 2 + (days[x] + 1) * nu, 8 * nu + 2 + x, 0)
    }
}

/// The network after the slots that the first `i` users name have their
/// edges.
pub open spec fn picks_to(net: Net, avail: Seq<Seq<int>>, days: Seq<int>, i: int) -> Net
    decreases i,
{
    if i <= 0 {
        net
    } else {
        pick_row(
            picks_to(net, avail, days, i - 1),
            avail.len() as int,
            i - 1,
            avail[i - 1],
            days,
            avail[i - 1].len() as int,
        )
    }
}

/// The network after the first `i` of `ns` slots have their edge to the
/// sink.
pub open spec fn sinks_to(net: Net, nu: int, ns: int, i: int) -> Net
    decreases i,
{
    if i <= 0 {
        net
    } else {
        unit(sinks_to(net, nu, ns, i - 1), 8 * nu + 1 + i, 8 * nu + ns + 2, 0)
    }
}

/// The whole layout on the network `base`.
pub open spec fn laid(base: Net, avail: Seq<Seq<int>>, days: Seq<int>) -> Net {
    let nu = avail.len() as int;
    let ns = days.len() as int;
    sinks_to(picks_to(days_to(tiers_to(base, nu), nu, 7), avail, days, nu), nu, ns, ns)
}

/// The layout so far: the network differs from `base` only in its edges,
/// is blank, and its pairs play the roles `roles`.
pub open spec fn laying(
    net: Net,
    base: Net,
    roles: Seq<Role>,
    avail: Seq<Seq<int>>,
    days: Seq<int>,
) -> bool {
    &&& net == (Net { e: net.e, head: net.head, ..base })
    &&& blank(net)
    &&& net.e.len() == 2 + 2 * roles.len()
    &&& net.e[0] == base.e[0]
    &&& net.e[1] == base.e[1]
    &&& cast(net.e, roles, avail, days)
    &&& net.size() == sink_node(avail.len() as int, days.len() as int) + 3
    &&& well_posed(avail, days)
}

/// How far the capacities of the layout have come: `tiers` users have their
/// three edges from the source, the day nodes before day `dd`, and those of
/// day `dd` before user `dj`, have their edge from the user, and `sinks`
/// slots have their edge to the sink.
pub open spec fn progress(e: Seq<Edge>, nu: int, ns: int, tiers: int, dd: int, dj: int, sinks: int) -> bool {
    &&& cap_out(e, set![source_node()]) == 3 * tiers
    &&& weight(e) == 170 * tiers
    &&& cap_out(e, set![sink_node(nu, ns) + 1]) == 0
    &&& forall|j: int|
        0 <= j < nu ==> #[trigger] cap_in(e, set![user_node(j)]) == (if j < tiers {
            3int
        } else {
            0int
        })
    &&& forall|j: int, d: int|
        0 <= j < nu && 0 <= d < 7 ==> #[trigger] cap_in(e, set![day_node(nu, j, d)]) == (if d < dd
            || (d == dd && j < dj) {
            1int
        } else {
            0int
        })
    &&& forall|x: int|
        0 <= x < ns ==> #[trigger] cap_out(e, set![slot_node(nu, x)]) == (if x < sinks {
            1int
        } else {
            0int
        })
}

/// One more pair with its role keeps the layout.
pub proof fn lemma_laying_step(
    old: Net,
    new: Net,
    base: Net,
    roles: Seq<Role>,
    r: Role,
    avail: Seq<Seq<int>>,
    days: Seq<int>,
    u: int,
    v: int,
    c: int,
)
    requires
        laying(old, base, roles, avail, days),
        linked(old, new, u, v, c),
        plays(new.e[old.e.len() as int], r, avail, days),
    ensures
        laying(new, base, roles.push(r), avail, days),
{
    let rs = roles.push(r);
    let m = old.e.len() as int;
    assert forall|k: int| 0 <= k < rs.len() implies {
        &&& plays(new.e[2 * k + 2], #[trigger] rs[k], avail, days)
        &&& new.e[2 * k + 3].u == new.e[2 * k + 2].v
        &&& new.e[2 * k + 3].v == new.e[2 * k + 2].u
        &&& new.e[2 * k + 2].w >= 0
        &&& new.e[2 * k + 3].w >= 0
        &&& new.e[2 * k + 2].w + new.e[2 * k + 3].w == 1
    } by {
        if k < roles.len() {
            assert(rs[k] == roles[k]);
            assert(plays(old.e[2 * k + 2], roles[k], avail, days));
            assert(new.e[2 * k + 2] == old.e[2 * k + 2]);
            assert(new.e[2 * k + 3] == old.e[2 * k + 3]);
        }
    }
}

/// Lays the three priced edges from the source to each user.
#[verifier::rlimit(40)]
pub(crate) fn lay_tiers(
    mf: &mut Mcmf,
    nu: usize,
    Ghost(avail): Ghost<Seq<Seq<int>>>,
    Ghost(days): Ghost<Seq<int>>,
) -> (r: Ghost<Seq<Role>>)
    requires
        laying(old(mf)@, old(mf)@, Seq::empty(), avail, days),
        progress(old(mf)@.e, avail.len() as int, days.len() as int, 0, 0, 0, 0),
        nu == avail.len(),
    ensures
        laying(final(mf)@, old(mf)@, r@, avail, days),
        progress(final(mf)@.e, avail.len() as int, days.len() as int, nu as int, 0, 0, 0),
        r@.len() == 3 * nu,
        forall|j: int, t: int|
            0 <= j < nu && 0 <= t < 3 ==> #[trigger] r@[3 * j + t] == (Role::Tier {
                user: j,
                cost: tier_cost(t),
            }),
        forall|q: int| 0 <= q < 3 * nu ==> (#[trigger] r@[q]) is Tier,
        final(mf)@ == tiers_to(old(mf)@, nu as int),
{
    let ghost base = mf@;
    let ghost ns = days.len() as int;
    let ghost mut roles = Seq::<Role>::empty();
    let mut i: usize = 0;
    while i < nu
        invariant
            i <= nu,
            nu == avail.len(),
            ns == days.len(),
            laying(mf@, base, roles, avail, days),
            progress(mf@.e, nu as int, ns, i as int, 0, 0, 0),
            roles.len() == 3 * i,
            forall|j: int, t: int|
                0 <= j < i && 0 <= t < 3 ==> #[trigger] roles[3 * j + t] == (Role::Tier {
                    user: j,
                    cost: tier_cost(t),
                }),
            forall|q: int| 0 <= q < 3 * i ==> (#[trigger] roles[q]) is Tier,
            mf@ == tiers_to(base, i as int),
        decreases nu - i,
    {
        let u = (i + 2) as i32;
        let ghost r0 = Role::Tier { user: i as int, cost: 20 };
        let ghost r1 = Role::Tier { user: i as int, cost: 50 };
        let ghost r2 = Role::Tier { user: i as int, cost: 100 };
        let ghost m0 = mf@;
        let ghost roles0 = roles;
        link(mf, 1, u, 20);
        let ghost m1 = mf@;
        proof {
            lemma_laying_step(m0, m1, base, roles, r0, avail, days, 1, u as int, 20);
        }
        link(mf, 1, u, 50);
        let ghost m2 = mf@;
        proof {
            lemma_laying_step(m1, m2, base, roles.push(r0), r1, avail, days, 1, u as int, 50);
        }
        link(mf, 1, u, 100);
        proof {
            lemma_laying_step(
                m2,
                mf@,
                base,
                roles.push(r0).push(r1),
                r2,
                avail,
                days,
                1,
                u as int,
                100,
            );
            roles = roles.push(r0).push(r1).push(r2);
            assert forall|j: int, t: int| 0 <= j < i + 1 && 0 <= t < 3 implies #[trigger] roles[3
                * j + t] == (Role::Tier { user: j, cost: tier_cost(t) }) by {
                if j < i {
                    assert(roles[3 * j + t] == roles0[3 * j + t]);
                }
            }
            assert forall|q: int| 0 <= q < 3 * (i + 1) implies (#[trigger] roles[q]) is Tier by {
                if q < 3 * i {
                    assert(roles[q] == roles0[q]);
                }
            }
            let e3 = mf@.e;
            assert forall|j: int| 0 <= j < nu implies #[trigger] cap_in(e3, set![user_node(j)]) == (
            if j < i + 1 {
                3int
            } else {
                0int
            }) by {
                let p = set![user_node(j)];
                assert(cap_in(m1.e, p) == cap_in(m0.e, p) + gain(p.contains(u as int), 1));
                assert(cap_in(m2.e, p) == cap_in(m1.e, p) + gain(p.contains(u as int), 1));
                assert(cap_in(e3, p) == cap_in(m2.e, p) + gain(p.contains(u as int), 1));
            }
            assert forall|j: int, d: int| 0 <= j < nu && 0 <= d < 7 implies #[trigger] cap_in(
                e3,
                set![day_node(nu as int, j, d)],
            ) == 0 by {
                let p = set![day_node(nu as int, j, d)];
                lemma_day_node_range(nu as int, j, d);
                assert(cap_in(m1.e, p) == cap_in(m0.e, p) + gain(p.contains(u as int), 1));
                assert(cap_in(m2.e, p) == cap_in(m1.e, p) + gain(p.contains(u as int), 1));
                assert(cap_in(e3, p) == cap_in(m2.e, p) + gain(p.contains(u as int), 1));
            }
            assert forall|x: int| 0 <= x < ns implies #[trigger] cap_out(
                e3,
                set![slot_node(nu as int, x)],
            ) == 0 by {
                let p = set![slot_node(nu as int, x)];
                assert(cap_out(m1.e, p) == cap_out(m0.e, p) + gain(p.contains(1), 1));
                assert(cap_out(m2.e, p) == cap_out(m1.e, p) + gain(p.contains(1), 1));
                assert(cap_out(e3, p) == cap_out(m2.e, p) + gain(p.contains(1), 1));
            }
            let src = set![source_node()];
            assert(cap_out(m1.e, src) == cap_out(m0.e, src) + gain(src.contains(1), 1));
            assert(cap_out(m2.e, src) == cap_out(m1.e, src) + gain(src.contains(1), 1));
            assert(cap_out(e3, src) == cap_out(m2.e, src) + gain(src.contains(1), 1));
            let sup = set![sink_node(nu as int, ns) + 1];
            assert(cap_out(m1.e, sup) == cap_out(m0.e, sup) + gain(sup.contains(1), 1));
            assert(cap_out(m2.e, sup) == cap_out(m1.e, sup) + gain(sup.contains(1), 1));
            assert(cap_out(e3, sup) == cap_out(m2.e, sup) + gain(sup.contains(1), 1));
        }
        i = i + 1;
    }
    Ghost(roles)
}

/// Lays the edge from each user to each of the user's seven day nodes.
#[verifier::rlimit(40)]
pub(crate) fn lay_days(
    mf: &mut Mcmf,
    nu: usize,
    Ghost(base): Ghost<Net>,
    Ghost(roles0): Ghost<Seq<Role>>,
    Ghost(avail): Ghost<Seq<Seq<int>>>,
    Ghost(days): Ghost<Seq<int>>,
) -> (r: Ghost<Seq<Role>>)
    requires
        laying(old(mf)@, base, roles0, avail, days),
        progress(old(mf)@.e, avail.len() as int, days.len() as int, nu as int, 0, 0, 0),
        nu == avail.len(),
        roles0.len() == 3 * nu,
    ensures
        laying(final(mf)@, base, r@, avail, days),
        progress(final(mf)@.e, avail.len() as int, days.len() as int, nu as int, 7, 0, 0),
        r@.len() == 10 * nu,
        forall|q: int| 3 * nu <= q < 10 * nu ==> (#[trigger] r@[q]) is Day,
        forall|k: int| 0 <= k < 3 * nu ==> r@[k] == roles0[k],
        forall|j: int, d: int|
            0 <= j < nu && 0 <= d < 7 ==> #[trigger] r@[3 * nu + d * nu + j] == (Role::Day {
                user: j,
                day: d,
            }),
        final(mf)@ == days_to(old(mf)@, nu as int, 7),
{
    let ghost ns = days.len() as int;
    let ghost mut roles = roles0;
    let ghost start = mf@;
    let mut day: usize = 1;
    while day <= 7
        invariant
            1 <= day <= 8,
            nu == avail.len(),
            ns == days.len(),
            roles0.len() == 3 * nu,
            laying(mf@, base, roles, avail, days),
            progress(mf@.e, nu as int, ns, nu as int, day - 1, 0, 0),
            roles.len() == 3 * nu + (day - 1) * nu,
            mf@ == days_to(start, nu as int, day - 1),
            forall|q: int| 3 * nu <= q < roles.len() ==> (#[trigger] roles[q]) is Day,
            forall|k: int| 0 <= k < 3 * nu ==> roles[k] == roles0[k],
            forall|j: int, d: int|
                0 <= j < nu && 0 <= d < day - 1 ==> #[trigger] roles[3 * nu + d * nu + j] == (
                Role::Day { user: j, day: d }),
        decreases 8 - day,
    {
        let mut j: usize = 0;
        while j < nu
            invariant
                1 <= day <= 7,
                j <= nu,
                nu == avail.len(),
                ns == days.len(),
                roles0.len() == 3 * nu,
                laying(mf@, base, roles, avail, days),
                progress(mf@.e, nu as int, ns, nu as int, day - 1, j as int, 0),
                roles.len() == 3 * nu + (day - 1) * nu + j,
                mf@ == day_row(days_to(start, nu as int, day - 1), nu as int, day as int, j as int),
                forall|q: int| 3 * nu <= q < roles.len() ==> (#[trigger] roles[q]) is Day,
                forall|k: int| 0 <= k < 3 * nu ==> roles[k] == roles0[k],
                forall|j2: int, d: int|
                    0 <= j2 < nu && (0 <= d < day - 1 || (d == day - 1 && j2 < j))
                        ==> #[trigger] roles[3 * nu + d * nu + j2] == (Role::Day {
                        user: j2,
                        day: d,
                    }),
            decreases nu - j,
        {
            proof {
                lemma_day_node_range(nu as int, j as int, day - 1);
            }
            let from = (j + 2) as i32;
            let to = (j + 2 + day * nu) as i32;
            let ghost role = Role::Day { user: j as int, day: day - 1 };
            let ghost m0 = mf@;
            let ghost prior = roles;
            link(mf, from, to, 0);
            proof {
                let m1 = mf@;
                lemma_laying_step(m0, m1, base, roles, role, avail, days, from as int, to as int, 0);
                roles = roles.push(role);
                assert forall|q: int| 3 * nu <= q < roles.len() implies (#[trigger] roles[q]) is Day by {
                    if q < prior.len() {
                        assert(roles[q] == prior[q]);
                    }
                }
                assert forall|j2: int, d: int|
                    0 <= j2 < nu && (0 <= d < day - 1 || (d == day - 1 && j2 < j + 1)) implies #[trigger] roles[3
                    * nu + d * nu + j2] == (Role::Day { user: j2, day: d }) by {
                    lemma_day_node_range(nu as int, j2, d);
                    if j2 == j && d == day - 1 {
                    } else {
                        if d < day - 1 {
                            assert(d * nu + nu <= (day - 1) * nu) by (nonlinear_arith)
                                requires
                                    d + 1 <= day - 1,
                                    0 <= nu,
                            ;
                        }
                        assert(roles[3 * nu + d * nu + j2] == prior[3 * nu + d * nu + j2]);
                    }
                }
                assert forall|j2: int| 0 <= j2 < nu implies #[trigger] cap_in(
                    m1.e,
                    set![user_node(j2)],
                ) == 3 by {
                    let p = set![user_node(j2)];
                    assert(cap_in(m1.e, p) == cap_in(m0.e, p) + gain(p.contains(to as int), 1));
                }
                assert forall|j2: int, d: int| 0 <= j2 < nu && 0 <= d < 7 implies #[trigger] cap_in(
                    m1.e,
                    set![day_node(nu as int, j2, d)],
                ) == (if d < day - 1 || (d == day - 1 && j2 < j + 1) {
                    1int
                } else {
                    0int
                }) by {
                    let p = set![day_node(nu as int, j2, d)];
                    assert(cap_in(m1.e, p) == cap_in(m0.e, p) + gain(p.contains(to as int), 1));
                    if day_node(nu as int, j2, d) == to {
                        lemma_day_node_apart(nu as int, j2, d, j as int, day - 1);
                    }
                }
                assert forall|x: int| 0 <= x < ns implies #[trigger] cap_out(
                    m1.e,
                    set![slot_node(nu as int, x)],
                ) == 0 by {
                    let p = set![slot_node(nu as int, x)];
                    assert(cap_out(m1.e, p) == cap_out(m0.e, p) + gain(p.contains(from as int), 1));
                }
                let src = set![source_node()];
                assert(cap_out(m1.e, src) == cap_out(m0.e, src) + gain(src.contains(from as int), 1));
                let sup = set![sink_node(nu as int, ns) + 1];
                assert(cap_out(m1.e, sup) == cap_out(m0.e, sup) + gain(sup.contains(from as int), 1));
            }
            j = j + 1;
        }
        proof {
            assert((day - 1) * nu + nu == day * nu) by (nonlinear_arith);
        }
        day = day + 1;
    }
    proof {
        assert((day - 1) * nu == 7 * nu);
    }
    Ghost(roles)
}

/// Lays the edge from each slot to the sink.
#[verifier::rlimit(40)]
pub(crate) fn lay_sinks(
    mf: &mut Mcmf,
    nu: usize,
    ns: usize,
    Ghost(base): Ghost<Net>,
    Ghost(roles0): Ghost<Seq<Role>>,
    Ghost(avail): Ghost<Seq<Seq<int>>>,
    Ghost(days): Ghost<Seq<int>>,
) -> (r: Ghost<Seq<Role>>)
    requires
        laying(old(mf)@, base, roles0, avail, days),
        progress(old(mf)@.e, avail.len() as int, days.len() as int, nu as int, 7, 0, 0),
        nu == avail.len(),
        ns == days.len(),
    ensures
        laying(final(mf)@, base, r@, avail, days),
        progress(final(mf)@.e, avail.len() as int, days.len() as int, nu as int, 7, 0, ns as int),
        r@.len() == roles0.len() + ns,
        forall|k: int| 0 <= k < roles0.len() ==> r@[k] == roles0[k],
        forall|x: int| 0 <= x < ns ==> #[trigger] r@[roles0.len() + x] == (Role::Sink { slot: x }),
        final(mf)@ == sinks_to(old(mf)@, nu as int, ns as int, ns as int),
{
    let ghost mut roles = roles0;
    let ghost start = mf@;
    let t = (8 * nu + ns + 2) as i32;
    let mut i: usize = 0;
    while i < ns
        invariant
            i <= ns,
            nu == avail.len(),
            ns == days.len(),
            t == sink_node(nu as int, ns as int),
            laying(mf@, base, roles, avail, days),
            progress(mf@.e, nu as int, ns as int, nu as int, 7, 0, i as int),
            roles.len() == roles0.len() + i,
            mf@ == sinks_to(start, nu as int, ns as int, i as int),
            forall|k: int| 0 <= k < roles0.len() ==> roles[k] == roles0[k],
            forall|x: int| 0 <= x < i ==> #[trigger] roles[roles0.len() + x] == (Role::Sink {
                slot: x,
            }),
        decreases ns - i,
    {
        let from = (8 * nu + 2 + i) as i32;
        let ghost role = Role::Sink { slot: i as int };
        let ghost m0 = mf@;
        let ghost prior = roles;
        link(mf, from, t, 0);
        proof {
            let m1 = mf@;
            lemma_laying_step(m0, m1, base, roles, role, avail, days, from as int, t as int, 0);
            roles = roles.push(role);
            assert forall|x: int| 0 <= x < i + 1 implies #[trigger] roles[roles0.len() + x] == (
            Role::Sink { slot: x }) by {
                if x < i {
                    assert(roles[roles0.len() + x] == prior[roles0.len() + x]);
                }
            }
            assert forall|j2: int| 0 <= j2 < nu implies #[trigger] cap_in(
                m1.e,
                set![user_node(j2)],
            ) == 3 by {
                let p = set![user_node(j2)];
                assert(cap_in(m1.e, p) == cap_in(m0.e, p) + gain(p.contains(t as int), 1));
            }
            assert forall|j2: int, d: int| 0 <= j2 < nu && 0 <= d < 7 implies #[trigger] cap_in(
                m1.e,
                set![day_node(nu as int, j2, d)],
            ) == 1 by {
                let p = set![day_node(nu as int, j2, d)];
                lemma_day_node_range(nu as int, j2, d);
                assert(cap_in(m1.e, p) == cap_in(m0.e, p) + gain(p.contains(t as int), 1));
            }
            assert forall|x: int| 0 <= x < ns implies #[trigger] cap_out(
                m1.e,
                set![slot_node(nu as int, x)],
            ) == (if x < i + 1 {
                1int
            } else {
                0int
            }) by {
                let p = set![slot_node(nu as int, x)];
                assert(cap_out(m1.e, p) == cap_out(m0.e, p) + gain(p.contains(from as int), 1));
            }
            let src = set![source_node()];
            assert(cap_out(m1.e, src) == cap_out(m0.e, src) + gain(src.contains(from as int), 1));
            let sup = set![sink_node(nu as int, ns as int) + 1];
            assert(cap_out(m1.e, sup) == cap_out(m0.e, sup) + gain(sup.contains(from as int), 1));
        }
        i = i + 1;
    }
    Ghost(roles)
}

/// Lays, for each user and each slot that the user names, the edge from the
/// user's node for the day of the slot to the slot.
#[verifier::rlimit(40)]
pub(crate) fn lay_picks(
    mf: &mut Mcmf,
    users: &Vec<User>,
    spares: &Vec<Spare>,
    Ghost(base): Ghost<Net>,
    Ghost(roles0): Ghost<Seq<Role>>,
) -> (r: (Ghost<Seq<Role>>, Ghost<Seq<Seq<int>>>))
    requires
        laying(old(mf)@, base, roles0, wishes(users@), weekdays(spares@)),
        progress(old(mf)@.e, users@.len() as int, spares@.len() as int, users@.len() as int, 7, 0, 0),
        roles0.len() == 10 * users@.len(),
    ensures
        laying(final(mf)@, base, r.0@, wishes(users@), weekdays(spares@)),
        progress(
            final(mf)@.e,
            users@.len() as int,
            spares@.len() as int,
            users@.len() as int,
            7,
            0,
            0,
        ),
        r.0@.len() >= roles0.len(),
        forall|k: int| 0 <= k < roles0.len() ==> r.0@[k] == roles0[k],
        forall|q: int| roles0.len() <= q < r.0@.len() ==> (#[trigger] r.0@[q]) is Pick,
        r.1@.len() == users@.len(),
        forall|j: int| 0 <= j < users@.len() ==> (#[trigger] r.1@[j]).len() == users@[j].stamps@.len(),
        forall|j: int, k: int|
            0 <= j < users@.len() && 0 <= k < users@[j].stamps@.len() ==> roles0.len() <= (
            #[trigger] r.1@[j][k]) < r.0@.len() && r.0@[r.1@[j][k]] == (Role::Pick {
                user: j,
                slot: users@[j].stamps@[k] as int,
            }),
        final(mf)@ == picks_to(old(mf)@, wishes(users@), weekdays(spares@), users@.len() as int),
{
    let ghost avail = wishes(users@);
    let ghost days = weekdays(spares@);
    let nu = users.len();
    let ns = spares.len();
    let ghost start = mf@;
    let ghost mut roles = roles0;
    let ghost mut spot = Seq::<Seq<int>>::empty();
    let mut i: usize = 0;
    while i < nu
        invariant
            i <= nu,
            nu == users@.len(),
            ns == spares@.len(),
            avail == wishes(users@),
            days == weekdays(spares@),
            laying(mf@, base, roles, avail, days),
            progress(mf@.e, nu as int, ns as int, nu as int, 7, 0, 0),
            roles.len() >= roles0.len(),
            mf@ == picks_to(start, avail, days, i as int),
            forall|k: int| 0 <= k < roles0.len() ==> roles[k] == roles0[k],
            forall|q: int| roles0.len() <= q < roles.len() ==> (#[trigger] roles[q]) is Pick,
            spot.len() == i,
            forall|j: int| 0 <= j < i ==> (#[trigger] spot[j]).len() == users@[j].stamps@.len(),
            forall|j: int, k: int|
                0 <= j < i && 0 <= k < users@[j].stamps@.len() ==> roles0.len() <= (
                #[trigger] spot[j][k]) < roles.len() && roles[spot[j][k]] == (Role::Pick {
                    user: j,
                    slot: users@[j].stamps@[k] as int,
                }),
        decreases nu - i,
    {
        let count = users[i].stamps.len();
        let ghost mut row = Seq::<int>::empty();
        let mut k: usize = 0;
        while k < count
            invariant
                i < nu,
                k <= count,
                count == users@[i as int].stamps@.len(),
                nu == users@.len(),
                ns == spares@.len(),
                avail == wishes(users@),
                days == weekdays(spares@),
                laying(mf@, base, roles, avail, days),
                progress(mf@.e, nu as int, ns as int, nu as int, 7, 0, 0),
                roles.len() >= roles0.len(),
                mf@ == pick_row(
                    picks_to(start, avail, days, i as int),
                    nu as int,
                    i as int,
                    avail[i as int],
                    days,
                    k as int,
                ),
                forall|k2: int| 0 <= k2 < roles0.len() ==> roles[k2] == roles0[k2],
                forall|q: int| roles0.len() <= q < roles.len() ==> (#[trigger] roles[q]) is Pick,
                spot.len() == i,
                forall|j: int| 0 <= j < i ==> (#[trigger] spot[j]).len() == users@[j].stamps@.len(),
                forall|j: int, k2: int|
                    0 <= j < i && 0 <= k2 < users@[j].stamps@.len() ==> roles0.len() <= (
                    #[trigger] spot[j][k2]) < roles.len() && roles[spot[j][k2]] == (Role::Pick {
                        user: j,
                        slot: users@[j].stamps@[k2] as int,
                    }),
                row.len() == k,
                forall|k2: int|
                    0 <= k2 < k ==> roles0.len() <= (#[trigger] row[k2]) < roles.len()
                        && roles[row[k2]] == (Role::Pick {
                        user: i as int,
                        slot: users@[i as int].stamps@[k2] as int,
                    }),
            decreases count - k,
        {
            let stamp = users[i].stamps[k];
            proof {
                assert(avail[i as int][k as int] == stamp);
                assert(0 <= avail[i as int][k as int] < days.len());
                assert(days[stamp as int] == spares@[stamp as int].day);
                assert(0 <= days[stamp as int] < 7);
                lemma_day_node_range(nu as int, i as int, days[stamp as int]);
            }
            let slot = stamp as usize;
            let day = spares[slot].day as usize;
            let from = (i + 2 + (day + 1) * nu) as i32;
            let to = (8 * nu + 2 + slot) as i32;
            let ghost role = Role::Pick { user: i as int, slot: slot as int };
            let ghost m0 = mf@;
            let ghost prior = roles;
            link(mf, from, to, 0);
            proof {
                let m1 = mf@;
                assert(avail[i as int].contains(slot as int));
                lemma_laying_step(m0, m1, base, roles, role, avail, days, from as int, to as int, 0);
                roles = roles.push(role);
                row = row.push(prior.len() as int);
                assert forall|q: int| roles0.len() <= q < roles.len() implies (
                #[trigger] roles[q]) is Pick by {
                    if q < prior.len() {
                        assert(roles[q] == prior[q]);
                    }
                }
                assert forall|j: int, k2: int|
                    0 <= j < i && 0 <= k2 < users@[j].stamps@.len() implies roles0.len() <= (
                #[trigger] spot[j][k2]) < roles.len() && roles[spot[j][k2]] == (Role::Pick {
                    user: j,
                    slot: users@[j].stamps@[k2] as int,
                }) by {
                    assert(roles[spot[j][k2]] == prior[spot[j][k2]]);
                }
                assert forall|k2: int| 0 <= k2 < k + 1 implies roles0.len() <= (#[trigger] row[k2])
                    < roles.len() && roles[row[k2]] == (Role::Pick {
                    user: i as int,
                    slot: users@[i as int].stamps@[k2] as int,
                }) by {
                    if k2 < k {
                        assert(roles[row[k2]] == prior[row[k2]]);
                    }
                }
                assert forall|j2: int| 0 <= j2 < nu implies #[trigger] cap_in(
                    m1.e,
                    set![user_node(j2)],
                ) == 3 by {
                    let p = set![user_node(j2)];
                    assert(cap_in(m1.e, p) == cap_in(m0.e, p) + gain(p.contains(to as int), 1));
                }
                assert forall|j2: int, d: int| 0 <= j2 < nu && 0 <= d < 7 implies #[trigger] cap_in(
                    m1.e,
                    set![day_node(nu as int, j2, d)],
                ) == 1 by {
                    let p = set![day_node(nu as int, j2, d)];
                    lemma_day_node_range(nu as int, j2, d);
                    assert(cap_in(m1.e, p) == cap_in(m0.e, p) + gain(p.contains(to as int), 1));
                }
                assert forall|x: int| 0 <= x < ns implies #[trigger] cap_out(
                    m1.e,
                    set![slot_node(nu as int, x)],
                ) == 0 by {
                    let p = set![slot_node(nu as int, x)];
                    assert(cap_out(m1.e, p) == cap_out(m0.e, p) + gain(p.contains(from as int), 1));
                }
                let src = set![source_node()];
                assert(cap_out(m1.e, src) == cap_out(m0.e, src) + gain(src.contains(from as int), 1));
                let sup = set![sink_node(nu as int, ns as int) + 1];
                assert(cap_out(m1.e, sup) == cap_out(m0.e, sup) + gain(sup.contains(from as int), 1));
            }
            k = k + 1;
        }
        proof {
            spot = spot.push(row);
        }
        i = i + 1;
    }
    (Ghost(roles), Ghost(spot))
}

/// The network before the layout: `n` nodes of the layout and the two that
/// the solver adds, source 1, sink `n`, no edge, nothing booked, all totals
/// zero.
pub open spec fn cleared(base: Net, n: int) -> bool {
    &&& base.n == n
    &&& base.s == 1
    &&& base.t == n
    &&& base.maxflow == 0
    &&& base.cost == 0
    &&& base.a0 == 0
    &&& base.a1 == 0
    &&& base.size() == n + 3
    &&& base.e == seq![blank_edge(), blank_edge()]
}

/// A cleared network is the start of a layout.
pub proof fn lemma_cleared(base: Net, avail: Seq<Seq<int>>, days: Seq<int>)
    requires
        well_posed(avail, days),
        cleared(base, sink_node(avail.len() as int, days.len() as int)),
        base.incf.len() == base.size(),
        base.pre.len() == base.size(),
        base.a.len() == base.size(),
        base.vis.len() == base.size(),
        base.head.len() == base.size(),
        forall|v: int| 0 <= v < base.size() ==> base.a[v] == 0 && base.head[v] == 0,
    ensures
        laying(base, base, Seq::empty(), avail, days),
        progress(base.e, avail.len() as int, days.len() as int, 0, 0, 0, 0),
{
    let e = base.e;
    let nu = avail.len() as int;
    let ns = days.len() as int;
    assert forall|u: int| 0 <= u < base.size() implies #[trigger] head_ok(e, base.head, u) by {}
    assert forall|p: Set<int>| cap_in(e, p) == 0 && cap_out(e, p) == 0 by {
        assert forall|i: int| 0 <= i < 2 implies #[trigger] cap_in_term(e, p)(i) == 0 by {}
        lemma_sum_zero(cap_in_term(e, p), 2);
        assert forall|i: int| 0 <= i < 2 implies #[trigger] cap_out_term(e, p)(i) == 0 by {}
        lemma_sum_zero(cap_out_term(e, p), 2);
    }
    assert forall|i: int| 0 <= i < 2 implies #[trigger] weight_term(e)(i) == 0 by {
        assert((e[1].w + e[0].w) * abs(e[0].c as int) == 0) by (nonlinear_arith)
            requires
                e[1].w == 0,
                e[0].w == 0,
        ;
    }
    lemma_sum_zero(weight_term(e), 2);
    assert forall|j: int| 0 <= j < nu implies #[trigger] cap_in(e, set![user_node(j)]) == 0 by {}
    assert forall|j: int, d: int| 0 <= j < nu && 0 <= d < 7 implies #[trigger] cap_in(
        e,
        set![day_node(nu, j, d)],
    ) == 0 by {}
    assert forall|x: int| 0 <= x < ns implies #[trigger] cap_out(e, set![slot_node(nu, x)])
        == 0 by {}
}

/// A finished layout can be solved.
pub proof fn lemma_built_solvable(
    net: Net,
    base: Net,
    roles: Seq<Role>,
    avail: Seq<Seq<int>>,
    days: Seq<int>,
)
    requires
        laying(net, base, roles, avail, days),
        cleared(base, sink_node(avail.len() as int, days.len() as int)),
        progress(
            net.e,
            avail.len() as int,
            days.len() as int,
            avail.len() as int,
            7,
            0,
            days.len() as int,
        ),
    ensures
        solvable(net),
        cap_out(staged(net).e, set![net.n + 1]) == 0,
{
    let nu = avail.len() as int;
    let ns = days.len() as int;
    let n = sink_node(nu, ns);
    let sz = net.size();
    lemma_staged_plain(net);
    let g = staged(net);
    let m = net.e.len() as int;
    let x = g.e[m];
    let y = g.e[m + 1];
    lemma_pair_sums(net.e, x, y, set![n + 1]);
    lemma_pair_sums(net.e, x, y, set![1int]);
    assert(cap_out(g.e, set![n + 1]) == 0);
    assert(cost_limit(sz, 0) >= 100) by {
        assert((0 + 1) * sz == sz) by (nonlinear_arith);
        lemma_div_is_ordered(sz * 100, Mcmf::INF - 1, sz);
        lemma_div_multiples_vanish(100, sz);
    }
    assert forall|i: int| 2 <= i < net.e.len() implies -cost_limit(sz, 0) <= (
    #[trigger] net.e[i]).c <= cost_limit(sz, 0) by {}
}

/// The edge array that the second phase of the solver starts from, for a
/// network with nothing booked: the edges of the network, then the closing
/// pair with no capacity. The closing pair adds no capacity into a node set
/// without the source, nor out of one without the sink.
pub proof fn lemma_closed_layout(net: Net) -> (c: Seq<Edge>)
    requires
        net.wf(),
        0 <= net.n,
        net.n + 3 == net.size(),
        0 <= net.s < net.size(),
        0 <= net.t < net.size(),
        forall|i: int| 0 <= i < net.size() ==> #[trigger] net.a[i] == 0,
        net.e.len() + 2 <= usize::MAX,
    ensures
        c == unclosed(staged(net).e),
        c.len() == net.e.len() + 2,
        forall|i: int| 0 <= i < net.e.len() ==> c[i] == net.e[i],
        c[net.e.len() as int].u == net.t,
        c[net.e.len() as int].v == net.s,
        c[net.e.len() as int].w == 0,
        c[net.e.len() as int].c == 0,
        c[net.e.len() as int + 1].u == net.s,
        c[net.e.len() as int + 1].v == net.t,
        c[net.e.len() as int + 1].w == 0,
        forall|p: Set<int>| !p.contains(net.s as int) ==> #[trigger] cap_in(c, p) == cap_in(net.e, p),
        forall|p: Set<int>|
            !p.contains(net.t as int) ==> #[trigger] cap_out(c, p) == cap_out(net.e, p),
{
    lemma_staged_plain(net);
    let g = staged(net);
    let m = net.e.len() as int;
    let x = g.e[m];
    let y = g.e[m + 1];
    let mid = Net { ss: (net.n + 1) as i32, tt: (net.n + 2) as i32, ..net };
    assert(mid.with_bounded(net.t, net.s, 0, Mcmf::INF, 0).a =~= mid.a);
    lemma_with_pair_wf(mid, net.t, net.s, Mcmf::INF, 0);
    lemma_unclose(g.e, g.head, net.size());
    let c = unclosed(g.e);
    assert forall|p: Set<int>| !p.contains(net.s as int) implies #[trigger] cap_in(c, p) == cap_in(
        net.e,
        p,
    ) by {
        lemma_pair_sums(net.e, x, y, p);
        assert(cap_in(c, p) == cap_in(g.e, p));
    }
    assert forall|p: Set<int>| !p.contains(net.t as int) implies #[trigger] cap_out(c, p)
        == cap_out(net.e, p) by {
        lemma_pair_sums(net.e, x, y, p);
        assert(cap_out(c, p) == cap_out(g.e, p));
    }
    c
}

/// Moving flow on a cast edge array leaves it cast.
#[verifier::rlimit(40)]
pub proof fn lemma_cast_rerouted(
    b: Seq<Edge>,
    c: Seq<Edge>,
    e: Seq<Edge>,
    roles: Seq<Role>,
    avail: Seq<Seq<int>>,
    days: Seq<int>,
)
    requires
        cast(b, roles, avail, days),
        b.len() == 2 + 2 * roles.len(),
        c.len() == b.len() + 2,
        forall|i: int| 0 <= i < b.len() ==> c[i] == b[i],
        rerouted(c, e),
        b[0] == blank_edge(),
        b[1] == blank_edge(),
    ensures
        cast(e, roles, avail, days),
        e[0] == blank_edge(),
        e[1] == blank_edge(),
        forall|i: int| 0 <= i < e.len() ==> (#[trigger] e[i]).w >= 0,
{
    assert(mate(0) == 1 && mate(1) == 0);
    assert(e[0].u == c[0].u && e[1].u == c[1].u);
    assert(e[0].w + e[mate(0)].w == c[0].w + c[mate(0)].w);
    assert(c[0] == b[0] && c[1] == b[1]);
    assert(e[0].v == c[0].v && e[0].c == c[0].c && e[0].next == c[0].next);
    assert(e[1].v == c[1].v && e[1].c == c[1].c && e[1].next == c[1].next);
    assert forall|k: int| 0 <= k < roles.len() implies {
        &&& plays(e[2 * k + 2], #[trigger] roles[k], avail, days)
        &&& e[2 * k + 3].u == e[2 * k + 2].v
        &&& e[2 * k + 3].v == e[2 * k + 2].u
        &&& e[2 * k + 2].w >= 0
        &&& e[2 * k + 3].w >= 0
        &&& e[2 * k + 2].w + e[2 * k + 3].w == 1
    } by {
        let i = 2 * k + 2;
        assert(plays(b[i], roles[k], avail, days));
        assert(e[i].u == c[i].u);
        assert(e[i + 1].u == c[i + 1].u);
        assert(mate(i) == i + 1);
        assert(c[i] == b[i] && c[i + 1] == b[i + 1]);
    }
}

/// The solved network of a finished layout is a solved layout.
#[verifier::rlimit(40)]
pub proof fn lemma_built_routed(
    b: Seq<Edge>,
    c: Seq<Edge>,
    e: Seq<Edge>,
    roles: Seq<Role>,
    avail: Seq<Seq<int>>,
    days: Seq<int>,
    val: int,
)
    requires
        well_posed(avail, days),
        cast(e, roles, avail, days),
        b.len() == 2 + 2 * roles.len(),
        c.len() == b.len() + 2,
        progress(
            b,
            avail.len() as int,
            days.len() as int,
            avail.len() as int,
            7,
            0,
            days.len() as int,
        ),
        forall|p: Set<int>| !p.contains(1) ==> #[trigger] cap_in(c, p) == cap_in(b, p),
        forall|p: Set<int>|
            !p.contains(sink_node(avail.len() as int, days.len() as int)) ==> #[trigger] cap_out(
                c,
                p,
            ) == cap_out(b, p),
        rerouted(c, e),
        carries(e, sink_node(avail.len() as int, days.len() as int), 1, sink_node(avail.len() as int, days.len() as int), val),
        c[b.len() as int].u == sink_node(avail.len() as int, days.len() as int),
        c[b.len() as int].v == 1,
        c[b.len() as int + 1].u == 1,
        c[b.len() as int + 1].v == sink_node(avail.len() as int, days.len() as int),
        forall|i: int| 0 <= i < e.len() ==> (#[trigger] e[i]).w >= 0,
        e[1].w == 0,
        c.len() % 2 == 0,
    ensures
        routed(e, roles, avail, days),
{
    let nu = avail.len() as int;
    let ns = days.len() as int;
    let m = b.len() as int;
    assert forall|j: int| 0 <= j < nu implies #[trigger] cap_in(e, set![user_node(j)]) == 3 by {
        let p = set![user_node(j)];
        lemma_rerouted_caps(c, e, p);
        assert(cap_in(c, p) == cap_in(b, p));
    }
    assert forall|j: int, d: int| 0 <= j < nu && 0 <= d < 7 implies #[trigger] cap_in(
        e,
        set![day_node(nu, j, d)],
    ) == 1 by {
        let p = set![day_node(nu, j, d)];
        lemma_day_node_range(nu, j, d);
        lemma_rerouted_caps(c, e, p);
        assert(cap_in(c, p) == cap_in(b, p));
    }
    assert forall|s: int| 0 <= s < ns implies #[trigger] cap_out(e, set![slot_node(nu, s)])
        == 1 by {
        let p = set![slot_node(nu, s)];
        lemma_rerouted_caps(c, e, p);
        assert(cap_out(c, p) == cap_out(b, p));
    }
    assert forall|p: Set<int>|
        !p.contains(source_node()) && !p.contains(sink_node(nu, ns)) && !p.contains(
            sink_node(nu, ns) + 1,
        ) && !p.contains(sink_node(nu, ns) + 2) implies #[trigger] net_out(e, p) == 0 by {}
    assert(e[m].u == c[m].u && e[m + 1].u == c[m + 1].u);
}

/// The roles that the four stages of the layout leave behind stand where
/// the order of the stages puts them.
pub proof fn lemma_indexed(
    r1: Seq<Role>,
    r2: Seq<Role>,
    r3: Seq<Role>,
    roles: Seq<Role>,
    spot: Seq<Seq<int>>,
    avail: Seq<Seq<int>>,
    days: Seq<int>,
)
    requires
        r1.len() == 3 * avail.len(),
        forall|j: int, t: int|
            0 <= j < avail.len() && 0 <= t < 3 ==> #[trigger] r1[3 * j + t] == (Role::Tier {
                user: j,
                cost: tier_cost(t),
            }),
        forall|q: int| 0 <= q < 3 * avail.len() ==> (#[trigger] r1[q]) is Tier,
        r2.len() == 10 * avail.len(),
        forall|q: int| 3 * avail.len() <= q < 10 * avail.len() ==> (#[trigger] r2[q]) is Day,
        forall|k: int| 0 <= k < 3 * avail.len() ==> r2[k] == r1[k],
        forall|j: int, d: int|
            0 <= j < avail.len() && 0 <= d < 7 ==> #[trigger] r2[3 * avail.len() + d * avail.len()
                + j] == (Role::Day { user: j, day: d }),
        r3.len() >= r2.len(),
        forall|k: int| 0 <= k < r2.len() ==> r3[k] == r2[k],
        forall|q: int| r2.len() <= q < r3.len() ==> (#[trigger] r3[q]) is Pick,
        spot.len() == avail.len(),
        forall|j: int| 0 <= j < avail.len() ==> (#[trigger] spot[j]).len() == avail[j].len(),
        forall|j: int, k: int|
            0 <= j < avail.len() && 0 <= k < avail[j].len() ==> r2.len() <= (#[trigger] spot[j][k])
                < r3.len() && r3[spot[j][k]] == (Role::Pick { user: j, slot: avail[j][k] }),
        roles.len() == r3.len() + days.len(),
        forall|k: int| 0 <= k < r3.len() ==> roles[k] == r3[k],
        forall|x: int|
            0 <= x < days.len() ==> #[trigger] roles[r3.len() + x] == (Role::Sink { slot: x }),
    ensures
        indexed(roles, avail, days, spot),
{
    reveal(indexed);
    let nu = avail.len() as int;
    let ns = days.len() as int;
    assert forall|j: int, t: int| 0 <= j < nu && 0 <= t < 3 implies #[trigger] roles[3 * j + t]
        == (Role::Tier { user: j, cost: tier_cost(t) }) by {
        assert(r1[3 * j + t] == (Role::Tier { user: j, cost: tier_cost(t) }));
        assert(r2[3 * j + t] == r1[3 * j + t]);
        assert(r3[3 * j + t] == r2[3 * j + t]);
    }
    assert forall|j: int, d: int| 0 <= j < nu && 0 <= d < 7 implies #[trigger] roles[3 * nu + d
        * nu + j] == (Role::Day { user: j, day: d }) by {
        lemma_day_node_range(nu, j, d);
        assert(r2[3 * nu + d * nu + j] == (Role::Day { user: j, day: d }));
        assert(r3[3 * nu + d * nu + j] == r2[3 * nu + d * nu + j]);
    }
    assert forall|j: int, k: int| 0 <= j < nu && 0 <= k < avail[j].len() implies 10 * nu <= (
    #[trigger] spot[j][k]) < roles.len() - ns && roles[spot[j][k]] == (Role::Pick {
        user: j,
        slot: avail[j][k],
    }) by {
        assert(r3[spot[j][k]] == (Role::Pick { user: j, slot: avail[j][k] }));
    }
    assert forall|x: int| 0 <= x < ns implies #[trigger] roles[roles.len() - ns + x] == (
    Role::Sink { slot: x }) by {
        assert(roles[r3.len() + x] == (Role::Sink { slot: x }));
    }
    assert forall|q: int| 0 <= q < 3 * nu implies (#[trigger] roles[q]) is Tier by {
        assert(r1[q] is Tier);
        assert(r2[q] == r1[q]);
        assert(r3[q] == r2[q]);
    }
    assert forall|q: int| 3 * nu <= q < 10 * nu implies (#[trigger] roles[q]) is Day by {
        assert(r2[q] is Day);
        assert(r3[q] == r2[q]);
    }
    assert forall|q: int| 10 * nu <= q < roles.len() - ns implies (#[trigger] roles[q]) is Pick by {
        assert(r3[q] is Pick);
    }
}

/// The edge leads from a day node to a slot and is used to the full.
pub open spec fn used_pick(x: Edge, nu: int, ns: int) -> bool {
    &&& 1 + nu < x.u <= 1 + 8 * nu
    &&& 1 + 8 * nu < x.v <= 8 * nu + ns + 1
    &&& x.w == 0
}

/// The slots of each of `nu` users as the first `i` edges give them: each
/// used edge from a day node to a slot gives the slot to the user of the
/// day node, in the order of the edges.
pub open spec fn rows_to(e: Seq<Edge>, nu: int, ns: int, i: int) -> Seq<Seq<u64>>
    decreases i,
{
    if i <= 0 {
        Seq::new(nu as nat, |j: int| Seq::<u64>::empty())
    } else {
        let r = rows_to(e, nu, ns, i - 1);
        let x = e[i - 1];
        if used_pick(x, nu, ns) {
            let j = (x.u - nu - 2) % nu;
            r.update(j, r[j].push((x.v - 8 * nu - 2) as u64))
        } else {
            r
        }
    }
}

/// Each element is at most the next.
pub open spec fn ascending(s: Seq<u64>) -> bool {
    forall|a: int, b: int| 0 <= a <= b < s.len() ==> s[a] <= s[b]
}

/// The elements of `s` in ascending order.
pub open spec fn sorted_of(s: Seq<u64>) -> Seq<u64> {
    choose|t: Seq<u64>| ascending(t) && t.to_multiset() == s.to_multiset()
}

/// There is one way only to put the elements of a sequence in ascending
/// order.
pub proof fn lemma_sorted_of(s: Seq<u64>, t: Seq<u64>)
    requires
        ascending(t),
        t.to_multiset() == s.to_multiset(),
    ensures
        t == sorted_of(s),
{
    let leq = |a: u64, b: u64| a <= b;
    let r = sorted_of(s);
    assert(reflexive(leq) && antisymmetric(leq) && transitive(leq) && strongly_connected(leq));
    assert(sorted_by(t, leq));
    assert(sorted_by(r, leq));
    lemma_sorted_unique(t, r, leq);
}

/// What has been read off the first `upto` edges of a solved layout:
/// `rows[j]` lists the slots of the picks of user `j` that are used, in the
/// order of their edges `from[j]`, and leaves none out.
pub open spec fn decoded(
    e: Seq<Edge>,
    roles: Seq<Role>,
    rows: Seq<Seq<u64>>,
    from: Seq<Seq<int>>,
    upto: int,
) -> bool {
    &&& from.len() == rows.len()
    &&& forall|j: int| 0 <= j < rows.len() ==> (#[trigger] from[j]).len() == rows[j].len()
    &&& forall|j: int, k: int|
        0 <= j < rows.len() && 0 <= k < rows[j].len() ==> 0 <= (#[trigger] from[j][k]) < upto
            && taken(e, roles, from[j][k], j, rows[j][k] as int)
    &&& forall|j: int, k: int, l: int|
        0 <= j < rows.len() && 0 <= k < l < rows[j].len() ==> (#[trigger] from[j][k]) < (
        #[trigger] from[j][l])
    &&& forall|i: int, j: int, x: int|
        0 <= i < upto && 0 <= j < rows.len() && #[trigger] taken(e, roles, i, j, x)
            ==> rows[j].contains(x as u64)
}

/// Reads the slots of each user off a solved layout: every edge from a day
/// node to a slot that is used to the full gives its slot to the user of
/// the day node.
#[verifier::rlimit(40)]
pub(crate) fn decode(
    mf: &Mcmf,
    nu: usize,
    Ghost(roles): Ghost<Seq<Role>>,
    Ghost(avail): Ghost<Seq<Seq<int>>>,
    Ghost(days): Ghost<Seq<int>>,
) -> (r: (Vec<User>, Ghost<Seq<Seq<int>>>))
    requires
        routed(mf@.e, roles, avail, days),
        well_posed(avail, days),
        nu == avail.len(),
        mf@.n == sink_node(avail.len() as int, days.len() as int),
        mf@.e[0].u == 0,
        mf@.e[1].u == 0,
    ensures
        r.0@.len() == nu,
        decoded(mf@.e, roles, stamps_of(r.0@), r.1@, mf@.e.len() as int),
        stamps_of(r.0@) == rows_to(mf@.e, nu as int, days.len() as int, mf@.e.len() as int),
{
    let ghost ns = days.len() as int;
    let ghost e = mf@.e;
    let a0: i64 = 1 + nu as i64;
    let a1: i64 = 1 + (nu * 8) as i64;
    let a2: i64 = (mf.n - 1) as i64;
    let mut res: Vec<User> = Vec::new();
    let mut j: usize = 0;
    while j < nu
        invariant
            j <= nu,
            res@.len() == j,
            forall|k: int| 0 <= k < j ==> (#[trigger] res@[k]).stamps@.len() == 0,
        decreases nu - j,
    {
        res.push(User { id: 0, stamps: Vec::new() });
        j = j + 1;
    }
    let ghost mut from: Seq<Seq<int>> = Seq::new(nu as nat, |j: int| Seq::<int>::empty());
    let len = mf.e.len();
    let mut i: usize = 0;
    proof {
        assert(stamps_of(res@) =~~= rows_to(e, nu as int, ns, 0));
    }
    while i < len
        invariant
            i <= len,
            len == e.len(),
            e == mf@.e,
            routed(e, roles, avail, days),
            well_posed(avail, days),
            nu == avail.len(),
            ns == days.len(),
            a0 == 1 + nu,
            a1 == 1 + 8 * nu,
            a2 == sink_node(nu as int, ns) - 1,
            e[0].u == 0,
            e[1].u == 0,
            res@.len() == nu,
            decoded(e, roles, stamps_of(res@), from, i as int),
            stamps_of(res@) == rows_to(e, nu as int, ns, i as int),
        decreases len - i,
    {
        let u = mf.e[i].u as i64;
        let v = mf.e[i].v as i64;
        let w = mf.e[i].w;
        let ghost rows = stamps_of(res@);
        if u > a0 && u <= a1 && v > a1 && v <= a2 && w == 0 {
            let ghost user: int;
            let ghost slot: int;
            proof {
                assert(2 <= i < 2 + 2 * roles.len());
                let k = lemma_role_of(e, roles, avail, days, i as int);
                match roles[k] {
                    Role::Tier { user: a, cost } => {
                        user = 0;
                        slot = 0;
                    },
                    Role::Day { user: a, day } => {
                        lemma_day_node_range(nu as int, a, day);
                        user = 0;
                        slot = 0;
                    },
                    Role::Pick { user: a, slot: b } => {
                        lemma_day_node_range(nu as int, a, days[b]);
                        user = a;
                        slot = b;
                    },
                    Role::Sink { slot: b } => {
                        user = 0;
                        slot = 0;
                    },
                }
                assert(i % 2 == 0);
                assert(roles[k] == (Role::Pick { user, slot }));
                assert(taken(e, roles, i as int, user, slot));
                let d = days[slot];
                lemma_day_node_range(nu as int, user, d);
                assert(u - a0 - 1 == d * nu + user);
                lemma_fundamental_div_mod_converse_mod(u - a0 - 1, nu as int, d, user);
            }
            let idx = ((u - a0 - 1) % (nu as i64)) as usize;
            let stamp = (v - a1 - 1) as u64;
            res[idx].stamps.push(stamp);
            proof {
                let prior = from;
                from = from.update(user, from[user].push(i as int));
                let rows2 = stamps_of(res@);
                assert(rows2[user] == rows[user].push(stamp));
                assert(used_pick(e[i as int], nu as int, ns));
                assert(rows2 =~= rows.update(user, rows[user].push(stamp)));
                assert forall|j: int| 0 <= j < rows2.len() implies (#[trigger] from[j]).len()
                    == rows2[j].len() by {
                    if j != user {
                        assert(rows2[j] == rows[j]);
                        assert(prior[j].len() == rows[j].len());
                    } else {
                        assert(prior[j].len() == rows[j].len());
                    }
                }
                assert forall|j: int, k: int|
                    0 <= j < rows2.len() && 0 <= k < rows2[j].len() implies 0 <= (
                #[trigger] from[j][k]) < i + 1 && taken(
                    e,
                    roles,
                    from[j][k],
                    j,
                    rows2[j][k] as int,
                ) by {
                    if j != user {
                        assert(rows2[j] == rows[j]);
                        assert(from[j][k] == prior[j][k]);
                    } else if k < rows[j].len() {
                        assert(from[j][k] == prior[j][k]);
                    }
                }
                assert forall|j: int, k: int, l: int|
                    0 <= j < rows2.len() && 0 <= k < l < rows2[j].len() implies (
                #[trigger] from[j][k]) < (#[trigger] from[j][l]) by {
                    if j != user {
                        assert(rows2[j] == rows[j]);
                        assert(prior[j][k] < prior[j][l]);
                    } else if l < rows[j].len() {
                        assert(prior[j][k] < prior[j][l]);
                    } else {
                        assert(0 <= prior[j][k] < i);
                    }
                }
                assert forall|i2: int, j: int, x: int|
                    0 <= i2 < i + 1 && 0 <= j < rows2.len() && #[trigger] taken(
                        e,
                        roles,
                        i2,
                        j,
                        x,
                    ) implies rows2[j].contains(x as u64) by {
                    if i2 < i {
                        assert(rows[j].contains(x as u64));
                        let k = choose|k: int| 0 <= k < rows[j].len() && rows[j][k] == x as u64;
                        if j != user {
                            assert(rows2[j] == rows[j]);
                        } else {
                            assert(rows2[j][k] == x as u64);
                        }
                    } else {
                        assert(rows2[user][rows[user].len() as int] == stamp);
                    }
                }
            }
        } else {
            proof {
                assert(!used_pick(e[i as int], nu as int, ns));
                assert forall|i2: int, j: int, x: int|
                    0 <= i2 < i + 1 && 0 <= j < rows.len() && #[trigger] taken(
                        e,
                        roles,
                        i2,
                        j,
                        x,
                    ) implies rows[j].contains(x as u64) by {
                    if i2 == i {
                        let k = lemma_role_of(e, roles, avail, days, i as int);
                        lemma_day_node_range(nu as int, j, days[x]);
                    }
                }
            }
        }
        i = i + 1;
    }
    (res, Ghost(from))
}

/// Sorts the stamps with the sort of the standard library,
/// `slice::sort_unstable`, which leaves the same elements in ascending
/// order.
#[verifier::external_body]
pub(crate) fn sort_stamps(v: &mut Vec<u64>)
    ensures
        final(v)@.to_multiset() == old(v)@.to_multiset(),
        ascending(final(v)@),
{
    v.sort_unstable();
}

} // verus!
