//! What the flow of a solved layout amounts to, user by user: its value is
//! the number of slots given out, and its cost is at least what the slots
//! of each user cost at the cheapest tiers.

use crate::flow::{
    cost_term, enter_term, flow_cost, gain, leave_term, lemma_cut_balance, net_out, net_term,
};
use crate::graph::Edge;
use crate::layout::{
    group, indexed, lemma_day_node_range, lemma_group, lemma_role_of, lemma_slot_once, routed,
    sink_node, source_node, taken, tier_cost, well_posed, Role,
};
use crate::routing::{before, len_term, tier_before, tier_sum, tier_term};
use crate::sums::{
    lemma_sum_add, lemma_sum_ext, lemma_sum_ge_picks, lemma_sum_le, lemma_sum_le_picks,
    lemma_sum_three, lemma_sum_zero, sum,
};
use crate::wiring::decoded;
use vstd::prelude::*;

verus! {

/// The user of a pick; -1 for any other role.
pub open spec fn pick_user(r: Role) -> int {
    match r {
        Role::Pick { user, slot } => user,
        _ => -1,
    }
}

/// The user of a tier; -1 for any other role.
pub open spec fn tier_user(r: Role) -> int {
    match r {
        Role::Tier { user, cost } => user,
        _ => -1,
    }
}

/// Flow on the pair of reverse edge `i` if it is a pick of user `k`.
pub open spec fn pick_own(e: Seq<Edge>, roles: Seq<Role>, k: int) -> spec_fn(int) -> int {
    |i: int|
        if i % 2 == 1 && 3 <= i < 2 + 2 * roles.len() && pick_user(roles[(i - 3) / 2]) == k {
            e[i].w as int
        } else {
            0
        }
}

/// Flow on the pair of reverse edge `i` if it is a pick of a user before
/// `k`.
pub open spec fn pick_part(e: Seq<Edge>, roles: Seq<Role>, k: int) -> spec_fn(int) -> int {
    |i: int|
        if i % 2 == 1 && 3 <= i < 2 + 2 * roles.len() && 0 <= pick_user(roles[(i - 3) / 2]) < k {
            e[i].w as int
        } else {
            0
        }
}

/// The source, the users and the day nodes.
pub open spec fn near_side(nu: int) -> Set<int> {
    Set::new(|v: int| 1 <= v < 8 * nu + 2)
}

/// The flow of `e` runs from the source to the sink and has the value
/// `val`: the net flow out of a node set is `val` if it holds the source
/// only, `-val` if it holds the sink only, and zero otherwise.
pub open spec fn valued(e: Seq<Edge>, nu: int, ns: int, val: int) -> bool {
    forall|p: Set<int>| #[trigger]
        net_out(e, p) == gain(p.contains(source_node()), val) - gain(
            p.contains(sink_node(nu, ns)),
            val,
        )
}

/// A flow through the layout that is in balance at every node of the
/// layout but the source and the sink is in balance at every node set
/// without them: no edge touches another node.
#[verifier::rlimit(40)]
pub proof fn lemma_valued(
    e: Seq<Edge>,
    roles: Seq<Role>,
    avail: Seq<Seq<int>>,
    days: Seq<int>,
    val: int,
)
    requires
        routed(e, roles, avail, days),
        well_posed(avail, days),
        forall|p: Set<int>|
            !p.contains(sink_node(avail.len() as int, days.len() as int) + 1) && !p.contains(
                sink_node(avail.len() as int, days.len() as int) + 2,
            ) ==> #[trigger] net_out(e, p) == gain(p.contains(source_node()), val) - gain(
                p.contains(sink_node(avail.len() as int, days.len() as int)),
                val,
            ),
    ensures
        valued(e, avail.len() as int, days.len() as int, val),
{
    let nu = avail.len() as int;
    let ns = days.len() as int;
    let n = sink_node(nu, ns);
    assert forall|p: Set<int>| #[trigger]
        net_out(e, p) == gain(p.contains(source_node()), val) - gain(p.contains(n), val) by {
        let inner = p.remove(n + 1).remove(n + 2);
        assert(net_out(e, inner) == gain(inner.contains(source_node()), val) - gain(
            inner.contains(n),
            val,
        ));
        assert forall|i: int| 0 <= i < e.len() implies #[trigger] net_term(e, p)(i) == net_term(
            e,
            inner,
        )(i) by {
            if i % 2 == 1 {
                if 2 <= i < 2 + 2 * roles.len() {
                    let q = lemma_role_of(e, roles, avail, days, i);
                    match roles[q] {
                        Role::Tier { user, cost } => {},
                        Role::Day { user, day } => {
                            lemma_day_node_range(nu, user, day);
                        },
                        Role::Pick { user, slot } => {
                            lemma_day_node_range(nu, user, days[slot]);
                        },
                        Role::Sink { slot } => {},
                    }
                }
            }
        }
        lemma_sum_ext(net_term(e, p), net_term(e, inner), e.len() as int);
    }
}

/// The picks of one user carry no more flow than the user got slots.
#[verifier::rlimit(40)]
pub proof fn lemma_own_picks(
    e: Seq<Edge>,
    roles: Seq<Role>,
    avail: Seq<Seq<int>>,
    days: Seq<int>,
    raw: Seq<Seq<u64>>,
    from: Seq<Seq<int>>,
    k: int,
)
    requires
        routed(e, roles, avail, days),
        well_posed(avail, days),
        decoded(e, roles, raw, from, e.len() as int),
        raw.len() == avail.len(),
        0 <= k < avail.len(),
    ensures
        sum(pick_own(e, roles, k), e.len() as int) <= from[k].len(),
{
    let n = e.len() as int;
    let f = pick_own(e, roles, k);
    let picks = Seq::new(from[k].len(), |m: int| from[k][m] + 1);
    assert forall|i: int| 0 <= i < n implies #[trigger] f(i) <= 1 by {
        if i % 2 == 1 && 3 <= i < 2 + 2 * roles.len() {
            let q = lemma_role_of(e, roles, avail, days, i);
        }
    }
    assert forall|i: int| 0 <= i < n && #[trigger] f(i) >= 1 implies picks.contains(i) by {
        let q = lemma_role_of(e, roles, avail, days, i);
        match roles[q] {
            Role::Pick { user, slot } => {
                assert(taken(e, roles, i - 1, k, slot));
                assert(raw[k].contains(slot as u64));
                let m = choose|m: int| 0 <= m < raw[k].len() && raw[k][m] == slot as u64;
                assert(taken(e, roles, from[k][m], k, raw[k][m] as int));
                lemma_slot_once(e, roles, avail, days, i - 1, from[k][m], k, k, slot);
                assert(picks[m] == i);
            },
            _ => {},
        }
    }
    assert forall|a: int, b: int| 0 <= a < b < picks.len() implies picks[a] < picks[b] by {
        assert(from[k][a] < from[k][b]);
    }
    lemma_sum_le_picks(f, n, picks);
}

/// The picks of the users before `k` carry no more flow than those users
/// got slots.
pub proof fn lemma_pick_parts(
    e: Seq<Edge>,
    roles: Seq<Role>,
    avail: Seq<Seq<int>>,
    days: Seq<int>,
    raw: Seq<Seq<u64>>,
    from: Seq<Seq<int>>,
    got: Seq<Seq<int>>,
    k: int,
)
    requires
        routed(e, roles, avail, days),
        well_posed(avail, days),
        decoded(e, roles, raw, from, e.len() as int),
        raw.len() == avail.len(),
        got.len() == avail.len(),
        forall|j: int| 0 <= j < got.len() ==> (#[trigger] got[j]).len() == from[j].len(),
        0 <= k <= avail.len(),
    ensures
        sum(pick_part(e, roles, k), e.len() as int) <= before(got, k),
    decreases k,
{
    let n = e.len() as int;
    if k == 0 {
        assert forall|i: int| 0 <= i < n implies #[trigger] pick_part(e, roles, 0)(i) == 0 by {}
        lemma_sum_zero(pick_part(e, roles, 0), n);
    } else {
        lemma_pick_parts(e, roles, avail, days, raw, from, got, k - 1);
        lemma_own_picks(e, roles, avail, days, raw, from, k - 1);
        assert forall|i: int| 0 <= i < n implies #[trigger] pick_part(e, roles, k)(i) == pick_part(
            e,
            roles,
            k - 1,
        )(i) + pick_own(e, roles, k - 1)(i) by {}
        lemma_sum_add(pick_part(e, roles, k - 1), pick_own(e, roles, k - 1), pick_part(e, roles, k), n);
        assert(before(got, k) == before(got, k - 1) + len_term(got)(k - 1));
        assert(got[k - 1].len() == from[k - 1].len());
    }
}

/// The value of the flow of a solved layout is at most the number of slots
/// that were read off it.
pub proof fn lemma_value_le(
    e: Seq<Edge>,
    roles: Seq<Role>,
    avail: Seq<Seq<int>>,
    days: Seq<int>,
    raw: Seq<Seq<u64>>,
    from: Seq<Seq<int>>,
    got: Seq<Seq<int>>,
    val: int,
)
    requires
        routed(e, roles, avail, days),
        well_posed(avail, days),
        decoded(e, roles, raw, from, e.len() as int),
        raw.len() == avail.len(),
        got.len() == avail.len(),
        forall|j: int| 0 <= j < got.len() ==> (#[trigger] got[j]).len() == from[j].len(),
        valued(e, avail.len() as int, days.len() as int, val),
    ensures
        val <= before(got, got.len() as int),
{
    let nu = avail.len() as int;
    let ns = days.len() as int;
    let n = e.len() as int;
    let s = near_side(nu);
    assert(net_out(e, s) == gain(s.contains(source_node()), val) - gain(
        s.contains(sink_node(nu, ns)),
        val,
    ));
    lemma_cut_balance(e, s);
    lemma_pick_parts(e, roles, avail, days, raw, from, got, nu);
    assert forall|i: int| 0 <= i < n implies #[trigger] leave_term(e, s)(i) <= pick_part(
        e,
        roles,
        nu,
    )(i) by {
        if i % 2 == 1 {
            assert(e[i].w >= 0);
            if 2 <= i < 2 + 2 * roles.len() {
                let q = lemma_role_of(e, roles, avail, days, i);
                match roles[q] {
                    Role::Tier { user, cost } => {},
                    Role::Day { user, day } => {
                        lemma_day_node_range(nu, user, day);
                    },
                    Role::Pick { user, slot } => {},
                    Role::Sink { slot } => {},
                }
            }
        }
    }
    lemma_sum_le(leave_term(e, s), pick_part(e, roles, nu), n);
}

/// Cost of the flow on the pair of reverse edge `i` if it is a tier of user
/// `k`.
pub open spec fn tier_own(e: Seq<Edge>, roles: Seq<Role>, k: int) -> spec_fn(int) -> int {
    |i: int|
        if i % 2 == 1 && 3 <= i < 2 + 2 * roles.len() && tier_user(roles[(i - 3) / 2]) == k {
            cost_term(e)(i)
        } else {
            0
        }
}

/// Cost of the flow on the pair of reverse edge `i` if it is a tier of a
/// user before `k`.
pub open spec fn tier_part(e: Seq<Edge>, roles: Seq<Role>, k: int) -> spec_fn(int) -> int {
    |i: int|
        if i % 2 == 1 && 3 <= i < 2 + 2 * roles.len() && 0 <= tier_user(roles[(i - 3) / 2]) < k {
            cost_term(e)(i)
        } else {
            0
        }
}

/// The tiers of user `k` are the pairs `3k`, `3k + 1` and `3k + 2`.
pub proof fn lemma_tiers_of(
    roles: Seq<Role>,
    spot: Seq<Seq<int>>,
    avail: Seq<Seq<int>>,
    days: Seq<int>,
    q: int,
    k: int,
)
    requires
        indexed(roles, avail, days, spot),
        0 <= q < roles.len(),
        0 <= k < avail.len(),
        tier_user(roles[q]) == k,
    ensures
        q == 3 * k || q == 3 * k + 1 || q == 3 * k + 2,
{
    reveal(indexed);
    let nu = avail.len() as int;
    let ns = days.len() as int;
    if q >= roles.len() - ns {
        let x = q - (roles.len() - ns);
        assert(roles[roles.len() - ns + x] == (Role::Sink { slot: x }));
    } else if q >= 10 * nu {
        assert(roles[q] is Pick);
    } else if q >= 3 * nu {
        assert(roles[q] is Day);
    } else {
        let j = q / 3;
        let t = q % 3;
        assert(roles[3 * j + t] == (Role::Tier { user: j, cost: tier_cost(t) }));
    }
}

/// The tiers of one user cost at least what the slots that the user got
/// cost at the cheapest tiers.
#[verifier::rlimit(40)]
pub proof fn lemma_own_tiers(
    e: Seq<Edge>,
    roles: Seq<Role>,
    spot: Seq<Seq<int>>,
    avail: Seq<Seq<int>>,
    days: Seq<int>,
    raw: Seq<Seq<u64>>,
    from: Seq<Seq<int>>,
    k: int,
)
    requires
        routed(e, roles, avail, days),
        indexed(roles, avail, days, spot),
        well_posed(avail, days),
        decoded(e, roles, raw, from, e.len() as int),
        raw.len() == avail.len(),
        0 <= k < avail.len(),
    ensures
        tier_sum(from[k].len() as int) <= sum(tier_own(e, roles, k), e.len() as int),
        from[k].len() <= 3,
{
    let nu = avail.len() as int;
    let ns = days.len() as int;
    let n = e.len() as int;
    let a = 6 * k + 3;
    let b = 6 * k + 5;
    let c = 6 * k + 7;
    let p = group(nu, k);
    let own = tier_own(e, roles, k);
    assert(roles[3 * k + 0] == (Role::Tier { user: k, cost: tier_cost(0) }) && roles[3 * k + 1]
        == (Role::Tier { user: k, cost: tier_cost(1) }) && roles[3 * k + 2] == (Role::Tier {
        user: k,
        cost: tier_cost(2),
    }) && roles.len() >= 10 * nu + ns) by {
        reveal(indexed);
    }
    lemma_day_node_range(nu, k, 0);
    lemma_day_node_range(nu, k, 1);
    lemma_day_node_range(nu, k, 2);
    lemma_day_node_range(nu, k, 3);
    lemma_day_node_range(nu, k, 4);
    lemma_day_node_range(nu, k, 5);
    lemma_day_node_range(nu, k, 6);
    assert(roles[3 * k + 0] == (Role::Tier { user: k, cost: tier_cost(0) }));
    assert(roles[3 * k + 1] == (Role::Tier { user: k, cost: tier_cost(1) }));
    assert(roles[3 * k + 2] == (Role::Tier { user: k, cost: tier_cost(2) }));
    let qa = lemma_role_of(e, roles, avail, days, a);
    let qb = lemma_role_of(e, roles, avail, days, b);
    let qc = lemma_role_of(e, roles, avail, days, c);
    assert forall|i: int| 0 <= i < n && i != a && i != b && i != c implies #[trigger] own(i)
        == 0 by {
        if i % 2 == 1 && 3 <= i < 2 + 2 * roles.len() && tier_user(roles[(i - 3) / 2]) == k {
            lemma_tiers_of(roles, spot, avail, days, (i - 3) / 2, k);
        }
    }
    lemma_sum_three(own, n, a, b, c);
    assert(own(a) == 20 * e[a].w) by (nonlinear_arith)
        requires
            own(a) == e[a].w * e[a - 1].c,
            e[a - 1].c == 20,
    ;
    assert(own(b) == 50 * e[b].w) by (nonlinear_arith)
        requires
            own(b) == e[b].w * e[b - 1].c,
            e[b - 1].c == 50,
    ;
    assert(own(c) == 100 * e[c].w) by (nonlinear_arith)
        requires
            own(c) == e[c].w * e[c - 1].c,
            e[c - 1].c == 100,
    ;
    lemma_group(nu, k, 0, k);
    assert forall|i: int| 0 <= i < n && i != a && i != b && i != c implies #[trigger] enter_term(
        e,
        p,
    )(i) == 0 by {
        if i % 2 == 1 {
            if 2 <= i < 2 + 2 * roles.len() {
                let q = lemma_role_of(e, roles, avail, days, i);
                match roles[q] {
                    Role::Tier { user, cost } => {
                        lemma_group(nu, user, 0, k);
                        if user == k {
                            lemma_tiers_of(roles, spot, avail, days, q, k);
                        }
                    },
                    Role::Day { user, day } => {
                        lemma_group(nu, user, day, k);
                    },
                    Role::Pick { user, slot } => {},
                    Role::Sink { slot } => {},
                }
            }
        }
    }
    lemma_sum_three(enter_term(e, p), n, a, b, c);
    lemma_cut_balance(e, p);
    assert(net_out(e, p) == 0);
    let odd = Seq::new(from[k].len(), |m: int| from[k][m] + 1);
    assert forall|i: int| 0 <= i < n implies 0 <= #[trigger] leave_term(e, p)(i) by {}
    assert forall|m: int| 0 <= m < odd.len() implies 0 <= #[trigger] odd[m] < n && leave_term(
        e,
        p,
    )(odd[m]) >= 1 by {
        assert(taken(e, roles, from[k][m], k, raw[k][m] as int));
        let r = lemma_role_of(e, roles, avail, days, from[k][m]);
        let slot = raw[k][m] as int;
        assert(0 <= days[slot] < 7);
        lemma_group(nu, k, days[slot], k);
    }
    assert forall|x: int, y: int| 0 <= x < y < odd.len() implies odd[x] < odd[y] by {
        assert(from[k][x] < from[k][y]);
    }
    lemma_sum_ge_picks(leave_term(e, p), n, odd);
    assert(e[a].w >= 0 && e[b].w >= 0 && e[c].w >= 0);
    assert(e[a].w <= 1 && e[b].w <= 1 && e[c].w <= 1);
}

/// The tiers of the users before `k` cost at least what the slots of those
/// users cost at the cheapest tiers.
pub proof fn lemma_tier_parts(
    e: Seq<Edge>,
    roles: Seq<Role>,
    spot: Seq<Seq<int>>,
    avail: Seq<Seq<int>>,
    days: Seq<int>,
    raw: Seq<Seq<u64>>,
    from: Seq<Seq<int>>,
    got: Seq<Seq<int>>,
    k: int,
)
    requires
        routed(e, roles, avail, days),
        indexed(roles, avail, days, spot),
        well_posed(avail, days),
        decoded(e, roles, raw, from, e.len() as int),
        raw.len() == avail.len(),
        got.len() == avail.len(),
        forall|j: int| 0 <= j < got.len() ==> (#[trigger] got[j]).len() == from[j].len(),
        0 <= k <= avail.len(),
    ensures
        tier_before(got, k) <= sum(tier_part(e, roles, k), e.len() as int),
    decreases k,
{
    let n = e.len() as int;
    if k == 0 {
        assert forall|i: int| 0 <= i < n implies #[trigger] tier_part(e, roles, 0)(i) == 0 by {}
        lemma_sum_zero(tier_part(e, roles, 0), n);
    } else {
        lemma_tier_parts(e, roles, spot, avail, days, raw, from, got, k - 1);
        lemma_own_tiers(e, roles, spot, avail, days, raw, from, k - 1);
        assert forall|i: int| 0 <= i < n implies #[trigger] tier_part(e, roles, k)(i) == tier_part(
            e,
            roles,
            k - 1,
        )(i) + tier_own(e, roles, k - 1)(i) by {}
        lemma_sum_add(tier_part(e, roles, k - 1), tier_own(e, roles, k - 1), tier_part(e, roles, k), n);
        assert(tier_before(got, k) == tier_before(got, k - 1) + tier_term(got)(k - 1));
        assert(got[k - 1].len() == from[k - 1].len());
    }
}

/// The flow of a solved layout costs at least what the slots that were
/// read off it cost at the cheapest tiers.
pub proof fn lemma_cost_ge(
    e: Seq<Edge>,
    roles: Seq<Role>,
    spot: Seq<Seq<int>>,
    avail: Seq<Seq<int>>,
    days: Seq<int>,
    raw: Seq<Seq<u64>>,
    from: Seq<Seq<int>>,
    got: Seq<Seq<int>>,
)
    requires
        routed(e, roles, avail, days),
        indexed(roles, avail, days, spot),
        well_posed(avail, days),
        decoded(e, roles, raw, from, e.len() as int),
        raw.len() == avail.len(),
        got.len() == avail.len(),
        forall|j: int| 0 <= j < got.len() ==> (#[trigger] got[j]).len() == from[j].len(),
        e[e.len() - 2].c == 0,
    ensures
        tier_before(got, got.len() as int) <= flow_cost(e),
{
    let nu = avail.len() as int;
    let n = e.len() as int;
    lemma_tier_parts(e, roles, spot, avail, days, raw, from, got, nu);
    assert forall|i: int| 0 <= i < n implies #[trigger] tier_part(e, roles, nu)(i) <= cost_term(
        e,
    )(i) by {
        if i % 2 == 1 {
            assert(e[i].w >= 0);
            if 2 <= i < 2 + 2 * roles.len() {
                let q = lemma_role_of(e, roles, avail, days, i);
                assert(e[i].w * e[i - 1].c >= 0) by (nonlinear_arith)
                    requires
                        e[i].w >= 0,
                        e[i - 1].c >= 0,
                ;
            } else {
                assert(e[i].w * e[i - 1].c == 0) by (nonlinear_arith)
                    requires
                        e[i].w == 0 || e[i - 1].c == 0,
                ;
            }
        }
    }
    lemma_sum_le(tier_part(e, roles, nu), cost_term(e), n);
}

} // verus!
