//! How users, days and slots are laid out as nodes and unit edges: the
//! source feeds each user through three priced edges, a user feeds one node
//! per day, a day node feeds the slots of that day that the user can take,
//! and each slot feeds the sink.

use crate::flow::{cap_in, cap_in_term, cap_out, enter_term, leave_term, lemma_cut_balance, net_out};
use crate::graph::Edge;
use crate::sums::{lemma_sum_ge_picks, lemma_sum_le};
use vstd::prelude::*;

verus! {

/// A user and the slots they can take; in a result, the slots they got.
#[derive(Clone, Debug)]
pub struct User {
    pub id: u64,
    pub stamps: Vec<u64>,
}

/// A bookable slot: its own stamp and its day of the week, `0..=6`.
#[derive(Clone, Debug)]
pub struct Spare {
    pub stamp: u64,
    pub day: u64,
}

/// Rows of stamps as rows of integers.
pub open spec fn ints(rows: Seq<Seq<u64>>) -> Seq<Seq<int>> {
    Seq::new(rows.len(), |j: int| Seq::new(rows[j].len(), |k: int| rows[j][k] as int))
}

/// The stamps of each user.
pub open spec fn stamps_of(users: Seq<User>) -> Seq<Seq<u64>> {
    Seq::new(users.len(), |j: int| users[j].stamps@)
}

/// The slots that each user names, as integers.
pub open spec fn wishes(users: Seq<User>) -> Seq<Seq<int>> {
    ints(stamps_of(users))
}

/// Each element is less than the next.
pub open spec fn increasing(s: Seq<int>) -> bool {
    forall|a: int, b: int| 0 <= a < b < s.len() ==> s[a] < s[b]
}

/// `got[j]` lists slots for user `j` such that every user gets only slots
/// that they named, at most three of them and no two on one day, and no
/// slot goes to two users. Each list is in increasing order.
pub open spec fn valid_assignment(avail: Seq<Seq<int>>, days: Seq<int>, got: Seq<Seq<int>>) -> bool {
    &&& got.len() == avail.len()
    &&& forall|j: int| 0 <= j < got.len() ==> increasing(#[trigger] got[j]) && got[j].len() <= 3
    &&& forall|j: int, k: int|
        0 <= j < got.len() && 0 <= k < got[j].len() ==> avail[j].contains(#[trigger] got[j][k])
    &&& forall|j: int, k: int, l: int|
        0 <= j < got.len() && 0 <= k < got[j].len() && 0 <= l < got[j].len() && k != l
            ==> days[#[trigger] got[j][k]] != days[#[trigger] got[j][l]]
    &&& forall|j: int, k: int, i: int, l: int|
        0 <= j < got.len() && 0 <= k < got[j].len() && 0 <= i < got.len() && 0 <= l < got[i].len()
            && i != j ==> #[trigger] got[j][k] != #[trigger] got[i][l]
}

/// The day of each slot, as an integer.
pub open spec fn weekdays(spares: Seq<Spare>) -> Seq<int> {
    Seq::new(spares.len(), |x: int| spares[x].day as int)
}

/// The source.
pub open spec fn source_node() -> int {
    1
}

/// The node of user `j`.
pub open spec fn user_node(j: int) -> int {
    j + 2
}

/// The node of user `j` on day `d`, with `nu` users in all.
pub open spec fn day_node(nu: int, j: int, d: int) -> int {
    j + 2 + (d + 1) * nu
}

/// The node of slot `x`, with `nu` users in all.
pub open spec fn slot_node(nu: int, x: int) -> int {
    8 * nu + 2 + x
}

/// The sink, with `nu` users and `ns` slots in all.
pub open spec fn sink_node(nu: int, ns: int) -> int {
    8 * nu + ns + 2
}

/// The nodes of user `j`: the user's own and the seven day nodes.
pub open spec fn group(nu: int, j: int) -> Set<int> {
    set![
        user_node(j),
        day_node(nu, j, 0),
        day_node(nu, j, 1),
        day_node(nu, j, 2),
        day_node(nu, j, 3),
        day_node(nu, j, 4),
        day_node(nu, j, 5),
        day_node(nu, j, 6),
    ]
}

/// Day nodes lie after the user nodes and before the slot nodes.
pub proof fn lemma_day_node_range(nu: int, j: int, d: int)
    requires
        0 <= j < nu,
        0 <= d < 7,
    ensures
        nu + 2 <= day_node(nu, j, d) < 8 * nu + 2,
        (d + 1) * nu <= 7 * nu,
        d * nu <= 6 * nu,
        0 <= d * nu,
        (d + 1) * nu == d * nu + nu,
{
    assert((d + 1) * nu >= nu && (d + 1) * nu <= 7 * nu && d * nu <= 6 * nu && 0 <= d * nu && (d
        + 1) * nu == d * nu + nu) by (nonlinear_arith)
        requires
            0 <= d < 7,
            0 <= nu,
    ;
}

/// Different users or days have different day nodes.
pub proof fn lemma_day_node_apart(nu: int, j: int, d: int, j2: int, d2: int)
    requires
        0 <= j < nu,
        0 <= j2 < nu,
        0 <= d,
        0 <= d2,
        day_node(nu, j, d) == day_node(nu, j2, d2),
    ensures
        j == j2,
        d == d2,
{
    assert(j == j2 && d == d2) by (nonlinear_arith)
        requires
            0 <= j < nu,
            0 <= j2 < nu,
            0 <= d,
            0 <= d2,
            j + (d + 1) * nu == j2 + (d2 + 1) * nu,
    ;
}

/// A day node of user `j` belongs to the group of `j` and to no other.
pub proof fn lemma_group(nu: int, j: int, d: int, j2: int)
    requires
        0 <= j < nu,
        0 <= j2 < nu,
        0 <= d < 7,
    ensures
        group(nu, j2).contains(day_node(nu, j, d)) <==> j == j2,
        group(nu, j2).contains(user_node(j)) <==> j == j2,
{
    lemma_day_node_range(nu, j, d);
    lemma_day_node_range(nu, j2, 0);
    if j != j2 {
        if day_node(nu, j, d) == day_node(nu, j2, 0) {
            lemma_day_node_apart(nu, j, d, j2, 0);
        }
        if day_node(nu, j, d) == day_node(nu, j2, 1) {
            lemma_day_node_apart(nu, j, d, j2, 1);
        }
        if day_node(nu, j, d) == day_node(nu, j2, 2) {
            lemma_day_node_apart(nu, j, d, j2, 2);
        }
        if day_node(nu, j, d) == day_node(nu, j2, 3) {
            lemma_day_node_apart(nu, j, d, j2, 3);
        }
        if day_node(nu, j, d) == day_node(nu, j2, 4) {
            lemma_day_node_apart(nu, j, d, j2, 4);
        }
        if day_node(nu, j, d) == day_node(nu, j2, 5) {
            lemma_day_node_apart(nu, j, d, j2, 5);
        }
        if day_node(nu, j, d) == day_node(nu, j2, 6) {
            lemma_day_node_apart(nu, j, d, j2, 6);
        }
        lemma_day_node_range(nu, j2, 1);
        lemma_day_node_range(nu, j2, 2);
        lemma_day_node_range(nu, j2, 3);
        lemma_day_node_range(nu, j2, 4);
        lemma_day_node_range(nu, j2, 5);
        lemma_day_node_range(nu, j2, 6);
    }
}

/// What a pair of edges stands for.
pub enum Role {
    /// One of the three edges from the source to a user, with its cost.
    Tier { user: int, cost: int },
    /// The edge from a user to that user's node for a day.
    Day { user: int, day: int },
    /// An edge from a user's day node to a slot of that day that the user
    /// can take.
    Pick { user: int, slot: int },
    /// The edge from a slot to the sink.
    Sink { slot: int },
}

/// The forward edge `x` joins the nodes that the role `r` names.
pub open spec fn plays(x: Edge, r: Role, avail: Seq<Seq<int>>, days: Seq<int>) -> bool {
    let nu = avail.len() as int;
    let ns = days.len() as int;
    match r {
        Role::Tier { user, cost } => {
            &&& 0 <= user < nu
            &&& x.u == source_node()
            &&& x.v == user_node(user)
            &&& x.c == cost
            &&& cost == 20 || cost == 50 || cost == 100
        },
        Role::Day { user, day } => {
            &&& 0 <= user < nu
            &&& 0 <= day < 7
            &&& x.u == user_node(user)
            &&& x.v == day_node(nu, user, day)
            &&& x.c == 0
        },
        Role::Pick { user, slot } => {
            &&& 0 <= user < nu
            &&& 0 <= slot < ns
            &&& avail[user].contains(slot)
            &&& x.u == day_node(nu, user, days[slot])
            &&& x.v == slot_node(nu, slot)
            &&& x.c == 0
        },
        Role::Sink { slot } => {
            &&& 0 <= slot < ns
            &&& x.u == slot_node(nu, slot)
            &&& x.v == sink_node(nu, ns)
            &&& x.c == 0
        },
    }
}

/// The input that the layout takes: every slot that a user names exists,
/// every day is a day of the week, and the nodes are few enough for `i32`
/// and for the cost limit of the solver.
pub open spec fn well_posed(avail: Seq<Seq<int>>, days: Seq<int>) -> bool {
    &&& forall|j: int, k: int|
        0 <= j < avail.len() && 0 <= k < avail[j].len() ==> 0 <= (#[trigger] avail[j][k])
            < days.len()
    &&& forall|x: int| 0 <= x < days.len() ==> 0 <= (#[trigger] days[x]) < 7
    &&& 100 * (8 * avail.len() + days.len() + 5) <= 0x3f3f3f3e
}

/// The edges `e` follow the layout: after the two blank slots, pair `k` has
/// the role `roles[k]`, its forward edge joins the nodes of that role, its
/// reverse edge runs back, and the pair has capacity one.
pub open spec fn cast(e: Seq<Edge>, roles: Seq<Role>, avail: Seq<Seq<int>>, days: Seq<int>) -> bool {
    &&& e.len() >= 2 + 2 * roles.len()
    &&& forall|k: int|
        0 <= k < roles.len() ==> {
            &&& plays(e[2 * k + 2], #[trigger] roles[k], avail, days)
            &&& e[2 * k + 3].u == e[2 * k + 2].v
            &&& e[2 * k + 3].v == e[2 * k + 2].u
            &&& e[2 * k + 2].w >= 0
            &&& e[2 * k + 3].w >= 0
            &&& e[2 * k + 2].w + e[2 * k + 3].w == 1
        }
}

/// The cost of the `t`-th edge from the source to a user.
pub open spec fn tier_cost(t: int) -> int {
    if t == 0 {
        20
    } else if t == 1 {
        50
    } else {
        100
    }
}

/// Where each role stands among the pairs: first three tiers for each user,
/// then the day edges day by day, then the picks, `spot[j][k]` being the
/// pair of the `k`-th slot that user `j` names, then one sink edge for each
/// slot.
#[verifier::opaque]
pub open spec fn indexed(roles: Seq<Role>, avail: Seq<Seq<int>>, days: Seq<int>, spot: Seq<Seq<int>>) -> bool {
    let nu = avail.len() as int;
    let ns = days.len() as int;
    &&& roles.len() >= 10 * nu + ns
    &&& spot.len() == nu
    &&& forall|j: int, t: int|
        0 <= j < nu && 0 <= t < 3 ==> #[trigger] roles[3 * j + t] == (Role::Tier {
            user: j,
            cost: tier_cost(t),
        })
    &&& forall|j: int, d: int|
        0 <= j < nu && 0 <= d < 7 ==> #[trigger] roles[3 * nu + d * nu + j] == (Role::Day {
            user: j,
            day: d,
        })
    &&& forall|j: int| 0 <= j < nu ==> (#[trigger] spot[j]).len() == avail[j].len()
    &&& forall|j: int, k: int|
        0 <= j < nu && 0 <= k < avail[j].len() ==> 10 * nu <= (#[trigger] spot[j][k]) < roles.len()
            - ns && roles[spot[j][k]] == (Role::Pick { user: j, slot: avail[j][k] })
    &&& forall|x: int|
        0 <= x < ns ==> #[trigger] roles[roles.len() - ns + x] == (Role::Sink { slot: x })
    &&& forall|q: int| 0 <= q < 3 * nu ==> (#[trigger] roles[q]) is Tier
    &&& forall|q: int| 3 * nu <= q < 10 * nu ==> (#[trigger] roles[q]) is Day
    &&& forall|q: int| 10 * nu <= q < roles.len() - ns ==> (#[trigger] roles[q]) is Pick
}

/// The capacities of a finished layout: three into each user, one into each
/// day node, one out of each slot.
pub open spec fn gauged(e: Seq<Edge>, nu: int, ns: int) -> bool {
    &&& forall|j: int| 0 <= j < nu ==> #[trigger] cap_in(e, set![user_node(j)]) == 3
    &&& forall|j: int, d: int|
        0 <= j < nu && 0 <= d < 7 ==> #[trigger] cap_in(e, set![day_node(nu, j, d)]) == 1
    &&& forall|x: int| 0 <= x < ns ==> #[trigger] cap_out(e, set![slot_node(nu, x)]) == 1
}

/// A solved layout: the edges of the layout, then one more pair that
/// carries nothing and touches neither a user, a day node nor a slot; the
/// capacities of the layout; and a flow that is in balance at every node
/// between source and sink.
pub open spec fn routed(e: Seq<Edge>, roles: Seq<Role>, avail: Seq<Seq<int>>, days: Seq<int>) -> bool {
    let nu = avail.len() as int;
    let ns = days.len() as int;
    &&& e.len() == 2 + 2 * roles.len() + 2
    &&& cast(e, roles, avail, days)
    &&& gauged(e, nu, ns)
    &&& forall|i: int| 0 <= i < e.len() ==> (#[trigger] e[i]).w >= 0
    &&& e[1].w == 0
    &&& forall|p: Set<int>|
        !p.contains(source_node()) && !p.contains(sink_node(nu, ns)) && !p.contains(
            sink_node(nu, ns) + 1,
        ) && !p.contains(sink_node(nu, ns) + 2) ==> #[trigger] net_out(e, p) == 0
    &&& e[e.len() - 2].u == sink_node(nu, ns)
    &&& e[e.len() - 2].v == source_node()
    &&& e[e.len() - 1].u == source_node()
    &&& e[e.len() - 1].v == sink_node(nu, ns)
}

/// Edge `i` is the forward edge of a pick of `user` for `slot`, and it is
/// used to the full.
pub open spec fn taken(e: Seq<Edge>, roles: Seq<Role>, i: int, user: int, slot: int) -> bool {
    &&& 2 <= i < 2 + 2 * roles.len()
    &&& i % 2 == 0
    &&& roles[(i - 2) / 2] == (Role::Pick { user, slot })
    &&& e[i].w == 0
}

/// The role of the pair of reverse edge `i` of a cast edge array.
pub proof fn lemma_role_of(
    e: Seq<Edge>,
    roles: Seq<Role>,
    avail: Seq<Seq<int>>,
    days: Seq<int>,
    i: int,
) -> (k: int)
    requires
        cast(e, roles, avail, days),
        2 <= i < 2 + 2 * roles.len(),
    ensures
        0 <= k < roles.len(),
        k == (i - 2) / 2,
        i % 2 == 0 ==> i == 2 * k + 2,
        i % 2 == 1 ==> i == 2 * k + 3,
        plays(e[2 * k + 2], roles[k], avail, days),
        e[2 * k + 3].u == e[2 * k + 2].v,
        e[2 * k + 3].v == e[2 * k + 2].u,
        e[2 * k + 2].w >= 0,
        e[2 * k + 3].w >= 0,
        e[2 * k + 2].w + e[2 * k + 3].w == 1,
{
    let k = (i - 2) / 2;
    assert(plays(e[2 * k + 2], roles[k], avail, days));
    k
}

/// No slot is taken twice: two picks of one slot cannot both be used.
pub proof fn lemma_slot_once(
    e: Seq<Edge>,
    roles: Seq<Role>,
    avail: Seq<Seq<int>>,
    days: Seq<int>,
    a: int,
    b: int,
    ja: int,
    jb: int,
    x: int,
)
    requires
        routed(e, roles, avail, days),
        well_posed(avail, days),
        taken(e, roles, a, ja, x),
        taken(e, roles, b, jb, x),
    ensures
        a == b,
    decreases
            (if a > b {
                1int
            } else {
                0int
            }),
{
    if a > b {
        lemma_slot_once(e, roles, avail, days, b, a, jb, ja, x);
    } else if a < b {
        let nu = avail.len() as int;
        let ns = days.len() as int;
        let ka = lemma_role_of(e, roles, avail, days, a);
        let kb = lemma_role_of(e, roles, avail, days, b);
        let p = set![slot_node(nu, x)];
        assert(0 <= days[x] < 7);
        lemma_day_node_range(nu, ja, days[x]);
        lemma_day_node_range(nu, jb, days[x]);
        lemma_cut_balance(e, p);
        assert(net_out(e, p) == 0);
        assert(cap_out(e, p) == 1);
        let picks = seq![a + 1, b + 1];
        assert forall|i: int| 0 <= i < e.len() implies 0 <= #[trigger] enter_term(e, p)(i) by {}
        assert forall|k: int| 0 <= k < picks.len() implies 0 <= #[trigger] picks[k] < e.len()
            && enter_term(e, p)(picks[k]) >= 1 by {}
        lemma_sum_ge_picks(enter_term(e, p), e.len() as int, picks);
    }
}

/// No user takes two slots of one day: two picks of one user on one day
/// cannot both be used.
pub proof fn lemma_day_once(
    e: Seq<Edge>,
    roles: Seq<Role>,
    avail: Seq<Seq<int>>,
    days: Seq<int>,
    a: int,
    b: int,
    j: int,
    xa: int,
    xb: int,
)
    requires
        routed(e, roles, avail, days),
        well_posed(avail, days),
        taken(e, roles, a, j, xa),
        taken(e, roles, b, j, xb),
        days[xa] == days[xb],
    ensures
        a == b,
    decreases
            (if a > b {
                1int
            } else {
                0int
            }),
{
    if a > b {
        lemma_day_once(e, roles, avail, days, b, a, j, xb, xa);
    } else if a < b {
        let nu = avail.len() as int;
        let ns = days.len() as int;
        let ka = lemma_role_of(e, roles, avail, days, a);
        let kb = lemma_role_of(e, roles, avail, days, b);
        let d = days[xa];
        assert(0 <= days[xa] < 7);
        let p = set![day_node(nu, j, d)];
        lemma_day_node_range(nu, j, d);
        lemma_cut_balance(e, p);
        assert(net_out(e, p) == 0);
        assert(cap_in(e, p) == 1);
        let picks = seq![a + 1, b + 1];
        assert forall|i: int| 0 <= i < e.len() implies 0 <= #[trigger] leave_term(e, p)(i) by {}
        assert forall|k: int| 0 <= k < picks.len() implies 0 <= #[trigger] picks[k] < e.len()
            && leave_term(e, p)(picks[k]) >= 1 by {}
        lemma_sum_ge_picks(leave_term(e, p), e.len() as int, picks);
    }
}

/// No user takes more than three slots: of the picks of one user at most
/// three are used.
#[verifier::rlimit(40)]
pub proof fn lemma_quota(
    e: Seq<Edge>,
    roles: Seq<Role>,
    avail: Seq<Seq<int>>,
    days: Seq<int>,
    j: int,
    picks: Seq<int>,
    slots: Seq<int>,
)
    requires
        routed(e, roles, avail, days),
        well_posed(avail, days),
        0 <= j < avail.len(),
        slots.len() == picks.len(),
        forall|k: int| 0 <= k < picks.len() ==> taken(e, roles, #[trigger] picks[k], j, slots[k]),
        forall|k: int, l: int| 0 <= k < l < picks.len() ==> picks[k] < picks[l],
    ensures
        picks.len() <= 3,
{
    let nu = avail.len() as int;
    let ns = days.len() as int;
    let n = e.len() as int;
    let p = group(nu, j);
    let own = set![user_node(j)];
    lemma_day_node_range(nu, j, 0);
    lemma_day_node_range(nu, j, 1);
    lemma_day_node_range(nu, j, 2);
    lemma_day_node_range(nu, j, 3);
    lemma_day_node_range(nu, j, 4);
    lemma_day_node_range(nu, j, 5);
    lemma_day_node_range(nu, j, 6);
    lemma_cut_balance(e, p);
    lemma_cut_balance(e, own);
    assert(net_out(e, p) == 0);
    assert(cap_in(e, own) == 3);
    assert forall|i: int| 0 <= i < n implies #[trigger] enter_term(e, p)(i) <= cap_in_term(
        e,
        own,
    )(i) by {
        if i % 2 == 1 {
            assert(e[i].w >= 0 && e[i - 1].w >= 0);
            if 2 <= i < 2 + 2 * roles.len() {
                let k = lemma_role_of(e, roles, avail, days, i);
                match roles[k] {
                    Role::Tier { user, cost } => {
                        lemma_group(nu, user, 0, j);
                    },
                    Role::Day { user, day } => {
                        lemma_group(nu, user, day, j);
                    },
                    Role::Pick { user, slot } => {},
                    Role::Sink { slot } => {},
                }
            }
        }
    }
    lemma_sum_le(enter_term(e, p), cap_in_term(e, own), n);
    let odd = Seq::new(picks.len(), |k: int| picks[k] + 1);
    assert forall|i: int| 0 <= i < n implies 0 <= #[trigger] leave_term(e, p)(i) by {}
    assert forall|k: int| 0 <= k < odd.len() implies 0 <= #[trigger] odd[k] < n && leave_term(
        e,
        p,
    )(odd[k]) >= 1 by {
        assert(taken(e, roles, picks[k], j, slots[k]));
        let r = lemma_role_of(e, roles, avail, days, picks[k]);
        assert(0 <= days[slots[k]] < 7);
        lemma_group(nu, j, days[slots[k]], j);
    }
    assert forall|k: int, l: int| 0 <= k < l < odd.len() implies odd[k] < odd[l] by {
        assert(picks[k] < picks[l]);
    }
    lemma_sum_ge_picks(leave_term(e, p), n, odd);
}

} // verus!
