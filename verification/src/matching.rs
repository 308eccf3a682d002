//! Plain matching of slots to users, without quota and without fairness:
//! every slot goes to at most one user who named it, no user gets two slots
//! on one day, and as many slots as possible are given out. The layout is
//! source, slots, one seat for each user and day, sink; the flow is found
//! by level graphs.

use crate::flow::{
    cap_in, cap_in_term, cap_out, cap_out_term, enter_term, gain, idle, leave_term,
    lemma_cut_balance, lemma_idle, lemma_rerouted_caps, lemma_rerouted_chain, net_out, rerouted,
};
use crate::graph::{
    blank_edge, edge_ok, edges_wf, empty_net, head_ok, link_ok, mate, resized, Edge, Mcmf, Net,
};
use crate::sums::{lemma_sum_add, lemma_sum_ge_picks, lemma_sum_le, lemma_sum_zero, sum};
use crate::augment::cut_off;
use crate::distribution::{dated, named};
use crate::levels::{burst, dinic};
use crate::optimality::lemma_max_flow;
use crate::routing::{lemma_push_pair, lemma_zeroed, pos, zeroed};
use crate::wiring::{blank, link, linked, unit};
use vstd::prelude::*;

verus! {

/// The node of slot `x`.
pub open spec fn offer_node(x: int) -> int {
    2 + x
}

/// The seat of user `j` on day `d`, with `nu` users and `ns` slots in all.
pub open spec fn seat_node(nu: int, ns: int, j: int, d: int) -> int {
    ns + 2 + d * nu + j
}

/// The sink of the matching layout.
pub open spec fn far_node(nu: int, ns: int) -> int {
    ns + 7 * nu + 2
}

/// What a pair of edges of the matching layout stands for.
pub enum Link {
    /// The edge from the source to a slot.
    Offer { slot: int },
    /// An edge from a slot to the seat of a user who named it, on the day
    /// of the slot.
    Take { user: int, slot: int },
    /// The edge from a seat to the sink.
    Rest { user: int, day: int },
}

/// The forward edge `x` joins the nodes that the link `r` names.
pub open spec fn joins(x: Edge, r: Link, avail: Seq<Seq<int>>, days: Seq<int>) -> bool {
    let nu = avail.len() as int;
    let ns = days.len() as int;
    match r {
        Link::Offer { slot } => {
            &&& 0 <= slot < ns
            &&& x.u == 1
            &&& x.v == offer_node(slot)
        },
        Link::Take { user, slot } => {
            &&& 0 <= user < nu
            &&& 0 <= slot < ns
            &&& avail[user].contains(slot)
            &&& x.u == offer_node(slot)
            &&& x.v == seat_node(nu, ns, user, days[slot])
        },
        Link::Rest { user, day } => {
            &&& 0 <= user < nu
            &&& 0 <= day < 7
            &&& x.u == seat_node(nu, ns, user, day)
            &&& x.v == far_node(nu, ns)
        },
    }
}

/// The input that the matching takes: every slot that a user names exists,
/// every day is a day of the week, and the nodes are fewer than `INF`.
pub open spec fn matchable(avail: Seq<Seq<int>>, days: Seq<int>) -> bool {
    &&& forall|j: int, k: int|
        0 <= j < avail.len() && 0 <= k < avail[j].len() ==> 0 <= (#[trigger] avail[j][k])
            < days.len()
    &&& forall|x: int| 0 <= x < days.len() ==> 0 <= (#[trigger] days[x]) < 7
    &&& 7 * avail.len() + days.len() + 5 <= 0x3f3f3f3f
}

/// The edges `e` follow the matching layout: after the two blank slots,
/// pair `k` is the link `links[k]`, with capacity one.
pub open spec fn strung(e: Seq<Edge>, links: Seq<Link>, avail: Seq<Seq<int>>, days: Seq<int>) -> bool {
    &&& e.len() == 2 + 2 * links.len()
    &&& forall|k: int|
        0 <= k < links.len() ==> {
            &&& joins(e[2 * k + 2], #[trigger] links[k], avail, days)
            &&& e[2 * k + 3].u == e[2 * k + 2].v
            &&& e[2 * k + 3].v == e[2 * k + 2].u
            &&& e[2 * k + 2].w >= 0
            &&& e[2 * k + 3].w >= 0
            &&& e[2 * k + 2].w + e[2 * k + 3].w == 1
        }
}

/// Where each link stands among the pairs: first one offer for each slot,
/// then the takes, `spot[j][k]` being the pair of the `k`-th slot that user
/// `j` names, then the rests day by day.
#[verifier::opaque]
pub open spec fn ordered(links: Seq<Link>, avail: Seq<Seq<int>>, days: Seq<int>, spot: Seq<Seq<int>>) -> bool {
    let nu = avail.len() as int;
    let ns = days.len() as int;
    &&& links.len() >= ns + 7 * nu
    &&& spot.len() == nu
    &&& forall|x: int| 0 <= x < ns ==> #[trigger] links[x] == (Link::Offer { slot: x })
    &&& forall|j: int| 0 <= j < nu ==> (#[trigger] spot[j]).len() == avail[j].len()
    &&& forall|j: int, k: int|
        0 <= j < nu && 0 <= k < avail[j].len() ==> ns <= (#[trigger] spot[j][k]) < links.len() - 7
            * nu && links[spot[j][k]] == (Link::Take { user: j, slot: avail[j][k] })
    &&& forall|j: int, d: int|
        0 <= j < nu && 0 <= d < 7 ==> #[trigger] links[links.len() - 7 * nu + d * nu + j] == (
        Link::Rest { user: j, day: d })
}

/// The capacities of a finished matching layout: one into each slot, one
/// out of each seat.
pub open spec fn seated(e: Seq<Edge>, nu: int, ns: int) -> bool {
    &&& forall|x: int| 0 <= x < ns ==> #[trigger] cap_in(e, set![offer_node(x)]) == 1
    &&& forall|j: int, d: int|
        0 <= j < nu && 0 <= d < 7 ==> #[trigger] cap_out(e, set![seat_node(nu, ns, j, d)]) == 1
}

/// Seats lie after the slots and before the sink.
pub proof fn lemma_seat_range(nu: int, ns: int, j: int, d: int)
    requires
        0 <= j < nu,
        0 <= d < 7,
        0 <= ns,
    ensures
        ns + 2 <= seat_node(nu, ns, j, d) < far_node(nu, ns),
        0 <= d * nu <= 6 * nu,
{
    assert(0 <= d * nu <= 6 * nu) by (nonlinear_arith)
        requires
            0 <= d < 7,
            0 <= nu,
    ;
}

/// Different users or days have different seats.
pub proof fn lemma_seat_apart(nu: int, ns: int, j: int, d: int, j2: int, d2: int)
    requires
        0 <= j < nu,
        0 <= j2 < nu,
        0 <= d,
        0 <= d2,
        seat_node(nu, ns, j, d) == seat_node(nu, ns, j2, d2),
    ensures
        j == j2,
        d == d2,
{
    assert(j == j2 && d == d2) by (nonlinear_arith)
        requires
            0 <= j < nu,
            0 <= j2 < nu,
            0 <= d,
            0 <= d2,
            d * nu + j == d2 * nu + j2,
    ;
}

/// The layout so far: the network differs from `base` only in its edges,
/// is blank, and its pairs are the links `links`.
pub open spec fn stringing(
    net: Net,
    base: Net,
    links: Seq<Link>,
    avail: Seq<Seq<int>>,
    days: Seq<int>,
) -> bool {
    &&& net == (Net { e: net.e, head: net.head, ..base })
    &&& blank(net)
    &&& net.e[0] == base.e[0]
    &&& net.e[1] == base.e[1]
    &&& strung(net.e, links, avail, days)
    &&& net.size() == far_node(avail.len() as int, days.len() as int) + 3
    &&& matchable(avail, days)
}

/// One more pair with its link keeps the layout.
pub proof fn lemma_stringing_step(
    old: Net,
    new: Net,
    base: Net,
    links: Seq<Link>,
    r: Link,
    avail: Seq<Seq<int>>,
    days: Seq<int>,
    u: int,
    v: int,
)
    requires
        stringing(old, base, links, avail, days),
        linked(old, new, u, v, 0),
        joins(new.e[old.e.len() as int], r, avail, days),
    ensures
        stringing(new, base, links.push(r), avail, days),
{
    let rs = links.push(r);
    assert forall|k: int| 0 <= k < rs.len() implies {
        &&& joins(new.e[2 * k + 2], #[trigger] rs[k], avail, days)
        &&& new.e[2 * k + 3].u == new.e[2 * k + 2].v
        &&& new.e[2 * k + 3].v == new.e[2 * k + 2].u
        &&& new.e[2 * k + 2].w >= 0
        &&& new.e[2 * k + 3].w >= 0
        &&& new.e[2 * k + 2].w + new.e[2 * k + 3].w == 1
    } by {
        if k < links.len() {
            assert(rs[k] == links[k]);
            assert(joins(old.e[2 * k + 2], links[k], avail, days));
            assert(new.e[2 * k + 2] == old.e[2 * k + 2]);
            assert(new.e[2 * k + 3] == old.e[2 * k + 3]);
        }
    }
}

/// How far the capacities of the matching layout have come: `offers` slots
/// have their edge from the source, and the seats before day `dd`, and
/// those of day `dd` before user `dj`, have their edge to the sink.
pub open spec fn seating(e: Seq<Edge>, nu: int, ns: int, offers: int, dd: int, dj: int) -> bool {
    &&& cap_out(e, set![1int]) == offers
    &&& forall|x: int|
        0 <= x < ns ==> #[trigger] cap_in(e, set![offer_node(x)]) == (if x < offers {
            1int
        } else {
            0int
        })
    &&& forall|j: int, d: int|
        0 <= j < nu && 0 <= d < 7 ==> #[trigger] cap_out(e, set![seat_node(nu, ns, j, d)]) == (
        if d < dd || (d == dd && j < dj) {
            1int
        } else {
            0int
        })
}

/// The network after the first `x` slots have their edge from the source.
pub open spec fn offers_to(net: Net, x: int) -> Net
    decreases x,
{
    if x <= 0 {
        net
    } else {
        unit(offers_to(net, x - 1), 1, 1 + x, 0)
    }
}

/// The network after the first `k` slots that user `j` names have their
/// edge to the user's seat.
pub open spec fn take_row(net: Net, nu: int, ns: int, j: int, wish: Seq<int>, days: Seq<int>, k: int) -> Net
    decreases k,
{
    if k <= 0 {
        net
    } else {
        let x = wish[k - 1];
        unit(take_row(net, nu, ns, j, wish, days, k - 1), 2 + x, ns + 2 + days[x] * nu + j, 0)
    }
}

/// The network after the slots that the first `j` users name have their
/// edges.
pub open spec fn takes_to(net: Net, avail: Seq<Seq<int>>, days: Seq<int>, j: int) -> Net
    decreases j,
{
    if j <= 0 {
        net
    } else {
        take_row(
            takes_to(net, avail, days, j - 1),
            avail.len() as int,
            days.len() as int,
            j - 1,
            avail[j - 1],
            days,
            avail[j - 1].len() as int,
        )
    }
}

/// The network after the seats of the first `j` users on day `day` have
/// their edge to the sink.
pub open spec fn rest_row(net: Net, nu: int, ns: int, day: int, j: int) -> Net
    decreases j,
{
    if j <= 0 {
        net
    } else {
        unit(rest_row(net, nu, ns, day, j - 1), ns + 1 + day * nu + j, ns + 7 * nu + 2, 0)
    }
}

/// The network after the seats of the first `day` days have their edges to
/// the sink.
pub open spec fn rests_to(net: Net, nu: int, ns: int, day: int) -> Net
    decreases day,
{
    if day <= 0 {
        net
    } else {
        rest_row(rests_to(net, nu, ns, day - 1), nu, ns, day - 1, nu)
    }
}

/// The whole matching layout on the network `base`.
pub open spec fn strung_on(base: Net, avail: Seq<Seq<int>>, days: Seq<int>) -> Net {
    let nu = avail.len() as int;
    let ns = days.len() as int;
    rests_to(takes_to(offers_to(base, ns), avail, days, nu), nu, ns, 7)
}

/// Lays the edge from the source to each slot.
#[verifier::rlimit(40)]
fn string_offers(
    mf: &mut Mcmf,
    ns: usize,
    Ghost(avail): Ghost<Seq<Seq<int>>>,
    Ghost(days): Ghost<Seq<int>>,
) -> (r: Ghost<Seq<Link>>)
    requires
        stringing(old(mf)@, old(mf)@, Seq::empty(), avail, days),
        seating(old(mf)@.e, avail.len() as int, days.len() as int, 0, 0, 0),
        ns == days.len(),
    ensures
        stringing(final(mf)@, old(mf)@, r@, avail, days),
        seating(final(mf)@.e, avail.len() as int, days.len() as int, ns as int, 0, 0),
        r@.len() == ns,
        forall|x: int| 0 <= x < ns ==> #[trigger] r@[x] == (Link::Offer { slot: x }),
        final(mf)@ == offers_to(old(mf)@, ns as int),
{
    let ghost base = mf@;
    let ghost nu = avail.len() as int;
    let ghost mut links = Seq::<Link>::empty();
    let mut x: usize = 0;
    while x < ns
        invariant
            x <= ns,
            ns == days.len(),
            nu == avail.len(),
            stringing(mf@, base, links, avail, days),
            seating(mf@.e, nu, ns as int, x as int, 0, 0),
            links.len() == x,
            forall|y: int| 0 <= y < x ==> #[trigger] links[y] == (Link::Offer { slot: y }),
            mf@ == offers_to(base, x as int),
        decreases ns - x,
    {
        let to = (2 + x) as i32;
        let ghost role = Link::Offer { slot: x as int };
        let ghost m0 = mf@;
        let ghost prior = links;
        link(mf, 1, to, 0);
        proof {
            let m1 = mf@;
            lemma_stringing_step(m0, m1, base, links, role, avail, days, 1, to as int);
            links = links.push(role);
            assert forall|y: int| 0 <= y < x + 1 implies #[trigger] links[y] == (Link::Offer {
                slot: y,
            }) by {
                if y < x {
                    assert(links[y] == prior[y]);
                }
            }
            let src = set![1int];
            assert(cap_out(m1.e, src) == cap_out(m0.e, src) + gain(src.contains(1), 1));
            assert forall|y: int| 0 <= y < ns implies #[trigger] cap_in(m1.e, set![offer_node(y)])
                == (if y < x + 1 {
                1int
            } else {
                0int
            }) by {
                let p = set![offer_node(y)];
                assert(cap_in(m1.e, p) == cap_in(m0.e, p) + gain(p.contains(to as int), 1));
            }
            assert forall|j: int, d: int| 0 <= j < nu && 0 <= d < 7 implies #[trigger] cap_out(
                m1.e,
                set![seat_node(nu, ns as int, j, d)],
            ) == 0 by {
                let p = set![seat_node(nu, ns as int, j, d)];
                lemma_seat_range(nu, ns as int, j, d);
                assert(cap_out(m1.e, p) == cap_out(m0.e, p) + gain(p.contains(1), 1));
            }
        }
        x = x + 1;
    }
    Ghost(links)
}

/// Lays, for each user and each slot that the user names, the edge from
/// the slot to the user's seat on the day of the slot.
#[verifier::rlimit(40)]
fn string_takes(
    mf: &mut Mcmf,
    entries: &Vec<(i64, Vec<usize>)>,
    spares: &Vec<usize>,
    Ghost(base): Ghost<Net>,
    Ghost(links0): Ghost<Seq<Link>>,
    Ghost(avail): Ghost<Seq<Seq<int>>>,
    Ghost(days): Ghost<Seq<int>>,
) -> (r: (Ghost<Seq<Link>>, Ghost<Seq<Seq<int>>>))
    requires
        stringing(old(mf)@, base, links0, avail, days),
        seating(old(mf)@.e, avail.len() as int, days.len() as int, days.len() as int, 0, 0),
        links0.len() == days.len(),
        avail == named(entries@),
        days == dated(spares@),
    ensures
        stringing(final(mf)@, base, r.0@, avail, days),
        seating(final(mf)@.e, avail.len() as int, days.len() as int, days.len() as int, 0, 0),
        r.0@.len() >= links0.len(),
        forall|k: int| 0 <= k < links0.len() ==> r.0@[k] == links0[k],
        r.1@.len() == avail.len(),
        forall|j: int| 0 <= j < avail.len() ==> (#[trigger] r.1@[j]).len() == avail[j].len(),
        forall|j: int, k: int|
            0 <= j < avail.len() && 0 <= k < avail[j].len() ==> links0.len() <= (
            #[trigger] r.1@[j][k]) < r.0@.len() && r.0@[r.1@[j][k]] == (Link::Take {
                user: j,
                slot: avail[j][k],
            }),
        final(mf)@ == takes_to(old(mf)@, avail, days, avail.len() as int),
{
    let nu = entries.len();
    let ns = spares.len();
    let ghost start = mf@;
    let ghost mut links = links0;
    let ghost mut spot = Seq::<Seq<int>>::empty();
    let mut j: usize = 0;
    while j < nu
        invariant
            j <= nu,
            nu == avail.len(),
            ns == days.len(),
            avail == named(entries@),
            days == dated(spares@),
            stringing(mf@, base, links, avail, days),
            seating(mf@.e, nu as int, ns as int, ns as int, 0, 0),
            links.len() >= links0.len(),
            mf@ == takes_to(start, avail, days, j as int),
            forall|k: int| 0 <= k < links0.len() ==> links[k] == links0[k],
            spot.len() == j,
            forall|a: int| 0 <= a < j ==> (#[trigger] spot[a]).len() == avail[a].len(),
            forall|a: int, k: int|
                0 <= a < j && 0 <= k < avail[a].len() ==> links0.len() <= (#[trigger] spot[a][k])
                    < links.len() && links[spot[a][k]] == (Link::Take {
                    user: a,
                    slot: avail[a][k],
                }),
        decreases nu - j,
    {
        let count = entries[j].1.len();
        let ghost mut row = Seq::<int>::empty();
        let mut k: usize = 0;
        while k < count
            invariant
                j < nu,
                k <= count,
                count == avail[j as int].len(),
                nu == avail.len(),
                ns == days.len(),
                avail == named(entries@),
                days == dated(spares@),
                stringing(mf@, base, links, avail, days),
                seating(mf@.e, nu as int, ns as int, ns as int, 0, 0),
                links.len() >= links0.len(),
                mf@ == take_row(
                    takes_to(start, avail, days, j as int),
                    nu as int,
                    ns as int,
                    j as int,
                    avail[j as int],
                    days,
                    k as int,
                ),
                forall|k2: int| 0 <= k2 < links0.len() ==> links[k2] == links0[k2],
                spot.len() == j,
                forall|a: int| 0 <= a < j ==> (#[trigger] spot[a]).len() == avail[a].len(),
                forall|a: int, k2: int|
                    0 <= a < j && 0 <= k2 < avail[a].len() ==> links0.len() <= (
                    #[trigger] spot[a][k2]) < links.len() && links[spot[a][k2]] == (Link::Take {
                        user: a,
                        slot: avail[a][k2],
                    }),
                row.len() == k,
                forall|k2: int|
                    0 <= k2 < k ==> links0.len() <= (#[trigger] row[k2]) < links.len()
                        && links[row[k2]] == (Link::Take {
                        user: j as int,
                        slot: avail[j as int][k2],
                    }),
            decreases count - k,
        {
            let slot = entries[j].1[k];
            proof {
                assert(entries@[j as int].1@[k as int] == avail[j as int][k as int]);
                assert(0 <= avail[j as int][k as int] < days.len());
                assert(spares@[slot as int] == days[slot as int]);
                assert(0 <= days[slot as int] < 7);
                lemma_seat_range(nu as int, ns as int, j as int, days[slot as int]);
            }
            let day = spares[slot];
            let from = (2 + slot) as i32;
            let to = (ns + 2 + day * nu + j) as i32;
            let ghost role = Link::Take { user: j as int, slot: slot as int };
            let ghost m0 = mf@;
            let ghost prior = links;
            link(mf, from, to, 0);
            proof {
                let m1 = mf@;
                assert(avail[j as int].contains(slot as int));
                lemma_stringing_step(m0, m1, base, links, role, avail, days, from as int, to as int);
                links = links.push(role);
                row = row.push(prior.len() as int);
                assert forall|a: int, k2: int|
                    0 <= a < j && 0 <= k2 < avail[a].len() implies links0.len() <= (
                #[trigger] spot[a][k2]) < links.len() && links[spot[a][k2]] == (Link::Take {
                    user: a,
                    slot: avail[a][k2],
                }) by {
                    assert(links[spot[a][k2]] == prior[spot[a][k2]]);
                }
                assert forall|k2: int| 0 <= k2 < k + 1 implies links0.len() <= (#[trigger] row[k2])
                    < links.len() && links[row[k2]] == (Link::Take {
                    user: j as int,
                    slot: avail[j as int][k2],
                }) by {
                    if k2 < k {
                        assert(links[row[k2]] == prior[row[k2]]);
                    }
                }
                let src = set![1int];
                assert(cap_out(m1.e, src) == cap_out(m0.e, src) + gain(src.contains(from as int), 1));
                assert forall|y: int| 0 <= y < ns implies #[trigger] cap_in(
                    m1.e,
                    set![offer_node(y)],
                ) == 1 by {
                    let p = set![offer_node(y)];
                    assert(cap_in(m1.e, p) == cap_in(m0.e, p) + gain(p.contains(to as int), 1));
                }
                assert forall|a: int, d: int| 0 <= a < nu && 0 <= d < 7 implies #[trigger] cap_out(
                    m1.e,
                    set![seat_node(nu as int, ns as int, a, d)],
                ) == 0 by {
                    let p = set![seat_node(nu as int, ns as int, a, d)];
                    lemma_seat_range(nu as int, ns as int, a, d);
                    assert(cap_out(m1.e, p) == cap_out(m0.e, p) + gain(p.contains(from as int), 1));
                }
            }
            k = k + 1;
        }
        proof {
            spot = spot.push(row);
        }
        j = j + 1;
    }
    (Ghost(links), Ghost(spot))
}

/// Lays the edge from each seat to the sink.
#[verifier::rlimit(40)]
fn string_rests(
    mf: &mut Mcmf,
    nu: usize,
    ns: usize,
    Ghost(base): Ghost<Net>,
    Ghost(links0): Ghost<Seq<Link>>,
    Ghost(avail): Ghost<Seq<Seq<int>>>,
    Ghost(days): Ghost<Seq<int>>,
) -> (r: Ghost<Seq<Link>>)
    requires
        stringing(old(mf)@, base, links0, avail, days),
        seating(old(mf)@.e, avail.len() as int, days.len() as int, days.len() as int, 0, 0),
        nu == avail.len(),
        ns == days.len(),
    ensures
        stringing(final(mf)@, base, r@, avail, days),
        seating(final(mf)@.e, avail.len() as int, days.len() as int, days.len() as int, 7, 0),
        r@.len() == links0.len() + 7 * nu,
        forall|k: int| 0 <= k < links0.len() ==> r@[k] == links0[k],
        forall|j: int, d: int|
            0 <= j < nu && 0 <= d < 7 ==> #[trigger] r@[links0.len() + d * nu + j] == (Link::Rest {
                user: j,
                day: d,
            }),
        final(mf)@ == rests_to(old(mf)@, nu as int, ns as int, 7),
{
    let ghost mut links = links0;
    let ghost start = mf@;
    let t = (ns + 7 * nu + 2) as i32;
    let mut day: usize = 0;
    while day < 7
        invariant
            day <= 7,
            nu == avail.len(),
            ns == days.len(),
            t == far_node(nu as int, ns as int),
            stringing(mf@, base, links, avail, days),
            seating(mf@.e, nu as int, ns as int, ns as int, day as int, 0),
            mf@ == rests_to(start, nu as int, ns as int, day as int),
            links.len() == links0.len() + day * nu,
            forall|k: int| 0 <= k < links0.len() ==> links[k] == links0[k],
            forall|j: int, d: int|
                0 <= j < nu && 0 <= d < day ==> #[trigger] links[links0.len() + d * nu + j] == (
                Link::Rest { user: j, day: d }),
        decreases 7 - day,
    {
        let mut j: usize = 0;
        while j < nu
            invariant
                day < 7,
                j <= nu,
                nu == avail.len(),
                ns == days.len(),
                t == far_node(nu as int, ns as int),
                stringing(mf@, base, links, avail, days),
                seating(mf@.e, nu as int, ns as int, ns as int, day as int, j as int),
                mf@ == rest_row(
                    rests_to(start, nu as int, ns as int, day as int),
                    nu as int,
                    ns as int,
                    day as int,
                    j as int,
                ),
                links.len() == links0.len() + day * nu + j,
                forall|k: int| 0 <= k < links0.len() ==> links[k] == links0[k],
                forall|j2: int, d: int|
                    0 <= j2 < nu && (0 <= d < day || (d == day && j2 < j))
                        ==> #[trigger] links[links0.len() + d * nu + j2] == (Link::Rest {
                        user: j2,
                        day: d,
                    }),
            decreases nu - j,
        {
            proof {
                lemma_seat_range(nu as int, ns as int, j as int, day as int);
            }
            let from = (ns + 2 + day * nu + j) as i32;
            let ghost role = Link::Rest { user: j as int, day: day as int };
            let ghost m0 = mf@;
            let ghost prior = links;
            link(mf, from, t, 0);
            proof {
                let m1 = mf@;
                lemma_stringing_step(m0, m1, base, links, role, avail, days, from as int, t as int);
                links = links.push(role);
                assert forall|j2: int, d: int|
                    0 <= j2 < nu && (0 <= d < day || (d == day && j2 < j + 1)) implies #[trigger] links[links0.len()
                    + d * nu + j2] == (Link::Rest { user: j2, day: d }) by {
                    lemma_seat_range(nu as int, ns as int, j2, d);
                    if j2 == j && d == day {
                    } else {
                        if d < day {
                            assert(d * nu + nu <= day * nu) by (nonlinear_arith)
                                requires
                                    d + 1 <= day,
                                    0 <= nu,
                            ;
                        }
                        assert(links[links0.len() + d * nu + j2] == prior[links0.len() + d * nu
                            + j2]);
                    }
                }
                let src = set![1int];
                assert(cap_out(m1.e, src) == cap_out(m0.e, src) + gain(src.contains(from as int), 1));
                assert forall|y: int| 0 <= y < ns implies #[trigger] cap_in(
                    m1.e,
                    set![offer_node(y)],
                ) == 1 by {
                    let p = set![offer_node(y)];
                    assert(cap_in(m1.e, p) == cap_in(m0.e, p) + gain(p.contains(t as int), 1));
                }
                assert forall|a: int, d: int| 0 <= a < nu && 0 <= d < 7 implies #[trigger] cap_out(
                    m1.e,
                    set![seat_node(nu as int, ns as int, a, d)],
                ) == (if d < day || (d == day && a < j + 1) {
                    1int
                } else {
                    0int
                }) by {
                    let p = set![seat_node(nu as int, ns as int, a, d)];
                    assert(cap_out(m1.e, p) == cap_out(m0.e, p) + gain(p.contains(from as int), 1));
                    if seat_node(nu as int, ns as int, a, d) == from {
                        lemma_seat_apart(nu as int, ns as int, a, d, j as int, day as int);
                    }
                }
            }
            j = j + 1;
        }
        proof {
            assert(day * nu + nu == (day + 1) * nu) by (nonlinear_arith);
        }
        day = day + 1;
    }
    Ghost(links)
}

/// `who[x]` is the user who gets slot `x`, if any: a user who named the
/// slot, and no user gets two slots on one day.
pub open spec fn valid_matching(avail: Seq<Seq<int>>, days: Seq<int>, who: Seq<Option<int>>) -> bool {
    &&& who.len() == days.len()
    &&& forall|x: int|
        0 <= x < who.len() ==> match #[trigger] who[x] {
            Some(j) => 0 <= j < avail.len() && avail[j].contains(x),
            None => true,
        }
    &&& forall|x: int, y: int|
        0 <= x < who.len() && 0 <= y < who.len() && x != y && (#[trigger] who[x]) is Some
            && who[x] == #[trigger] who[y] ==> days[x] != days[y]
}

/// One for each slot that goes to a user.
pub open spec fn count_term(who: Seq<Option<int>>) -> spec_fn(int) -> int {
    |x: int|
        if who[x] is Some {
            1
        } else {
            0
        }
}

/// The number of slots that go to a user.
pub open spec fn matched(who: Seq<Option<int>>) -> int {
    sum(count_term(who), who.len() as int)
}

/// No valid matching gives out more slots than `who`.
pub open spec fn maximum(avail: Seq<Seq<int>>, days: Seq<int>, who: Seq<Option<int>>) -> bool {
    forall|other: Seq<Option<int>>| #[trigger]
        valid_matching(avail, days, other) ==> matched(other) <= matched(who)
}

/// Edge `i` is the forward edge of a take of `slot` by `user`, and it is
/// used.
pub open spec fn used(e: Seq<Edge>, links: Seq<Link>, i: int, user: int, slot: int) -> bool {
    &&& 2 <= i < 2 + 2 * links.len()
    &&& i % 2 == 0
    &&& links[(i - 2) / 2] == (Link::Take { user, slot })
    &&& e[i].w == 0
}

/// A solved matching layout: strung, with its capacities, and with a flow
/// of value `val` from the source to the sink.
pub open spec fn settled(
    e: Seq<Edge>,
    links: Seq<Link>,
    avail: Seq<Seq<int>>,
    days: Seq<int>,
    val: int,
) -> bool {
    let nu = avail.len() as int;
    let ns = days.len() as int;
    &&& matchable(avail, days)
    &&& strung(e, links, avail, days)
    &&& seated(e, nu, ns)
    &&& e[0].w == 0
    &&& e[1].w == 0
    &&& forall|p: Set<int>| #[trigger]
        net_out(e, p) == gain(p.contains(1), val) - gain(p.contains(far_node(nu, ns)), val)
}

/// The link of the pair of edge `i` of a strung edge array.
pub proof fn lemma_link_of(
    e: Seq<Edge>,
    links: Seq<Link>,
    avail: Seq<Seq<int>>,
    days: Seq<int>,
    i: int,
) -> (k: int)
    requires
        strung(e, links, avail, days),
        2 <= i < 2 + 2 * links.len(),
    ensures
        0 <= k < links.len(),
        k == (i - 2) / 2,
        i % 2 == 0 ==> i == 2 * k + 2,
        i % 2 == 1 ==> i == 2 * k + 3,
        joins(e[2 * k + 2], links[k], avail, days),
        e[2 * k + 3].u == e[2 * k + 2].v,
        e[2 * k + 3].v == e[2 * k + 2].u,
        e[2 * k + 2].w >= 0,
        e[2 * k + 3].w >= 0,
        e[2 * k + 2].w + e[2 * k + 3].w == 1,
{
    let k = (i - 2) / 2;
    assert(joins(e[2 * k + 2], links[k], avail, days));
    k
}

/// No residual capacity of a settled layout is negative.
pub proof fn lemma_settled_nonneg(
    e: Seq<Edge>,
    links: Seq<Link>,
    avail: Seq<Seq<int>>,
    days: Seq<int>,
    val: int,
)
    requires
        settled(e, links, avail, days, val),
    ensures
        forall|i: int| 0 <= i < e.len() ==> (#[trigger] e[i]).w >= 0,
        e.len() % 2 == 0,
{
    assert forall|i: int| 0 <= i < e.len() implies (#[trigger] e[i]).w >= 0 by {
        if i >= 2 {
            let k = lemma_link_of(e, links, avail, days, i);
        }
    }
}

/// No seat is taken twice: two takes that lead to one seat cannot both be
/// used.
pub proof fn lemma_seat_once(
    e: Seq<Edge>,
    links: Seq<Link>,
    avail: Seq<Seq<int>>,
    days: Seq<int>,
    val: int,
    a: int,
    b: int,
    j: int,
    x: int,
    y: int,
)
    requires
        settled(e, links, avail, days, val),
        used(e, links, a, j, x),
        used(e, links, b, j, y),
        days[x] == days[y],
    ensures
        a == b,
    decreases
            (if a > b {
                1int
            } else {
                0int
            }),
{
    if a > b {
        lemma_seat_once(e, links, avail, days, val, b, a, j, y, x);
    } else if a < b {
        let nu = avail.len() as int;
        let ns = days.len() as int;
        let ka = lemma_link_of(e, links, avail, days, a);
        let kb = lemma_link_of(e, links, avail, days, b);
        let d = days[x];
        assert(0 <= days[x] < 7);
        let p = set![seat_node(nu, ns, j, d)];
        lemma_seat_range(nu, ns, j, d);
        lemma_settled_nonneg(e, links, avail, days, val);
        lemma_cut_balance(e, p);
        assert(net_out(e, p) == gain(p.contains(1), val) - gain(
            p.contains(far_node(nu, ns)),
            val,
        ));
        assert(cap_out(e, p) == 1);
        let picks = seq![a + 1, b + 1];
        assert forall|i: int| 0 <= i < e.len() implies 0 <= #[trigger] enter_term(e, p)(i) by {}
        assert forall|k: int| 0 <= k < picks.len() implies 0 <= #[trigger] picks[k] < e.len()
            && enter_term(e, p)(picks[k]) >= 1 by {}
        lemma_sum_ge_picks(enter_term(e, p), e.len() as int, picks);
    }
}

/// What the scan of an adjacency list finds from edge `i` on, having found
/// `found` so far: the user of the seat, among the nodes `lo..=hi`, to
/// which the last used edge leads.
pub open spec fn seat_scan(e: Seq<Edge>, i: int, found: Option<usize>, lo: int, hi: int, nu: int) -> Option<
    usize,
>
    decreases i,
{
    if 2 <= i < e.len() {
        let x = e[i];
        let step = if x.w == 0 && lo <= x.v <= hi {
            Some(((x.v - lo) % nu) as usize)
        } else {
            found
        };
        if x.next < i {
            seat_scan(e, x.next as int, step, lo, hi, nu)
        } else {
            step
        }
    } else {
        found
    }
}

/// Who gets each of `ns` slots, as the solved layout shows it.
pub open spec fn seats(net: Net, nu: int, ns: int) -> Seq<Option<usize>> {
    Seq::new(
        ns as nat,
        |x: int| seat_scan(net.e, net.head[2 + x] as int, None, ns + 2, ns + 1 + 7 * nu, nu),
    )
}

/// A used take of slot `x` by user `j` is an edge from the node of the
/// slot to the seat of the user on the day of the slot.
pub proof fn lemma_used_edge(
    e: Seq<Edge>,
    links: Seq<Link>,
    avail: Seq<Seq<int>>,
    days: Seq<int>,
    a: int,
    j: int,
    x: int,
)
    requires
        matchable(avail, days),
        strung(e, links, avail, days),
        used(e, links, a, j, x),
    ensures
        0 <= j < avail.len(),
        0 <= x < days.len(),
        e[a].u == offer_node(x),
        e[a].v == seat_node(avail.len() as int, days.len() as int, j, days[x]),
        days.len() + 2 <= e[a].v <= days.len() + 1 + 7 * avail.len(),
        e[a].w == 0,
{
    let k = lemma_link_of(e, links, avail, days, a);
    assert(links[k] == (Link::Take { user: j, slot: x }));
    assert(0 <= days[x] < 7);
    lemma_seat_range(avail.len() as int, days.len() as int, j, days[x]);
}

/// An edge without residual capacity that leads from the node of slot `x`
/// to a seat is a used take of the slot by the user of the seat.
pub proof fn lemma_scan_hit(
    e: Seq<Edge>,
    links: Seq<Link>,
    avail: Seq<Seq<int>>,
    days: Seq<int>,
    i: int,
    x: int,
) -> (j: int)
    requires
        matchable(avail, days),
        strung(e, links, avail, days),
        2 <= i < e.len(),
        0 <= x < days.len(),
        e[i].u == offer_node(x),
        e[i].w == 0,
        days.len() + 2 <= e[i].v <= days.len() + 1 + 7 * avail.len(),
    ensures
        0 <= j < avail.len(),
        j == (e[i].v - days.len() - 2) % (avail.len() as int),
        used(e, links, i, j, x),
{
    let nu = avail.len() as int;
    let ns = days.len() as int;
    let k = lemma_link_of(e, links, avail, days, i);
    match links[k] {
        Link::Offer { slot } => {
            if i % 2 == 0 {
                assert(e[i].u == 1);
            } else {
                assert(e[i].v == 1);
            }
            0
        },
        Link::Take { user, slot } => {
            assert(0 <= days[slot] < 7);
            lemma_seat_range(nu, ns, user, days[slot]);
            if i % 2 == 1 {
                assert(e[i].u == seat_node(nu, ns, user, days[slot]));
            }
            assert(i % 2 == 0);
            assert(slot == x);
            assert(e[i].v - ns - 2 == days[slot] * nu + user);
            vstd::arithmetic::div_mod::lemma_fundamental_div_mod_converse_mod(
                e[i].v - ns - 2,
                nu,
                days[slot],
                user,
            );
            user
        },
        Link::Rest { user, day } => {
            lemma_seat_range(nu, ns, user, day);
            if i % 2 == 0 {
                assert(e[i].u == seat_node(nu, ns, user, day));
            } else {
                assert(e[i].u == far_node(nu, ns));
            }
            0
        },
    }
}

/// What the scan of the list of slot `x` has found so far, down to edge
/// `i`: a user whose take of the slot is used, or that no take above `i`
/// is used.
pub open spec fn seen(
    e: Seq<Edge>,
    links: Seq<Link>,
    x: int,
    i: int,
    found: Option<usize>,
    nu: int,
) -> bool {
    match found {
        Some(j) => j < nu && exists|a: int| used(e, links, a, j as int, x),
        None => forall|a: int, j: int| a > i && #[trigger] used(e, links, a, j, x) ==> false,
    }
}

/// Reads off a solved matching layout who gets each slot: the user of the
/// seat to which a used edge leads from the slot.
#[verifier::rlimit(60)]
fn read_seats(
    mf: &Mcmf,
    nu: usize,
    ns: usize,
    Ghost(links): Ghost<Seq<Link>>,
    Ghost(avail): Ghost<Seq<Seq<int>>>,
    Ghost(days): Ghost<Seq<int>>,
) -> (who: Vec<Option<usize>>)
    requires
        mf@.wf(),
        mf@.size() == far_node(avail.len() as int, days.len() as int) + 3,
        matchable(avail, days),
        strung(mf@.e, links, avail, days),
        nu == avail.len(),
        ns == days.len(),
    ensures
        who@.len() == ns,
        forall|x: int|
            0 <= x < ns ==> match #[trigger] who@[x] {
                Some(j) => j < nu && exists|a: int| used(mf@.e, links, a, j as int, x),
                None => forall|a: int, j: int| #[trigger] used(mf@.e, links, a, j, x) ==> false,
            },
        who@ == seats(mf@, nu as int, ns as int),
{
    let ghost e = mf@.e;
    let ghost sz = mf@.size();
    let lo = ns + 2;
    let hi = ns + 1 + 7 * nu;
    let mut who: Vec<Option<usize>> = Vec::new();
    let mut x: usize = 0;
    while x < ns
        invariant
            x <= ns,
            e == mf@.e,
            sz == mf@.size(),
            mf@.wf(),
            sz == far_node(nu as int, ns as int) + 3,
            matchable(avail, days),
            strung(e, links, avail, days),
            nu == avail.len(),
            ns == days.len(),
            lo == ns + 2,
            hi == ns + 1 + 7 * nu,
            who@.len() == x,
            forall|y: int|
                0 <= y < x ==> match #[trigger] who@[y] {
                    Some(j) => j < nu && exists|a: int| used(e, links, a, j as int, y),
                    None => forall|a: int, j: int| #[trigger] used(e, links, a, j, y) ==> false,
                },
            forall|y: int| 0 <= y < x ==> #[trigger] who@[y] == seats(mf@, nu as int, ns as int)[y],
        decreases ns - x,
    {
        let node = 2 + x;
        let mut found: Option<usize> = None;
        let mut i = mf.head[node];
        let ghost goal = seat_scan(e, i as int, None, lo as int, hi as int, nu as int);
        proof {
            assert(head_ok(e, mf@.head, node as int));
            assert forall|a: int, j: int| a > i && #[trigger] used(e, links, a, j, x as int) implies false by {
                lemma_used_edge(e, links, avail, days, a, j, x as int);
                assert(e[a].u == node);
            }
            assert(seen(e, links, x as int, i as int, found, nu as int));
        }
        while i != 0
            invariant
                x < ns,
                node == 2 + x,
                e == mf@.e,
                sz == mf@.size(),
                mf@.wf(),
                sz == far_node(nu as int, ns as int) + 3,
                matchable(avail, days),
                strung(e, links, avail, days),
                nu == avail.len(),
                ns == days.len(),
                lo == ns + 2,
                hi == ns + 1 + 7 * nu,
                i < e.len(),
                i != 1,
                i != 0 ==> e[i as int].u == node,
                seen(e, links, x as int, i as int, found, nu as int),
                seat_scan(e, i as int, found, lo as int, hi as int, nu as int) == goal,
            decreases i,
        {
            proof {
                assert(edge_ok(e, sz, i as int));
                assert(link_ok(e, i as int));
            }
            let ghost found0 = found;
            let v = mf.e[i].v as usize;
            let w = mf.e[i].w;
            let next = mf.e[i].next;
            if w == 0 && v >= lo && v <= hi {
                let ghost user = lemma_scan_hit(e, links, avail, days, i as int, x as int);
                found = Some((v - lo) % nu);
                proof {
                    assert((v - lo) % (nu as int) == user);
                    assert(used(e, links, i as int, user, x as int));
                    assert(seen(e, links, x as int, next as int, found, nu as int));
                }
            } else {
                proof {
                    if found is None {
                        assert forall|a: int, j: int| a > next && #[trigger] used(
                            e,
                            links,
                            a,
                            j,
                            x as int,
                        ) implies false by {
                            lemma_used_edge(e, links, avail, days, a, j, x as int);
                            if a == i {
                                assert(e[a].w == 0 && lo <= e[a].v <= hi);
                            } else if a < i {
                                assert(e[a].u == e[i as int].u);
                            }
                        }
                        assert(seen(e, links, x as int, next as int, found, nu as int));
                    } else {
                        assert(seen(e, links, x as int, next as int, found, nu as int));
                    }
                }
            }
            proof {
                assert(seat_scan(e, i as int, found0, lo as int, hi as int, nu as int)
                    == seat_scan(e, next as int, found, lo as int, hi as int, nu as int));
            }
            i = next;
        }
        who.push(found);
        x = x + 1;
    }
    proof {
        assert(who@ =~= seats(mf@, nu as int, ns as int));
    }
    who
}

/// The slot of a take; -1 for any other link.
pub open spec fn take_slot(r: Link) -> int {
    match r {
        Link::Take { user, slot } => slot,
        _ => -1,
    }
}

/// Flow on the pair of reverse edge `i` if it is a take of slot `x`.
pub open spec fn take_own(e: Seq<Edge>, links: Seq<Link>, x: int) -> spec_fn(int) -> int {
    |i: int|
        if i % 2 == 1 && 3 <= i < 2 + 2 * links.len() && take_slot(links[(i - 3) / 2]) == x {
            e[i].w as int
        } else {
            0
        }
}

/// Flow on the pair of reverse edge `i` if it is a take of a slot before
/// `k`.
pub open spec fn take_part(e: Seq<Edge>, links: Seq<Link>, k: int) -> spec_fn(int) -> int {
    |i: int|
        if i % 2 == 1 && 3 <= i < 2 + 2 * links.len() && 0 <= take_slot(links[(i - 3) / 2]) < k {
            e[i].w as int
        } else {
            0
        }
}

/// `who` is what was read off the edges `e`: a slot has a user whose take
/// of it is used, or none if no take of it is used.
pub open spec fn read_off(e: Seq<Edge>, links: Seq<Link>, who: Seq<Option<int>>, nu: int) -> bool {
    forall|x: int|
        0 <= x < who.len() ==> match #[trigger] who[x] {
            Some(j) => 0 <= j < nu && exists|a: int| used(e, links, a, j, x),
            None => forall|a: int, j: int| #[trigger] used(e, links, a, j, x) ==> false,
        }
}

/// The takes of one slot carry a unit of flow only if the slot was found
/// to go to a user.
#[verifier::rlimit(40)]
pub proof fn lemma_own_take(
    e: Seq<Edge>,
    links: Seq<Link>,
    avail: Seq<Seq<int>>,
    days: Seq<int>,
    val: int,
    who: Seq<Option<int>>,
    x: int,
)
    requires
        settled(e, links, avail, days, val),
        who.len() == days.len(),
        read_off(e, links, who, avail.len() as int),
        0 <= x < days.len(),
    ensures
        sum(take_own(e, links, x), e.len() as int) <= count_term(who)(x),
{
    let nu = avail.len() as int;
    let ns = days.len() as int;
    let n = e.len() as int;
    let own = take_own(e, links, x);
    lemma_settled_nonneg(e, links, avail, days, val);
    match who[x] {
        Some(j) => {
            let p = set![offer_node(x)];
            lemma_cut_balance(e, p);
            assert(net_out(e, p) == gain(p.contains(1), val) - gain(
                p.contains(far_node(nu, ns)),
                val,
            ));
            assert(cap_in(e, p) == 1);
            assert forall|i: int| 0 <= i < n implies #[trigger] own(i) <= leave_term(e, p)(i) by {
                if i % 2 == 1 && 3 <= i < 2 + 2 * links.len() && take_slot(links[(i - 3) / 2])
                    == x {
                    let k = lemma_link_of(e, links, avail, days, i);
                    match links[k] {
                        Link::Take { user, slot } => {
                            lemma_seat_range(nu, ns, user, days[slot]);
                        },
                        _ => {},
                    }
                }
            }
            lemma_sum_le(own, leave_term(e, p), n);
        },
        None => {
            assert forall|i: int| 0 <= i < n implies #[trigger] own(i) == 0 by {
                if i % 2 == 1 && 3 <= i < 2 + 2 * links.len() && take_slot(links[(i - 3) / 2])
                    == x {
                    let k = lemma_link_of(e, links, avail, days, i);
                    match links[k] {
                        Link::Take { user, slot } => {
                            if e[i].w != 0 {
                                assert(used(e, links, i - 1, user, x));
                            }
                        },
                        _ => {},
                    }
                }
            }
            lemma_sum_zero(own, n);
        },
    }
}

/// The takes of the slots before `k` carry no more flow than slots before
/// `k` were found to go to a user.
pub proof fn lemma_take_parts(
    e: Seq<Edge>,
    links: Seq<Link>,
    avail: Seq<Seq<int>>,
    days: Seq<int>,
    val: int,
    who: Seq<Option<int>>,
    k: int,
)
    requires
        settled(e, links, avail, days, val),
        who.len() == days.len(),
        read_off(e, links, who, avail.len() as int),
        0 <= k <= days.len(),
    ensures
        sum(take_part(e, links, k), e.len() as int) <= sum(count_term(who), k),
    decreases k,
{
    let n = e.len() as int;
    if k == 0 {
        assert forall|i: int| 0 <= i < n implies #[trigger] take_part(e, links, 0)(i) == 0 by {}
        lemma_sum_zero(take_part(e, links, 0), n);
    } else {
        lemma_take_parts(e, links, avail, days, val, who, k - 1);
        lemma_own_take(e, links, avail, days, val, who, k - 1);
        assert forall|i: int| 0 <= i < n implies #[trigger] take_part(e, links, k)(i) == take_part(
            e,
            links,
            k - 1,
        )(i) + take_own(e, links, k - 1)(i) by {}
        lemma_sum_add(take_part(e, links, k - 1), take_own(e, links, k - 1), take_part(e, links, k), n);
    }
}

/// The source and the slots.
pub open spec fn offer_side(ns: int) -> Set<int> {
    Set::new(|v: int| 1 <= v < ns + 2)
}

/// The flow of a settled layout has at most as many units as slots were
/// found to go to a user.
#[verifier::rlimit(40)]
pub proof fn lemma_flow_le(
    e: Seq<Edge>,
    links: Seq<Link>,
    avail: Seq<Seq<int>>,
    days: Seq<int>,
    val: int,
    who: Seq<Option<int>>,
)
    requires
        settled(e, links, avail, days, val),
        who.len() == days.len(),
        read_off(e, links, who, avail.len() as int),
    ensures
        val <= matched(who),
{
    let nu = avail.len() as int;
    let ns = days.len() as int;
    let n = e.len() as int;
    let s = offer_side(ns);
    lemma_settled_nonneg(e, links, avail, days, val);
    assert(net_out(e, s) == gain(s.contains(1), val) - gain(s.contains(far_node(nu, ns)), val));
    lemma_cut_balance(e, s);
    lemma_take_parts(e, links, avail, days, val, who, ns);
    assert forall|i: int| 0 <= i < n implies #[trigger] leave_term(e, s)(i) <= take_part(
        e,
        links,
        ns,
    )(i) by {
        if i % 2 == 1 {
            assert(e[i].w >= 0);
            if 2 <= i < 2 + 2 * links.len() {
                let q = lemma_link_of(e, links, avail, days, i);
                match links[q] {
                    Link::Offer { slot } => {},
                    Link::Take { user, slot } => {},
                    Link::Rest { user, day } => {
                        lemma_seat_range(nu, ns, user, day);
                    },
                }
            }
        }
    }
    lemma_sum_le(leave_term(e, s), take_part(e, links, ns), n);
}

/// The pair of an edge from slot `x` to a seat of user `j`.
pub open spec fn take_at(spot: Seq<Seq<int>>, avail: Seq<Seq<int>>, j: int, x: int) -> int {
    spot[j][pos(avail[j], x)]
}

/// The pair of the edge from the seat of user `j` on day `d` to the sink,
/// with `len` pairs in all.
pub open spec fn rest_at(len: int, nu: int, j: int, d: int) -> int {
    len - 7 * nu + d * nu + j
}

/// Pair `q` lies on the path of slot `y`, which goes to a user.
pub open spec fn on_path(
    q: int,
    len: int,
    spot: Seq<Seq<int>>,
    avail: Seq<Seq<int>>,
    days: Seq<int>,
    who: Seq<Option<int>>,
    y: int,
) -> bool {
    &&& who[y] is Some
    &&& {
        let j = who[y]->Some_0;
        ||| q == y
        ||| q == take_at(spot, avail, j, y)
        ||| q == rest_at(len, avail.len() as int, j, days[y])
    }
}

/// A matching layout to route through.
pub open spec fn chart(
    e: Seq<Edge>,
    head: Seq<usize>,
    links: Seq<Link>,
    spot: Seq<Seq<int>>,
    avail: Seq<Seq<int>>,
    days: Seq<int>,
) -> bool {
    &&& matchable(avail, days)
    &&& edges_wf(e, head, far_node(avail.len() as int, days.len() as int) + 3)
    &&& strung(e, links, avail, days)
    &&& ordered(links, avail, days, spot)
}

/// The state of the routing when the slots before `x` that go to a user
/// have their unit of flow.
pub open spec fn bearing(
    base: Seq<Edge>,
    e: Seq<Edge>,
    links: Seq<Link>,
    spot: Seq<Seq<int>>,
    avail: Seq<Seq<int>>,
    days: Seq<int>,
    who: Seq<Option<int>>,
    x: int,
) -> bool {
    let nu = avail.len() as int;
    let ns = days.len() as int;
    &&& rerouted(base, e)
    &&& forall|p: Set<int>| #[trigger]
        net_out(e, p) == gain(p.contains(1), sum(count_term(who), x)) - gain(
            p.contains(far_node(nu, ns)),
            sum(count_term(who), x),
        )
    &&& forall|q: int|
        0 <= q < links.len() && (#[trigger] e[2 * q + 3]).w != 0 ==> exists|y: int|
            0 <= y < x && #[trigger] on_path(q, links.len() as int, spot, avail, days, who, y)
}

/// The three pairs on the path of a slot of a valid matching, and the nodes
/// that they join.
pub proof fn lemma_way(
    e: Seq<Edge>,
    head: Seq<usize>,
    links: Seq<Link>,
    spot: Seq<Seq<int>>,
    avail: Seq<Seq<int>>,
    days: Seq<int>,
    who: Seq<Option<int>>,
    x: int,
)
    requires
        chart(e, head, links, spot, avail, days),
        valid_matching(avail, days, who),
        0 <= x < days.len(),
        who[x] is Some,
    ensures
        ({
            let nu = avail.len() as int;
            let ns = days.len() as int;
            let len = links.len() as int;
            let j = who[x]->Some_0;
            let d = days[x];
            let q1 = x;
            let q2 = take_at(spot, avail, j, x);
            let q3 = rest_at(len, nu, j, d);
            &&& 0 <= j < nu
            &&& 0 <= d < 7
            &&& 0 <= q1 < ns
            &&& ns <= q2 < len - 7 * nu
            &&& len - 7 * nu <= q3 < len
            &&& links[q1] == (Link::Offer { slot: x })
            &&& links[q2] == (Link::Take { user: j, slot: x })
            &&& links[q3] == (Link::Rest { user: j, day: d })
            &&& e[2 * q1 + 2].u == 1
            &&& e[2 * q1 + 2].v == offer_node(x)
            &&& e[2 * q2 + 2].u == offer_node(x)
            &&& e[2 * q2 + 2].v == seat_node(nu, ns, j, d)
            &&& e[2 * q3 + 2].u == seat_node(nu, ns, j, d)
            &&& e[2 * q3 + 2].v == far_node(nu, ns)
        }),
{
    reveal(ordered);
    let nu = avail.len() as int;
    let ns = days.len() as int;
    let len = links.len() as int;
    let j = who[x]->Some_0;
    assert(avail[j].contains(x));
    let a = pos(avail[j], x);
    let d = days[x];
    assert(0 <= days[x] < 7);
    lemma_seat_range(nu, ns, j, d);
    let q1 = x;
    let q2 = take_at(spot, avail, j, x);
    let q3 = rest_at(len, nu, j, d);
    assert(links[x] == (Link::Offer { slot: x }));
    assert(ns <= spot[j][a] < links.len() - 7 * nu);
    assert(links[links.len() - 7 * nu + d * nu + j] == (Link::Rest { user: j, day: d }));
    assert(joins(e[2 * q1 + 2], links[q1], avail, days));
    assert(joins(e[2 * q2 + 2], links[q2], avail, days));
    assert(joins(e[2 * q3 + 2], links[q3], avail, days));
}

/// The paths of two different slots of a valid matching share no pair.
#[verifier::rlimit(40)]
pub proof fn lemma_on_path_once(
    e: Seq<Edge>,
    head: Seq<usize>,
    links: Seq<Link>,
    spot: Seq<Seq<int>>,
    avail: Seq<Seq<int>>,
    days: Seq<int>,
    who: Seq<Option<int>>,
    q: int,
    x: int,
    y: int,
)
    requires
        chart(e, head, links, spot, avail, days),
        valid_matching(avail, days, who),
        0 <= x < days.len(),
        0 <= y < days.len(),
        on_path(q, links.len() as int, spot, avail, days, who, x),
        on_path(q, links.len() as int, spot, avail, days, who, y),
    ensures
        x == y,
{
    let nu = avail.len() as int;
    lemma_way(e, head, links, spot, avail, days, who, x);
    lemma_way(e, head, links, spot, avail, days, who, y);
    let jx = who[x]->Some_0;
    let jy = who[y]->Some_0;
    if q == rest_at(links.len() as int, nu, jx, days[x]) {
        assert(jx == jy && days[x] == days[y]) by (nonlinear_arith)
            requires
                0 <= jx < nu,
                0 <= jy < nu,
                0 <= days[x],
                0 <= days[y],
                days[x] * nu + jx == days[y] * nu + jy,
        ;
        if x != y {
            assert(who[x] == who[y]);
        }
    } else if q == take_at(spot, avail, jx, x) {
        assert(links[q] == (Link::Take { user: jx, slot: x }));
        assert(links[q] == (Link::Take { user: jy, slot: y }));
    }
}

/// One more slot routed: if slot `x` goes to a user, a unit of flow along
/// its path, whose pairs carry nothing yet.
#[verifier::rlimit(60)]
pub proof fn lemma_thread_one(
    base: Seq<Edge>,
    head: Seq<usize>,
    links: Seq<Link>,
    spot: Seq<Seq<int>>,
    avail: Seq<Seq<int>>,
    days: Seq<int>,
    who: Seq<Option<int>>,
    e: Seq<Edge>,
    x: int,
) -> (e3: Seq<Edge>)
    requires
        chart(base, head, links, spot, avail, days),
        valid_matching(avail, days, who),
        0 <= x < days.len(),
        bearing(base, e, links, spot, avail, days, who, x),
    ensures
        bearing(base, e3, links, spot, avail, days, who, x + 1),
{
    let nu = avail.len() as int;
    let ns = days.len() as int;
    let len = links.len() as int;
    let sz = far_node(nu, ns) + 3;
    assert(sum(count_term(who), x + 1) == sum(count_term(who), x) + count_term(who)(x));
    if who[x] is Some {
        let j = who[x]->Some_0;
        let q1 = x;
        let q2 = take_at(spot, avail, j, x);
        let q3 = rest_at(len, nu, j, days[x]);
        lemma_way(base, head, links, spot, avail, days, who, x);
        assert(on_path(q1, len, spot, avail, days, who, x));
        assert(on_path(q2, len, spot, avail, days, who, x));
        assert(on_path(q3, len, spot, avail, days, who, x));
        assert forall|q: int|
            0 <= q < len && on_path(q, len, spot, avail, days, who, x) implies (#[trigger] e[2 * q
            + 3]).w == 0 by {
            if e[2 * q + 3].w != 0 {
                let y = choose|y: int|
                    0 <= y < x && #[trigger] on_path(q, len, spot, avail, days, who, y);
                lemma_on_path_once(base, head, links, spot, avail, days, who, q, x, y);
            }
        }
        assert(e[2 * q1 + 3].w == 0);
        assert(e[2 * q2 + 3].w == 0);
        assert(e[2 * q3 + 3].w == 0);
        assert(links[q1] is Offer && links[q2] is Take && links[q3] is Rest);
        let e1 = lemma_push_pair(base, head, sz, e, q1);
        assert(e1[2 * q2 + 3] == e[2 * q2 + 3]);
        let e2 = lemma_push_pair(base, head, sz, e1, q2);
        assert(e1[2 * q3 + 3] == e[2 * q3 + 3]);
        assert(e2[2 * q3 + 3] == e1[2 * q3 + 3]);
        let e3 = lemma_push_pair(base, head, sz, e2, q3);
        assert forall|p: Set<int>| #[trigger]
            net_out(e3, p) == gain(p.contains(1), sum(count_term(who), x + 1)) - gain(
                p.contains(far_node(nu, ns)),
                sum(count_term(who), x + 1),
            ) by {
            assert(net_out(e, p) == gain(p.contains(1), sum(count_term(who), x)) - gain(
                p.contains(far_node(nu, ns)),
                sum(count_term(who), x),
            ));
            assert(net_out(e1, p) == net_out(e, p) + gain(p.contains(base[2 * q1 + 2].u as int), 1)
                - gain(p.contains(base[2 * q1 + 2].v as int), 1));
            assert(net_out(e2, p) == net_out(e1, p) + gain(
                p.contains(base[2 * q2 + 2].u as int),
                1,
            ) - gain(p.contains(base[2 * q2 + 2].v as int), 1));
            assert(net_out(e3, p) == net_out(e2, p) + gain(
                p.contains(base[2 * q3 + 2].u as int),
                1,
            ) - gain(p.contains(base[2 * q3 + 2].v as int), 1));
        }
        assert forall|q: int| 0 <= q < len && (#[trigger] e3[2 * q + 3]).w != 0 implies exists|
            y: int,
        | 0 <= y < x + 1 && #[trigger] on_path(q, len, spot, avail, days, who, y) by {
            if q == q1 || q == q2 || q == q3 {
                assert(on_path(q, len, spot, avail, days, who, x));
            } else {
                assert(e1[2 * q + 3] == e[2 * q + 3]);
                assert(e2[2 * q + 3] == e1[2 * q + 3]);
                assert(e3[2 * q + 3] == e2[2 * q + 3]);
                let y = choose|y: int|
                    0 <= y < x && #[trigger] on_path(q, len, spot, avail, days, who, y);
                assert(0 <= y < x + 1 && on_path(q, len, spot, avail, days, who, y));
            }
        }
        e3
    } else {
        assert forall|q: int| 0 <= q < len && (#[trigger] e[2 * q + 3]).w != 0 implies exists|
            y: int,
        | 0 <= y < x + 1 && #[trigger] on_path(q, len, spot, avail, days, who, y) by {
            let y = choose|y: int|
                0 <= y < x && #[trigger] on_path(q, len, spot, avail, days, who, y);
            assert(0 <= y < x + 1 && on_path(q, len, spot, avail, days, who, y));
        }
        e
    }
}

/// Every valid matching is a flow through the layout, with as many units
/// from the source to the sink as it gives out slots.
pub proof fn lemma_thread(
    base: Seq<Edge>,
    head: Seq<usize>,
    links: Seq<Link>,
    spot: Seq<Seq<int>>,
    avail: Seq<Seq<int>>,
    days: Seq<int>,
    who: Seq<Option<int>>,
    x: int,
) -> (e: Seq<Edge>)
    requires
        chart(base, head, links, spot, avail, days),
        idle(base),
        valid_matching(avail, days, who),
        0 <= x <= days.len(),
    ensures
        bearing(base, e, links, spot, avail, days, who, x),
    decreases x,
{
    let nu = avail.len() as int;
    let ns = days.len() as int;
    if x > 0 {
        let e = lemma_thread(base, head, links, spot, avail, days, who, x - 1);
        lemma_thread_one(base, head, links, spot, avail, days, who, e, x - 1)
    } else {
        let sz = far_node(nu, ns) + 3;
        assert forall|i: int| 0 <= i < base.len() implies (#[trigger] base[i]).w >= 0 by {
            if i >= 2 {
                assert(edge_ok(base, sz, i));
            }
        }
        assert forall|p: Set<int>| #[trigger]
            net_out(base, p) == gain(p.contains(1), sum(count_term(who), 0)) - gain(
                p.contains(far_node(nu, ns)),
                sum(count_term(who), 0),
            ) by {
            lemma_idle(base, p);
        }
        assert forall|q: int| 0 <= q < links.len() implies (#[trigger] base[2 * q + 3]).w == 0 by {}
        base
    }
}

/// Moving flow on a strung edge array leaves it strung.
pub proof fn lemma_strung_moved(
    e: Seq<Edge>,
    e2: Seq<Edge>,
    links: Seq<Link>,
    avail: Seq<Seq<int>>,
    days: Seq<int>,
)
    requires
        strung(e, links, avail, days),
        rerouted(e, e2),
    ensures
        strung(e2, links, avail, days),
{
    assert forall|k: int| 0 <= k < links.len() implies {
        &&& joins(e2[2 * k + 2], #[trigger] links[k], avail, days)
        &&& e2[2 * k + 3].u == e2[2 * k + 2].v
        &&& e2[2 * k + 3].v == e2[2 * k + 2].u
        &&& e2[2 * k + 2].w >= 0
        &&& e2[2 * k + 3].w >= 0
        &&& e2[2 * k + 2].w + e2[2 * k + 3].w == 1
    } by {
        let i = 2 * k + 2;
        assert(joins(e[i], links[k], avail, days));
        assert(e2[i].u == e[i].u);
        assert(e2[i + 1].u == e[i + 1].u);
        assert(mate(i) == i + 1);
    }
}

/// What was read off a solved matching layout that no residual path can
/// extend is a maximum matching.
#[verifier::rlimit(40)]
pub proof fn lemma_maximum(
    done: Net,
    links: Seq<Link>,
    spot: Seq<Seq<int>>,
    avail: Seq<Seq<int>>,
    days: Seq<int>,
    val: int,
    who: Seq<Option<int>>,
)
    requires
        done.wf(),
        done.size() == far_node(avail.len() as int, days.len() as int) + 3,
        done.ss == 1,
        done.tt == far_node(avail.len() as int, days.len() as int),
        cut_off(done),
        settled(done.e, links, avail, days, val),
        ordered(links, avail, days, spot),
        who.len() == days.len(),
        read_off(done.e, links, who, avail.len() as int),
    ensures
        maximum(avail, days, who),
{
    let e = done.e;
    let sz = done.size();
    lemma_flow_le(e, links, avail, days, val, who);
    lemma_zeroed(e, done.head, sz);
    let base = zeroed(e);
    lemma_strung_moved(e, base, links, avail, days);
    assert forall|other: Seq<Option<int>>| #[trigger]
        valid_matching(avail, days, other) implies matched(other) <= matched(who) by {
        let e2 = lemma_thread(base, done.head, links, spot, avail, days, other, days.len() as int);
        lemma_rerouted_chain(e, base, e2);
        assert forall|y: int|
            0 <= y < sz && y != done.ss && y != done.tt implies #[trigger] net_out(e2, set![y])
            == net_out(e, set![y]) by {}
        lemma_max_flow(done, e2);
        assert(net_out(e2, set![done.ss as int]) == matched(other));
        assert(net_out(e, set![done.ss as int]) == val);
    }
}

/// An empty network of the size of the matching layout is the start of it.
proof fn lemma_clear_chart(base: Net, avail: Seq<Seq<int>>, days: Seq<int>)
    requires
        matchable(avail, days),
        base.size() == far_node(avail.len() as int, days.len() as int) + 3,
        base.e == seq![blank_edge(), blank_edge()],
        base.incf.len() == base.size(),
        base.pre.len() == base.size(),
        base.a.len() == base.size(),
        base.vis.len() == base.size(),
        base.head.len() == base.size(),
        forall|v: int| 0 <= v < base.size() ==> base.a[v] == 0 && base.head[v] == 0,
    ensures
        stringing(base, base, Seq::empty(), avail, days),
        seating(base.e, avail.len() as int, days.len() as int, 0, 0, 0),
{
    let e = base.e;
    let nu = avail.len() as int;
    let ns = days.len() as int;
    assert forall|u: int| 0 <= u < base.size() implies #[trigger] head_ok(e, base.head, u) by {}
    assert forall|p: Set<int>| cap_in(e, p) == 0 && cap_out(e, p) == 0 by {
        assert forall|i: int| 0 <= i < 2 implies #[trigger] cap_in_term(e, p)(i) == 0 by {}
        lemma_sum_zero(cap_in_term(e, p), 2);
        assert forall|i: int| 0 <= i < 2 implies #[trigger] cap_out_term(e, p)(i) == 0 by {}
        lemma_sum_zero(cap_out_term(e, p), 2);
    }
    assert forall|x: int| 0 <= x < ns implies #[trigger] cap_in(e, set![offer_node(x)]) == 0 by {}
    assert forall|j: int, d: int| 0 <= j < nu && 0 <= d < 7 implies #[trigger] cap_out(
        e,
        set![seat_node(nu, ns, j, d)],
    ) == 0 by {}
}

/// The links that the three stages of the matching layout leave behind
/// stand where the order of the stages puts them.
proof fn lemma_ordered(
    l0: Seq<Link>,
    l1: Seq<Link>,
    links: Seq<Link>,
    spot: Seq<Seq<int>>,
    avail: Seq<Seq<int>>,
    days: Seq<int>,
)
    requires
        l0.len() == days.len(),
        forall|x: int| 0 <= x < days.len() ==> #[trigger] l0[x] == (Link::Offer { slot: x }),
        l1.len() >= l0.len(),
        forall|k: int| 0 <= k < l0.len() ==> l1[k] == l0[k],
        spot.len() == avail.len(),
        forall|j: int| 0 <= j < avail.len() ==> (#[trigger] spot[j]).len() == avail[j].len(),
        forall|j: int, k: int|
            0 <= j < avail.len() && 0 <= k < avail[j].len() ==> l0.len() <= (#[trigger] spot[j][k])
                < l1.len() && l1[spot[j][k]] == (Link::Take { user: j, slot: avail[j][k] }),
        links.len() == l1.len() + 7 * avail.len(),
        forall|k: int| 0 <= k < l1.len() ==> links[k] == l1[k],
        forall|j: int, d: int|
            0 <= j < avail.len() && 0 <= d < 7 ==> #[trigger] links[l1.len() + d * avail.len() + j]
                == (Link::Rest { user: j, day: d }),
    ensures
        ordered(links, avail, days, spot),
{
    reveal(ordered);
    let nu = avail.len() as int;
    let ns = days.len() as int;
    assert forall|x: int| 0 <= x < ns implies #[trigger] links[x] == (Link::Offer { slot: x }) by {
        assert(l0[x] == (Link::Offer { slot: x }));
        assert(l1[x] == l0[x]);
    }
    assert forall|j: int, k: int| 0 <= j < nu && 0 <= k < avail[j].len() implies ns <= (
    #[trigger] spot[j][k]) < links.len() - 7 * nu && links[spot[j][k]] == (Link::Take {
        user: j,
        slot: avail[j][k],
    }) by {
        assert(l1[spot[j][k]] == (Link::Take { user: j, slot: avail[j][k] }));
    }
    assert forall|j: int, d: int| 0 <= j < nu && 0 <= d < 7 implies #[trigger] links[links.len()
        - 7 * nu + d * nu + j] == (Link::Rest { user: j, day: d }) by {
        assert(links[l1.len() + d * nu + j] == (Link::Rest { user: j, day: d }));
    }
}

/// What was read off as user indices, as integers.
pub open spec fn whom(who: Seq<Option<usize>>) -> Seq<Option<int>> {
    Seq::new(
        who.len(),
        |x: int|
            match who[x] {
                Some(j) => Some(j as int),
                None => None,
            },
    )
}

/// `res` tells the matching `who`: a slot that goes to a user carries the
/// id of that user, every other slot carries nothing.
pub open spec fn told(res: Seq<Option<i64>>, entries: Seq<(i64, Vec<usize>)>, who: Seq<Option<int>>) -> bool {
    &&& res.len() == who.len()
    &&& forall|x: int|
        0 <= x < res.len() ==> #[trigger] res[x] == (match who[x] {
            Some(j) => Some(entries[j].0),
            None => None,
        })
}

/// The solver before the matching layout: `n` nodes of the layout and the
/// two spare ones, source 1, sink `n`, nothing else.
pub open spec fn floor(n: int) -> Net {
    Net {
        n: n as i32,
        s: 1,
        t: n as i32,
        ss: 1,
        tt: n as i32,
        d: resized(Seq::<i32>::empty(), n + 3, 0i32),
        incf: resized(Seq::<i32>::empty(), n + 3, 0i32),
        pre: resized(Seq::<usize>::empty(), n + 3, 0usize),
        head: resized(Seq::<usize>::empty(), n + 3, 0usize),
        a: resized(Seq::<i32>::empty(), n + 3, 0i32),
        vis: resized(Seq::<bool>::empty(), n + 3, false),
        ..empty_net()
    }
}

/// Who gets each slot: the matching layout is laid on the floor, the flow
/// found by level graphs, and the seats read off.
pub open spec fn matching_of(avail: Seq<Seq<int>>, days: Seq<int>) -> Seq<Option<usize>> {
    let nu = avail.len() as int;
    let ns = days.len() as int;
    seats(burst(strung_on(floor(far_node(nu, ns)), avail, days)).0, nu, ns)
}

/// For each slot the id of the user who gets it, if any.
pub open spec fn telling(entries: Seq<(i64, Vec<usize>)>, who: Seq<Option<usize>>) -> Seq<
    Option<i64>,
> {
    Seq::new(
        who.len(),
        |x: int|
            match who[x] {
                Some(j) => Some(entries[j as int].0),
                None => None,
            },
    )
}

/// Gives out as many slots as possible, without quota and without regard
/// to fairness. An entry is a user id with the indices of the slots that
/// the user can take; `spares[x]` is the day of the week, `0..=6`, of slot
/// `x`. The result has one element for each slot: the id of the user who
/// gets it, or nothing. Every slot goes to a user who named it, no user
/// gets two slots on one day, and no such matching gives out more slots.
#[verifier::rlimit(60)]
pub fn max_matching(entries: Vec<(i64, Vec<usize>)>, spares: Vec<usize>) -> (res: Vec<Option<i64>>)
    requires
        matchable(named(entries@), dated(spares@)),
    ensures
        res@.len() == spares@.len(),
        exists|who: Seq<Option<int>>|
            valid_matching(named(entries@), dated(spares@), who) && maximum(
                named(entries@),
                dated(spares@),
                who,
            ) && #[trigger] told(res@, entries@, who),
        res@ == telling(entries@, matching_of(named(entries@), dated(spares@))),
{
    let ghost avail = named(entries@);
    let ghost days = dated(spares@);
    let nu = entries.len();
    let ns = spares.len();
    let mut mf = Mcmf::new();
    let n = (ns + 7 * nu + 2) as i32;
    mf.n = n;
    mf.s = 1;
    mf.t = n;
    mf.ss = 1;
    mf.tt = n;
    mf.set_n(n);
    let ghost base = mf@;
    proof {
        lemma_clear_chart(base, avail, days);
        assert(base.e =~= seq![blank_edge(), blank_edge()]);
        assert(base == floor(far_node(avail.len() as int, days.len() as int)));
    }
    let Ghost(l0) = string_offers(&mut mf, ns, Ghost(avail), Ghost(days));
    let (Ghost(l1), Ghost(spot)) = string_takes(
        &mut mf,
        &entries,
        &spares,
        Ghost(base),
        Ghost(l0),
        Ghost(avail),
        Ghost(days),
    );
    let Ghost(links) = string_rests(
        &mut mf,
        nu,
        ns,
        Ghost(base),
        Ghost(l1),
        Ghost(avail),
        Ghost(days),
    );
    let ghost built = mf@;
    proof {
        lemma_ordered(l0, l1, links, spot, avail, days);
        lemma_idle(built.e, set![1int]);
        assert(built == strung_on(base, avail, days));
    }
    let flow = dinic(&mut mf);
    let ghost done = mf@;
    proof {
        lemma_strung_moved(built.e, done.e, links, avail, days);
        assert forall|x: int| 0 <= x < ns implies #[trigger] cap_in(done.e, set![offer_node(x)])
            == 1 by {
            lemma_rerouted_caps(built.e, done.e, set![offer_node(x)]);
        }
        assert forall|j: int, d: int| 0 <= j < nu && 0 <= d < 7 implies #[trigger] cap_out(
            done.e,
            set![seat_node(nu as int, ns as int, j, d)],
        ) == 1 by {
            lemma_rerouted_caps(built.e, done.e, set![seat_node(nu as int, ns as int, j, d)]);
        }
        assert(mate(0) == 1 && mate(1) == 0);
        assert(done.e[0].w + done.e[mate(0)].w == built.e[0].w + built.e[mate(0)].w);
        assert(done.e[1].w >= 0);
        assert forall|p: Set<int>| #[trigger]
            net_out(done.e, p) == gain(p.contains(1), flow as int) - gain(
                p.contains(far_node(nu as int, ns as int)),
                flow as int,
            ) by {
            lemma_idle(built.e, p);
        }
        assert(settled(done.e, links, avail, days, flow as int));
    }
    let who = read_seats(&mf, nu, ns, Ghost(links), Ghost(avail), Ghost(days));
    let ghost pairs = whom(who@);
    proof {
        assert forall|x: int| 0 <= x < pairs.len() implies match #[trigger] pairs[x] {
            Some(j) => 0 <= j < nu && exists|a: int| used(done.e, links, a, j, x),
            None => forall|a: int, j: int| #[trigger] used(done.e, links, a, j, x) ==> false,
        } by {
            match who@[x] {
                Some(j) => {},
                None => {},
            }
        }
        assert forall|x: int| 0 <= x < pairs.len() implies match #[trigger] pairs[x] {
            Some(j) => 0 <= j < avail.len() && avail[j].contains(x),
            None => true,
        } by {
            match pairs[x] {
                Some(j) => {
                    let a = choose|a: int| used(done.e, links, a, j, x);
                    let k = lemma_link_of(done.e, links, avail, days, a);
                },
                None => {},
            }
        }
        assert forall|x: int, y: int|
            0 <= x < pairs.len() && 0 <= y < pairs.len() && x != y && (#[trigger] pairs[x]) is Some
                && pairs[x] == #[trigger] pairs[y] implies days[x] != days[y] by {
            let j = pairs[x]->Some_0;
            let a = choose|a: int| used(done.e, links, a, j, x);
            let b = choose|b: int| used(done.e, links, b, j, y);
            if days[x] == days[y] {
                lemma_seat_once(done.e, links, avail, days, flow as int, a, b, j, x, y);
            }
        }
        lemma_maximum(done, links, spot, avail, days, flow as int, pairs);
    }
    let mut res: Vec<Option<i64>> = Vec::new();
    let mut x: usize = 0;
    while x < ns
        invariant
            x <= ns,
            ns == who@.len(),
            nu == entries@.len(),
            pairs == whom(who@),
            res@.len() == x,
            forall|y: int| 0 <= y < ns ==> ((#[trigger] who@[y]) matches Some(j) ==> j < nu),
            forall|y: int|
                0 <= y < x ==> #[trigger] res@[y] == (match pairs[y] {
                    Some(j) => Some(entries@[j].0),
                    None => None,
                }),
            forall|y: int| 0 <= y < x ==> #[trigger] res@[y] == telling(entries@, who@)[y],
        decreases ns - x,
    {
        let id = match who[x] {
            Some(j) => Some(entries[j].0),
            None => None,
        };
        res.push(id);
        x = x + 1;
    }
    proof {
        assert(told(res@, entries@, pairs));
        assert(res@ =~= telling(entries@, who@));
    }
    res
}

} // verus!
