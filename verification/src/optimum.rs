//! The assignment read off a solved layout is a best one: no valid
//! assignment gives out more slots, and none that gives out as many is
//! cheaper.

use crate::augment::{cut_off, potential};
use crate::flow::{lemma_rerouted_chain, net_out};
use crate::graph::Net;
use crate::layout::{indexed, routed, sink_node, source_node, valid_assignment, well_posed, Role};
use crate::optimality::{lemma_max_flow, lemma_min_cost};
use crate::routing::{
    lemma_assignment_flow, lemma_cast_moved, lemma_zeroed, optimal, tier_total, total, zeroed,
};
use crate::tally::{lemma_cost_ge, lemma_value_le, valued};
use crate::wiring::decoded;
use vstd::prelude::*;

verus! {

/// A solved layout with what was read off it.
pub open spec fn read_off(
    done: Net,
    roles: Seq<Role>,
    spot: Seq<Seq<int>>,
    avail: Seq<Seq<int>>,
    days: Seq<int>,
    raw: Seq<Seq<u64>>,
    from: Seq<Seq<int>>,
    got: Seq<Seq<int>>,
    val: int,
) -> bool {
    let nu = avail.len() as int;
    let ns = days.len() as int;
    &&& done.wf()
    &&& done.size() == sink_node(nu, ns) + 3
    &&& done.ss == source_node()
    &&& done.tt == sink_node(nu, ns)
    &&& cut_off(done)
    &&& well_posed(avail, days)
    &&& routed(done.e, roles, avail, days)
    &&& indexed(roles, avail, days, spot)
    &&& done.e[done.e.len() - 2].c == 0
    &&& valued(done.e, nu, ns, val)
    &&& decoded(done.e, roles, raw, from, done.e.len() as int)
    &&& raw.len() == nu
    &&& got.len() == nu
    &&& forall|j: int| 0 <= j < got.len() ==> (#[trigger] got[j]).len() == from[j].len()
    &&& valid_assignment(avail, days, got)
}

/// What was read off a solved layout is as many slots as the flow has
/// units.
#[verifier::rlimit(40)]
pub proof fn lemma_value(
    done: Net,
    roles: Seq<Role>,
    spot: Seq<Seq<int>>,
    avail: Seq<Seq<int>>,
    days: Seq<int>,
    raw: Seq<Seq<u64>>,
    from: Seq<Seq<int>>,
    got: Seq<Seq<int>>,
    val: int,
)
    requires
        read_off(done, roles, spot, avail, days, raw, from, got, val),
    ensures
        total(got) == val,
{
    let e = done.e;
    let sz = done.size();
    lemma_value_le(e, roles, avail, days, raw, from, got, val);
    lemma_zeroed(e, done.head, sz);
    let base = zeroed(e);
    lemma_cast_moved(e, base, roles, avail, days);
    let e2 = lemma_assignment_flow(base, done.head, roles, spot, avail, days, got);
    lemma_rerouted_chain(e, base, e2);
    assert forall|y: int| 0 <= y < sz && y != done.ss && y != done.tt implies #[trigger] net_out(
        e2,
        set![y],
    ) == net_out(e, set![y]) by {}
    lemma_max_flow(done, e2);
    assert(net_out(e2, set![done.ss as int]) == total(got));
    assert(net_out(e, set![done.ss as int]) == val);
}

/// What was read off a solved layout is a best assignment.
#[verifier::rlimit(40)]
pub proof fn lemma_optimal(
    done: Net,
    pi: Seq<int>,
    hi: int,
    roles: Seq<Role>,
    spot: Seq<Seq<int>>,
    avail: Seq<Seq<int>>,
    days: Seq<int>,
    raw: Seq<Seq<u64>>,
    from: Seq<Seq<int>>,
    got: Seq<Seq<int>>,
    val: int,
)
    requires
        read_off(done, roles, spot, avail, days, raw, from, got, val),
        potential(done.e, pi, done.size(), hi),
    ensures
        optimal(avail, days, got),
{
    let e = done.e;
    let sz = done.size();
    lemma_value(done, roles, spot, avail, days, raw, from, got, val);
    lemma_cost_ge(e, roles, spot, avail, days, raw, from, got);
    lemma_zeroed(e, done.head, sz);
    let base = zeroed(e);
    lemma_cast_moved(e, base, roles, avail, days);
    assert forall|other: Seq<Seq<int>>| #[trigger]
        valid_assignment(avail, days, other) implies total(other) <= total(got) && (total(other)
        == total(got) ==> tier_total(got) <= tier_total(other)) by {
        let e2 = lemma_assignment_flow(base, done.head, roles, spot, avail, days, other);
        lemma_rerouted_chain(e, base, e2);
        assert forall|y: int|
            0 <= y < sz && y != done.ss && y != done.tt implies #[trigger] net_out(e2, set![y])
            == net_out(e, set![y]) by {}
        lemma_max_flow(done, e2);
        assert(net_out(e2, set![done.ss as int]) == total(other));
        assert(net_out(e, set![done.ss as int]) == val);
        if total(other) == total(got) {
            assert forall|y: int| 0 <= y < sz implies #[trigger] net_out(e2, set![y]) == net_out(
                e,
                set![y],
            ) by {}
            lemma_min_cost(e, done.head, sz, pi, e2);
        }
    }
}

} // verus!
