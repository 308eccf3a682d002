//! The assignment of slots to users: the layout is built on a solver, the
//! solver finds the cheapest maximum flow, and the flow is read back as the
//! slots of each user.

use crate::augment::potential;
use crate::optimum::lemma_optimal;
use crate::routing::optimal;
use crate::tally::{lemma_valued, valued};
use crate::wiring::{
    decode, decoded, lay_days, lay_picks, lay_sinks, lay_tiers, lemma_built_routed,
    lemma_built_solvable, lemma_cast_rerouted, lemma_cleared, ascending, laid, lemma_closed_layout,
    lemma_indexed, lemma_sorted_of, rows_to, sort_stamps, sorted_of,
};
use crate::graph::{blank_edge, empty_net, resized, Edge, Mcmf, Net};
use crate::layout::{
    increasing, ints, lemma_day_once, lemma_quota, lemma_role_of, lemma_slot_once, routed,
    sink_node, stamps_of, taken, valid_assignment, weekdays, well_posed, wishes, Role, Spare, User,
};
use crate::flow::cap_out;
use crate::solve::{carries, lemma_staged_plain, solved, solved_to, staged, unclosed};
use vstd::prelude::*;

verus! {

/// Slot `x` goes to user `j`: some pick of `j` for `x` is used.
pub open spec fn held(e: Seq<Edge>, roles: Seq<Role>, j: int, x: int) -> bool {
    exists|i: int| taken(e, roles, i, j, x)
}

/// The sorted rows of a decoded, solved layout are a valid assignment, and
/// they list exactly the slots that the flow gives to each user.
#[verifier::rlimit(40)]
pub proof fn lemma_assignment(
    e: Seq<Edge>,
    roles: Seq<Role>,
    avail: Seq<Seq<int>>,
    days: Seq<int>,
    raw: Seq<Seq<u64>>,
    from: Seq<Seq<int>>,
    rows: Seq<Seq<u64>>,
)
    requires
        routed(e, roles, avail, days),
        well_posed(avail, days),
        decoded(e, roles, raw, from, e.len() as int),
        raw.len() == avail.len(),
        rows.len() == raw.len(),
        forall|j: int| 0 <= j < rows.len() ==> (#[trigger] rows[j]).to_multiset() == raw[j].to_multiset(),
        forall|j: int, a: int, b: int|
            0 <= j < rows.len() && 0 <= a <= b < rows[j].len() ==> (#[trigger] rows[j][a]) <= (
            #[trigger] rows[j][b]),
    ensures
        valid_assignment(avail, days, ints(rows)),
        forall|j: int, x: int|
            0 <= j < rows.len() && 0 <= x < days.len() ==> (#[trigger] ints(rows)[j].contains(x)
                <==> held(e, roles, j, x)),
        forall|j: int| 0 <= j < rows.len() ==> (#[trigger] ints(rows)[j]).len() == from[j].len(),
{
    let got = ints(rows);
    let nu = avail.len() as int;
    assert forall|j: int| 0 <= j < rows.len() implies (#[trigger] got[j]).len() == from[j].len() by {
        rows[j].to_multiset_ensures();
        raw[j].to_multiset_ensures();
    }
    // every listed slot is held, through the edge it was read from
    assert forall|j: int, k: int| 0 <= j < nu && 0 <= k < rows[j].len() implies held(
        e,
        roles,
        j,
        #[trigger] got[j][k],
    ) && 0 <= got[j][k] < days.len() && avail[j].contains(got[j][k]) by {
        rows[j].to_multiset_ensures();
        raw[j].to_multiset_ensures();
        assert(rows[j].contains(rows[j][k]));
        assert(rows[j].to_multiset().count(rows[j][k]) > 0);
        assert(raw[j].to_multiset().count(rows[j][k]) > 0);
        assert(raw[j].contains(rows[j][k]));
        let k2 = choose|k2: int| 0 <= k2 < raw[j].len() && raw[j][k2] == rows[j][k];
        assert(taken(e, roles, from[j][k2], j, raw[j][k2] as int));
        let r = lemma_role_of(e, roles, avail, days, from[j][k2]);
    }
    assert forall|j: int| 0 <= j < nu implies increasing(#[trigger] got[j]) && got[j].len()
        <= 3 by {
        rows[j].to_multiset_ensures();
        raw[j].to_multiset_ensures();
        let slots = Seq::new(raw[j].len(), |k: int| raw[j][k] as int);
        assert forall|k: int| 0 <= k < from[j].len() implies taken(
            e,
            roles,
            #[trigger] from[j][k],
            j,
            slots[k],
        ) by {}
        lemma_quota(e, roles, avail, days, j, from[j], slots);
        assert forall|k: int, l: int| 0 <= k < raw[j].len() && 0 <= l < raw[j].len() && k
            != l implies raw[j][k] != raw[j][l] by {
            if raw[j][k] == raw[j][l] {
                lemma_slot_once(
                    e,
                    roles,
                    avail,
                    days,
                    from[j][k],
                    from[j][l],
                    j,
                    j,
                    raw[j][k] as int,
                );
                if k < l {
                    assert(from[j][k] < from[j][l]);
                } else {
                    assert(from[j][l] < from[j][k]);
                }
            }
        }
        assert(raw[j].no_duplicates());
        raw[j].lemma_multiset_has_no_duplicates();
        rows[j].lemma_multiset_has_no_duplicates_conv();
        assert forall|a: int, b: int| 0 <= a < b < got[j].len() implies got[j][a] < got[j][b] by {
            assert(rows[j][a] <= rows[j][b]);
            assert(rows[j][a] != rows[j][b]);
        }
    }
    assert forall|j: int, k: int, l: int|
        0 <= j < got.len() && 0 <= k < got[j].len() && 0 <= l < got[j].len() && k
            != l implies days[#[trigger] got[j][k]] != days[#[trigger] got[j][l]] by {
        assert(held(e, roles, j, got[j][k]) && held(e, roles, j, got[j][l]));
        let a = choose|a: int| taken(e, roles, a, j, got[j][k]);
        let b = choose|b: int| taken(e, roles, b, j, got[j][l]);
        assert(increasing(got[j]));
        if days[got[j][k]] == days[got[j][l]] {
            lemma_day_once(e, roles, avail, days, a, b, j, got[j][k], got[j][l]);
        }
    }
    assert forall|j: int, k: int, i: int, l: int|
        0 <= j < got.len() && 0 <= k < got[j].len() && 0 <= i < got.len() && 0 <= l < got[i].len()
            && i != j implies #[trigger] got[j][k] != #[trigger] got[i][l] by {
        assert(held(e, roles, j, got[j][k]) && held(e, roles, i, got[i][l]));
        let a = choose|a: int| taken(e, roles, a, j, got[j][k]);
        let b = choose|b: int| taken(e, roles, b, i, got[i][l]);
        if got[j][k] == got[i][l] {
            lemma_slot_once(e, roles, avail, days, a, b, j, i, got[j][k]);
        }
    }
    assert forall|j: int, x: int| 0 <= j < rows.len() && 0 <= x < days.len() implies (
    #[trigger] got[j].contains(x) <==> held(e, roles, j, x)) by {
        rows[j].to_multiset_ensures();
        raw[j].to_multiset_ensures();
        if got[j].contains(x) {
            let k = choose|k: int| 0 <= k < got[j].len() && got[j][k] == x;
            assert(held(e, roles, j, got[j][k]));
        }
        if held(e, roles, j, x) {
            let i = choose|i: int| taken(e, roles, i, j, x);
            assert(raw[j].contains(x as u64));
            assert(raw[j].to_multiset().count(x as u64) > 0);
            assert(rows[j].to_multiset().count(x as u64) > 0);
            assert(rows[j].contains(x as u64));
            let k = choose|k: int| 0 <= k < rows[j].len() && rows[j][k] == x as u64;
            assert(got[j][k] == x);
        }
    }
}

/// Why `Distribution::init` refused its input.
#[derive(Clone, Copy, Debug, PartialEq, Eq, Structural)]
pub enum InitError {
    /// The announced number of slots is not the number of slots given.
    SpareSizeMismatch,
}

impl InitError {
    /// The reason in words.
    pub fn message(&self) -> (r: &'static str)
        ensures
            r@ == "spare_size != spares.len()"@,
    {
        "spare_size != spares.len()"
    }
}

/// The ids of the users, in order.
pub open spec fn ids_of(users: Seq<User>) -> Seq<u64> {
    Seq::new(users.len(), |j: int| users[j].id)
}

/// A copy of the user.
fn copy_user(u: &User) -> (r: User)
    ensures
        r.id == u.id,
        r.stamps@ == u.stamps@,
{
    let mut stamps: Vec<u64> = Vec::new();
    let n = u.stamps.len();
    stamps.reserve(n);
    let mut k: usize = 0;
    while k < n
        invariant
            k <= n,
            n == u.stamps@.len(),
            stamps@ == u.stamps@.subrange(0, k as int),
        decreases n - k,
    {
        stamps.push(u.stamps[k]);
        assert(stamps@ =~= u.stamps@.subrange(0, k + 1));
        k = k + 1;
    }
    assert(stamps@ =~= u.stamps@);
    User { id: u.id, stamps }
}

/// The solver before the layout: `n` nodes of the layout and the two that
/// the solver adds, source 1, sink `n`, nothing else.
pub open spec fn ground(n: int) -> Net {
    Net {
        n: n as i32,
        s: 1,
        t: n as i32,
        d: resized(Seq::<i32>::empty(), n + 3, 0i32),
        incf: resized(Seq::<i32>::empty(), n + 3, 0i32),
        pre: resized(Seq::<usize>::empty(), n + 3, 0usize),
        head: resized(Seq::<usize>::empty(), n + 3, 0usize),
        a: resized(Seq::<i32>::empty(), n + 3, 0i32),
        vis: resized(Seq::<bool>::empty(), n + 3, false),
        ..empty_net()
    }
}

/// The slots that each user gets: the layout is laid on the ground, the
/// solver run, the used picks read off edge by edge, and the slots of each
/// user put in ascending order.
pub open spec fn outcome(avail: Seq<Seq<int>>, days: Seq<int>) -> Seq<Seq<u64>> {
    let nu = avail.len() as int;
    let ns = days.len() as int;
    let done = solved_to(laid(ground(sink_node(nu, ns)), avail, days));
    let raw = rows_to(done.e, nu, ns, done.e.len() as int);
    Seq::new(nu as nat, |j: int| sorted_of(raw[j]))
}

/// The users, the slots, and the solver that assigns one to the other.
pub struct Distribution {
    user: Vec<User>,
    spare: Vec<Spare>,
    mf: Mcmf,
}

impl Distribution {
    /// The ids of the users.
    pub closed spec fn ids(&self) -> Seq<u64> {
        ids_of(self.user@)
    }

    /// The slots that each user can take.
    pub closed spec fn wishes(&self) -> Seq<Seq<int>> {
        wishes(self.user@)
    }

    /// The day of each slot.
    pub closed spec fn days(&self) -> Seq<int> {
        weekdays(self.spare@)
    }

    /// The solver keeps its two blank leading edges.
    pub closed spec fn wf(&self) -> bool {
        &&& self.mf@.e.len() >= 2
        &&& self.mf@.e[0] == blank_edge()
        &&& self.mf@.e[1] == blank_edge()
    }

    /// A distribution without users or slots.
    pub fn new() -> (r: Self)
        ensures
            r.wf(),
            r.ids().len() == 0,
            r.wishes().len() == 0,
            r.days().len() == 0,
    {
        Distribution { user: Vec::new(), spare: Vec::new(), mf: Mcmf::new() }
    }

    /// Takes copies of the users and slots, unless `spare_size` is not the
    /// number of slots: then nothing changes and the error says so.
    pub fn init(&mut self, users: &[User], spares: &[Spare], spare_size: usize) -> (r: Result<
        (),
        InitError,
    >)
        requires
            old(self).wf(),
        ensures
            final(self).wf(),
            spare_size != spares@.len() ==> {
                &&& r == Err::<(), InitError>(InitError::SpareSizeMismatch)
                &&& final(self).ids() == old(self).ids()
                &&& final(self).wishes() == old(self).wishes()
                &&& final(self).days() == old(self).days()
            },
            spare_size == spares@.len() ==> {
                &&& r == Ok::<(), InitError>(())
                &&& final(self).ids() == ids_of(users@)
                &&& final(self).wishes() == wishes(users@)
                &&& final(self).days() == weekdays(spares@)
            },
    {
        if spare_size != spares.len() {
            return Err(InitError::SpareSizeMismatch);
        }
        self.user.clear();
        self.spare.clear();
        self.user.reserve(users.len());
        self.spare.reserve(spare_size);
        let nu = users.len();
        let mut j: usize = 0;
        while j < nu
            invariant
                j <= nu,
                nu == users@.len(),
                self.user@.len() == j,
                self.spare@.len() == 0,
                self.mf@ == old(self).mf@,
                forall|k: int|
                    0 <= k < j ==> (#[trigger] self.user@[k]).id == users@[k].id
                        && self.user@[k].stamps@ == users@[k].stamps@,
            decreases nu - j,
        {
            let u = copy_user(&users[j]);
            self.user.push(u);
            j = j + 1;
        }
        let mut x: usize = 0;
        while x < spare_size
            invariant
                x <= spare_size,
                spare_size == spares@.len(),
                self.spare@.len() == x,
                self.mf@ == old(self).mf@,
                self.user@.len() == users@.len(),
                forall|k: int|
                    0 <= k < users@.len() ==> (#[trigger] self.user@[k]).id == users@[k].id
                        && self.user@[k].stamps@ == users@[k].stamps@,
                forall|k: int| 0 <= k < x ==> (#[trigger] self.spare@[k]).day == spares@[k].day,
            decreases spare_size - x,
        {
            self.spare.push(Spare { stamp: spares[x].stamp, day: spares[x].day });
            x = x + 1;
        }
        proof {
            assert(ids_of(self.user@) =~= ids_of(users@));
            assert(stamps_of(self.user@) =~= stamps_of(users@));
            assert(weekdays(self.spare@) =~= weekdays(spares@));
        }
        Ok(())
    }

    /// Assigns slots to users: every user gets only slots that they named,
    /// at most three of them and no two on one day, and no slot goes to two
    /// users. No valid assignment gives out more slots, and none that gives
    /// out as many is cheaper, where the first slot of a user costs 20, the
    /// second 50 and the third 100. The result lists the users in order,
    /// each with its id and its slots in increasing order.
    #[verifier::rlimit(40)]
    pub fn solve(&mut self) -> (res: Vec<User>)
        requires
            old(self).wf(),
            well_posed(old(self).wishes(), old(self).days()),
        ensures
            final(self).wf(),
            final(self).ids() == old(self).ids(),
            final(self).wishes() == old(self).wishes(),
            final(self).days() == old(self).days(),
            ids_of(res@) == old(self).ids(),
            valid_assignment(old(self).wishes(), old(self).days(), wishes(res@)),
            optimal(old(self).wishes(), old(self).days(), wishes(res@)),
            stamps_of(res@) == outcome(old(self).wishes(), old(self).days()),
    {
        let ghost avail = wishes(self.user@);
        let ghost days = weekdays(self.spare@);
        self.mf.init();
        let s: i32 = 1;
        let nu = self.user.len();
        let ns = self.spare.len();
        let n_nodes = (nu * 8) as i32 + ns as i32 + 2;
        let t = n_nodes;
        self.mf.n = n_nodes;
        self.mf.s = s;
        self.mf.t = t;
        self.mf.set_n(n_nodes);
        let ghost base = self.mf@;
        proof {
            assert(base.e =~= seq![blank_edge(), blank_edge()]);
            lemma_cleared(base, avail, days);
            assert(base == ground(sink_node(avail.len() as int, days.len() as int)));
        }
        let Ghost(r1) = lay_tiers(&mut self.mf, nu, Ghost(avail), Ghost(days));
        let Ghost(r2) = lay_days(&mut self.mf, nu, Ghost(base), Ghost(r1), Ghost(avail), Ghost(days));
        let (Ghost(r3), Ghost(spot)) = lay_picks(
            &mut self.mf,
            &self.user,
            &self.spare,
            Ghost(base),
            Ghost(r2),
        );
        let Ghost(roles) = lay_sinks(
            &mut self.mf,
            nu,
            ns,
            Ghost(base),
            Ghost(r3),
            Ghost(avail),
            Ghost(days),
        );
        let ghost built = self.mf@;
        proof {
            assert(built == laid(base, avail, days));
            lemma_built_solvable(built, base, roles, avail, days);
            assert forall|j: int, k: int| 0 <= j < avail.len() && 0 <= k < avail[j].len() implies r2.len()
                <= (#[trigger] spot[j][k]) < r3.len() && r3[spot[j][k]] == (Role::Pick {
                user: j,
                slot: avail[j][k],
            }) by {
                assert(avail[j][k] == self.user@[j].stamps@[k] as int);
            }
            assert forall|j: int| 0 <= j < avail.len() implies (#[trigger] spot[j]).len()
                == avail[j].len() by {
                assert(avail[j].len() == self.user@[j].stamps@.len());
            }
            lemma_indexed(r1, r2, r3, roles, spot, avail, days);
        }
        self.mf.solve();
        let ghost done = self.mf@;
        proof {
            assert(self.mf.e@.len() == self.mf.e.len());
            lemma_staged_plain(built);
            assert(done.e.len() == unclosed(staged(built).e).len());
            let c = lemma_closed_layout(built);
            lemma_cast_rerouted(built.e, c, done.e, roles, avail, days);
            let through = choose|through: int|
                0 <= through && (cap_out(staged(built).e, set![built.n + 1]) == 0 ==> through == 0)
                    && #[trigger] carries(
                    done.e,
                    built.n as int,
                    built.s as int,
                    built.t as int,
                    through + done.maxflow,
                );
            lemma_built_routed(built.e, c, done.e, roles, avail, days, through + done.maxflow);
            lemma_valued(done.e, roles, avail, days, through + done.maxflow);
            assert(done.e[done.e.len() - 2].c == c[built.e.len() as int].c);
        }
        let ghost val = choose|val: int| valued(done.e, avail.len() as int, days.len() as int, val);
        let (mut res, Ghost(from)) = decode(&self.mf, nu, Ghost(roles), Ghost(avail), Ghost(days));
        let ghost raw = stamps_of(res@);
        let mut i: usize = 0;
        while i < nu
            invariant
                i <= nu,
                nu == self.user@.len(),
                res@.len() == nu,
                raw.len() == nu,
                forall|j: int|
                    0 <= j < i ==> {
                        &&& (#[trigger] res@[j]).id == self.user@[j].id
                        &&& res@[j].stamps@.to_multiset() == raw[j].to_multiset()
                        &&& ascending(res@[j].stamps@)
                        &&& res@[j].stamps@ == sorted_of(raw[j])
                    },
                forall|j: int| i <= j < nu ==> (#[trigger] res@[j]).stamps@ == raw[j],
            decreases nu - i,
        {
            res[i].id = self.user[i].id;
            sort_stamps(&mut res[i].stamps);
            proof {
                lemma_sorted_of(raw[i as int], res@[i as int].stamps@);
            }
            i = i + 1;
        }
        proof {
            let rows = stamps_of(res@);
            assert forall|j: int| 0 <= j < rows.len() implies (#[trigger] rows[j]).to_multiset()
                == raw[j].to_multiset() by {
                assert(res@[j].stamps@.to_multiset() == raw[j].to_multiset());
            }
            assert forall|j: int, a: int, b: int|
                0 <= j < rows.len() && 0 <= a <= b < rows[j].len() implies (#[trigger] rows[j][a])
                <= (#[trigger] rows[j][b]) by {
                assert(ascending(res@[j].stamps@));
            }
            assert(rows =~= outcome(avail, days)) by {
                assert forall|j: int| 0 <= j < rows.len() implies rows[j] == sorted_of(raw[j]) by {
                    assert(res@[j].stamps@ == sorted_of(raw[j]));
                }
            }
            lemma_assignment(done.e, roles, avail, days, raw, from, rows);
            assert(ids_of(res@) =~= ids_of(self.user@));
            let (pi, hi) = choose|pi: Seq<int>, hi: int| potential(done.e, pi, built.size(), hi);
            lemma_optimal(done, pi, hi, roles, spot, avail, days, raw, from, ints(rows), val);
        }
        res
    }
}

/// Assigns the slots `spares` to the users `users`; see
/// [`Distribution::solve`].
pub fn distribute(users: Vec<User>, spares: Vec<Spare>) -> (res: Vec<User>)
    requires
        well_posed(wishes(users@), weekdays(spares@)),
    ensures
        ids_of(res@) == ids_of(users@),
        valid_assignment(wishes(users@), weekdays(spares@), wishes(res@)),
        optimal(wishes(users@), weekdays(spares@), wishes(res@)),
        stamps_of(res@) == outcome(wishes(users@), weekdays(spares@)),
{
    let mut sol = Distribution::new();
    let ready = sol.init(users.as_slice(), spares.as_slice(), spares.len());
    assert(ready is Ok);
    sol.solve()
}

/// The slots that each entry names, as integers.
pub open spec fn named(entries: Seq<(i64, Vec<usize>)>) -> Seq<Seq<int>> {
    Seq::new(entries.len(), |j: int| Seq::new(entries[j].1@.len(), |k: int| entries[j].1@[k] as int))
}

/// The day of each slot, as an integer.
pub open spec fn dated(spares: Seq<usize>) -> Seq<int> {
    Seq::new(spares.len(), |x: int| spares[x] as int)
}

/// `res` shows the assignment `got`: a slot that some user got carries the
/// id of that user, every other slot carries nothing.
pub open spec fn shown(res: Seq<Option<i64>>, entries: Seq<(i64, Vec<usize>)>, got: Seq<Seq<int>>) -> bool {
    forall|x: int|
        0 <= x < res.len() ==> match #[trigger] res[x] {
            Some(id) => exists|j: int| 0 <= j < got.len() && got[j].contains(x) && id == entries[j].0,
            None => forall|j: int| 0 <= j < got.len() ==> !got[j].contains(x),
        }
}

/// The assignment is repeatable: it is a function of what the users wish
/// and of the days of the slots, so two runs on the same input give the
/// same slots to the same users.
pub proof fn lemma_repeatable(
    avail: Seq<Seq<int>>,
    days: Seq<int>,
    ids: Seq<u64>,
    first: Seq<User>,
    second: Seq<User>,
)
    requires
        ids_of(first) == ids,
        stamps_of(first) == outcome(avail, days),
        ids_of(second) == ids,
        stamps_of(second) == outcome(avail, days),
    ensures
        first.len() == second.len(),
        forall|j: int|
            0 <= j < first.len() ==> (#[trigger] first[j]).id == second[j].id && first[j].stamps@
                == second[j].stamps@,
{
    assert(first.len() == ids_of(first).len());
    assert(second.len() == ids_of(second).len());
    assert forall|j: int| 0 <= j < first.len() implies (#[trigger] first[j]).id == second[j].id
        && first[j].stamps@ == second[j].stamps@ by {
        assert(ids_of(first)[j] == first[j].id);
        assert(ids_of(second)[j] == second[j].id);
        assert(stamps_of(first).len() == first.len());
        assert(stamps_of(first)[j] == first[j].stamps@);
        assert(stamps_of(second)[j] == second[j].stamps@);
    }
}

/// A user who has slot `x` in `rows`.
pub open spec fn holder(rows: Seq<Seq<u64>>, x: int) -> int {
    choose|j: int| 0 <= j < rows.len() && rows[j].contains(x as u64)
}

/// For each of `ns` slots the id of a user who has it in `rows`, if there
/// is one.
pub open spec fn display(entries: Seq<(i64, Vec<usize>)>, rows: Seq<Seq<u64>>, ns: int) -> Seq<
    Option<i64>,
> {
    Seq::new(
        ns as nat,
        |x: int|
            if exists|j: int| 0 <= j < rows.len() && rows[j].contains(x as u64) {
                Some(entries[holder(rows, x)].0)
            } else {
                None
            },
    )
}

/// Assigns slots to users. An entry is a user id with the indices of the
/// slots that the user can take; `spares[x]` is the day of the week,
/// `0..=6`, of slot `x`. The result has one element for each slot: the id
/// of the user who got it, or nothing. It shows a valid assignment: every
/// user gets only slots that they named, at most three of them and no two
/// on one day.
#[verifier::rlimit(40)]
pub fn max_flow(entries: Vec<(i64, Vec<usize>)>, spares: Vec<usize>) -> (res: Vec<Option<i64>>)
    requires
        well_posed(named(entries@), dated(spares@)),
    ensures
        res@.len() == spares@.len(),
        exists|got: Seq<Seq<int>>|
            valid_assignment(named(entries@), dated(spares@), got) && optimal(
                named(entries@),
                dated(spares@),
                got,
            ) && #[trigger] shown(res@, entries@, got),
        res@ == display(
            entries@,
            outcome(named(entries@), dated(spares@)),
            spares@.len() as int,
        ),
{
    let ghost avail = named(entries@);
    let ghost days = dated(spares@);
    let nu = entries.len();
    let mut users: Vec<User> = Vec::new();
    let mut j: usize = 0;
    while j < nu
        invariant
            j <= nu,
            nu == entries@.len(),
            users@.len() == j,
            forall|k: int|
                0 <= k < j ==> (#[trigger] users@[k]).id == entries@[k].0 as u64
                    && users@[k].stamps@.len() == entries@[k].1@.len(),
            forall|k: int, l: int|
                0 <= k < j && 0 <= l < entries@[k].1@.len() ==> (#[trigger] users@[k].stamps@[l])
                    == entries@[k].1@[l] as u64,
        decreases nu - j,
    {
        let count = entries[j].1.len();
        let mut stamps: Vec<u64> = Vec::new();
        let mut k: usize = 0;
        while k < count
            invariant
                j < nu,
                nu == entries@.len(),
                k <= count,
                count == entries@[j as int].1@.len(),
                stamps@.len() == k,
                forall|l: int| 0 <= l < k ==> (#[trigger] stamps@[l]) == entries@[j as int].1@[l] as u64,
            decreases count - k,
        {
            stamps.push(entries[j].1[k] as u64);
            k = k + 1;
        }
        users.push(User { id: #[verifier::truncate] (entries[j].0 as u64), stamps });
        j = j + 1;
    }
    let sp_len = spares.len();
    let mut spare_structs: Vec<Spare> = Vec::new();
    let mut x: usize = 0;
    while x < sp_len
        invariant
            x <= sp_len,
            sp_len == spares@.len(),
            spare_structs@.len() == x,
            forall|k: int| 0 <= k < x ==> (#[trigger] spare_structs@[k]).day == spares@[k] as u64,
        decreases sp_len - x,
    {
        spare_structs.push(Spare { stamp: x as u64, day: spares[x] as u64 });
        x = x + 1;
    }
    proof {
        assert(wishes(users@) =~~= avail);
        assert(weekdays(spare_structs@) =~= days);
    }
    let assigned = distribute(users, spare_structs);
    let ghost got = wishes(assigned@);
    let mut res: Vec<Option<i64>> = Vec::new();
    let mut x: usize = 0;
    while x < sp_len
        invariant
            x <= sp_len,
            res@.len() == x,
            forall|k: int| 0 <= k < x ==> (#[trigger] res@[k]) is None,
        decreases sp_len - x,
    {
        res.push(None);
        x = x + 1;
    }
    let mut i: usize = 0;
    while i < nu
        invariant
            i <= nu,
            nu == entries@.len(),
            assigned@.len() == nu,
            got == wishes(assigned@),
            got.len() == nu,
            ids_of(assigned@).len() == nu,
            forall|k: int| 0 <= k < nu ==> #[trigger] ids_of(assigned@)[k] == entries@[k].0 as u64,
            res@.len() == sp_len,
            sp_len == days.len(),
            well_posed(avail, days),
            valid_assignment(avail, days, got),
            forall|y: int|
                0 <= y < sp_len ==> match #[trigger] res@[y] {
                    Some(id) => exists|j: int|
                        0 <= j < i && got[j].contains(y) && id == entries@[j].0,
                    None => forall|j: int| 0 <= j < i ==> !got[j].contains(y),
                },
        decreases nu - i,
    {
        let uid = #[verifier::truncate] (assigned[i].id as i64);
        proof {
            let id = entries@[i as int].0;
            assert(ids_of(assigned@)[i as int] == id as u64);
            assert((id as u64) as i64 == id) by (bit_vector);
        }
        let count = assigned[i].stamps.len();
        let mut k: usize = 0;
        while k < count
            invariant
                i < nu,
                k <= count,
                nu == entries@.len(),
                assigned@.len() == nu,
                got == wishes(assigned@),
                got.len() == nu,
                count == assigned@[i as int].stamps@.len(),
                uid == entries@[i as int].0,
                res@.len() == sp_len,
                sp_len == days.len(),
                well_posed(avail, days),
                valid_assignment(avail, days, got),
                forall|y: int|
                    0 <= y < sp_len ==> match #[trigger] res@[y] {
                        Some(id) => exists|j: int|
                            0 <= j <= i && got[j].contains(y) && id == entries@[j].0,
                        None => (forall|j: int| 0 <= j < i ==> !got[j].contains(y)) && (forall|
                            l: int,
                        | 0 <= l < k ==> got[i as int][l] != y),
                    },
            decreases count - k,
        {
            proof {
                assert(got[i as int][k as int] == assigned@[i as int].stamps@[k as int]);
                assert(avail[i as int].contains(got[i as int][k as int]));
                let l = choose|l: int|
                    0 <= l < avail[i as int].len() && avail[i as int][l] == got[i as int][k as int];
                assert(0 <= avail[i as int][l] < days.len());
            }
            let idx = assigned[i].stamps[k] as usize;
            if idx < sp_len {
                let ghost before = res@;
                res[idx] = Some(uid);
                proof {
                    assert(got[i as int][k as int] == idx);
                    assert(got[i as int].contains(idx as int));
                    assert forall|y: int| 0 <= y < sp_len implies match #[trigger] res@[y] {
                        Some(id) => exists|j: int|
                            0 <= j <= i && got[j].contains(y) && id == entries@[j].0,
                        None => (forall|j: int| 0 <= j < i ==> !got[j].contains(y)) && (forall|
                            l: int,
                        | 0 <= l < k + 1 ==> got[i as int][l] != y),
                    } by {
                        if y != idx {
                            assert(res@[y] == before[y]);
                        }
                    }
                }
            } else {
                proof {
                    assert(got[i as int][k as int] == idx);
                }
            }
            k = k + 1;
        }
        proof {
            assert forall|y: int| 0 <= y < sp_len implies match #[trigger] res@[y] {
                Some(id) => exists|j: int|
                    0 <= j < i + 1 && got[j].contains(y) && id == entries@[j].0,
                None => forall|j: int| 0 <= j < i + 1 ==> !got[j].contains(y),
            } by {
                match res@[y] {
                    Some(id) => {
                        let j = choose|j: int|
                            0 <= j <= i && got[j].contains(y) && id == entries@[j].0;
                        assert(0 <= j < i + 1 && got[j].contains(y) && id == entries@[j].0);
                    },
                    None => {
                        if got[i as int].contains(y) {
                            let l = choose|l: int|
                                0 <= l < got[i as int].len() && got[i as int][l] == y;
                            assert(got[i as int][l] != y);
                        }
                    },
                }
            }
        }
        i = i + 1;
    }
    proof {
        assert(shown(res@, entries@, got));
        let rows = stamps_of(assigned@);
        let shows = display(entries@, rows, sp_len as int);
        assert forall|x: int| 0 <= x < sp_len implies res@[x] == shows[x] by {
            match res@[x] {
                Some(id) => {
                    let j = choose|j: int|
                        0 <= j < got.len() && got[j].contains(x) && id == entries@[j].0;
                    let k = choose|k: int| 0 <= k < got[j].len() && got[j][k] == x;
                    assert(rows[j][k] == x as u64);
                    assert(rows[j].contains(x as u64));
                    let j2 = holder(rows, x);
                    let k2 = choose|k2: int| 0 <= k2 < rows[j2].len() && rows[j2][k2] == x as u64;
                    assert(got[j2][k2] == x);
                    if j2 != j {
                        assert(got[j][k] != got[j2][k2]);
                    }
                },
                None => {
                    if exists|j: int| 0 <= j < rows.len() && rows[j].contains(x as u64) {
                        let j = choose|j: int| 0 <= j < rows.len() && rows[j].contains(x as u64);
                        let k = choose|k: int| 0 <= k < rows[j].len() && rows[j][k] == x as u64;
                        assert(got[j][k] == x);
                        assert(got[j].contains(x));
                    }
                },
            }
        }
        assert(res@ =~= shows);
    }
    res
}

} // verus!
