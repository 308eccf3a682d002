//! What a best assignment looks like from close by: it leaves no slot free
//! that a user could still take, and it does not give a user a further slot
//! that a user without any slot could take.

use crate::layout::{increasing, valid_assignment, well_posed};
use crate::routing::{len_term, optimal, pos, tier_sum, tier_term, tier_total, total};
use crate::sums::lemma_sum_change_one;
use vstd::prelude::*;

verus! {

/// Changing the slots of one user changes the number of slots given out,
/// and their cost, by what changes for that user.
pub proof fn lemma_row_changed(got: Seq<Seq<int>>, j: int, row: Seq<int>)
    requires
        0 <= j < got.len(),
    ensures
        total(got.update(j, row)) == total(got) - got[j].len() + row.len(),
        tier_total(got.update(j, row)) == tier_total(got) - tier_sum(got[j].len() as int)
            + tier_sum(row.len() as int),
{
    let new = got.update(j, row);
    let n = got.len() as int;
    assert forall|i: int| 0 <= i < n && i != j implies #[trigger] len_term(got)(i) == len_term(
        new,
    )(i) by {}
    lemma_sum_change_one(len_term(got), len_term(new), n, j);
    assert forall|i: int| 0 <= i < n && i != j implies #[trigger] tier_term(got)(i) == tier_term(
        new,
    )(i) by {}
    lemma_sum_change_one(tier_term(got), tier_term(new), n, j);
}

/// The increasing list `s` of at most two slots with `x` put in its place.
pub open spec fn with_slot(s: Seq<int>, x: int) -> Seq<int> {
    if s.len() == 0 {
        seq![x]
    } else if s.len() == 1 {
        if x < s[0] {
            seq![x, s[0]]
        } else {
            seq![s[0], x]
        }
    } else if x < s[0] {
        seq![x, s[0], s[1]]
    } else if x < s[1] {
        seq![s[0], x, s[1]]
    } else {
        seq![s[0], s[1], x]
    }
}

/// Putting a new slot into an increasing list of at most two gives an
/// increasing list of the same slots and the new one.
pub proof fn lemma_with_slot(s: Seq<int>, x: int)
    requires
        increasing(s),
        s.len() <= 2,
        !s.contains(x),
    ensures
        increasing(with_slot(s, x)),
        with_slot(s, x).len() == s.len() + 1,
        forall|y: int| with_slot(s, x).contains(y) <==> (y == x || s.contains(y)),
{
    let t = with_slot(s, x);
    if s.len() >= 1 {
        assert(s.contains(s[0]));
    }
    if s.len() == 2 {
        assert(s.contains(s[1]));
        assert(s[0] < s[1]);
    }
    assert forall|y: int| t.contains(y) <==> (y == x || s.contains(y)) by {
        if t.contains(y) {
            let i = choose|i: int| 0 <= i < t.len() && t[i] == y;
        }
        if y == x {
            if s.len() == 0 {
                assert(t[0] == x);
            } else if s.len() == 1 {
                assert(t[0] == x || t[1] == x);
            } else {
                assert(t[0] == x || t[1] == x || t[2] == x);
            }
        }
        if s.contains(y) {
            let i = choose|i: int| 0 <= i < s.len() && s[i] == y;
            if s.len() == 1 {
                assert(t[0] == y || t[1] == y);
            } else {
                assert(t[0] == y || t[1] == y || t[2] == y);
            }
        }
    }
}

/// Taking a slot out of an increasing list leaves an increasing list of
/// the other slots.
pub proof fn lemma_without_slot(s: Seq<int>, x: int)
    requires
        increasing(s),
        s.contains(x),
    ensures
        increasing(s.remove(pos(s, x))),
        s.remove(pos(s, x)).len() == s.len() - 1,
        forall|y: int| s.remove(pos(s, x)).contains(y) <==> (y != x && s.contains(y)),
{
    let p = pos(s, x);
    let t = s.remove(p);
    assert forall|a: int, b: int| 0 <= a < b < t.len() implies t[a] < t[b] by {
        let a2 = if a < p {
            a
        } else {
            a + 1
        };
        let b2 = if b < p {
            b
        } else {
            b + 1
        };
        assert(t[a] == s[a2] && t[b] == s[b2]);
    }
    assert forall|y: int| t.contains(y) <==> (y != x && s.contains(y)) by {
        if t.contains(y) {
            let i = choose|i: int| 0 <= i < t.len() && t[i] == y;
            let i2 = if i < p {
                i
            } else {
                i + 1
            };
            assert(t[i] == s[i2]);
            if i2 < p {
                assert(s[i2] < s[p]);
            } else {
                assert(s[p] < s[i2]);
            }
        }
        if y != x && s.contains(y) {
            let i = choose|i: int| 0 <= i < s.len() && s[i] == y;
            if i < p {
                assert(t[i] == y);
            } else {
                assert(t[i - 1] == y);
            }
        }
    }
}

/// Giving one user another list of slots keeps an assignment valid if the
/// list is increasing and at most three long, holds only slots that the
/// user named and that no other user has, and no two on one day.
#[verifier::rlimit(40)]
pub proof fn lemma_row_valid(
    avail: Seq<Seq<int>>,
    days: Seq<int>,
    got: Seq<Seq<int>>,
    b: int,
    row: Seq<int>,
)
    requires
        valid_assignment(avail, days, got),
        0 <= b < got.len(),
        increasing(row),
        row.len() <= 3,
        forall|k: int| 0 <= k < row.len() ==> avail[b].contains(#[trigger] row[k]),
        forall|k: int, l: int|
            0 <= k < row.len() && 0 <= l < row.len() && k != l ==> days[#[trigger] row[k]]
                != days[#[trigger] row[l]],
        forall|k: int, j: int, l: int|
            0 <= k < row.len() && 0 <= j < got.len() && j != b && 0 <= l < got[j].len()
                ==> #[trigger] row[k] != #[trigger] got[j][l],
    ensures
        valid_assignment(avail, days, got.update(b, row)),
{
    let other = got.update(b, row);
    assert forall|j: int| 0 <= j < other.len() implies increasing(#[trigger] other[j])
        && other[j].len() <= 3 by {
        if j != b {
            assert(increasing(got[j]));
        }
    }
    assert forall|j: int, k: int|
        0 <= j < other.len() && 0 <= k < other[j].len() implies avail[j].contains(
        #[trigger] other[j][k],
    ) by {
        if j != b {
            assert(avail[j].contains(got[j][k]));
        }
    }
    assert forall|j: int, k: int, l: int|
        0 <= j < other.len() && 0 <= k < other[j].len() && 0 <= l < other[j].len() && k
            != l implies days[#[trigger] other[j][k]] != days[#[trigger] other[j][l]] by {
        if j != b {
            assert(days[got[j][k]] != days[got[j][l]]);
        }
    }
    assert forall|j: int, k: int, i: int, l: int|
        0 <= j < other.len() && 0 <= k < other[j].len() && 0 <= i < other.len() && 0 <= l
            < other[i].len() && i != j implies #[trigger] other[j][k] != #[trigger] other[i][l] by {
        if j != b && i != b {
            assert(got[j][k] != got[i][l]);
        } else if j == b {
            assert(row[k] != got[i][l]);
        } else {
            assert(row[l] != got[j][k]);
        }
    }
}

/// A best assignment leaves no wish open without need: if a user could
/// take a slot that nobody has, then the user has three slots already, or
/// one on the day of that slot.
#[verifier::rlimit(40)]
pub proof fn lemma_no_open_wish(avail: Seq<Seq<int>>, days: Seq<int>, got: Seq<Seq<int>>, b: int, x: int)
    requires
        well_posed(avail, days),
        valid_assignment(avail, days, got),
        optimal(avail, days, got),
        0 <= b < avail.len(),
        avail[b].contains(x),
        forall|j: int| 0 <= j < got.len() ==> !(#[trigger] got[j]).contains(x),
    ensures
        got[b].len() == 3 || exists|k: int| 0 <= k < got[b].len() && days[got[b][k]] == days[x],
{
    if !(got[b].len() == 3 || exists|k: int| 0 <= k < got[b].len() && days[got[b][k]] == days[x]) {
        assert(increasing(got[b]) && got[b].len() <= 3);
        let row = with_slot(got[b], x);
        lemma_with_slot(got[b], x);
        lemma_row_changed(got, b, row);
        assert forall|k: int| 0 <= k < row.len() implies avail[b].contains(#[trigger] row[k]) by {
            assert(row.contains(row[k]));
            if row[k] != x {
                let k2 = choose|k2: int| 0 <= k2 < got[b].len() && got[b][k2] == row[k];
                assert(avail[b].contains(got[b][k2]));
            }
        }
        assert forall|k: int, l: int|
            0 <= k < row.len() && 0 <= l < row.len() && k != l implies days[#[trigger] row[k]]
            != days[#[trigger] row[l]] by {
            assert(row.contains(row[k]) && row.contains(row[l]));
            if k < l {
                assert(row[k] < row[l]);
            } else {
                assert(row[l] < row[k]);
            }
            if row[k] != x && row[l] != x {
                let k2 = choose|k2: int| 0 <= k2 < got[b].len() && got[b][k2] == row[k];
                let l2 = choose|l2: int| 0 <= l2 < got[b].len() && got[b][l2] == row[l];
                assert(days[got[b][k2]] != days[got[b][l2]]);
            } else if row[k] == x {
                let l2 = choose|l2: int| 0 <= l2 < got[b].len() && got[b][l2] == row[l];
            } else {
                let k2 = choose|k2: int| 0 <= k2 < got[b].len() && got[b][k2] == row[k];
            }
        }
        assert forall|k: int, j: int, l: int|
            0 <= k < row.len() && 0 <= j < got.len() && j != b && 0 <= l < got[j].len() implies #[trigger] row[k]
            != #[trigger] got[j][l] by {
            assert(row.contains(row[k]));
            assert(got[j].contains(got[j][l]));
            if row[k] != x {
                let k2 = choose|k2: int| 0 <= k2 < got[b].len() && got[b][k2] == row[k];
                assert(got[b][k2] != got[j][l]);
            }
        }
        lemma_row_valid(avail, days, got, b, row);
        assert(valid_assignment(avail, days, got.update(b, row)));
    }
}

/// A best assignment serves the unserved first: if a user without any slot
/// could take a slot that another user has, then that user has no other
/// slot. (A second slot would cost 50 and a third 100 where the first slot
/// of the user without any costs 20.)
#[verifier::rlimit(40)]
pub proof fn lemma_unserved_first(
    avail: Seq<Seq<int>>,
    days: Seq<int>,
    got: Seq<Seq<int>>,
    a: int,
    b: int,
    x: int,
)
    requires
        well_posed(avail, days),
        valid_assignment(avail, days, got),
        optimal(avail, days, got),
        0 <= a < avail.len(),
        0 <= b < avail.len(),
        got[a].contains(x),
        avail[b].contains(x),
        got[b].len() == 0,
    ensures
        got[a].len() == 1,
{
    if got[a].len() != 1 {
        assert(increasing(got[a]) && got[a].len() <= 3);
        let xa = pos(got[a], x);
        let left = got[a].remove(xa);
        lemma_without_slot(got[a], x);
        let mid = got.update(a, left);
        let one = seq![x];
        let other = mid.update(b, one);
        lemma_row_changed(got, a, left);
        lemma_row_changed(mid, b, one);
        assert forall|k: int| 0 <= k < left.len() implies avail[a].contains(#[trigger] left[k]) by {
            assert(left.contains(left[k]));
            let k2 = choose|k2: int| 0 <= k2 < got[a].len() && got[a][k2] == left[k];
            assert(avail[a].contains(got[a][k2]));
        }
        assert forall|k: int, l: int|
            0 <= k < left.len() && 0 <= l < left.len() && k != l implies days[#[trigger] left[k]]
            != days[#[trigger] left[l]] by {
            assert(left.contains(left[k]) && left.contains(left[l]));
            let k2 = choose|k2: int| 0 <= k2 < got[a].len() && got[a][k2] == left[k];
            let l2 = choose|l2: int| 0 <= l2 < got[a].len() && got[a][l2] == left[l];
            if k < l {
                assert(left[k] < left[l]);
            } else {
                assert(left[l] < left[k]);
            }
            assert(days[got[a][k2]] != days[got[a][l2]]);
        }
        assert forall|k: int, j: int, l: int|
            0 <= k < left.len() && 0 <= j < got.len() && j != a && 0 <= l < got[j].len() implies #[trigger] left[k]
            != #[trigger] got[j][l] by {
            assert(left.contains(left[k]));
            let k2 = choose|k2: int| 0 <= k2 < got[a].len() && got[a][k2] == left[k];
            assert(got[a][k2] != got[j][l]);
        }
        lemma_row_valid(avail, days, got, a, left);
        assert(one[0] == x);
        assert forall|k: int, j: int, l: int|
            0 <= k < one.len() && 0 <= j < mid.len() && j != b && 0 <= l < mid[j].len() implies #[trigger] one[k]
            != #[trigger] mid[j][l] by {
            if j == a {
                assert(left.contains(left[l]));
            } else {
                assert(got[a][xa] != got[j][l]);
            }
        }
        lemma_row_valid(avail, days, mid, b, one);
        assert(valid_assignment(avail, days, other));
    }
}

} // verus!
