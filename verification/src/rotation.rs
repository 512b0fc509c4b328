//! Successive peeks rotate among the providers of a group.

use crate::group::{lemma_select, lemma_walk, GroupState};
use crate::lineup::{lemma_advance, roomy, LineupState};
use crate::search::{lemma_first_from, lemma_first_from_is};
use vstd::prelude::*;

verus! {

/// How many places the member `x` lies behind the cursor `k` in a ring
/// of `n` places.
pub open spec fn ahead(k: int, x: int, n: int) -> int {
    if x >= k {
        x - k
    } else {
        x - k + n
    }
}

impl GroupState {
    /// The group after `n` selections that commit nothing.
    pub open spec fn rotated(self, n: nat) -> GroupState
        decreases n,
    {
        if n == 0 {
            self
        } else {
            self.rotated((n - 1) as nat).select(false).0
        }
    }

    /// The member that a selection shows after `n` earlier ones.
    pub open spec fn shows(self, n: nat) -> Option<int> {
        self.rotated(n).select(false).1
    }
}

impl LineupState {
    /// The place that a peek shows.
    pub open spec fn pick(self) -> Option<(int, int)> {
        match self.target() {
            Some(t) => match self.groups[t].select(false).1 {
                Some(j) => Some((t, j)),
                None => None,
            },
            None => None,
        }
    }

    /// The lineup after `n` peeks.
    pub open spec fn peeked(self, n: nat) -> LineupState
        decreases n,
    {
        if n == 0 {
            self
        } else {
            self.peeked((n - 1) as nat).peek()
        }
    }

    /// The place that a peek shows after `n` earlier ones.
    pub open spec fn picks(self, n: nat) -> Option<(int, int)> {
        self.peeked(n).pick()
    }
}

/// The provider that a peek shows is the one at the place it picks.
pub proof fn candidate_is_picked(l: LineupState)
    requires
        l.wf(),
    ensures
        l.candidate() == match l.pick() {
            Some((g, m)) => Some(l.member(g, m)),
            None => None,
        },
        l.pick() matches Some((g, m)) ==> l.has_place(g, m),
{
    lemma_advance(l, false);
    match l.target() {
        Some(t) => {
            assert(l.groups[t].wf());
            lemma_select(l.groups[t], false);
            lemma_walk(l.groups[t], false, false);
            lemma_walk(l.groups[t].rewound(), true, false);
        },
        None => {},
    }
}

/// A selection that commits nothing leaves every member as it is.
proof fn lemma_select_stable(g: GroupState)
    requires
        g.wf(),
    ensures
        g.select(false).0.wf(),
        g.select(false).0.members == g.members,
{
    lemma_walk(g, false, false);
    lemma_walk(g.rewound(), true, false);
}

/// Selections that commit nothing leave every member as it is.
proof fn lemma_rotated_stable(g: GroupState, n: nat)
    requires
        g.wf(),
    ensures
        g.rotated(n).wf(),
        g.rotated(n).members == g.members,
    decreases n,
{
    if n > 0 {
        lemma_rotated_stable(g, (n - 1) as nat);
        lemma_select_stable(g.rotated((n - 1) as nat));
    }
}

/// Rotating `m` times and then `n` times is rotating `m + n` times.
proof fn lemma_rotated_sum(g: GroupState, m: nat, n: nat)
    ensures
        g.rotated(m).rotated(n) == g.rotated(m + n),
    decreases n,
{
    if n > 0 {
        lemma_rotated_sum(g, m, (n - 1) as nat);
        assert(g.rotated(m + n) == g.rotated((m + n - 1) as nat).select(false).0);
    }
}

/// A peek leaves every member as it is.
proof fn lemma_peek_stable(l: LineupState)
    requires
        l.wf(),
    ensures
        l.peek().wf(),
        l.peek().groups.len() == l.groups.len(),
        forall|i: int|
            0 <= i < l.groups.len() ==> (#[trigger] l.peek().groups[i]).members
                == l.groups[i].members,
{
    lemma_advance(l, false);
    match l.target() {
        Some(t) => {
            assert(l.groups[t].wf());
            lemma_select_stable(l.groups[t]);
        },
        None => {},
    }
}

/// Peeks leave every member as it is.
proof fn lemma_peeked_stable(l: LineupState, n: nat)
    requires
        l.wf(),
    ensures
        l.peeked(n).wf(),
        l.peeked(n).groups.len() == l.groups.len(),
        forall|i: int|
            0 <= i < l.groups.len() ==> (#[trigger] l.peeked(n).groups[i]).members
                == l.groups[i].members,
    decreases n,
{
    if n > 0 {
        lemma_peeked_stable(l, (n - 1) as nat);
        lemma_peek_stable(l.peeked((n - 1) as nat));
    }
}

/// A peek that shows a member of a group that is not exhausted leaves
/// the index where it is: the next peek serves from the same group,
/// which has made one selection.
proof fn lemma_stay(l: LineupState, g: int, j: int)
    requires
        l.wf(),
        l.pick() == Some((g, j)),
        !l.groups[g].is_exhausted(),
    ensures
        l.target() == Some(g),
        l.peek().index == l.index,
        l.peek().target() == Some(g),
        l.peek().groups[g] == l.groups[g].select(false).0,
{
    lemma_advance(l, false);
    lemma_first_from(l.groups, l.index, roomy());
    assert(l.groups[g].wf());
    lemma_select_stable(l.groups[g]);
    let next = l.peek();
    let after = l.groups[g].select(false).0;
    assert(!after.is_exhausted()) by {
        let i = choose|i: int|
            0 <= i < l.groups[g].members.len() && !(#[trigger] l.groups[g].members[i]).is_exhausted();
        assert(!after.members[i].is_exhausted());
    }
    assert(next.groups[g] == after);
    assert(next.groups[g].has_room()) by {
        let i = choose|i: int|
            0 <= i < l.groups[g].members.len() && (#[trigger] l.groups[g].members[i]).admits(true);
        assert(next.groups[g].members[i].admits(true));
    }
    assert forall|k: int| l.index <= k < g implies !roomy()(#[trigger] next.groups[k]) by {
        assert(!l.groups[k].has_room());
        assert(next.groups[k] == l.groups[k].rewound());
        if next.groups[k].has_room() {
            let i = choose|i: int|
                0 <= i < next.groups[k].members.len() && (#[trigger] next.groups[k].members[i]).admits(
                    true,
                );
            assert(l.groups[k].members[i].admits(true));
        }
    }
    lemma_first_from_is(next.groups, l.index, roomy(), g);
}

/// Once a peek has shown a member of a group that is not exhausted,
/// every later peek serves from that group, which rotates.
proof fn lemma_picks_in_group(l: LineupState, g: int, j: int, n: nat)
    requires
        l.wf(),
        l.pick() == Some((g, j)),
        !l.groups[g].is_exhausted(),
    ensures
        l.peeked(n).wf(),
        l.peeked(n).index == l.index,
        l.peeked(n).target() == Some(g),
        l.peeked(n).groups[g] == l.groups[g].rotated(n),
        l.peeked(n).pick() == match l.groups[g].shows(n) {
            Some(m) => Some((g, m)),
            None => None,
        },
        l.groups[g].shows(n).is_some(),
    decreases n,
{
    lemma_advance(l, false);
    lemma_first_from(l.groups, l.index, roomy());
    assert(l.groups[g].wf());
    if n == 0 {
        lemma_select(l.groups[g], false);
    } else {
        let before = l.peeked((n - 1) as nat);
        lemma_picks_in_group(l, g, j, (n - 1) as nat);
        lemma_peeked_stable(l, (n - 1) as nat);
        lemma_rotated_stable(l.groups[g], (n - 1) as nat);
        let shown = l.groups[g].shows((n - 1) as nat).unwrap();
        assert(before.pick() == Some((g, shown)));
        assert(!before.groups[g].is_exhausted()) by {
            let i = choose|i: int|
                0 <= i < l.groups[g].members.len() && !(
                #[trigger] l.groups[g].members[i]).is_exhausted();
            assert(!before.groups[g].members[i].is_exhausted());
        }
        lemma_stay(before, g, shown);
        lemma_peek_stable(before);
        let now = l.peeked(n);
        assert(now.groups[g].wf());
        lemma_select(now.groups[g], false);
        lemma_first_from(now.groups, now.index, roomy());
    }
}

/// One selection, seen from a member that is not exhausted: the member
/// chosen lies no further behind the cursor than it, and the cursor
/// moves behind the member chosen.
proof fn lemma_step(g: GroupState, other: int)
    requires
        g.wf(),
        0 <= other < g.members.len(),
        !g.members[other].is_exhausted(),
    ensures
        g.select(false).1 matches Some(j) && {
            &&& 0 <= j < g.members.len()
            &&& ahead(g.cursor, j, g.members.len() as int) <= ahead(
                g.cursor,
                other,
                g.members.len() as int,
            )
            &&& g.select(false).0.cursor == if j + 1 == g.members.len() {
                0
            } else {
                j + 1
            }
        },
{
    lemma_walk(g, false, false);
    lemma_walk(g.rewound(), true, false);
    assert(g.members[other].admits(false));
    assert(g.members[other].admits(true));
}

/// While the member `other`, not exhausted, lies nearer behind the
/// cursor than the member `j`, a selection that shows `j` must come
/// after one that shows `other`.
proof fn lemma_other_first(g: GroupState, j: int, other: int, steps: nat)
    requires
        g.wf(),
        0 <= j < g.members.len(),
        0 <= other < g.members.len(),
        !g.members[other].is_exhausted(),
        ahead(g.cursor, other, g.members.len() as int) < ahead(
            g.cursor,
            j,
            g.members.len() as int,
        ),
        g.shows(steps) == Some(j),
    ensures
        exists|c: nat| c < steps && g.shows(c) == Some(other),
    decreases steps,
{
    lemma_step(g, other);
    let first = g.select(false).1.unwrap();
    let next = g.select(false).0;
    lemma_select_stable(g);
    assert(g.rotated(0) == g);
    if first == other {
        assert(g.shows(0) == Some(other));
        assert(steps > 0);
    } else {
        assert(first != j);
        assert(steps > 0);
        assert(g.rotated(1) == g.rotated(0).select(false).0);
        lemma_rotated_sum(g, 1, (steps - 1) as nat);
        assert(next.shows((steps - 1) as nat) == Some(j));
        lemma_other_first(next, j, other, (steps - 1) as nat);
        let c = choose|c: nat| c < steps - 1 && next.shows(c) == Some(other);
        lemma_rotated_sum(g, 1, c);
        assert(g.shows(c + 1) == Some(other));
    }
}

/// Selections rotate: between two that show the same member, every
/// member that is not exhausted is shown.
pub proof fn selections_rotate(g: GroupState, a: nat, b: nat, j: int, other: int)
    requires
        g.wf(),
        a < b,
        g.shows(a) == Some(j),
        g.shows(b) == Some(j),
        0 <= other < g.members.len(),
        !g.members[other].is_exhausted(),
    ensures
        exists|c: nat| a <= c <= b && g.shows(c) == Some(other),
{
    if other == j {
        assert(g.shows(a) == Some(other));
    } else {
        lemma_rotated_stable(g, a);
        let at = g.rotated(a);
        lemma_step(at, other);
        lemma_select_stable(at);
        let next = g.rotated(a + 1);
        assert(next == at.select(false).0);
        let steps = (b - a - 1) as nat;
        lemma_rotated_sum(g, a + 1, steps);
        assert(next.shows(steps) == Some(j));
        lemma_other_first(next, j, other, steps);
        let c = choose|c: nat| c < steps && next.shows(c) == Some(other);
        lemma_rotated_sum(g, a + 1, c);
        assert(g.shows(a + 1 + c) == Some(other));
    }
}

/// Peeks rotate within a group: between two peeks of a lineup in a
/// stable state that show the same provider, every provider of that
/// provider's group that is not exhausted is shown.
pub proof fn peeks_rotate(l: LineupState, a: nat, b: nat, g: int, m: int, other: int)
    requires
        l.wf(),
        a < b,
        l.picks(a) == Some((g, m)),
        l.picks(b) == Some((g, m)),
        0 <= other < l.groups[g].members.len(),
        !l.groups[g].members[other].is_exhausted(),
    ensures
        exists|c: nat| a <= c <= b && l.picks(c) == Some((g, other)),
{
    lemma_peeked_stable(l, a);
    let at = l.peeked(a);
    candidate_is_picked(at);
    assert(at.groups[g].members == l.groups[g].members);
    assert(!at.groups[g].members[other].is_exhausted());
    assert(!at.groups[g].is_exhausted());
    let steps = (b - a) as nat;
    lemma_picks_in_group(at, g, m, 0);
    lemma_picks_in_group(at, g, m, steps);
    lemma_peeked_sum(l, a, steps);
    let group = at.groups[g];
    assert(group.shows(0) == Some(m));
    assert(group.shows(steps) == Some(m));
    selections_rotate(group, 0, steps, m, other);
    let c = choose|c: nat| 0 <= c <= steps && group.shows(c) == Some(other);
    lemma_picks_in_group(at, g, m, c);
    lemma_peeked_sum(l, a, c);
    assert(l.picks(a + c) == Some((g, other)));
}

/// Peeks visit every provider that is not exhausted before they repeat,
/// when all such providers stand in one group: between two peeks of a
/// lineup in a stable state that show the same provider, each provider
/// of the lineup that is not exhausted is shown.
pub proof fn peeks_visit_all_before_repeating(
    l: LineupState,
    a: nat,
    b: nat,
    g: int,
    m: int,
    h: int,
    k: int,
)
    requires
        l.wf(),
        a < b,
        l.picks(a) == Some((g, m)),
        l.picks(b) == Some((g, m)),
        forall|i: int, n: int|
            l.has_place(i, n) && !(#[trigger] l.member(i, n)).is_exhausted() ==> i == g,
        l.has_place(h, k),
        !l.member(h, k).is_exhausted(),
    ensures
        exists|c: nat| a <= c <= b && l.picks(c) == Some((h, k)),
{
    assert(h == g);
    peeks_rotate(l, a, b, g, m, k);
}

/// Peeking `m` times and then `n` times is peeking `m + n` times.
proof fn lemma_peeked_sum(l: LineupState, m: nat, n: nat)
    ensures
        l.peeked(m).peeked(n) == l.peeked(m + n),
    decreases n,
{
    if n > 0 {
        lemma_peeked_sum(l, m, (n - 1) as nat);
        assert(l.peeked(m + n) == l.peeked((m + n - 1) as nat).peek());
    }
}

} // verus!
