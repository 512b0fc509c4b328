//! Providers of equal priority, served in rotation.

use crate::provider::{
    AllocationState, ProviderAllocation, ProviderConfigWrapper, ProviderState,
};
use crate::search::{first_from, lemma_first_from, lemma_first_from_is, lemma_first_from_none};
use vstd::arithmetic::div_mod::{lemma_mod_self_0, lemma_small_mod};
use vstd::prelude::*;

verus! {

/// The predicate "a request with this `grace` gets a slot".
pub open spec fn admitting(grace: bool) -> spec_fn(ProviderState) -> bool {
    |p: ProviderState| p.admits(grace)
}

/// The predicate "goes by `name`".
pub open spec fn named(name: Seq<char>) -> spec_fn(ProviderState) -> bool {
    |p: ProviderState| p.name == name
}

/// The index behind `i` in a ring of `len` places: the first place again
/// after the last.
pub fn ring_next(i: usize, len: usize) -> (next: usize)
    requires
        i < len,
    ensures
        next == (if i + 1 == len {
            0
        } else {
            i + 1
        }),
{
    proof {
        if i + 1 == len {
            lemma_mod_self_0(len as int);
        } else {
            lemma_small_mod((i + 1) as nat, len as nat);
        }
    }
    (i + 1) % len
}

/// The values of a list of members.
pub open spec fn states(members: Seq<ProviderConfigWrapper>) -> Seq<ProviderState> {
    Seq::new(members.len(), |i: int| members[i]@)
}

/// The value of a priority group: its members in the order they were
/// declared, and the cursor, the member at which the next walk starts.
pub struct GroupState {
    pub members: Seq<ProviderState>,
    pub cursor: int,
}

impl GroupState {
    /// A group has a member, its cursor points at a member, and all
    /// members have one priority.
    pub open spec fn wf(self) -> bool {
        &&& self.members.len() >= 1
        &&& 0 <= self.cursor < self.members.len()
        &&& forall|i: int|
            0 <= i < self.members.len() ==> (#[trigger] self.members[i]).priority
                == self.members[0].priority
    }

    /// The priority that the members share.
    pub open spec fn priority(self) -> i16 {
        self.members[0].priority
    }

    /// Every member has reached its limit.
    pub open spec fn is_exhausted(self) -> bool {
        forall|i: int| 0 <= i < self.members.len() ==> (#[trigger] self.members[i]).is_exhausted()
    }

    /// Some member has a slot left, the grace slot counted.
    pub open spec fn has_room(self) -> bool {
        exists|i: int| 0 <= i < self.members.len() && (#[trigger] self.members[i]).admits(true)
    }

    /// Some member goes by `name`.
    pub open spec fn has_member(self, name: Seq<char>) -> bool {
        exists|i: int| 0 <= i < self.members.len() && (#[trigger] self.members[i]).name == name
    }

    /// The same group with the cursor back at the first member.
    pub open spec fn rewound(self) -> GroupState {
        GroupState { cursor: 0, ..self }
    }

    /// The group after member `j` was chosen. The cursor stands behind
    /// `j`, at the first member again after the last. With `commit`,
    /// member `j` has one connection more.
    pub open spec fn chosen(self, j: int, commit: bool) -> GroupState {
        GroupState {
            members: if commit {
                self.members.update(j, self.members[j].incremented())
            } else {
                self.members
            },
            cursor: if j + 1 == self.members.len() {
                0
            } else {
                j + 1
            },
        }
    }

    /// One walk: from the cursor to the last member, the first member
    /// that admits a request with this `grace` is chosen. Members before
    /// the cursor are not visited. When no visited member admits, the
    /// cursor goes back to the first member. The result is the group
    /// after the walk and the index of the chosen member.
    pub open spec fn walk(self, grace: bool, commit: bool) -> (GroupState, Option<int>) {
        match first_from(self.members, self.cursor, admitting(grace)) {
            Some(j) => (self.chosen(j, commit), Some(j)),
            None => (self.rewound(), None),
        }
    }

    /// What a committed walk hands out: the chosen member, as it stands
    /// with the new connection.
    pub open spec fn walk_allocation(self, grace: bool) -> AllocationState {
        match first_from(self.members, self.cursor, admitting(grace)) {
            Some(j) => AllocationState::of(
                self.members[j].grant(grace),
                self.members[j].incremented(),
            ),
            None => AllocationState::Exhausted,
        }
    }

    /// What a walk that commits nothing shows: the chosen member.
    pub open spec fn walk_candidate(self, grace: bool) -> Option<ProviderState> {
        match first_from(self.members, self.cursor, admitting(grace)) {
            Some(j) => Some(self.members[j]),
            None => None,
        }
    }

    /// A strict walk and, if it chooses nobody, a walk with grace. The
    /// strict walk has then put the cursor back, so the walk with grace
    /// visits every member.
    pub open spec fn select(self, commit: bool) -> (GroupState, Option<int>) {
        let strict = self.walk(false, commit);
        if strict.1.is_some() {
            strict
        } else {
            strict.0.walk(true, commit)
        }
    }

    /// What a committed selection hands out.
    pub open spec fn select_allocation(self) -> AllocationState {
        if self.walk(false, true).1.is_some() {
            self.walk_allocation(false)
        } else {
            self.rewound().walk_allocation(true)
        }
    }

    /// What a selection that commits nothing shows.
    pub open spec fn select_candidate(self) -> Option<ProviderState> {
        if self.walk(false, false).1.is_some() {
            self.walk_candidate(false)
        } else {
            self.rewound().walk_candidate(true)
        }
    }
}

/// A walk keeps a group well formed, chooses a member that is there,
/// and changes nothing but the cursor and, with `commit`, the counter of
/// the chosen member.
pub proof fn lemma_walk(g: GroupState, grace: bool, commit: bool)
    requires
        0 <= g.cursor,
    ensures
        g.wf() ==> g.walk(grace, commit).0.wf(),
        g.walk(grace, commit).0.members.len() == g.members.len(),
        g.walk(grace, commit).1 == g.walk(grace, !commit).1,
        match g.walk(grace, commit).1 {
            Some(j) => g.cursor <= j < g.members.len() && g.members[j].admits(grace) && (forall|
                k: int,
            |
                g.cursor <= k < j ==> !(#[trigger] g.members[k]).admits(grace)),
            None => g.walk(grace, commit).0.cursor == 0 && forall|k: int|
                g.cursor <= k < g.members.len() ==> !(#[trigger] g.members[k]).admits(grace),
        },
{
    lemma_first_from(g.members, g.cursor, admitting(grace));
}

/// A selection keeps a group well formed. It chooses a member exactly
/// when the group has room.
pub proof fn lemma_select(g: GroupState, commit: bool)
    requires
        0 <= g.cursor,
    ensures
        g.wf() ==> g.select(commit).0.wf(),
        g.select(commit).0.members.len() == g.members.len(),
        g.select(commit).1.is_some() == g.has_room(),
        g.select(commit).1 == g.select(!commit).1,
        g.select(commit).1 matches Some(j) ==> 0 <= j < g.members.len() && g.members[j].admits(
            true,
        ),
        g.select(commit).1.is_none() ==> g.select(commit).0 == g.rewound(),
{
    lemma_walk(g, false, commit);
    lemma_walk(g, false, !commit);
    lemma_walk(g.rewound(), true, commit);
    lemma_walk(g.rewound(), true, !commit);
}

/// Providers that share a priority: one, or several with a cursor for
/// rotation.
#[derive(Debug)]
pub enum ProviderPriorityGroup {
    SingleProviderGroup(ProviderConfigWrapper),
    MultiProviderGroup(usize, Vec<ProviderConfigWrapper>),
}

impl View for ProviderPriorityGroup {
    type V = GroupState;

    open spec fn view(&self) -> GroupState {
        match self {
            ProviderPriorityGroup::SingleProviderGroup(p) => GroupState {
                members: seq![p@],
                cursor: 0,
            },
            ProviderPriorityGroup::MultiProviderGroup(index, members) => GroupState {
                members: states(members@),
                cursor: *index as int,
            },
        }
    }
}

impl ProviderPriorityGroup {
    /// Whether every member has reached its limit.
    pub fn is_exhausted(&self) -> (exhausted: bool)
        ensures
            exhausted == self@.is_exhausted(),
    {
        match self {
            ProviderPriorityGroup::SingleProviderGroup(g) => {
                assert(self@.members[0] == g@);
                g.is_exhausted()
            },
            ProviderPriorityGroup::MultiProviderGroup(_, groups) => {
                let mut i: usize = 0;
                while i < groups.len()
                    invariant
                        i <= groups.len(),
                        self@.members == states(groups@),
                        forall|k: int| 0 <= k < i ==> (#[trigger] self@.members[k]).is_exhausted(),
                    decreases groups.len() - i,
                {
                    if !groups[i].is_exhausted() {
                        assert(self@.members[i as int] == groups[i as int]@);
                        assert(!self@.members[i as int].is_exhausted());
                        return false;
                    }
                    i += 1;
                }
                true
            },
        }
    }

    /// The place of the first member called `name`.
    pub fn position(&self, name: &String) -> (place: Option<usize>)
        ensures
            match place {
                Some(m) => first_from(self@.members, 0, named(name@)) == Some(m as int),
                None => first_from(self@.members, 0, named(name@)).is_none(),
            },
            place.is_some() == self@.has_member(name@),
    {
        proof {
            lemma_first_from(self@.members, 0, named(name@));
        }
        match self {
            ProviderPriorityGroup::SingleProviderGroup(p) => {
                assert(self@.members[0] == p@);
                if p.is_named(name) {
                    Some(0)
                } else {
                    None
                }
            },
            ProviderPriorityGroup::MultiProviderGroup(_, members) => {
                let mut m: usize = 0;
                while m < members.len()
                    invariant
                        m <= members.len(),
                        self@.members == states(members@),
                        forall|k: int| 0 <= k < m ==> (#[trigger] self@.members[k]).name != name@,
                    decreases members.len() - m,
                {
                    assert(self@.members[m as int] == members[m as int]@);
                    if members[m].is_named(name) {
                        proof {
                            lemma_first_from_is(
                                self@.members,
                                0,
                                named(name@),
                                m as int,
                            );
                        }
                        return Some(m);
                    }
                    m += 1;
                }
                proof {
                    lemma_first_from_none(self@.members, 0, named(name@));
                }
                None
            },
        }
    }

    /// The number of members.
    pub fn len(&self) -> (count: usize)
        ensures
            count == self@.members.len(),
    {
        match self {
            ProviderPriorityGroup::SingleProviderGroup(_) => 1,
            ProviderPriorityGroup::MultiProviderGroup(_, members) => members.len(),
        }
    }

    /// The member at place `m`.
    pub fn member(&self, m: usize) -> (member: &ProviderConfigWrapper)
        requires
            m < self@.members.len(),
        ensures
            member@ == self@.members[m as int],
    {
        match self {
            ProviderPriorityGroup::SingleProviderGroup(p) => p,
            ProviderPriorityGroup::MultiProviderGroup(_, members) => &members[m],
        }
    }

    /// The member at place `m` gives one slot back.
    pub fn release_at(&mut self, m: usize)
        requires
            m < old(self)@.members.len(),
        ensures
            final(self)@ == (GroupState {
                members: old(self)@.members.update(m as int, old(self)@.members[m as int].released()),
                ..old(self)@
            }),
    {
        match self {
            ProviderPriorityGroup::SingleProviderGroup(p) => {
                assert(old(self)@.members[0] == p@);
                p.release();
            },
            ProviderPriorityGroup::MultiProviderGroup(_, members) => {
                assert(old(self)@.members[m as int] == members[m as int]@);
                members[m].release();
            },
        }
        assert(final(self)@.members =~= old(self)@.members.update(
            m as int,
            old(self)@.members[m as int].released(),
        ));
    }

    /// The member at place `m` takes a slot whatever its limit says.
    pub fn force_allocate_at(&mut self, m: usize) -> (allocation: ProviderAllocation)
        requires
            m < old(self)@.members.len(),
        ensures
            final(self)@ == (GroupState {
                members: old(self)@.members.update(
                    m as int,
                    old(self)@.members[m as int].incremented(),
                ),
                ..old(self)@
            }),
            allocation@ == AllocationState::Available(old(self)@.members[m as int].incremented()),
    {
        let allocation = match self {
            ProviderPriorityGroup::SingleProviderGroup(p) => {
                assert(old(self)@.members[0] == p@);
                p.force_allocate()
            },
            ProviderPriorityGroup::MultiProviderGroup(_, members) => {
                assert(old(self)@.members[m as int] == members[m as int]@);
                members[m].force_allocate()
            },
        };
        assert(final(self)@.members =~= old(self)@.members.update(
            m as int,
            old(self)@.members[m as int].incremented(),
        ));
        allocation
    }
}

/// The values of a list of groups.
pub open spec fn group_states(groups: Seq<ProviderPriorityGroup>) -> Seq<GroupState> {
    Seq::new(groups.len(), |i: int| groups[i]@)
}

} // verus!
