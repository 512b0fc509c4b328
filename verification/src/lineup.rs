//! The providers of one input, walked by priority.

use crate::config::ConfigInput;
use crate::group::{
    admitting, group_states, lemma_select, lemma_walk, named, ring_next, states, GroupState,
    ProviderPriorityGroup,
};
use crate::provider::{
    AllocationState, ProviderAllocation, ProviderConfig, ProviderConfigWrapper, ProviderState,
};
use crate::grouping::{grouped, input_providers, lemma_grouped_wf, place};
use crate::search::{first_from, lemma_first_from, lemma_first_from_is, lemma_first_from_none};
use vstd::prelude::*;

verus! {

/// The predicate "has room".
pub open spec fn roomy() -> spec_fn(GroupState) -> bool {
    |g: GroupState| g.has_room()
}

/// The predicate "has a member called `name`".
pub open spec fn holding(name: Seq<char>) -> spec_fn(GroupState) -> bool {
    |g: GroupState| g.has_member(name)
}

/// What an optional provider shows.
pub open spec fn shown(provider: Option<ProviderConfig>) -> Option<ProviderState> {
    match provider {
        Some(p) => Some(p@),
        None => None,
    }
}

/// The value of a lineup: its groups by ascending priority number, and
/// the index of the group at which the next walk starts. The lineup of
/// an input without aliases has one group of one member.
pub struct LineupState {
    pub groups: Seq<GroupState>,
    pub index: int,
}

impl LineupState {
    /// The lineup of the one provider `p`.
    pub open spec fn solo(p: ProviderState) -> LineupState {
        LineupState { groups: seq![GroupState { members: seq![p], cursor: 0 }], index: 0 }
    }

    /// A lineup has a group, its index points at a group, every group
    /// is well formed, and priority numbers ascend strictly from group
    /// to group.
    pub open spec fn wf(self) -> bool {
        &&& self.groups.len() >= 1
        &&& 0 <= self.index < self.groups.len()
        &&& forall|i: int| 0 <= i < self.groups.len() ==> (#[trigger] self.groups[i]).wf()
        &&& forall|i: int, j: int|
            0 <= i < j < self.groups.len() ==> (#[trigger] self.groups[i]).priority() < (
            #[trigger] self.groups[j]).priority()
    }

    /// The member at place `m` of group `g`.
    pub open spec fn member(self, g: int, m: int) -> ProviderState {
        self.groups[g].members[m]
    }

    /// `(g, m)` is the place of a member.
    pub open spec fn has_place(self, g: int, m: int) -> bool {
        0 <= g < self.groups.len() && 0 <= m < self.groups[g].members.len()
    }

    /// The lineup with `p` at place `m` of group `g`.
    pub open spec fn with_member(self, g: int, m: int, p: ProviderState) -> LineupState {
        LineupState {
            groups: self.groups.update(
                g,
                GroupState { members: self.groups[g].members.update(m, p), ..self.groups[g] },
            ),
            ..self
        }
    }

    /// The group that the next walk serves from: the first with room at
    /// or after the index. Groups before the index are not visited.
    pub open spec fn target(self) -> Option<int> {
        first_from(self.groups, self.index, roomy())
    }

    /// The groups after a walk has passed those from the index up to
    /// `upto` without finding room: their cursors are back at the first
    /// member.
    pub open spec fn rewind(self, upto: int) -> Seq<GroupState> {
        Seq::new(
            self.groups.len(),
            |i: int|
                if self.index <= i < upto {
                    self.groups[i].rewound()
                } else {
                    self.groups[i]
                },
        )
    }

    /// The index behind `t`: the first group again after the last.
    pub open spec fn after(self, t: int) -> int {
        if t + 1 == self.groups.len() {
            0
        } else {
            t + 1
        }
    }

    /// The lineup after one walk. The target group makes its selection;
    /// if it is exhausted afterwards, the index moves behind it. Without
    /// a target only the cursors of the groups passed have changed. With
    /// `commit` the chosen member has one connection more.
    pub open spec fn advance(self, commit: bool) -> LineupState {
        match self.target() {
            Some(t) => {
                let g = self.groups[t].select(commit).0;
                LineupState {
                    groups: self.rewind(t).update(t, g),
                    index: if g.is_exhausted() {
                        self.after(t)
                    } else {
                        self.index
                    },
                    ..self
                }
            },
            None => LineupState { groups: self.rewind(self.groups.len() as int), ..self },
        }
    }

    /// The place of the member that a committed walk serves.
    pub open spec fn served(self) -> Option<(int, int)> {
        match self.target() {
            Some(t) => match self.groups[t].select(true).1 {
                Some(j) => Some((t, j)),
                None => None,
            },
            None => None,
        }
    }

    /// What a committed walk hands out.
    pub open spec fn allocation(self) -> AllocationState {
        match self.target() {
            Some(t) => self.groups[t].select_allocation(),
            None => AllocationState::Exhausted,
        }
    }

    /// What a walk that commits nothing shows: the member that a
    /// committed walk would serve.
    pub open spec fn candidate(self) -> Option<ProviderState> {
        match self.target() {
            Some(t) => self.groups[t].select_candidate(),
            None => None,
        }
    }

    /// The lineup after a walk that commits nothing. Cursors and index
    /// move as in a committed walk.
    pub open spec fn peek(self) -> LineupState {
        self.advance(false)
    }

    /// Some provider goes by `name`.
    pub open spec fn contains(self, name: Seq<char>) -> bool {
        exists|g: int| 0 <= g < self.groups.len() && (#[trigger] self.groups[g]).has_member(name)
    }

    /// The place of the first provider called `name`, groups and members
    /// read in their order.
    pub open spec fn locate(self, name: Seq<char>) -> Option<(int, int)> {
        match first_from(self.groups, 0, holding(name)) {
            Some(g) => match first_from(self.groups[g].members, 0, named(name)) {
                Some(m) => Some((g, m)),
                None => None,
            },
            None => None,
        }
    }

    /// The lineup after the first provider called `name` gave a slot
    /// back. Without such a provider nothing changes.
    pub open spec fn release(self, name: Seq<char>) -> LineupState {
        match self.locate(name) {
            Some((g, m)) => self.with_member(g, m, self.member(g, m).released()),
            None => self,
        }
    }

    /// The members of the first `n` groups, in their order.
    pub open spec fn members_upto(self, n: int) -> Seq<ProviderState>
        decreases n,
    {
        if n <= 0 {
            Seq::empty()
        } else {
            self.members_upto(n - 1) + self.groups[n - 1].members
        }
    }

    /// All providers, group by group.
    pub open spec fn providers(self) -> Seq<ProviderState> {
        self.members_upto(self.groups.len() as int)
    }

    /// Every provider has taken no more than its grace slot above its
    /// limit.
    pub open spec fn within_grace(self) -> bool {
        forall|g: int, m: int| self.has_place(g, m) ==> (#[trigger] self.member(g, m)).within_grace()
    }

    /// No provider has a connection.
    pub open spec fn idle(self) -> bool {
        forall|g: int, m: int|
            self.has_place(g, m) ==> (#[trigger] self.member(g, m)).current_connections == 0
    }

    /// No two providers share a name.
    pub open spec fn names_distinct(self) -> bool {
        forall|g: int, m: int, h: int, k: int|
            self.has_place(g, m) && self.has_place(h, k) && (g != h || m != k) ==> (
            #[trigger] self.member(g, m)).name != (#[trigger] self.member(h, k)).name
    }
}

/// `locate` finds a place exactly when the lineup contains the name; the
/// place holds a provider of that name, and no place before it does.
pub proof fn lemma_locate(l: LineupState, name: Seq<char>)
    ensures
        l.locate(name).is_some() == l.contains(name),
        l.locate(name) matches Some((g, m)) ==> {
            &&& l.has_place(g, m)
            &&& l.member(g, m).name == name
            &&& forall|h: int| 0 <= h < g ==> !(#[trigger] l.groups[h]).has_member(name)
            &&& forall|k: int| 0 <= k < m ==> (#[trigger] l.groups[g].members[k]).name != name
        },
{
    lemma_first_from(l.groups, 0, holding(name));
    match first_from(l.groups, 0, holding(name)) {
        Some(g) => {
            lemma_first_from(l.groups[g].members, 0, named(name));
        },
        None => {},
    }
}

/// The lineup of one provider does what its provider does: `acquire`
/// is a request with grace, a peek shows the provider while such a
/// request would get a slot and changes nothing, and a release reaches
/// the provider if the name is its own.
pub proof fn lemma_solo(p: ProviderState, name: Seq<char>)
    ensures
        LineupState::solo(p).wf(),
        LineupState::solo(p).advance(true) == LineupState::solo(p.try_allocate(true)),
        LineupState::solo(p).allocation() == AllocationState::of(p.grant(true), p.incremented()),
        LineupState::solo(p).peek() == LineupState::solo(p),
        LineupState::solo(p).candidate() == if p.admits(true) {
            Some(p)
        } else {
            None
        },
        LineupState::solo(p).locate(name) == if p.name == name {
            Some((0int, 0int))
        } else {
            None
        },
        LineupState::solo(p).release(name) == if p.name == name {
            LineupState::solo(p.released())
        } else {
            LineupState::solo(p)
        },
{
    let l = LineupState::solo(p);
    let g = l.groups[0];
    assert(g.members[0] == p);
    assert(l.wf());
    lemma_first_from(l.groups, 0, roomy());
    lemma_first_from(l.groups, 0, holding(name));
    lemma_first_from(g.members, 0, admitting(false));
    lemma_first_from(g.members, 0, admitting(true));
    lemma_first_from(g.members, 0, named(name));
    lemma_select(g, true);
    lemma_select(g, false);
    if p.admits(true) {
        assert(g.has_room());
        assert(l.target() == Some(0int));
        let after = g.select(true).0;
        assert(after.members =~= seq![p.try_allocate(true)]);
        assert(after.cursor == 0);
        assert(l.advance(true).groups =~= LineupState::solo(p.try_allocate(true)).groups);
        let seen = g.select(false).0;
        assert(seen.members =~= g.members);
        assert(seen.cursor == 0);
        assert(l.advance(false).groups =~= l.groups);
    } else {
        assert(!g.has_room());
        assert(l.target().is_none());
        assert(l.advance(true).groups =~= l.groups);
        assert(l.advance(false).groups =~= l.groups);
    }
    if p.name == name {
        assert(g.has_member(name));
        assert(l.locate(name) == Some((0int, 0int)));
        let r = l.release(name);
        assert(r.groups[0].members =~= seq![p.released()]);
        assert(r.groups =~= LineupState::solo(p.released()).groups);
    } else {
        assert(!g.has_member(name));
    }
}

/// Replacing a member by one of the same priority keeps a lineup well
/// formed.
pub proof fn lemma_with_member(l: LineupState, g: int, m: int, p: ProviderState)
    requires
        l.wf(),
        l.has_place(g, m),
        p.priority == l.member(g, m).priority,
    ensures
        l.with_member(g, m, p).wf(),
{
    let next = l.with_member(g, m, p);
    assert forall|i: int| 0 <= i < next.groups.len() implies (#[trigger] next.groups[i]).wf()
        && next.groups[i].priority() == l.groups[i].priority() by {
        assert(l.groups[i].wf());
        if i == g {
            assert forall|k: int| 0 <= k < next.groups[i].members.len() implies (
            #[trigger] next.groups[i].members[k]).priority == next.groups[i].members[0].priority by {
                assert(l.groups[i].members[k].priority == l.groups[i].members[0].priority);
                assert(l.groups[i].members[m].priority == l.groups[i].members[0].priority);
            }
        }
    }
    assert forall|i: int, j: int| 0 <= i < j < next.groups.len() implies (
    #[trigger] next.groups[i]).priority() < (#[trigger] next.groups[j]).priority() by {
        assert(l.groups[i].priority() < l.groups[j].priority());
    }
}

/// A walk keeps a lineup well formed and keeps every provider's name
/// and limits; it serves a member exactly when a target exists.
pub proof fn lemma_advance(l: LineupState, commit: bool)
    requires
        l.wf(),
    ensures
        l.advance(commit).wf(),
        l.advance(commit).groups.len() == l.groups.len(),
        l.target() matches Some(t) ==> l.index <= t < l.groups.len() && l.groups[t].has_room(),
{
    lemma_first_from(l.groups, l.index, roomy());
    let next = l.advance(commit);
    match l.target() {
        Some(t) => {
            lemma_select(l.groups[t], commit);
            assert forall|i: int| 0 <= i < next.groups.len() implies (#[trigger] next.groups[i]).wf()
                && next.groups[i].priority() == l.groups[i].priority() by {
                assert(l.groups[i].wf());
                if i == t {
                    lemma_select_keeps_descriptors(l.groups[t], commit);
                }
            }
        },
        None => {
            assert forall|i: int| 0 <= i < next.groups.len() implies (#[trigger] next.groups[i]).wf()
                && next.groups[i].priority() == l.groups[i].priority() by {
                assert(l.groups[i].wf());
            }
        },
    }
    assert forall|i: int, j: int| 0 <= i < j < next.groups.len() implies (
    #[trigger] next.groups[i]).priority() < (#[trigger] next.groups[j]).priority() by {
        assert(l.groups[i].priority() < l.groups[j].priority());
    }
}

/// A walk read member by member. The member served can take the
/// connection, it is what the allocation carries, and in a committed
/// walk it alone changes: it has one connection more.
pub proof fn lemma_advance_members(l: LineupState, commit: bool)
    requires
        l.wf(),
    ensures
        l.advance(commit).groups.len() == l.groups.len(),
        forall|g: int|
            0 <= g < l.groups.len() ==> (#[trigger] l.advance(commit).groups[g]).members.len()
                == l.groups[g].members.len(),
        forall|g: int, m: int|
            l.has_place(g, m) ==> #[trigger] l.advance(commit).member(g, m) == if commit
                && l.served() == Some((g, m)) {
                l.member(g, m).incremented()
            } else {
                l.member(g, m)
            },
        match l.served() {
            Some((g, m)) => {
                &&& l.has_place(g, m)
                &&& l.member(g, m).admits(true)
                &&& l.allocation() == AllocationState::of(
                    l.member(g, m).grant(true),
                    l.member(g, m).incremented(),
                )
            },
            None => l.allocation() is Exhausted,
        },
{
    lemma_advance(l, commit);
    match l.target() {
        Some(t) => {
            let g = l.groups[t];
            assert(g.wf());
            lemma_select(g, commit);
            lemma_select(g, true);
            lemma_walk(g, false, commit);
            lemma_walk(g, false, true);
            lemma_walk(g.rewound(), true, commit);
            lemma_walk(g.rewound(), true, true);
        },
        None => {},
    }
}

/// A selection changes no member but by adding a connection.
pub proof fn lemma_select_keeps_descriptors(g: GroupState, commit: bool)
    requires
        g.wf(),
    ensures
        forall|i: int|
            0 <= i < g.members.len() ==> (#[trigger] g.select(commit).0.members[i]) == g.members[i]
                || g.select(commit).0.members[i] == g.members[i].incremented(),
        g.select(commit).0.priority() == g.priority(),
{
    lemma_walk(g, false, commit);
    lemma_walk(g.rewound(), true, commit);
}

/// The lineup of an input without aliases: one provider.
#[derive(Debug)]
pub struct SingleProviderLineup {
    provider: ProviderConfigWrapper,
}

impl View for SingleProviderLineup {
    type V = LineupState;

    closed spec fn view(&self) -> LineupState {
        LineupState::solo(self.provider@)
    }
}

impl SingleProviderLineup {
    /// The lineup of an input's primary endpoint, with no connection.
    pub fn new(cfg: &ConfigInput) -> (lineup: Self)
        ensures
            lineup@ == LineupState::solo(ProviderState::of_input(*cfg)),
            lineup@.wf(),
    {
        proof {
            lemma_solo(ProviderState::of_input(*cfg), Seq::empty());
        }
        Self { provider: ProviderConfigWrapper::new(ProviderConfig::new(cfg)) }
    }

    /// A lineup of this type has one group of one member.
    pub proof fn lemma_single(&self)
        ensures
            self@ == LineupState::solo(self@.member(0, 0)),
            self@.wf(),
    {
        lemma_solo(self.provider@, Seq::empty());
    }

    /// The provider of this lineup.
    pub fn provider(&self) -> (provider: &ProviderConfigWrapper)
        ensures
            self@ == LineupState::solo(provider@),
            self@.wf(),
    {
        proof {
            lemma_solo(self.provider@, Seq::empty());
        }
        &self.provider
    }

    /// Shows the provider, for a redirect, while it has a slot left,
    /// the grace slot counted. Takes no connection and changes nothing.
    pub fn get_next(&self) -> (next: Option<ProviderConfig>)
        ensures
            shown(next) == self@.candidate(),
            shown(next) == if self@.member(0, 0).admits(true) {
                Some(self@.member(0, 0))
            } else {
                None
            },
            self@.peek() == self@,
    {
        proof {
            lemma_solo(self.provider@, Seq::empty());
        }
        let strict = self.provider.get_next(false);
        if strict.is_none() {
            self.provider.get_next(true)
        } else {
            strict
        }
    }

    /// Takes a connection on the provider, the grace slot if only that
    /// is left.
    pub fn acquire(&mut self) -> (allocation: ProviderAllocation)
        ensures
            final(self)@ == old(self)@.advance(true),
            allocation@ == old(self)@.allocation(),
            final(self)@ == LineupState::solo(old(self)@.member(0, 0).try_allocate(true)),
            allocation@ == AllocationState::of(
                old(self)@.member(0, 0).grant(true),
                old(self)@.member(0, 0).incremented(),
            ),
            final(self)@.wf(),
    {
        proof {
            lemma_solo(self.provider@, Seq::empty());
            lemma_solo(self.provider@.try_allocate(true), Seq::empty());
        }
        self.provider.try_allocate(true)
    }

    /// Takes a connection on the provider whatever its limit says.
    pub fn force_allocate(&mut self) -> (allocation: ProviderAllocation)
        ensures
            final(self)@ == old(self)@.with_member(0, 0, old(self)@.member(0, 0).incremented()),
            allocation@ == AllocationState::Available(old(self)@.member(0, 0).incremented()),
    {
        let allocation = self.provider.force_allocate();
        proof {
            let forced = old(self)@.with_member(0, 0, old(self)@.member(0, 0).incremented());
            assert(forced.groups[0].members =~= final(self)@.groups[0].members);
            assert(final(self)@.groups =~= forced.groups);
        }
        allocation
    }

    /// The provider gives one slot back if `provider_name` is its name.
    pub fn release(&mut self, provider_name: &str)
        ensures
            final(self)@ == old(self)@.release(provider_name@),
            final(self)@ == if old(self)@.member(0, 0).name == provider_name@ {
                LineupState::solo(old(self)@.member(0, 0).released())
            } else {
                old(self)@
            },
            final(self)@.wf(),
    {
        let name = provider_name.to_owned();
        proof {
            lemma_solo(self.provider@, name@);
            lemma_solo(self.provider@.released(), name@);
        }
        if self.provider.is_named(&name) {
            self.provider.release();
        }
    }
}

/// The lineup of an input with aliases: groups of providers by ascending
/// priority number, and the index of the group to start at.
#[derive(Debug)]
pub struct MultiProviderLineup {
    providers: Vec<ProviderPriorityGroup>,
    index: usize,
}

impl View for MultiProviderLineup {
    type V = LineupState;

    closed spec fn view(&self) -> LineupState {
        LineupState { groups: group_states(self.providers@), index: self.index as int }
    }
}

impl MultiProviderLineup {
    /// Builds the lineup of an input: its primary endpoint and its
    /// aliases, sorted into groups by priority. No provider has a
    /// connection, and every cursor and the index stand at the start.
    pub fn new(input: &ConfigInput) -> (lineup: Self)
        ensures
            lineup@.index == 0,
            grouped(input_providers(*input), lineup@.groups),
            lineup@.wf(),
    {
        let ghost all = input_providers(*input);
        let mut providers: Vec<ProviderPriorityGroup> = Vec::new();
        let ghost mut placed: Seq<ProviderState> = Seq::empty();
        let primary = ProviderConfigWrapper::new(ProviderConfig::new(input));
        place(&mut providers, primary, Ghost(placed));
        proof {
            placed = placed.push(all[0]);
        }
        match &input.aliases {
            Some(aliases) => {
                let mut i: usize = 0;
                while i < aliases.len()
                    invariant
                        i <= aliases.len(),
                        aliases@ == input.alias_seq(),
                        all == input_providers(*input),
                        placed =~= all.take(i + 1),
                        grouped(placed, group_states(providers@)),
                    decreases aliases.len() - i,
                {
                    let member = ProviderConfigWrapper::new(
                        ProviderConfig::new_alias(input, &aliases[i]),
                    );
                    assert(member@ == all[i + 1]);
                    place(&mut providers, member, Ghost(placed));
                    proof {
                        placed = placed.push(all[i + 1]);
                    }
                    i += 1;
                }
                assert(placed =~= all);
            },
            None => {
                assert(placed =~= all);
            },
        }
        proof {
            lemma_grouped_wf(all, group_states(providers@));
        }
        Self { providers, index: 0 }
    }

    /// One committed walk through a group: the first member from the
    /// cursor on that admits the request takes the connection.
    #[verifier::loop_isolation(false)]
    pub fn acquire_next_provider_from_group(
        priority_group: &mut ProviderPriorityGroup,
        grace: bool,
    ) -> (allocation: ProviderAllocation)
        ensures
            final(priority_group)@ == old(priority_group)@.walk(grace, true).0,
            allocation@ == old(priority_group)@.walk_allocation(grace),
            (allocation@ is Exhausted) == old(priority_group)@.walk(grace, true).1.is_none(),
            old(priority_group)@.wf() ==> final(priority_group)@.wf(),
    {
        proof {
            lemma_walk(old(priority_group)@, grace, true);
        }
        match priority_group {
            ProviderPriorityGroup::SingleProviderGroup(p) => {
                let ghost before = p@;
                let result = p.try_allocate(grace);
                proof {
                    assert(old(priority_group)@.members[0] == before);
                    assert(first_from(old(priority_group)@.members, 1, admitting(grace)).is_none());
                    assert(final(priority_group)@.members =~= old(priority_group)@.walk(
                        grace,
                        true,
                    ).0.members);
                }
                result
            },
            ProviderPriorityGroup::MultiProviderGroup(index, pg) => {
                let provider_count = pg.len();
                let start = *index;
                let mut idx = start;
                while idx < provider_count
                    invariant
                        start <= idx,
                        idx <= provider_count || idx == start,
                        provider_count == pg.len(),
                        states(pg@) == old(priority_group)@.members,
                        start == old(priority_group)@.cursor,
                        forall|k: int|
                            start <= k < idx ==> !(#[trigger] old(priority_group)@.members[k]).admits(
                                grace,
                            ),
                    decreases provider_count - idx,
                {
                    let ghost before = pg@;
                    assert(states(before)[idx as int] == before[idx as int]@);
                    let result = pg[idx].try_allocate(grace);
                    if !result.is_exhausted() {
                        *index = ring_next(idx, provider_count);
                        proof {
                            lemma_first_from_is(
                                old(priority_group)@.members,
                                start as int,
                                admitting(grace),
                                idx as int,
                            );
                            assert(states(pg@) =~= old(priority_group)@.members.update(
                                idx as int,
                                old(priority_group)@.members[idx as int].incremented(),
                            ));
                        }
                        return result;
                    }
                    assert(states(pg@) =~= states(before));
                    idx += 1;
                }
                *index = 0;
                proof {
                    lemma_first_from_none(
                        old(priority_group)@.members,
                        start as int,
                        admitting(grace),
                    );
                }
                ProviderAllocation::Exhausted
            },
        }
    }

    /// One walk through a group that commits nothing: the first member
    /// from the cursor on that would admit the request is shown. The
    /// cursor moves as in a committed walk.
    #[verifier::loop_isolation(false)]
    pub fn get_next_provider_from_group(
        priority_group: &mut ProviderPriorityGroup,
        grace: bool,
    ) -> (next: Option<ProviderConfig>)
        ensures
            final(priority_group)@ == old(priority_group)@.walk(grace, false).0,
            shown(next) == old(priority_group)@.walk_candidate(grace),
            next.is_none() == old(priority_group)@.walk(grace, false).1.is_none(),
            old(priority_group)@.wf() ==> final(priority_group)@.wf(),
    {
        proof {
            lemma_walk(old(priority_group)@, grace, false);
        }
        match priority_group {
            ProviderPriorityGroup::SingleProviderGroup(p) => {
                proof {
                    assert(old(priority_group)@.members[0] == p@);
                    assert(first_from(old(priority_group)@.members, 1, admitting(grace)).is_none());
                }
                p.get_next(grace)
            },
            ProviderPriorityGroup::MultiProviderGroup(index, pg) => {
                let provider_count = pg.len();
                let start = *index;
                let mut idx = start;
                while idx < provider_count
                    invariant
                        start <= idx,
                        idx <= provider_count || idx == start,
                        provider_count == pg.len(),
                        states(pg@) == old(priority_group)@.members,
                        start == old(priority_group)@.cursor,
                        forall|k: int|
                            start <= k < idx ==> !(#[trigger] old(priority_group)@.members[k]).admits(
                                grace,
                            ),
                    decreases provider_count - idx,
                {
                    assert(states(pg@)[idx as int] == pg@[idx as int]@);
                    let result = pg[idx].get_next(grace);
                    if result.is_some() {
                        *index = ring_next(idx, provider_count);
                        proof {
                            lemma_first_from_is(
                                old(priority_group)@.members,
                                start as int,
                                admitting(grace),
                                idx as int,
                            );
                        }
                        return result;
                    }
                    idx += 1;
                }
                *index = 0;
                proof {
                    lemma_first_from_none(
                        old(priority_group)@.members,
                        start as int,
                        admitting(grace),
                    );
                }
                None
            },
        }
    }

    /// Takes a connection on the provider that is due: groups are tried
    /// from the index on, each first strictly and then with grace. A
    /// group that is exhausted after serving moves the index behind it.
    #[verifier::loop_isolation(false)]
    pub fn acquire(&mut self) -> (allocation: ProviderAllocation)
        ensures
            final(self)@ == old(self)@.advance(true),
            allocation@ == old(self)@.allocation(),
            old(self)@.wf() ==> final(self)@.wf(),
    {
        proof {
            if old(self)@.wf() {
                lemma_advance(old(self)@, true);
            }
        }
        let main_idx = self.index;
        let provider_count = self.providers.len();
        let mut index = main_idx;
        while index < provider_count
            invariant
                main_idx <= index,
                index <= provider_count || index == main_idx,
                provider_count == self.providers.len(),
                self.index == main_idx,
                self@.groups =~= old(self)@.rewind(index as int),
                forall|k: int| main_idx <= k < index ==> !(#[trigger] old(self)@.groups[k]).has_room(),
            decreases provider_count - index,
        {
            let ghost group = old(self)@.groups[index as int];
            let ghost before = self.providers@;
            assert(self@.groups[index as int] == group);
            proof {
                lemma_select(group, true);
            }
            let allocation = {
                let without_grace_allocation = Self::acquire_next_provider_from_group(
                    &mut self.providers[index],
                    false,
                );
                if without_grace_allocation.is_exhausted() {
                    Self::acquire_next_provider_from_group(&mut self.providers[index], true)
                } else {
                    without_grace_allocation
                }
            };
            assert(self.providers[index as int]@ == group.select(true).0);
            assert(allocation@ == group.select_allocation());
            if !allocation.is_exhausted() {
                if self.providers[index].is_exhausted() {
                    self.index = ring_next(index, provider_count);
                }
                proof {
                    lemma_first_from_is(
                        old(self)@.groups,
                        main_idx as int,
                        roomy(),
                        index as int,
                    );
                    assert(self@.groups =~= old(self)@.advance(true).groups);
                }
                return allocation;
            }
            proof {
                assert(group.select(true).1.is_none());
                assert(self@.groups[index as int] == group.rewound());
                assert forall|k: int| 0 <= k < provider_count implies self@.groups[k] == old(
                    self,
                )@.rewind(index + 1)[k] by {
                    if k != index {
                        assert(self.providers@[k] == before[k]);
                        assert(group_states(before)[k] == old(self)@.rewind(index as int)[k]);
                    }
                }
                assert(self@.groups =~= old(self)@.rewind(index + 1));
            }
            index += 1;
        }
        proof {
            lemma_first_from_none(old(self)@.groups, main_idx as int, roomy());
            assert(old(self)@.rewind(index as int) =~= old(self)@.rewind(provider_count as int));
        }
        ProviderAllocation::Exhausted
    }

    /// Shows the provider that is due, for a redirect, and takes no
    /// connection. Cursors and index move as in `acquire`, so that
    /// successive calls rotate.
    #[verifier::loop_isolation(false)]
    pub fn get_next(&mut self) -> (next: Option<ProviderConfig>)
        ensures
            final(self)@ == old(self)@.peek(),
            shown(next) == old(self)@.candidate(),
            old(self)@.wf() ==> final(self)@.wf(),
    {
        proof {
            if old(self)@.wf() {
                lemma_advance(old(self)@, false);
            }
        }
        let main_idx = self.index;
        let provider_count = self.providers.len();
        let mut index = main_idx;
        while index < provider_count
            invariant
                main_idx <= index,
                index <= provider_count || index == main_idx,
                provider_count == self.providers.len(),
                self.index == main_idx,
                self@.groups =~= old(self)@.rewind(index as int),
                forall|k: int| main_idx <= k < index ==> !(#[trigger] old(self)@.groups[k]).has_room(),
            decreases provider_count - index,
        {
            let ghost group = old(self)@.groups[index as int];
            let ghost before = self.providers@;
            assert(self@.groups[index as int] == group);
            proof {
                lemma_select(group, false);
            }
            let allocation = {
                let config = Self::get_next_provider_from_group(&mut self.providers[index], false);
                if config.is_none() {
                    Self::get_next_provider_from_group(&mut self.providers[index], true)
                } else {
                    config
                }
            };
            assert(self.providers[index as int]@ == group.select(false).0);
            assert(shown(allocation) == group.select_candidate());
            match allocation {
                None => {},
                Some(config) => {
                    if self.providers[index].is_exhausted() {
                        self.index = ring_next(index, provider_count);
                    }
                    proof {
                        lemma_first_from_is(
                            old(self)@.groups,
                            main_idx as int,
                            roomy(),
                            index as int,
                        );
                        assert(self@.groups =~= old(self)@.advance(false).groups);
                    }
                    return Some(config);
                },
            }
            proof {
                assert(group.select(false).1.is_none());
                assert(self@.groups[index as int] == group.rewound());
                assert forall|k: int| 0 <= k < provider_count implies self@.groups[k] == old(
                    self,
                )@.rewind(index + 1)[k] by {
                    if k != index {
                        assert(self.providers@[k] == before[k]);
                        assert(group_states(before)[k] == old(self)@.rewind(index as int)[k]);
                    }
                }
                assert(self@.groups =~= old(self)@.rewind(index + 1));
            }
            index += 1;
        }
        proof {
            lemma_first_from_none(old(self)@.groups, main_idx as int, roomy());
            assert(old(self)@.rewind(index as int) =~= old(self)@.rewind(provider_count as int));
        }
        None
    }

    /// The place of the first provider called `name`: its group and its
    /// place in the group.
    pub fn locate(&self, name: &String) -> (place: Option<(usize, usize)>)
        ensures
            match place {
                Some((g, m)) => self@.locate(name@) == Some((g as int, m as int)),
                None => self@.locate(name@).is_none(),
            },
    {
        proof {
            lemma_locate(self@, name@);
        }
        let mut g: usize = 0;
        while g < self.providers.len()
            invariant
                g <= self.providers.len(),
                forall|h: int| 0 <= h < g ==> !(#[trigger] self@.groups[h]).has_member(name@),
            decreases self.providers.len() - g,
        {
            assert(self@.groups[g as int] == self.providers[g as int]@);
            match self.providers[g].position(name) {
                Some(m) => {
                    proof {
                        lemma_first_from_is(
                            self@.groups,
                            0,
                            holding(name@),
                            g as int,
                        );
                    }
                    return Some((g, m));
                },
                None => {},
            }
            g += 1;
        }
        proof {
            lemma_first_from_none(self@.groups, 0, holding(name@));
        }
        None
    }

    /// The number of groups.
    pub fn group_count(&self) -> (count: usize)
        ensures
            count == self@.groups.len(),
    {
        self.providers.len()
    }

    /// The number of members of group `g`.
    pub fn member_count(&self, g: usize) -> (count: usize)
        requires
            g < self@.groups.len(),
        ensures
            count == self@.groups[g as int].members.len(),
    {
        self.providers[g].len()
    }

    /// The member at place `m` of group `g`.
    pub fn member(&self, g: usize, m: usize) -> (member: &ProviderConfigWrapper)
        requires
            self@.has_place(g as int, m as int),
        ensures
            member@ == self@.member(g as int, m as int),
    {
        self.providers[g].member(m)
    }

    /// The member at place `m` of group `g` takes a slot whatever its
    /// limit says.
    pub fn force_allocate_at(&mut self, g: usize, m: usize) -> (allocation: ProviderAllocation)
        requires
            old(self)@.has_place(g as int, m as int),
        ensures
            final(self)@ == old(self)@.with_member(
                g as int,
                m as int,
                old(self)@.member(g as int, m as int).incremented(),
            ),
            allocation@ == AllocationState::Available(
                old(self)@.member(g as int, m as int).incremented(),
            ),
    {
        let allocation = self.providers[g].force_allocate_at(m);
        assert(final(self)@.groups =~= old(self)@.with_member(
            g as int,
            m as int,
            old(self)@.member(g as int, m as int).incremented(),
        ).groups);
        allocation
    }

    /// The first provider called `provider_name` gives one slot back.
    /// Without such a provider nothing changes.
    pub fn release(&mut self, provider_name: &str)
        ensures
            final(self)@ == old(self)@.release(provider_name@),
            old(self)@.wf() ==> final(self)@.wf(),
    {
        let name = provider_name.to_owned();
        proof {
            lemma_locate(self@, name@);
        }
        match self.locate(&name) {
            Some((g, m)) => {
                proof {
                    if self@.wf() {
                        lemma_with_member(
                            self@,
                            g as int,
                            m as int,
                            self@.member(g as int, m as int).released(),
                        );
                    }
                }
                self.providers[g].release_at(m);
                assert(final(self)@.groups =~= old(self)@.release(provider_name@).groups);
            },
            None => {},
        }
    }
}

/// The lineup of one input, of either shape.
#[derive(Debug)]
pub enum ProviderLineup {
    Single(SingleProviderLineup),
    Multi(MultiProviderLineup),
}

impl View for ProviderLineup {
    type V = LineupState;

    open spec fn view(&self) -> LineupState {
        match self {
            ProviderLineup::Single(lineup) => lineup@,
            ProviderLineup::Multi(lineup) => lineup@,
        }
    }
}

impl ProviderLineup {
    /// Shows the provider that is due and takes no connection.
    pub fn get_next(&mut self) -> (next: Option<ProviderConfig>)
        ensures
            final(self)@ == old(self)@.peek(),
            shown(next) == old(self)@.candidate(),
            old(self)@.wf() ==> final(self)@.wf(),
    {
        match self {
            ProviderLineup::Single(lineup) => lineup.get_next(),
            ProviderLineup::Multi(lineup) => lineup.get_next(),
        }
    }

    /// Takes a connection on the provider that is due.
    pub fn acquire(&mut self) -> (allocation: ProviderAllocation)
        ensures
            final(self)@ == old(self)@.advance(true),
            allocation@ == old(self)@.allocation(),
            old(self)@.wf() ==> final(self)@.wf(),
    {
        match self {
            ProviderLineup::Single(lineup) => lineup.acquire(),
            ProviderLineup::Multi(lineup) => lineup.acquire(),
        }
    }

    /// The first provider called `provider_name` gives one slot back.
    /// Without such a provider nothing changes.
    pub fn release(&mut self, provider_name: &str)
        ensures
            final(self)@ == old(self)@.release(provider_name@),
            old(self)@.wf() ==> final(self)@.wf(),
    {
        match self {
            ProviderLineup::Single(lineup) => lineup.release(provider_name),
            ProviderLineup::Multi(lineup) => lineup.release(provider_name),
        }
    }

    /// The place of the first provider called `name`.
    pub fn locate(&self, name: &String) -> (place: Option<(usize, usize)>)
        ensures
            match place {
                Some((g, m)) => self@.locate(name@) == Some((g as int, m as int)),
                None => self@.locate(name@).is_none(),
            },
    {
        match self {
            ProviderLineup::Single(lineup) => {
                let provider = lineup.provider();
                proof {
                    lemma_solo(provider@, name@);
                }
                if provider.is_named(name) {
                    Some((0, 0))
                } else {
                    None
                }
            },
            ProviderLineup::Multi(lineup) => lineup.locate(name),
        }
    }

    /// The number of groups.
    pub fn group_count(&self) -> (count: usize)
        ensures
            count == self@.groups.len(),
    {
        match self {
            ProviderLineup::Single(lineup) => {
                proof {
                    lineup.lemma_single();
                }
                1
            },
            ProviderLineup::Multi(lineup) => lineup.group_count(),
        }
    }

    /// The number of members of group `g`.
    pub fn member_count(&self, g: usize) -> (count: usize)
        requires
            g < self@.groups.len(),
        ensures
            count == self@.groups[g as int].members.len(),
    {
        match self {
            ProviderLineup::Single(lineup) => {
                proof {
                    lineup.lemma_single();
                }
                1
            },
            ProviderLineup::Multi(lineup) => lineup.member_count(g),
        }
    }

    /// The member at place `m` of group `g`.
    pub fn member(&self, g: usize, m: usize) -> (member: &ProviderConfigWrapper)
        requires
            self@.has_place(g as int, m as int),
        ensures
            member@ == self@.member(g as int, m as int),
    {
        match self {
            ProviderLineup::Single(lineup) => lineup.provider(),
            ProviderLineup::Multi(lineup) => lineup.member(g, m),
        }
    }

    /// The member at place `m` of group `g` takes a slot whatever its
    /// limit says.
    pub fn force_allocate_at(&mut self, g: usize, m: usize) -> (allocation: ProviderAllocation)
        requires
            old(self)@.has_place(g as int, m as int),
        ensures
            final(self)@ == old(self)@.with_member(
                g as int,
                m as int,
                old(self)@.member(g as int, m as int).incremented(),
            ),
            allocation@ == AllocationState::Available(
                old(self)@.member(g as int, m as int).incremented(),
            ),
    {
        match self {
            ProviderLineup::Single(lineup) => {
                proof {
                    lineup.lemma_single();
                }
                lineup.force_allocate()
            },
            ProviderLineup::Multi(lineup) => lineup.force_allocate_at(g, m),
        }
    }
}

} // verus!
