//! The registry of lineups, and the guard that stands for a held connection.

use crate::config::ConfigInput;
use crate::grouping::{
    grouped, input_providers, lemma_filter_holds, lemma_filter_members, lemma_grouped_wf, serves,
};
use crate::lineup::{
    lemma_locate, lemma_solo, lemma_with_member, shown, LineupState, MultiProviderLineup,
    ProviderLineup, SingleProviderLineup,
};
use crate::provider::{AllocationState, ProviderAllocation, ProviderConfig, ProviderState};
use crate::search::{first_from, lemma_first_from, lemma_first_from_is, lemma_first_from_none};
use vstd::prelude::*;

verus! {

/// The predicate "holds a provider called `name`".
pub open spec fn containing(name: Seq<char>) -> spec_fn(LineupState) -> bool {
    |l: LineupState| l.contains(name)
}

/// `lineup` is what an input is registered as: the lineup of its
/// primary endpoint alone if it has no alias, else its providers sorted
/// into groups by priority. No provider has a connection.
pub open spec fn built_from(cfg: ConfigInput, lineup: LineupState) -> bool {
    if cfg.has_aliases() {
        &&& lineup.index == 0
        &&& grouped(input_providers(cfg), lineup.groups)
    } else {
        lineup == LineupState::solo(ProviderState::of_input(cfg))
    }
}

/// A lineup that an input is registered as is well formed, and none of
/// its providers has a connection.
pub proof fn lemma_built(cfg: ConfigInput, lineup: LineupState)
    requires
        built_from(cfg, lineup),
    ensures
        lineup.wf(),
        lineup.idle(),
        lineup.contains(cfg.name@),
{
    let all = input_providers(cfg);
    if cfg.has_aliases() {
        lemma_grouped_wf(all, lineup.groups);
        assert forall|g: int, m: int| lineup.has_place(g, m) implies (#[trigger] lineup.member(
            g,
            m,
        )).current_connections == 0 by {
            lemma_filter_members(all, lineup.groups[g].priority());
            let e = lineup.groups[g].members[m];
            assert(all.contains(e));
        }
        assert(serves(lineup.groups, all[0].priority));
        let g = choose|g: int|
            0 <= g < lineup.groups.len() && (#[trigger] lineup.groups[g]).priority()
                == all[0].priority;
        lemma_filter_holds(all, 0);
        let m = choose|m: int|
            0 <= m < lineup.groups[g].members.len() && lineup.groups[g].members[m] == all[0];
        assert(lineup.groups[g].members[m].name == cfg.name@);
        assert(lineup.groups[g].has_member(cfg.name@));
    } else {
        lemma_solo(ProviderState::of_input(cfg), cfg.name@);
        assert(lineup.groups[0].members[0].name == cfg.name@);
        assert(lineup.groups[0].has_member(cfg.name@));
    }
}

/// The values of a list of lineups.
pub open spec fn lineup_states(lineups: Seq<ProviderLineup>) -> Seq<LineupState> {
    Seq::new(lineups.len(), |i: int| lineups[i]@)
}

/// The manager that holds these lineups.
pub open spec fn registry(lineups: Seq<ProviderLineup>) -> ManagerState {
    ManagerState { lineups: lineup_states(lineups) }
}

/// Where a provider stands: its lineup, its group in the lineup, and
/// its place in the group.
#[derive(Clone, Copy, Debug, PartialEq, Eq, Structural)]
pub struct ProviderPosition {
    pub lineup: usize,
    pub group: usize,
    pub member: usize,
}

/// The value of a manager: its lineups in the order they were added.
pub struct ManagerState {
    pub lineups: Seq<LineupState>,
}

impl ManagerState {
    /// Every lineup is well formed.
    pub open spec fn wf(self) -> bool {
        forall|l: int| 0 <= l < self.lineups.len() ==> (#[trigger] self.lineups[l]).wf()
    }

    /// Some provider goes by `name`.
    pub open spec fn knows(self, name: Seq<char>) -> bool {
        exists|l: int| 0 <= l < self.lineups.len() && (#[trigger] self.lineups[l]).contains(name)
    }

    /// The first lineup that holds a provider called `name`.
    pub open spec fn lineup_of(self, name: Seq<char>) -> Option<int> {
        first_from(self.lineups, 0, containing(name))
    }

    /// The place of the first provider called `name`, lineups read in
    /// the order they were added.
    pub open spec fn locate(self, name: Seq<char>) -> Option<(int, int, int)> {
        match self.lineup_of(name) {
            Some(l) => match self.lineups[l].locate(name) {
                Some((g, m)) => Some((l, g, m)),
                None => None,
            },
            None => None,
        }
    }

    /// The first provider called `name`.
    pub open spec fn provider(self, name: Seq<char>) -> Option<ProviderState> {
        match self.locate(name) {
            Some((l, g, m)) => Some(self.lineups[l].member(g, m)),
            None => None,
        }
    }

    /// The manager with `lineup` in place `l`.
    pub open spec fn with_lineup(self, l: int, lineup: LineupState) -> ManagerState {
        ManagerState { lineups: self.lineups.update(l, lineup) }
    }

    /// The manager after a connection was asked for under `name`: the
    /// lineup that holds the name has made one committed walk.
    pub open spec fn acquire(self, name: Seq<char>) -> ManagerState {
        match self.lineup_of(name) {
            Some(l) => self.with_lineup(l, self.lineups[l].advance(true)),
            None => self,
        }
    }

    /// What asking for a connection under `name` hands out.
    pub open spec fn allocation(self, name: Seq<char>) -> AllocationState {
        match self.lineup_of(name) {
            Some(l) => self.lineups[l].allocation(),
            None => AllocationState::Exhausted,
        }
    }

    /// The manager after the first provider called `name` took a slot
    /// whatever its limit.
    pub open spec fn force(self, name: Seq<char>) -> ManagerState {
        match self.locate(name) {
            Some((l, g, m)) => self.with_lineup(
                l,
                self.lineups[l].with_member(g, m, self.lineups[l].member(g, m).incremented()),
            ),
            None => self,
        }
    }

    /// What forcing a connection on `name` hands out.
    pub open spec fn forced_allocation(self, name: Seq<char>) -> AllocationState {
        match self.provider(name) {
            Some(p) => AllocationState::Available(p.incremented()),
            None => AllocationState::Exhausted,
        }
    }

    /// The manager after the next provider was asked for under `name`.
    pub open spec fn peek(self, name: Seq<char>) -> ManagerState {
        match self.lineup_of(name) {
            Some(l) => self.with_lineup(l, self.lineups[l].peek()),
            None => self,
        }
    }

    /// The provider that asking for the next one under `name` shows.
    pub open spec fn candidate(self, name: Seq<char>) -> Option<ProviderState> {
        match self.lineup_of(name) {
            Some(l) => self.lineups[l].candidate(),
            None => None,
        }
    }

    /// The manager after the first provider called `name` gave a slot
    /// back. With no such provider nothing changes.
    pub open spec fn release(self, name: Seq<char>) -> ManagerState {
        match self.lineup_of(name) {
            Some(l) => self.with_lineup(l, self.lineups[l].release(name)),
            None => self,
        }
    }

    /// The manager after the holder of `allocation` let go of it.
    pub open spec fn give_back(self, allocation: AllocationState) -> ManagerState {
        match allocation.provider() {
            Some(p) => self.release(p.name),
            None => self,
        }
    }

    /// The first provider called `name` has passed its limit.
    pub open spec fn is_over_limit(self, name: Seq<char>) -> bool {
        match self.provider(name) {
            Some(p) => p.is_over_limit(),
            None => false,
        }
    }

    /// No provider has a connection.
    pub open spec fn idle(self) -> bool {
        forall|l: int| 0 <= l < self.lineups.len() ==> (#[trigger] self.lineups[l]).idle()
    }

    /// Every provider has taken no more than its grace slot above its
    /// limit.
    pub open spec fn within_grace(self) -> bool {
        forall|l: int| 0 <= l < self.lineups.len() ==> (#[trigger] self.lineups[l]).within_grace()
    }

    /// The provider at place `m` of group `g` of lineup `l`.
    pub open spec fn member(self, l: int, g: int, m: int) -> ProviderState {
        self.lineups[l].member(g, m)
    }

    /// `(l, g, m)` is the place of a provider.
    pub open spec fn has_place(self, l: int, g: int, m: int) -> bool {
        0 <= l < self.lineups.len() && self.lineups[l].has_place(g, m)
    }

    /// No two providers share a name.
    pub open spec fn names_distinct(self) -> bool {
        forall|l: int, g: int, m: int, i: int, h: int, k: int|
            self.has_place(l, g, m) && self.has_place(i, h, k) && (l != i || g != h || m != k) ==> (
            #[trigger] self.member(l, g, m)).name != (#[trigger] self.member(i, h, k)).name
    }

    /// The providers of the first `n` lineups, in their order.
    pub open spec fn providers_upto(self, n: int) -> Seq<ProviderState>
        decreases n,
    {
        if n <= 0 {
            Seq::empty()
        } else {
            self.providers_upto(n - 1) + self.lineups[n - 1].providers()
        }
    }

    /// All providers, lineup by lineup.
    pub open spec fn providers(self) -> Seq<ProviderState> {
        self.providers_upto(self.lineups.len() as int)
    }
}

/// The providers that have a connection, in their order, each as its
/// name with its count.
pub open spec fn active(providers: Seq<ProviderState>) -> Seq<(Seq<char>, u16)>
    decreases providers.len(),
{
    if providers.len() == 0 {
        Seq::empty()
    } else {
        let rest = active(providers.drop_last());
        let p = providers.last();
        if p.current_connections > 0 {
            rest.push((p.name, p.current_connections))
        } else {
            rest
        }
    }
}

/// What a list of counts shows: the names as their characters.
pub open spec fn count_texts(counts: Seq<(String, u16)>) -> Seq<(Seq<char>, u16)> {
    Seq::new(counts.len(), |i: int| (counts[i].0@, counts[i].1))
}

/// A list of counts read as a map from name to count. Where a name
/// comes twice, the later count stands.
pub open spec fn by_name(counts: Seq<(Seq<char>, u16)>) -> Map<Seq<char>, u16>
    decreases counts.len(),
{
    if counts.len() == 0 {
        Map::empty()
    } else {
        by_name(counts.drop_last()).insert(counts.last().0, counts.last().1)
    }
}

/// The connection counts of `providers` by name, for those that have a
/// connection. Where several such providers share a name, the last one
/// is counted.
pub open spec fn tally(providers: Seq<ProviderState>) -> Map<Seq<char>, u16> {
    by_name(active(providers))
}

/// The active providers with one provider more.
pub proof fn lemma_active_push(providers: Seq<ProviderState>, p: ProviderState)
    ensures
        active(providers.push(p)) == if p.current_connections > 0 {
            active(providers).push((p.name, p.current_connections))
        } else {
            active(providers)
        },
{
    assert(providers.push(p).drop_last() =~= providers);
}

/// Tallying one provider more.
pub proof fn lemma_tally_push(providers: Seq<ProviderState>, p: ProviderState)
    ensures
        tally(providers.push(p)) == if p.current_connections > 0 {
            tally(providers).insert(p.name, p.current_connections)
        } else {
            tally(providers)
        },
{
    lemma_active_push(providers, p);
    if p.current_connections > 0 {
        let entry = (p.name, p.current_connections);
        assert(active(providers).push(entry).drop_last() =~= active(providers));
    }
}

/// `lineup_of` finds a lineup exactly when the name is known; that
/// lineup holds the name and none before it does. `locate` then finds
/// the place of a provider of that name in it.
pub proof fn lemma_lineup_of(s: ManagerState, name: Seq<char>)
    ensures
        s.lineup_of(name).is_some() == s.knows(name),
        s.locate(name).is_some() == s.knows(name),
        s.provider(name).is_some() == s.knows(name),
        s.lineup_of(name) matches Some(l) ==> {
            &&& 0 <= l < s.lineups.len()
            &&& s.lineups[l].contains(name)
            &&& forall|k: int| 0 <= k < l ==> !(#[trigger] s.lineups[k]).contains(name)
        },
        s.locate(name) matches Some((l, g, m)) ==> {
            &&& s.lineup_of(name) == Some(l)
            &&& s.lineups[l].locate(name) == Some((g, m))
            &&& s.lineups[l].has_place(g, m)
            &&& s.lineups[l].member(g, m).name == name
        },
{
    lemma_first_from(s.lineups, 0, containing(name));
    match s.lineup_of(name) {
        Some(l) => {
            lemma_locate(s.lineups[l], name);
        },
        None => {},
    }
}

/// The lineups of all inputs.
pub struct ActiveProviderManager {
    providers: Vec<ProviderLineup>,
}

impl View for ActiveProviderManager {
    type V = ManagerState;

    closed spec fn view(&self) -> ManagerState {
        registry(self.providers@)
    }
}

/// A connection that was asked for: the allocation, to be handed back
/// to the manager once when the connection ends.
pub struct ProviderConnectionGuard {
    allocation: ProviderAllocation,
}

impl View for ProviderConnectionGuard {
    type V = AllocationState;

    closed spec fn view(&self) -> AllocationState {
        self.allocation@
    }
}

impl ProviderConnectionGuard {
    /// The allocation that the guard stands for.
    pub fn allocation(&self) -> (allocation: &ProviderAllocation)
        ensures
            allocation@ == self@,
    {
        &self.allocation
    }

    /// The name of the provider that the connection runs on.
    pub fn get_provider_name(&self) -> (name: Option<String>)
        ensures
            match name {
                Some(n) => self@.provider() matches Some(p) && p.name == n@,
                None => self@ is Exhausted,
            },
    {
        match &self.allocation {
            ProviderAllocation::Exhausted => None,
            ProviderAllocation::Available(cfg) | ProviderAllocation::GracePeriod(cfg) => {
                Some(cfg.name_text())
            },
        }
    }

    /// The provider that the connection runs on, as it stood when the
    /// slot was taken.
    pub fn get_provider_config(&self) -> (provider: Option<ProviderConfig>)
        ensures
            shown(provider) == self@.provider(),
    {
        match &self.allocation {
            ProviderAllocation::Exhausted => None,
            ProviderAllocation::Available(cfg) | ProviderAllocation::GracePeriod(cfg) => {
                Some(cfg.snapshot())
            },
        }
    }
}

impl ActiveProviderManager {
    /// A manager with one lineup for each input, in their order.
    pub fn new(inputs: &Vec<ConfigInput>) -> (manager: Self)
        ensures
            manager@.wf(),
            manager@.idle(),
            manager@.lineups.len() == inputs.len(),
            forall|i: int|
                0 <= i < inputs.len() ==> built_from(#[trigger] inputs[i], manager@.lineups[i]),
    {
        let mut this = Self { providers: Vec::new() };
        let mut i: usize = 0;
        while i < inputs.len()
            invariant
                i <= inputs.len(),
                this@.wf(),
                this@.idle(),
                this@.lineups.len() == i,
                forall|k: int| 0 <= k < i ==> built_from(#[trigger] inputs[k], this@.lineups[k]),
            decreases inputs.len() - i,
        {
            let ghost before = this@;
            this.add_provider(&inputs[i]);
            proof {
                assert forall|k: int| 0 <= k < i + 1 implies built_from(
                    #[trigger] inputs[k],
                    this@.lineups[k],
                ) by {
                    if k < i {
                        assert(this@.lineups[k] == before.lineups[k]);
                    }
                }
            }
            i += 1;
        }
        this
    }

    /// Registers an input, behind those that are there.
    pub fn add_provider(&mut self, input: &ConfigInput)
        ensures
            final(self)@.lineups == old(self)@.lineups.push(final(self)@.lineups.last()),
            built_from(*input, final(self)@.lineups.last()),
            final(self)@.lineups.last().wf(),
            final(self)@.lineups.last().idle(),
            old(self)@.wf() ==> final(self)@.wf(),
            old(self)@.idle() ==> final(self)@.idle(),
    {
        let has_aliases = match &input.aliases {
            Some(aliases) => aliases.len() > 0,
            None => false,
        };
        let lineup = if has_aliases {
            ProviderLineup::Multi(MultiProviderLineup::new(input))
        } else {
            ProviderLineup::Single(SingleProviderLineup::new(input))
        };
        proof {
            lemma_built(*input, lineup@);
        }
        self.providers.push(lineup);
        proof {
            assert(final(self)@.lineups =~= old(self)@.lineups.push(lineup@));
        }
    }

    /// The place of the first provider called `name` in `providers`.
    pub fn get_provider_config(name: &str, providers: &Vec<ProviderLineup>) -> (place: Option<
        ProviderPosition,
    >)
        ensures
            match place {
                Some(at) => registry(providers@).locate(name@) == Some(
                    (at.lineup as int, at.group as int, at.member as int),
                ),
                None => registry(providers@).locate(name@).is_none(),
            },
    {
        let ghost state = registry(providers@);
        let wanted = name.to_owned();
        proof {
            lemma_lineup_of(state, name@);
        }
        let mut l: usize = 0;
        while l < providers.len()
            invariant
                l <= providers.len(),
                wanted@ == name@,
                state == registry(providers@),
                state.lineups.len() == providers.len(),
                forall|k: int| 0 <= k < providers.len() ==> state.lineups[k] == providers[k]@,
                forall|k: int| 0 <= k < l ==> !(#[trigger] state.lineups[k]).contains(name@),
            decreases providers.len() - l,
        {
            proof {
                lemma_locate(state.lineups[l as int], name@);
            }
            match providers[l].locate(&wanted) {
                Some((g, m)) => {
                    proof {
                        lemma_first_from_is(state.lineups, 0, containing(name@), l as int);
                    }
                    return Some(ProviderPosition { lineup: l, group: g, member: m });
                },
                None => {},
            }
            l += 1;
        }
        proof {
            lemma_first_from_none(state.lineups, 0, containing(name@));
        }
        None
    }

    /// Takes a connection on the provider called `provider_name`,
    /// whatever its limit says. An unknown name gets nothing.
    pub fn force_exact_acquire_connection(&mut self, provider_name: &str) -> (guard:
        ProviderConnectionGuard)
        ensures
            final(self)@ == old(self)@.force(provider_name@),
            guard@ == old(self)@.forced_allocation(provider_name@),
            (guard@ is Available) == old(self)@.knows(provider_name@),
            !(guard@ is GracePeriod),
            old(self)@.wf() ==> final(self)@.wf(),
    {
        proof {
            lemma_lineup_of(self@, provider_name@);
        }
        let allocation = match Self::get_provider_config(provider_name, &self.providers) {
            None => ProviderAllocation::Exhausted,
            Some(at) => {
                proof {
                    let lineup = self@.lineups[at.lineup as int];
                    if self@.wf() {
                        lemma_with_member(
                            lineup,
                            at.group as int,
                            at.member as int,
                            lineup.member(at.group as int, at.member as int).incremented(),
                        );
                    }
                }
                let allocation = self.providers[at.lineup].force_allocate_at(at.group, at.member);
                proof {
                    assert(final(self)@.lineups =~= old(self)@.force(provider_name@).lineups);
                }
                allocation
            },
        };
        ProviderConnectionGuard { allocation }
    }

    /// Asks the lineup that holds `input_name` for a connection. An
    /// unknown name gets nothing.
    pub fn acquire_connection(&mut self, input_name: &str) -> (guard: ProviderConnectionGuard)
        ensures
            final(self)@ == old(self)@.acquire(input_name@),
            guard@ == old(self)@.allocation(input_name@),
            old(self)@.wf() ==> final(self)@.wf(),
    {
        proof {
            lemma_lineup_of(self@, input_name@);
        }
        let allocation = match Self::get_provider_config(input_name, &self.providers) {
            None => ProviderAllocation::Exhausted,
            Some(at) => {
                let allocation = self.providers[at.lineup].acquire();
                proof {
                    assert(final(self)@.lineups =~= old(self)@.acquire(input_name@).lineups);
                }
                allocation
            },
        };
        ProviderConnectionGuard { allocation }
    }

    /// Shows the provider that is due in the lineup that holds
    /// `input_name`, for a redirect. Takes no connection; successive
    /// calls rotate.
    pub fn get_next_provider(&mut self, input_name: &str) -> (next: Option<ProviderConfig>)
        ensures
            final(self)@ == old(self)@.peek(input_name@),
            shown(next) == old(self)@.candidate(input_name@),
            old(self)@.wf() ==> final(self)@.wf(),
    {
        proof {
            lemma_lineup_of(self@, input_name@);
        }
        match Self::get_provider_config(input_name, &self.providers) {
            None => None,
            Some(at) => {
                let cfg = self.providers[at.lineup].get_next();
                proof {
                    assert(final(self)@.lineups =~= old(self)@.peek(input_name@).lineups);
                }
                cfg
            },
        }
    }

    /// The first provider called `provider_name` gives one slot back.
    /// An unknown name changes nothing.
    pub fn release_connection(&mut self, provider_name: &str)
        ensures
            final(self)@ == old(self)@.release(provider_name@),
            !old(self)@.knows(provider_name@) ==> final(self)@ == old(self)@,
            old(self)@.wf() ==> final(self)@.wf(),
    {
        proof {
            lemma_lineup_of(self@, provider_name@);
        }
        match Self::get_provider_config(provider_name, &self.providers) {
            Some(at) => {
                self.providers[at.lineup].release(provider_name);
                proof {
                    assert(final(self)@.lineups =~= old(self)@.release(provider_name@).lineups);
                }
            },
            None => {},
        }
    }

    /// Ends the connection that `guard` stands for: its provider gives
    /// the slot back. A guard that holds nothing changes nothing.
    pub fn release_guard(&mut self, guard: ProviderConnectionGuard)
        ensures
            final(self)@ == old(self)@.give_back(guard@),
            old(self)@.wf() ==> final(self)@.wf(),
    {
        match guard.get_provider_name() {
            Some(name) => {
                self.release_connection(name.as_str());
            },
            None => {},
        }
    }

    /// The providers that have a connection, each as its name with its
    /// count, in the order of the lineups; nothing when no provider
    /// has a connection.
    pub fn active_connections(&self) -> (counts: Option<Vec<(String, u16)>>)
        ensures
            match counts {
                Some(list) => count_texts(list@) == active(self@.providers()) && list.len() > 0,
                None => active(self@.providers()).len() == 0,
            },
    {
        let mut result: Vec<(String, u16)> = Vec::new();
        let mut l: usize = 0;
        while l < self.providers.len()
            invariant
                l <= self.providers.len(),
                count_texts(result@) == active(self@.providers_upto(l as int)),
            decreases self.providers.len() - l,
        {
            let lineup = &self.providers[l];
            assert(lineup@ == self@.lineups[l as int]);
            let ghost done = self@.providers_upto(l as int);
            let groups = lineup.group_count();
            let mut g: usize = 0;
            while g < groups
                invariant
                    g <= groups,
                    groups == lineup@.groups.len(),
                    count_texts(result@) == active(done + lineup@.members_upto(g as int)),
                decreases groups - g,
            {
                let ghost passed = done + lineup@.members_upto(g as int);
                let ghost group = lineup@.groups[g as int].members;
                let members = lineup.member_count(g);
                let mut m: usize = 0;
                proof {
                    assert(passed + group.take(0) =~= passed);
                }
                while m < members
                    invariant
                        m <= members,
                        g < groups,
                        groups == lineup@.groups.len(),
                        members == group.len(),
                        group == lineup@.groups[g as int].members,
                        count_texts(result@) == active(passed + group.take(m as int)),
                    decreases members - m,
                {
                    let provider = lineup.member(g, m);
                    let count = provider.config().get_connection();
                    proof {
                        lemma_active_push(passed + group.take(m as int), group[m as int]);
                        assert((passed + group.take(m as int)).push(group[m as int]) =~= passed
                            + group.take(m + 1));
                    }
                    if count > 0 {
                        let ghost before = result@;
                        result.push((provider.config().name_text(), count));
                        proof {
                            assert(count_texts(result@) =~= count_texts(before).push(
                                (group[m as int].name, count),
                            ));
                        }
                    }
                    m += 1;
                }
                proof {
                    assert(group.take(members as int) =~= group);
                    assert(passed + group =~= done + lineup@.members_upto(g + 1));
                }
                g += 1;
            }
            l += 1;
        }
        if result.len() == 0 {
            None
        } else {
            Some(result)
        }
    }

    /// Whether the first provider called `provider_name` has passed its
    /// limit. An unknown name has not.
    pub fn is_over_limit(&self, provider_name: &str) -> (over: bool)
        ensures
            over == self@.is_over_limit(provider_name@),
    {
        proof {
            lemma_lineup_of(self@, provider_name@);
        }
        match Self::get_provider_config(provider_name, &self.providers) {
            Some(at) => self.providers[at.lineup].member(at.group, at.member).is_over_limit(),
            None => false,
        }
    }
}

} // verus!
