//! What holds of a provider's counter over any sequence of operations,
//! of a lineup and a manager from one operation to the next, and of the
//! list of active connections.

use crate::config::ConfigInput;
use crate::group::{admitting, lemma_select, lemma_walk};
use crate::lineup::{lemma_advance_members, lemma_locate, lemma_solo, roomy, LineupState};
use crate::manager::{
    active, built_from, lemma_built, lemma_lineup_of, lemma_tally_push, tally, ManagerState,
};
use crate::provider::{AllocationState, Grant, ProviderState};
use crate::search::{first_from, lemma_first_from};
use vstd::prelude::*;

verus! {

/// One operation on a provider's counter.
pub enum ProviderOp {
    /// A request for a slot, strict or with grace.
    TryAllocate(bool),
    /// A slot taken whatever the limit says.
    ForceAllocate,
    /// A slot given back.
    Release,
}

impl ProviderState {
    /// `op` takes a slot in this state.
    pub open spec fn takes(self, op: ProviderOp) -> bool {
        match op {
            ProviderOp::TryAllocate(grace) => self.admits(grace),
            ProviderOp::ForceAllocate => true,
            ProviderOp::Release => false,
        }
    }

    /// The provider after `op`.
    pub open spec fn apply(self, op: ProviderOp) -> ProviderState {
        match op {
            ProviderOp::TryAllocate(grace) => self.try_allocate(grace),
            ProviderOp::ForceAllocate => self.incremented(),
            ProviderOp::Release => self.released(),
        }
    }

    /// The provider after `ops`, first to last.
    pub open spec fn run(self, ops: Seq<ProviderOp>) -> ProviderState
        decreases ops.len(),
    {
        if ops.len() == 0 {
            self
        } else {
            self.run(ops.drop_last()).apply(ops.last())
        }
    }

    /// The slots that `ops` took less the slots that `ops` gave back.
    pub open spec fn held(self, ops: Seq<ProviderOp>) -> int
        decreases ops.len(),
    {
        if ops.len() == 0 {
            0
        } else {
            let before = self.run(ops.drop_last());
            let earlier = self.held(ops.drop_last());
            if ops.last() is Release {
                earlier - 1
            } else if before.takes(ops.last()) {
                earlier + 1
            } else {
                earlier
            }
        }
    }

    /// Every release in `ops` gives back a slot that was taken before it.
    pub open spec fn matched(self, ops: Seq<ProviderOp>) -> bool {
        forall|k: int| 0 <= k <= ops.len() ==> self.held(#[trigger] ops.take(k)) >= 0
    }
}

/// `n` strict requests.
pub open spec fn strict_requests(n: int) -> Seq<ProviderOp> {
    Seq::new(n as nat, |i: int| ProviderOp::TryAllocate(false))
}

/// No operation changes what identifies and limits a provider.
pub proof fn run_keeps_descriptor(p: ProviderState, ops: Seq<ProviderOp>)
    ensures
        p.run(ops) == (ProviderState { current_connections: p.run(ops).current_connections, ..p }),
    decreases ops.len(),
{
    if ops.len() > 0 {
        run_keeps_descriptor(p, ops.drop_last());
    }
}

/// The counter never shows more than is held: over operations whose
/// releases are matched, on a provider that started idle, the counter is
/// at most the number of slots held, and equal to it while the counter
/// has not wrapped, which a limit below the largest number rules out
/// when no slot was forced.
pub proof fn counter_within_held(p: ProviderState, ops: Seq<ProviderOp>)
    requires
        p.current_connections == 0,
        p.matched(ops),
    ensures
        p.run(ops).current_connections <= p.held(ops),
        0 < p.max_connections < u16::MAX && (forall|i: int|
            0 <= i < ops.len() ==> !(#[trigger] ops[i] is ForceAllocate)) ==> p.run(
            ops,
        ).current_connections == p.held(ops),
    decreases ops.len(),
{
    if ops.len() > 0 {
        let rest = ops.drop_last();
        assert forall|k: int| 0 <= k <= rest.len() implies p.held(#[trigger] rest.take(k))
            >= 0 by {
            assert(rest.take(k) =~= ops.take(k));
        }
        counter_within_held(p, rest);
        run_keeps_descriptor(p, rest);
        assert(ops.take(ops.len() as int) =~= ops);
        assert(p.held(ops) >= 0);
        if 0 < p.max_connections < u16::MAX && (forall|i: int|
            0 <= i < ops.len() ==> !(#[trigger] ops[i] is ForceAllocate)) {
            assert forall|i: int| 0 <= i < rest.len() implies !(#[trigger] rest[i]
                is ForceAllocate) by {
                assert(rest[i] == ops[i]);
            }
            run_within_grace(p, rest);
            assert(!(ops[ops.len() - 1] is ForceAllocate));
        }
    }
}

/// After operations that are balanced, each slot taken given back later
/// and no slot given back that was not taken, a provider that started
/// idle is idle again.
pub proof fn balanced_run_ends_idle(p: ProviderState, ops: Seq<ProviderOp>)
    requires
        p.current_connections == 0,
        p.matched(ops),
        p.held(ops) == 0,
    ensures
        p.run(ops).current_connections == 0,
{
    counter_within_held(p, ops);
}

/// A provider with a limit never counts more than its limit and the
/// one grace slot, as long as no slot is forced.
pub proof fn run_within_grace(p: ProviderState, ops: Seq<ProviderOp>)
    requires
        p.within_grace(),
        forall|i: int| 0 <= i < ops.len() ==> !(#[trigger] ops[i] is ForceAllocate),
    ensures
        p.run(ops).within_grace(),
    decreases ops.len(),
{
    if ops.len() > 0 {
        let rest = ops.drop_last();
        assert forall|i: int| 0 <= i < rest.len() implies !(#[trigger] rest[i]
            is ForceAllocate) by {
            assert(rest[i] == ops[i]);
        }
        run_within_grace(p, rest);
        run_keeps_descriptor(p, rest);
        assert(!(ops[ops.len() - 1] is ForceAllocate));
    }
}

/// A provider without a limit grants every request, whatever went
/// before.
pub proof fn unlimited_grants_always(p: ProviderState, ops: Seq<ProviderOp>, grace: bool)
    requires
        p.max_connections == 0,
    ensures
        p.run(ops).grant(grace) == Grant::Granted,
        LineupState::solo(p.run(ops)).allocation() == AllocationState::Available(
            p.run(ops).incremented(),
        ),
{
    run_keeps_descriptor(p, ops);
    lemma_solo(p.run(ops), Seq::empty());
}

/// The counter after `n` strict requests on an idle provider, `n` no
/// more than the limit: all were granted.
pub proof fn strict_requests_count(p: ProviderState, n: int)
    requires
        p.max_connections > 0,
        p.current_connections == 0,
        0 <= n <= p.max_connections,
    ensures
        p.run(strict_requests(n)).current_connections == n,
        p.run(strict_requests(n)).max_connections == p.max_connections,
    decreases n,
{
    run_keeps_descriptor(p, strict_requests(n));
    if n > 0 {
        strict_requests_count(p, n - 1);
        assert(strict_requests(n).drop_last() =~= strict_requests(n - 1));
    }
}

/// An idle provider with a limit grants as many strict requests as the
/// limit says. The next strict request is denied; a request with grace
/// then gets the grace slot; and after that every request is denied,
/// if the limit is below the largest number the counter can hold.
pub proof fn limit_then_one_grace(p: ProviderState, n: int)
    requires
        p.max_connections > 0,
        p.current_connections == 0,
        0 <= n < p.max_connections,
    ensures
        p.run(strict_requests(n)).grant(false) == Grant::Granted,
        p.run(strict_requests(p.max_connections as int)).grant(false) == Grant::Denied,
        p.run(strict_requests(p.max_connections as int)).grant(true) == Grant::Grace,
        p.max_connections < u16::MAX ==> forall|grace: bool|
            p.run(strict_requests(p.max_connections as int)).try_allocate(true).grant(grace)
                == Grant::Denied,
{
    strict_requests_count(p, n);
    strict_requests_count(p, p.max_connections as int);
}

/// A lineup hands out nothing exactly when no group at or after its
/// index has room, and a peek shows nothing exactly then.
pub proof fn exhausted_exactly_without_room(l: LineupState)
    requires
        l.wf(),
    ensures
        l.allocation() is Exhausted <==> forall|g: int|
            l.index <= g < l.groups.len() ==> !(#[trigger] l.groups[g]).has_room(),
        l.candidate().is_none() <==> l.allocation() is Exhausted,
{
    lemma_advance_members(l, true);
    lemma_first_from(l.groups, l.index, roomy());
    match l.target() {
        Some(t) => {
            assert(l.groups[t].wf());
            lemma_select(l.groups[t], true);
            lemma_select(l.groups[t], false);
            lemma_walk(l.groups[t], false, false);
            lemma_walk(l.groups[t].rewound(), true, false);
        },
        None => {},
    }
}

/// An idle lineup grants a regular slot.
pub proof fn idle_lineup_grants(l: LineupState)
    requires
        l.wf(),
        l.idle(),
    ensures
        l.allocation() is Available,
{
    let g = l.groups[l.index];
    assert(g.wf());
    let p = g.members[g.cursor];
    assert(l.member(l.index, g.cursor) == p);
    assert(p.admits(false));
    assert(g.has_room());
    lemma_first_from(l.groups, l.index, roomy());
    assert(l.target() == Some(l.index));
    lemma_first_from(g.members, g.cursor, admitting(false));
    assert(first_from(g.members, g.cursor, admitting(false)) == Some(g.cursor));
}

/// Registering an input and then asking for a connection under its
/// name gets a regular slot, when no provider has a connection.
pub proof fn registered_input_is_granted(s: ManagerState, cfg: ConfigInput, lineup: LineupState)
    requires
        s.wf(),
        s.idle(),
        built_from(cfg, lineup),
    ensures
        (ManagerState { lineups: s.lineups.push(lineup) }).allocation(cfg.name@) is Available,
{
    let after = ManagerState { lineups: s.lineups.push(lineup) };
    lemma_built(cfg, lineup);
    assert(after.lineups[s.lineups.len() as int] == lineup);
    assert(after.knows(cfg.name@));
    lemma_lineup_of(after, cfg.name@);
    let l = after.lineup_of(cfg.name@).unwrap();
    if l < s.lineups.len() {
        assert(after.lineups[l] == s.lineups[l]);
    }
    idle_lineup_grants(after.lineups[l]);
}

/// A walk, committed or not, and a release keep every provider of a
/// lineup within its limit and the one grace slot.
pub proof fn lineup_stays_within_grace(l: LineupState, commit: bool, name: Seq<char>)
    requires
        l.wf(),
        l.within_grace(),
    ensures
        l.advance(commit).within_grace(),
        l.peek().within_grace(),
        l.release(name).within_grace(),
{
    lemma_advance_members(l, commit);
    lemma_advance_members(l, false);
    assert forall|g: int, m: int| l.advance(commit).has_place(g, m) implies (
    #[trigger] l.advance(commit).member(g, m)).within_grace() by {
        assert(l.has_place(g, m));
        assert(l.member(g, m).within_grace());
    }
    assert forall|g: int, m: int| l.advance(false).has_place(g, m) implies (
    #[trigger] l.advance(false).member(g, m)).within_grace() by {
        assert(l.has_place(g, m));
        assert(l.member(g, m).within_grace());
    }
    lemma_locate(l, name);
    assert forall|g: int, m: int| l.release(name).has_place(g, m) implies (
    #[trigger] l.release(name).member(g, m)).within_grace() by {
        assert(l.has_place(g, m));
        assert(l.member(g, m).within_grace());
    }
}

/// Asking for a connection, asking for the next provider, releasing a
/// name and ending a connection keep every provider of a manager within
/// its limit and the one grace slot. Only a forced connection can take
/// a provider beyond.
pub proof fn manager_stays_within_grace(
    s: ManagerState,
    name: Seq<char>,
    allocation: AllocationState,
)
    requires
        s.wf(),
        s.within_grace(),
    ensures
        s.acquire(name).within_grace(),
        s.peek(name).within_grace(),
        s.release(name).within_grace(),
        s.give_back(allocation).within_grace(),
{
    lemma_lineup_of(s, name);
    match s.lineup_of(name) {
        Some(l) => {
            lineup_stays_within_grace(s.lineups[l], true, name);
        },
        None => {},
    }
    match allocation.provider() {
        Some(p) => {
            lemma_lineup_of(s, p.name);
            match s.lineup_of(p.name) {
                Some(l) => {
                    lineup_stays_within_grace(s.lineups[l], true, p.name);
                },
                None => {},
            }
        },
        None => {},
    }
}

/// Ending a connection changes one counter: the first provider that
/// goes by the name of the allocation's provider has one connection
/// less, or none as before, and every other provider is as it was. An
/// allocation that holds nothing, or a name that no provider goes by,
/// changes nothing.
pub proof fn give_back_changes_one_counter(s: ManagerState, allocation: AllocationState)
    ensures
        match allocation.provider() {
            Some(p) => match s.locate(p.name) {
                Some((l, g, m)) => {
                    &&& s.has_place(l, g, m)
                    &&& s.member(l, g, m).name == p.name
                    &&& s.give_back(allocation).member(l, g, m) == s.member(l, g, m).released()
                    &&& forall|i: int, h: int, k: int|
                        s.has_place(i, h, k) && (i != l || h != g || k != m)
                            ==> #[trigger] s.give_back(allocation).member(i, h, k) == s.member(
                            i,
                            h,
                            k,
                        )
                },
                None => s.give_back(allocation) == s,
            },
            None => s.give_back(allocation) == s,
        },
{
    match allocation.provider() {
        Some(p) => {
            lemma_lineup_of(s, p.name);
        },
        None => {},
    }
}

/// In a manager whose providers have distinct names, a name leads to
/// the one provider that goes by it.
pub proof fn distinct_names_locate(s: ManagerState, l: int, g: int, m: int)
    requires
        s.names_distinct(),
        s.has_place(l, g, m),
    ensures
        s.locate(s.member(l, g, m).name) == Some((l, g, m)),
{
    let name = s.member(l, g, m).name;
    assert(s.lineups[l].groups[g].has_member(name));
    assert(s.lineups[l].contains(name));
    lemma_lineup_of(s, name);
    let (i, h, k) = s.locate(name).unwrap();
    assert(s.member(i, h, k).name == name);
}

/// Taking a connection and ending it restores every counter: in a
/// manager whose providers have distinct names, after a connection was
/// asked for under `name` and the allocation handed out was given
/// back, every provider is as it was before, the provider served
/// included if its counter did not wrap.
pub proof fn acquire_then_give_back_restores(s: ManagerState, name: Seq<char>)
    requires
        s.wf(),
        s.names_distinct(),
    ensures
        forall|l: int, g: int, m: int|
            s.has_place(l, g, m) && s.member(l, g, m).current_connections < u16::MAX
                ==> #[trigger] s.acquire(name).give_back(s.allocation(name)).member(l, g, m)
                == s.member(l, g, m),
{
    lemma_lineup_of(s, name);
    let taken = s.acquire(name);
    let allocation = s.allocation(name);
    match s.lineup_of(name) {
        Some(i) => {
            let lineup = s.lineups[i];
            lemma_advance_members(lineup, true);
            assert forall|l: int, g: int, m: int| s.has_place(l, g, m) implies taken.has_place(
                l,
                g,
                m,
            ) && #[trigger] taken.member(l, g, m) == (if l == i && lineup.served() == Some((g, m)) {
                s.member(l, g, m).incremented()
            } else {
                s.member(l, g, m)
            }) by {
                if l == i {
                    assert(lineup.has_place(g, m));
                    assert(taken.lineups[l].member(g, m) == lineup.advance(true).member(g, m));
                }
            }
            match lineup.served() {
                Some((h, k)) => {
                    let p = allocation.provider().unwrap();
                    assert(p.name == s.member(i, h, k).name);
                    assert(taken.names_distinct()) by {
                        assert forall|l: int, g: int, m: int, l2: int, g2: int, m2: int|
                            taken.has_place(l, g, m) && taken.has_place(l2, g2, m2) && (l != l2
                                || g != g2 || m != m2) implies (#[trigger] taken.member(
                            l,
                            g,
                            m,
                        )).name != (#[trigger] taken.member(l2, g2, m2)).name by {
                            assert(s.has_place(l, g, m));
                            assert(s.has_place(l2, g2, m2));
                            assert(s.member(l, g, m).name != s.member(l2, g2, m2).name);
                        }
                    }
                    assert(taken.has_place(i, h, k));
                    distinct_names_locate(taken, i, h, k);
                    give_back_changes_one_counter(taken, allocation);
                },
                None => {},
            }
        },
        None => {},
    }
}

/// `p` has a connection and goes by `name`.
pub open spec fn counted(p: ProviderState, name: Seq<char>) -> bool {
    p.name == name && p.current_connections > 0
}

/// The place, in `providers`, of the last provider that has a
/// connection and goes by `name`.
pub open spec fn last_counted(providers: Seq<ProviderState>, name: Seq<char>) -> Option<int>
    decreases providers.len(),
{
    if providers.len() == 0 {
        None
    } else if counted(providers.last(), name) {
        Some(providers.len() - 1)
    } else {
        last_counted(providers.drop_last(), name)
    }
}

/// What a tally holds: a name has a count exactly when some provider
/// of that name has a connection, and the count is that of the last
/// such provider.
pub proof fn tally_counts(providers: Seq<ProviderState>, name: Seq<char>)
    ensures
        match last_counted(providers, name) {
            Some(i) => {
                &&& 0 <= i < providers.len()
                &&& counted(providers[i], name)
                &&& forall|j: int| i < j < providers.len() ==> !counted(#[trigger] providers[j], name)
                &&& tally(providers).contains_key(name)
                &&& tally(providers)[name] == providers[i].current_connections
            },
            None => {
                &&& forall|j: int| 0 <= j < providers.len() ==> !counted(#[trigger] providers[j], name)
                &&& !tally(providers).contains_key(name)
            },
        },
    decreases providers.len(),
{
    if providers.len() > 0 {
        let rest = providers.drop_last();
        tally_counts(rest, name);
        assert(rest.push(providers.last()) =~= providers);
        lemma_tally_push(rest, providers.last());
        if !counted(providers.last(), name) {
            match last_counted(rest, name) {
                Some(i) => {
                    assert(rest[i] == providers[i]);
                    assert forall|j: int| i < j < providers.len() implies !counted(
                        #[trigger] providers[j],
                        name,
                    ) by {
                        if j < rest.len() {
                            assert(rest[j] == providers[j]);
                        }
                    }
                },
                None => {
                    assert forall|j: int| 0 <= j < providers.len() implies !counted(
                        #[trigger] providers[j],
                        name,
                    ) by {
                        if j < rest.len() {
                            assert(rest[j] == providers[j]);
                        }
                    }
                },
            }
        }
    }
}

/// The providers of the first `n` groups of a lineup are the members
/// at the places of those groups.
pub proof fn members_upto_are_members(l: LineupState, n: int)
    requires
        0 <= n <= l.groups.len(),
    ensures
        forall|i: int|
            0 <= i < l.members_upto(n).len() ==> exists|g: int, m: int|
                0 <= g < n && l.has_place(g, m) && l.member(g, m) == #[trigger] l.members_upto(
                    n,
                )[i],
        forall|g: int, m: int|
            0 <= g < n && l.has_place(g, m) ==> l.members_upto(n).contains(
                #[trigger] l.member(g, m),
            ),
    decreases n,
{
    if n > 0 {
        members_upto_are_members(l, n - 1);
        let before = l.members_upto(n - 1);
        let group = l.groups[n - 1].members;
        let all = l.members_upto(n);
        assert forall|i: int| 0 <= i < all.len() implies exists|g: int, m: int|
            0 <= g < n && l.has_place(g, m) && l.member(g, m) == #[trigger] all[i] by {
            if i < before.len() {
                let (g, m) = choose|g: int, m: int|
                    0 <= g < n - 1 && l.has_place(g, m) && l.member(g, m) == before[i];
                assert(0 <= g < n && l.has_place(g, m) && l.member(g, m) == all[i]);
            } else {
                let m = i - before.len();
                assert(l.has_place(n - 1, m) && l.member(n - 1, m) == all[i]);
            }
        }
        assert forall|g: int, m: int| 0 <= g < n && l.has_place(g, m) implies all.contains(
            #[trigger] l.member(g, m),
        ) by {
            if g < n - 1 {
                assert(before.contains(l.member(g, m)));
                let i = choose|i: int| 0 <= i < before.len() && before[i] == l.member(g, m);
                assert(all[i] == l.member(g, m));
            } else {
                assert(all[before.len() + m] == l.member(g, m));
            }
        }
    }
}

/// The providers of the first `n` lineups of a manager are the members
/// at the places of those lineups.
pub proof fn providers_upto_are_members(s: ManagerState, n: int)
    requires
        0 <= n <= s.lineups.len(),
    ensures
        forall|i: int|
            0 <= i < s.providers_upto(n).len() ==> exists|l: int, g: int, m: int|
                0 <= l < n && s.has_place(l, g, m) && s.member(l, g, m)
                    == #[trigger] s.providers_upto(n)[i],
        forall|l: int, g: int, m: int|
            0 <= l < n && s.has_place(l, g, m) ==> s.providers_upto(n).contains(
                #[trigger] s.member(l, g, m),
            ),
    decreases n,
{
    if n > 0 {
        providers_upto_are_members(s, n - 1);
        let lineup = s.lineups[n - 1];
        members_upto_are_members(lineup, lineup.groups.len() as int);
        let before = s.providers_upto(n - 1);
        let own = lineup.providers();
        let all = s.providers_upto(n);
        assert forall|i: int| 0 <= i < all.len() implies exists|l: int, g: int, m: int|
            0 <= l < n && s.has_place(l, g, m) && s.member(l, g, m) == #[trigger] all[i] by {
            if i < before.len() {
                let (l, g, m) = choose|l: int, g: int, m: int|
                    0 <= l < n - 1 && s.has_place(l, g, m) && s.member(l, g, m) == before[i];
                assert(0 <= l < n && s.has_place(l, g, m) && s.member(l, g, m) == all[i]);
            } else {
                let k = i - before.len();
                let (g, m) = choose|g: int, m: int|
                    0 <= g < lineup.groups.len() && lineup.has_place(g, m) && lineup.member(g, m)
                        == own[k];
                assert(s.has_place(n - 1, g, m) && s.member(n - 1, g, m) == all[i]);
            }
        }
        assert forall|l: int, g: int, m: int| 0 <= l < n && s.has_place(l, g, m) implies all.contains(
            #[trigger] s.member(l, g, m),
        ) by {
            if l < n - 1 {
                assert(before.contains(s.member(l, g, m)));
                let i = choose|i: int| 0 <= i < before.len() && before[i] == s.member(l, g, m);
                assert(all[i] == s.member(l, g, m));
            } else {
                assert(own.contains(lineup.member(g, m)));
                let k = choose|k: int| 0 <= k < own.len() && own[k] == lineup.member(g, m);
                assert(all[before.len() + k] == s.member(l, g, m));
            }
        }
    }
}

/// No provider is active exactly when the tally is empty.
pub proof fn lemma_active_empty(providers: Seq<ProviderState>)
    ensures
        active(providers).len() == 0 <==> tally(providers).is_empty(),
{
    let entries = active(providers);
    if entries.len() > 0 {
        assert(tally(providers).dom().contains(entries.last().0));
    } else {
        assert(tally(providers).dom() =~= Set::empty());
    }
}

/// The tally of a manager is empty, and its list of active providers
/// too, exactly when no provider has a connection.
pub proof fn tally_empty_when_idle(s: ManagerState)
    ensures
        tally(s.providers()).is_empty() <==> s.idle(),
        active(s.providers()).len() == 0 <==> s.idle(),
{
    let all = s.providers();
    lemma_active_empty(all);
    providers_upto_are_members(s, s.lineups.len() as int);
    if s.idle() {
        assert forall|name: Seq<char>| !tally(all).contains_key(name) by {
            tally_counts(all, name);
            match last_counted(all, name) {
                Some(i) => {
                    let (l, g, m) = choose|l: int, g: int, m: int|
                        0 <= l < s.lineups.len() && s.has_place(l, g, m) && s.member(l, g, m)
                            == all[i];
                    assert(s.lineups[l].idle());
                    assert(s.lineups[l].member(g, m).current_connections == 0);
                },
                None => {},
            }
        }
        assert(tally(all).dom() =~= Set::empty());
    }
    if tally(all).is_empty() {
        assert forall|l: int| 0 <= l < s.lineups.len() implies (#[trigger] s.lineups[l]).idle() by {
            assert forall|g: int, m: int| s.lineups[l].has_place(g, m) implies (
            #[trigger] s.lineups[l].member(g, m)).current_connections == 0 by {
                let p = s.member(l, g, m);
                assert(s.has_place(l, g, m));
                assert(all.contains(p));
                let i = choose|i: int| 0 <= i < all.len() && all[i] == p;
                tally_counts(all, p.name);
                if p.current_connections > 0 {
                    assert(counted(all[i], p.name));
                    assert(tally(all).dom().contains(p.name));
                }
            }
        }
    }
}

} // verus!
