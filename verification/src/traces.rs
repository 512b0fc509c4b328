//! Sequences of operations on a manager, and what they leave of its
//! counters.

use crate::laws::{distinct_names_locate, manager_stays_within_grace};
use crate::lineup::{lemma_advance, lemma_advance_members, lemma_with_member};
use crate::manager::{lemma_lineup_of, ManagerState};
use crate::provider::{AllocationState, ProviderState};
use vstd::prelude::*;

verus! {

/// One operation on a manager.
pub enum ManagerOp {
    /// A connection is asked for under the name of an input.
    Acquire(Seq<char>),
    /// A connection is forced on the provider of this name.
    ForceExact(Seq<char>),
    /// The next provider is asked for under the name of an input.
    Next(Seq<char>),
    /// The provider of this name gives a slot back, as when the holder
    /// of a connection on it lets go.
    Release(Seq<char>),
}

impl ManagerState {
    /// The manager after `op`.
    pub open spec fn apply(self, op: ManagerOp) -> ManagerState {
        match op {
            ManagerOp::Acquire(name) => self.acquire(name),
            ManagerOp::ForceExact(name) => self.force(name),
            ManagerOp::Next(name) => self.peek(name),
            ManagerOp::Release(name) => self.release(name),
        }
    }

    /// What `op` hands out.
    pub open spec fn handed(self, op: ManagerOp) -> AllocationState {
        match op {
            ManagerOp::Acquire(name) => self.allocation(name),
            ManagerOp::ForceExact(name) => self.forced_allocation(name),
            ManagerOp::Next(name) => AllocationState::Exhausted,
            ManagerOp::Release(name) => AllocationState::Exhausted,
        }
    }

    /// The place of the provider whose counter `op` changes.
    pub open spec fn touched(self, op: ManagerOp) -> Option<(int, int, int)> {
        match op {
            ManagerOp::Acquire(name) => match self.lineup_of(name) {
                Some(l) => match self.lineups[l].served() {
                    Some((g, m)) => Some((l, g, m)),
                    None => None,
                },
                None => None,
            },
            ManagerOp::ForceExact(name) => self.locate(name),
            ManagerOp::Next(name) => None,
            ManagerOp::Release(name) => self.locate(name),
        }
    }

    /// The manager after `ops`, first to last.
    pub open spec fn run(self, ops: Seq<ManagerOp>) -> ManagerState
        decreases ops.len(),
    {
        if ops.len() == 0 {
            self
        } else {
            self.run(ops.drop_last()).apply(ops.last())
        }
    }

    /// The connections that `ops` handed out on providers called
    /// `name`, less the slots that `ops` gave back under that name.
    pub open spec fn held(self, ops: Seq<ManagerOp>, name: Seq<char>) -> int
        decreases ops.len(),
    {
        if ops.len() == 0 {
            0
        } else {
            let before = self.run(ops.drop_last());
            let earlier = self.held(ops.drop_last(), name);
            match ops.last() {
                ManagerOp::Release(given) => if given == name {
                    earlier - 1
                } else {
                    earlier
                },
                op => match before.handed(op).provider() {
                    Some(p) => if p.name == name {
                        earlier + 1
                    } else {
                        earlier
                    },
                    None => earlier,
                },
            }
        }
    }

    /// Every release in `ops` gives back a connection that was handed
    /// out before it on a provider of that name.
    pub open spec fn matched(self, ops: Seq<ManagerOp>) -> bool {
        forall|k: int, name: Seq<char>|
            0 <= k <= ops.len() ==> #[trigger] self.held(ops.take(k), name) >= 0
    }

    /// `later` has the providers of this manager at the same places,
    /// each with what identifies and limits it; only counters differ.
    pub open spec fn same_providers(self, later: ManagerState) -> bool {
        &&& later.lineups.len() == self.lineups.len()
        &&& forall|l: int|
            0 <= l < self.lineups.len() ==> (#[trigger] later.lineups[l]).groups.len()
                == self.lineups[l].groups.len()
        &&& forall|l: int, g: int|
            0 <= l < self.lineups.len() && 0 <= g < self.lineups[l].groups.len() ==> (
            #[trigger] later.lineups[l].groups[g]).members.len()
                == self.lineups[l].groups[g].members.len()
        &&& forall|l: int, g: int, m: int|
            self.has_place(l, g, m) ==> #[trigger] later.member(l, g, m) == (ProviderState {
                current_connections: later.member(l, g, m).current_connections,
                ..self.member(l, g, m)
            })
    }
}

/// One operation read provider by provider. It keeps the manager well
/// formed and every provider at its place. The provider it touches has
/// one connection more, or one less after a release; every other
/// provider is as it was. What it hands out is the provider it touched,
/// if it is no release.
pub proof fn lemma_apply(s: ManagerState, op: ManagerOp)
    requires
        s.wf(),
    ensures
        s.apply(op).wf(),
        s.same_providers(s.apply(op)),
        s.touched(op) matches Some((l, g, m)) ==> s.has_place(l, g, m),
        forall|l: int, g: int, m: int|
            s.has_place(l, g, m) ==> #[trigger] s.apply(op).member(l, g, m) == if s.touched(op)
                == Some((l, g, m)) {
                if op is Release {
                    s.member(l, g, m).released()
                } else {
                    s.member(l, g, m).incremented()
                }
            } else {
                s.member(l, g, m)
            },
        s.handed(op).provider() == match s.touched(op) {
            Some((l, g, m)) => if op is Release {
                None
            } else {
                Some(s.member(l, g, m).incremented())
            },
            None => None,
        },
        op matches ManagerOp::Release(name) ==> (s.touched(op) matches Some((l, g, m)) ==> s.member(
            l,
            g,
            m,
        ).name == name),
{
    let next = s.apply(op);
    match op {
        ManagerOp::Acquire(name) => {
            lemma_lineup_of(s, name);
            match s.lineup_of(name) {
                Some(i) => {
                    lemma_advance(s.lineups[i], true);
                    lemma_advance_members(s.lineups[i], true);
                    assert forall|l: int, g: int, m: int| s.has_place(l, g, m) implies #[trigger] next.member(
                        l,
                        g,
                        m,
                    ) == if s.touched(op) == Some((l, g, m)) {
                        s.member(l, g, m).incremented()
                    } else {
                        s.member(l, g, m)
                    } by {
                        if l == i {
                            assert(s.lineups[i].has_place(g, m));
                            assert(next.lineups[l].member(g, m) == s.lineups[i].advance(true).member(
                                g,
                                m,
                            ));
                        }
                    }
                },
                None => {},
            }
        },
        ManagerOp::Next(name) => {
            lemma_lineup_of(s, name);
            match s.lineup_of(name) {
                Some(i) => {
                    lemma_advance(s.lineups[i], false);
                    lemma_advance_members(s.lineups[i], false);
                    assert forall|l: int, g: int, m: int| s.has_place(l, g, m) implies #[trigger] next.member(
                        l,
                        g,
                        m,
                    ) == s.member(l, g, m) by {
                        if l == i {
                            assert(s.lineups[i].has_place(g, m));
                            assert(s.lineups[i].advance(false).member(g, m) == s.lineups[i].member(
                                g,
                                m,
                            ));
                        }
                    }
                },
                None => {},
            }
        },
        ManagerOp::ForceExact(name) => {
            lemma_lineup_of(s, name);
            match s.locate(name) {
                Some((i, h, k)) => {
                    lemma_with_member(s.lineups[i], h, k, s.member(i, h, k).incremented());
                },
                None => {},
            }
        },
        ManagerOp::Release(name) => {
            lemma_lineup_of(s, name);
            match s.locate(name) {
                Some((i, h, k)) => {
                    lemma_with_member(s.lineups[i], h, k, s.member(i, h, k).released());
                },
                None => {},
            }
        },
    }
}

/// Operations keep a manager well formed and every provider at its
/// place.
pub proof fn lemma_run(s: ManagerState, ops: Seq<ManagerOp>)
    requires
        s.wf(),
    ensures
        s.run(ops).wf(),
        s.same_providers(s.run(ops)),
        s.names_distinct() ==> s.run(ops).names_distinct(),
    decreases ops.len(),
{
    if ops.len() > 0 {
        let before = s.run(ops.drop_last());
        lemma_run(s, ops.drop_last());
        lemma_apply(before, ops.last());
        let after = s.run(ops);
        assert forall|l: int, g: int, m: int| s.has_place(l, g, m) implies #[trigger] after.member(
            l,
            g,
            m,
        ) == (ProviderState {
            current_connections: after.member(l, g, m).current_connections,
            ..s.member(l, g, m)
        }) by {
            assert(before.has_place(l, g, m));
            assert(before.member(l, g, m) == (ProviderState {
                current_connections: before.member(l, g, m).current_connections,
                ..s.member(l, g, m)
            }));
        }
    }
    if s.names_distinct() {
        let after = s.run(ops);
        assert forall|l: int, g: int, m: int, i: int, h: int, k: int|
            after.has_place(l, g, m) && after.has_place(i, h, k) && (l != i || g != h || m != k) implies (
        #[trigger] after.member(l, g, m)).name != (#[trigger] after.member(i, h, k)).name by {
            assert(s.has_place(l, g, m));
            assert(s.has_place(i, h, k));
            assert(s.member(l, g, m).name != s.member(i, h, k).name);
        }
    }
}

/// No counter shows more than is held: in a manager whose providers
/// have distinct names and started idle, after operations whose
/// releases are matched, each provider counts at most the connections
/// held on its name, and exactly those if its counter cannot have
/// wrapped, which holds for a provider with a limit below the largest
/// number when no connection was forced.
pub proof fn counters_within_held(s: ManagerState, ops: Seq<ManagerOp>)
    requires
        s.wf(),
        s.idle(),
        s.names_distinct(),
        s.matched(ops),
    ensures
        forall|l: int, g: int, m: int|
            s.has_place(l, g, m) ==> (#[trigger] s.run(ops).member(l, g, m)).current_connections
                <= s.held(ops, s.member(l, g, m).name),
        (forall|i: int| 0 <= i < ops.len() ==> !(#[trigger] ops[i] is ForceExact)) ==> forall|
            l: int,
            g: int,
            m: int,
        |
            s.has_place(l, g, m) && 0 < s.member(l, g, m).max_connections < u16::MAX ==> (
            #[trigger] s.run(ops).member(l, g, m)).current_connections == s.held(
                ops,
                s.member(l, g, m).name,
            ),
    decreases ops.len(),
{
    if ops.len() == 0 {
        assert forall|l: int, g: int, m: int| s.has_place(l, g, m) implies (#[trigger] s.member(
            l,
            g,
            m,
        )).current_connections == 0 by {
            assert(s.lineups[l].idle());
            assert(s.lineups[l].has_place(g, m));
            assert(s.lineups[l].member(g, m).current_connections == 0);
        }
    } else {
        let rest = ops.drop_last();
        let op = ops.last();
        let before = s.run(rest);
        let after = s.run(ops);
        assert forall|k: int, name: Seq<char>| 0 <= k <= rest.len() implies #[trigger] s.held(
            rest.take(k),
            name,
        ) >= 0 by {
            assert(rest.take(k) =~= ops.take(k));
            assert(s.held(ops.take(k), name) >= 0);
        }
        counters_within_held(s, rest);
        lemma_run(s, rest);
        lemma_apply(before, op);
        assert(ops.take(ops.len() as int) =~= ops);
        let quiet = forall|i: int| 0 <= i < ops.len() ==> !(#[trigger] ops[i] is ForceExact);
        if quiet {
            assert forall|i: int| 0 <= i < rest.len() implies !(#[trigger] rest[i]
                is ForceExact) by {
                assert(rest[i] == ops[i]);
            }
            assert(!(ops[ops.len() - 1] is ForceExact));
        }
        assert forall|l: int, g: int, m: int| s.has_place(l, g, m) implies (
        #[trigger] after.member(l, g, m)).current_connections <= s.held(ops, s.member(l, g, m).name)
            && (quiet && 0 < s.member(l, g, m).max_connections < u16::MAX
            ==> after.member(l, g, m).current_connections == s.held(
            ops,
            s.member(l, g, m).name,
        )) by {
            let name = s.member(l, g, m).name;
            let was = before.member(l, g, m);
            let now = after.member(l, g, m);
            assert(before.has_place(l, g, m));
            assert(was.name == name);
            assert(s.held(ops, name) >= 0);
            assert(was.current_connections <= s.held(rest, name));
            distinct_names_locate(before, l, g, m);
            match op {
                ManagerOp::Release(given) => {
                    lemma_lineup_of(before, given);
                    if given == name {
                        assert(before.touched(op) == Some((l, g, m)));
                        assert(now == was.released());
                        assert(s.held(ops, name) == s.held(rest, name) - 1);
                    } else {
                        assert(before.touched(op) != Some((l, g, m)));
                        assert(now == was);
                        assert(s.held(ops, name) == s.held(rest, name));
                    }
                },
                ManagerOp::Next(asked) => {
                    assert(now == was);
                    assert(s.held(ops, name) == s.held(rest, name));
                },
                _ => {
                    match before.touched(op) {
                        Some((i, h, k)) => {
                            assert(before.has_place(i, h, k));
                            let taken = before.member(i, h, k);
                            assert(before.handed(op).provider() == Some(taken.incremented()));
                            if i == l && h == g && k == m {
                                assert(now == was.incremented());
                                assert(s.held(ops, name) == s.held(rest, name) + 1);
                                if quiet && 0 < s.member(l, g, m).max_connections < u16::MAX {
                                    lemma_advance_members(before.lineups[l], true);
                                    assert(was.admits(true));
                                }
                            } else {
                                assert(taken.name != was.name);
                                assert(now == was);
                                assert(s.held(ops, name) == s.held(rest, name));
                            }
                        },
                        None => {
                            assert(before.handed(op).provider().is_none());
                            assert(now == was);
                            assert(s.held(ops, name) == s.held(rest, name));
                        },
                    }
                },
            }
        }
    }
}

/// After operations that are balanced, each connection handed out given
/// back later and none given back that was not handed out, a manager
/// whose providers have distinct names and started idle is idle again.
pub proof fn balanced_operations_end_idle(s: ManagerState, ops: Seq<ManagerOp>)
    requires
        s.wf(),
        s.idle(),
        s.names_distinct(),
        s.matched(ops),
        forall|name: Seq<char>| s.held(ops, name) == 0,
    ensures
        s.run(ops).idle(),
{
    counters_within_held(s, ops);
    lemma_run(s, ops);
    let after = s.run(ops);
    assert forall|l: int| 0 <= l < after.lineups.len() implies (#[trigger] after.lineups[l]).idle() by {
        assert forall|g: int, m: int| after.lineups[l].has_place(g, m) implies (
        #[trigger] after.lineups[l].member(g, m)).current_connections == 0 by {
            assert(s.has_place(l, g, m));
            assert(after.member(l, g, m).current_connections <= s.held(
                ops,
                s.member(l, g, m).name,
            ));
        }
    }
}

/// At any time every provider counts no more than its limit and the
/// one grace slot: operations that force no connection keep a manager
/// within these bounds.
pub proof fn operations_within_grace(s: ManagerState, ops: Seq<ManagerOp>)
    requires
        s.wf(),
        s.within_grace(),
        forall|i: int| 0 <= i < ops.len() ==> !(#[trigger] ops[i] is ForceExact),
    ensures
        s.run(ops).within_grace(),
    decreases ops.len(),
{
    if ops.len() > 0 {
        let rest = ops.drop_last();
        assert forall|i: int| 0 <= i < rest.len() implies !(#[trigger] rest[i] is ForceExact) by {
            assert(rest[i] == ops[i]);
        }
        operations_within_grace(s, rest);
        lemma_run(s, rest);
        assert(!(ops[ops.len() - 1] is ForceExact));
        let before = s.run(rest);
        match ops.last() {
            ManagerOp::Acquire(name) => {
                manager_stays_within_grace(before, name, AllocationState::Exhausted);
            },
            ManagerOp::Next(name) => {
                manager_stays_within_grace(before, name, AllocationState::Exhausted);
            },
            ManagerOp::Release(name) => {
                manager_stays_within_grace(before, name, AllocationState::Exhausted);
            },
            ManagerOp::ForceExact(name) => {},
        }
    }
}

} // verus!
