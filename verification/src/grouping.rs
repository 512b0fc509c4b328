//! Sorting the providers of an input into priority groups.

use crate::config::ConfigInput;
use crate::group::{group_states, GroupState, ProviderPriorityGroup};
use crate::provider::{ProviderConfigWrapper, ProviderState};
use vstd::prelude::*;

verus! {

/// The providers of an input in the order they are declared: the primary
/// endpoint, then the aliases.
pub open spec fn input_providers(cfg: ConfigInput) -> Seq<ProviderState> {
    Seq::new(
        cfg.alias_seq().len() + 1,
        |i: int|
            if i == 0 {
                ProviderState::of_input(cfg)
            } else {
                ProviderState::of_alias(cfg, cfg.alias_seq()[i - 1])
            },
    )
}

/// The predicate "has this priority".
pub open spec fn with_priority(priority: i16) -> spec_fn(ProviderState) -> bool {
    |p: ProviderState| p.priority == priority
}

/// Some group has this priority.
pub open spec fn serves(groups: Seq<GroupState>, priority: i16) -> bool {
    exists|i: int| 0 <= i < groups.len() && (#[trigger] groups[i]).priority() == priority
}

/// `groups` sorts `providers` by priority. Each group holds all the
/// providers of one priority, in the order they were declared, with its
/// cursor at the first. Priority numbers ascend strictly from group to
/// group, and each provider's priority has its group.
pub open spec fn grouped(providers: Seq<ProviderState>, groups: Seq<GroupState>) -> bool {
    &&& forall|i: int|
        0 <= i < groups.len() ==> {
            &&& (#[trigger] groups[i]).cursor == 0
            &&& groups[i].members.len() > 0
            &&& groups[i].members == providers.filter(with_priority(groups[i].priority()))
        }
    &&& forall|i: int, j: int|
        0 <= i < j < groups.len() ==> (#[trigger] groups[i]).priority() < (
        #[trigger] groups[j]).priority()
    &&& forall|k: int|
        0 <= k < providers.len() ==> serves(groups, (#[trigger] providers[k]).priority)
}

/// Filtering a sequence with one more element at its end.
pub proof fn lemma_filter_push(ps: Seq<ProviderState>, p: ProviderState, priority: i16)
    ensures
        ps.push(p).filter(with_priority(priority)) == if p.priority == priority {
            ps.filter(with_priority(priority)).push(p)
        } else {
            ps.filter(with_priority(priority))
        },
{
    reveal(Seq::filter);
    assert(ps.push(p).drop_last() =~= ps);
}

/// Every element that a filter keeps has the priority asked for, and a
/// filter that keeps nothing shows that no element has it.
pub proof fn lemma_filter_priority(ps: Seq<ProviderState>, priority: i16)
    ensures
        forall|i: int|
            0 <= i < ps.filter(with_priority(priority)).len() ==> (#[trigger] ps.filter(
                with_priority(priority),
            )[i]).priority == priority,
        ps.filter(with_priority(priority)).len() == 0 <==> forall|k: int|
            0 <= k < ps.len() ==> (#[trigger] ps[k]).priority != priority,
    decreases ps.len(),
{
    reveal(Seq::filter);
    if ps.len() > 0 {
        let rest = ps.drop_last();
        lemma_filter_priority(rest, priority);
        if ps.filter(with_priority(priority)).len() == 0 {
            assert forall|k: int| 0 <= k < ps.len() implies (#[trigger] ps[k]).priority
                != priority by {
                if k < ps.len() - 1 {
                    assert(rest[k] == ps[k]);
                }
            }
        }
        if forall|k: int| 0 <= k < ps.len() ==> (#[trigger] ps[k]).priority != priority {
            assert forall|k: int| 0 <= k < rest.len() implies (#[trigger] rest[k]).priority
                != priority by {
                assert(rest[k] == ps[k]);
            }
            assert(ps.last() == ps[ps.len() - 1]);
        }
    }
}

/// A filter keeps each element that has the priority asked for.
pub proof fn lemma_filter_holds(ps: Seq<ProviderState>, k: int)
    requires
        0 <= k < ps.len(),
    ensures
        ps.filter(with_priority(ps[k].priority)).contains(ps[k]),
    decreases ps.len(),
{
    reveal(Seq::filter);
    let f = with_priority(ps[k].priority);
    let rest = ps.drop_last();
    if k < ps.len() - 1 {
        lemma_filter_holds(rest, k);
        let kept = rest.filter(f);
        let i = choose|i: int| 0 <= i < kept.len() && kept[i] == rest[k];
        assert(ps.filter(f)[i] == ps[k]);
    } else {
        let kept = ps.filter(f);
        assert(kept[kept.len() - 1] == ps[k]);
    }
}

/// Every element that a filter keeps is an element of the sequence.
pub proof fn lemma_filter_members(ps: Seq<ProviderState>, priority: i16)
    ensures
        forall|i: int|
            0 <= i < ps.filter(with_priority(priority)).len() ==> ps.contains(
                #[trigger] ps.filter(with_priority(priority))[i],
            ),
    decreases ps.len(),
{
    reveal(Seq::filter);
    if ps.len() > 0 {
        let rest = ps.drop_last();
        lemma_filter_members(rest, priority);
        let kept = ps.filter(with_priority(priority));
        assert forall|i: int| 0 <= i < kept.len() implies ps.contains(#[trigger] kept[i]) by {
            if i < rest.filter(with_priority(priority)).len() {
                let e = rest.filter(with_priority(priority))[i];
                assert(rest.contains(e));
                let k = choose|k: int| 0 <= k < rest.len() && rest[k] == e;
                assert(ps[k] == e);
            } else {
                assert(kept[i] == ps[ps.len() - 1]);
            }
        }
    }
}

/// Groups that sort a sequence of providers make a well-formed lineup.
pub proof fn lemma_grouped_wf(providers: Seq<ProviderState>, groups: Seq<GroupState>)
    requires
        grouped(providers, groups),
    ensures
        forall|i: int| 0 <= i < groups.len() ==> (#[trigger] groups[i]).wf(),
        providers.len() > 0 ==> groups.len() > 0,
{
    assert forall|i: int| 0 <= i < groups.len() implies (#[trigger] groups[i]).wf() by {
        lemma_filter_priority(providers, groups[i].priority());
    }
    if providers.len() > 0 {
        assert(serves(groups, providers[0].priority));
    }
}

/// Two sortings of the same providers have the same priorities, group
/// by group, as far as both reach.
proof fn lemma_same_priorities(
    providers: Seq<ProviderState>,
    a: Seq<GroupState>,
    b: Seq<GroupState>,
    i: int,
)
    requires
        grouped(providers, a),
        grouped(providers, b),
        0 <= i < a.len(),
        i < b.len(),
    ensures
        a[i].priority() == b[i].priority(),
    decreases i,
{
    assert forall|j: int| 0 <= j < i implies a[j].priority() == b[j].priority() by {
        lemma_same_priorities(providers, a, b, j);
    }
    lemma_leads(providers, a, b, i);
    lemma_leads(providers, b, a, i);
}

/// Where two sortings agree on the priorities of the groups before `i`,
/// group `i` of the second has no higher priority number than group
/// `i` of the first.
proof fn lemma_leads(providers: Seq<ProviderState>, a: Seq<GroupState>, b: Seq<GroupState>, i: int)
    requires
        grouped(providers, a),
        grouped(providers, b),
        0 <= i < a.len(),
        i < b.len(),
        forall|j: int| 0 <= j < i ==> (#[trigger] a[j]).priority() == b[j].priority(),
    ensures
        b[i].priority() <= a[i].priority(),
{
    let priority = a[i].priority();
    lemma_filter_members(providers, priority);
    let first = a[i].members[0];
    assert(providers.contains(first));
    let n = choose|n: int| 0 <= n < providers.len() && providers[n] == first;
    assert(serves(b, providers[n].priority));
    let k = choose|k: int| 0 <= k < b.len() && (#[trigger] b[k]).priority() == priority;
    if k < i {
        assert(a[k].priority() == b[k].priority());
        assert(a[k].priority() < a[i].priority());
    } else if k > i {
        assert(b[i].priority() < b[k].priority());
    }
}

/// There is one way to sort providers into groups.
pub proof fn grouping_is_unique(
    providers: Seq<ProviderState>,
    a: Seq<GroupState>,
    b: Seq<GroupState>,
)
    requires
        grouped(providers, a),
        grouped(providers, b),
    ensures
        a == b,
{
    lemma_no_fewer(providers, a, b);
    lemma_no_fewer(providers, b, a);
    assert forall|i: int| 0 <= i < a.len() implies a[i] == b[i] by {
        lemma_same_priorities(providers, a, b, i);
    }
    assert(a =~= b);
}

/// Of two sortings of the same providers, the first has no fewer groups
/// than the second.
proof fn lemma_no_fewer(providers: Seq<ProviderState>, a: Seq<GroupState>, b: Seq<GroupState>)
    requires
        grouped(providers, a),
        grouped(providers, b),
    ensures
        a.len() >= b.len(),
{
    if a.len() < b.len() {
        let extra = b[a.len() as int];
        let priority = extra.priority();
        lemma_filter_members(providers, priority);
        let first = extra.members[0];
        assert(providers.contains(first));
        let n = choose|n: int| 0 <= n < providers.len() && providers[n] == first;
        assert(serves(a, providers[n].priority));
        let k = choose|k: int| 0 <= k < a.len() && (#[trigger] a[k]).priority() == priority;
        lemma_same_priorities(providers, a, b, k);
        assert(b[k].priority() < b[a.len() as int].priority());
    }
}

/// Puts `provider` into the group of its priority, or into a new group
/// at the place that keeps the priorities ascending.
pub(crate) fn place(
    groups: &mut Vec<ProviderPriorityGroup>,
    provider: ProviderConfigWrapper,
    Ghost(placed): Ghost<Seq<ProviderState>>,
)
    requires
        grouped(placed, group_states(old(groups)@)),
    ensures
        grouped(placed.push(provider@), group_states(final(groups)@)),
{
    let priority = provider.config().priority();
    let ghost before = group_states(groups@);
    let ghost p = provider@;
    let ghost after_push = placed.push(p);
    proof {
        lemma_grouped_wf(placed, before);
    }
    assert forall|i: int| 0 <= i < groups.len() implies (#[trigger] groups[i])@.members.len()
        > 0 by {
        assert(before[i] == groups[i]@);
    }
    let mut k: usize = 0;
    while k < groups.len() && groups[k].member(0).config().priority() < priority
        invariant
            k <= groups.len(),
            group_states(groups@) == before,
            forall|i: int| 0 <= i < groups.len() ==> (#[trigger] groups[i])@.members.len() > 0,
            forall|i: int| 0 <= i < k ==> (#[trigger] before[i]).priority() < priority,
        decreases groups.len() - k,
    {
        assert(before[k as int] == groups[k as int]@);
        k += 1;
    }
    let joins = k < groups.len() && groups[k].member(0).config().priority() == priority;
    proof {
        if k < groups.len() {
            assert(before[k as int] == groups[k as int]@);
        }
    }
    if joins {
        let group = groups.remove(k);
        let grown = match group {
            ProviderPriorityGroup::SingleProviderGroup(first) => {
                let mut members: Vec<ProviderConfigWrapper> = Vec::new();
                members.push(first);
                members.push(provider);
                ProviderPriorityGroup::MultiProviderGroup(0, members)
            },
            ProviderPriorityGroup::MultiProviderGroup(index, mut members) => {
                members.push(provider);
                ProviderPriorityGroup::MultiProviderGroup(index, members)
            },
        };
        proof {
            assert(grown@.members =~= before[k as int].members.push(p));
            assert(grown@.cursor == 0);
        }
        groups.insert(k, grown);
        proof {
            let after = group_states(groups@);
            assert(after =~= before.update(k as int, grown@));
            assert forall|i: int| 0 <= i < after.len() implies {
                &&& (#[trigger] after[i]).cursor == 0
                &&& after[i].members.len() > 0
                &&& after[i].priority() == before[i].priority()
                &&& after[i].members == after_push.filter(with_priority(after[i].priority()))
            } by {
                lemma_filter_push(placed, p, before[i].priority());
                if i != k {
                    assert(before[i].priority() != before[k as int].priority());
                }
            }
            assert forall|i: int, j: int| 0 <= i < j < after.len() implies (
            #[trigger] after[i]).priority() < (#[trigger] after[j]).priority() by {
                assert(before[i].priority() < before[j].priority());
            }
            assert forall|n: int| 0 <= n < after_push.len() implies serves(
                after,
                (#[trigger] after_push[n]).priority,
            ) by {
                if n < placed.len() {
                    assert(after_push[n] == placed[n]);
                    assert(serves(before, placed[n].priority));
                    let i = choose|i: int|
                        0 <= i < before.len() && (#[trigger] before[i]).priority()
                            == placed[n].priority;
                    assert(after[i].priority() == placed[n].priority);
                } else {
                    assert(after[k as int].priority() == p.priority);
                }
            }
        }
    } else {
        proof {
            assert forall|i: int| 0 <= i < before.len() implies (#[trigger] before[i]).priority()
                != priority by {
                if i >= k {
                    assert(before[k as int].priority() > priority);
                    if i > k {
                        assert(before[k as int].priority() < before[i].priority());
                    }
                }
            }
            assert forall|n: int| 0 <= n < placed.len() implies (#[trigger] placed[n]).priority
                != priority by {
                assert(serves(before, placed[n].priority));
            }
            lemma_filter_priority(placed, priority);
            lemma_filter_push(placed, p, priority);
            assert(after_push.filter(with_priority(priority)) =~= seq![p]);
        }
        groups.insert(k, ProviderPriorityGroup::SingleProviderGroup(provider));
        proof {
            let after = group_states(groups@);
            let fresh = GroupState { members: seq![p], cursor: 0 };
            assert(groups@[k as int]@.members =~= seq![p]);
            assert(after =~= before.insert(k as int, fresh));
            assert forall|i: int| 0 <= i < after.len() implies {
                &&& (#[trigger] after[i]).cursor == 0
                &&& after[i].members.len() > 0
                &&& after[i].members == after_push.filter(with_priority(after[i].priority()))
            } by {
                if i < k {
                    assert(after[i] == before[i]);
                    lemma_filter_push(placed, p, before[i].priority());
                } else if i > k {
                    assert(after[i] == before[i - 1]);
                    lemma_filter_push(placed, p, before[i - 1].priority());
                }
            }
            assert forall|i: int, j: int| 0 <= i < j < after.len() implies (
            #[trigger] after[i]).priority() < (#[trigger] after[j]).priority() by {
                let a = if i < k {
                    i
                } else {
                    i - 1
                };
                let b = if j < k {
                    j
                } else {
                    j - 1
                };
                if i != k {
                    assert(after[i] == before[a]);
                }
                if j != k {
                    assert(after[j] == before[b]);
                }
                if i != k && j != k {
                    assert(before[a].priority() < before[b].priority());
                } else if i == k {
                    assert(before[k as int].priority() <= before[b].priority()) by {
                        if b > k {
                            assert(before[k as int].priority() < before[b].priority());
                        }
                    }
                }
            }
            assert forall|n: int| 0 <= n < after_push.len() implies serves(
                after,
                (#[trigger] after_push[n]).priority,
            ) by {
                if n < placed.len() {
                    assert(after_push[n] == placed[n]);
                    assert(serves(before, placed[n].priority));
                    let i = choose|i: int|
                        0 <= i < before.len() && (#[trigger] before[i]).priority()
                            == placed[n].priority;
                    let shifted = if i < k {
                        i
                    } else {
                        i + 1
                    };
                    assert(after[shifted] == before[i]);
                } else {
                    assert(after[k as int].priority() == p.priority);
                }
            }
        }
    }
}

} // verus!
