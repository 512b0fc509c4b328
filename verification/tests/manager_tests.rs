use active_provider_manager::config::{ConfigInput, ConfigInputAlias, InputType};
use active_provider_manager::lineup::{MultiProviderLineup, ProviderLineup, SingleProviderLineup};
use active_provider_manager::manager::{ActiveProviderManager, ProviderPosition};
use active_provider_manager::provider::{ProviderAllocation, ProviderConfig};

fn input(id: u16, name: &str, priority: i16, max_connections: u16) -> ConfigInput {
    ConfigInput {
        id,
        name: name.to_string(),
        url: "http://example.com".to_string(),
        username: None,
        password: None,
        input_type: InputType::Xtream,
        max_connections,
        priority,
        aliases: None,
    }
}

fn alias(id: u16, name: &str, priority: i16, max_connections: u16) -> ConfigInputAlias {
    ConfigInputAlias {
        id,
        name: name.to_string(),
        url: "http://alias.example.com".to_string(),
        username: None,
        password: None,
        priority,
        max_connections,
    }
}

fn with_aliases(mut cfg: ConfigInput, aliases: Vec<ConfigInputAlias>) -> ConfigInput {
    cfg.aliases = Some(aliases);
    cfg
}

/// "ok" for a regular slot, "grace" for the grace slot, with the provider's id; "none" for nothing.
fn label(allocation: &ProviderAllocation) -> String {
    match allocation {
        ProviderAllocation::Exhausted => "none".to_string(),
        ProviderAllocation::Available(p) => format!("ok{}", p.id),
        ProviderAllocation::GracePeriod(p) => format!("grace{}", p.id),
    }
}

fn acquire_labels(manager: &mut ActiveProviderManager, name: &str, times: usize) -> Vec<String> {
    let mut labels = Vec::new();
    for _ in 0..times {
        let guard = manager.acquire_connection(name);
        labels.push(label(guard.allocation()));
    }
    labels
}

fn count_of(counts: &[(String, u16)], name: &str) -> Option<u16> {
    counts.iter().rev().find(|entry| entry.0 == name).map(|entry| entry.1)
}

fn next_id(next: Option<ProviderConfig>) -> Option<u16> {
    next.map(|p| p.id)
}

#[test]
fn single_input_grants_limit_then_grace_then_nothing() {
    let mut manager = ActiveProviderManager::new(&vec![input(1, "main1", 1, 2)]);
    assert_eq!(acquire_labels(&mut manager, "main1", 4), vec!["ok1", "ok1", "grace1", "none"]);
}

#[test]
fn equal_priority_rotates() {
    let cfg = with_aliases(input(1, "main1", 1, 1), vec![alias(2, "alias2", 1, 2)]);
    let mut manager = ActiveProviderManager::new(&vec![cfg]);
    assert_eq!(
        acquire_labels(&mut manager, "main1", 6),
        vec!["ok1", "ok2", "ok2", "grace1", "grace2", "none"]
    );
}

#[test]
fn lower_priority_number_is_served_first() {
    let cfg = with_aliases(input(1, "main1", 1, 2), vec![alias(2, "alias2", 0, 2)]);
    let mut manager = ActiveProviderManager::new(&vec![cfg]);
    assert_eq!(acquire_labels(&mut manager, "main1", 3), vec!["ok2", "ok2", "ok1"]);
}

#[test]
fn three_providers_in_two_groups() {
    let cfg = with_aliases(
        input(1, "main1", 1, 1),
        vec![alias(2, "alias2", 1, 2), alias(3, "alias3", 0, 1)],
    );
    let mut manager = ActiveProviderManager::new(&vec![cfg]);
    assert_eq!(
        acquire_labels(&mut manager, "main1", 8),
        vec!["ok3", "ok1", "ok2", "ok2", "grace3", "grace1", "grace2", "none"]
    );
}

#[test]
fn release_frees_slots_in_order() {
    let mut manager = ActiveProviderManager::new(&vec![input(1, "main1", 1, 2)]);
    assert_eq!(acquire_labels(&mut manager, "main1", 3), vec!["ok1", "ok1", "grace1"]);
    manager.release_connection("main1");
    assert_eq!(acquire_labels(&mut manager, "main1", 1), vec!["grace1"]);
    manager.release_connection("main1");
    manager.release_connection("main1");
    assert_eq!(acquire_labels(&mut manager, "main1", 3), vec!["ok1", "grace1", "none"]);
}

#[test]
fn five_requests_share_two_slots_and_one_grace() {
    let mut lineup = SingleProviderLineup::new(&input(1, "provider9_1", 1, 2));
    let mut available: u16 = 0;
    let mut grace_period: u16 = 0;
    let mut exhausted: u16 = 0;
    for _ in 0..5 {
        match lineup.acquire() {
            ProviderAllocation::Exhausted => exhausted += 1,
            ProviderAllocation::Available(_) => available += 1,
            ProviderAllocation::GracePeriod(_) => grace_period += 1,
        }
    }
    assert_eq!(exhausted, 2);
    assert_eq!(available, 2);
    assert_eq!(grace_period, 1);
}

#[test]
fn unknown_input_gets_nothing() {
    let mut manager = ActiveProviderManager::new(&vec![input(1, "main1", 1, 2)]);
    let guard = manager.acquire_connection("nobody");
    assert!(guard.allocation().is_exhausted());
    assert_eq!(guard.get_provider_name(), None);
    assert!(guard.get_provider_config().is_none());
    assert!(manager.active_connections().is_none());
    assert!(manager.get_next_provider("nobody").is_none());
    assert!(!manager.is_over_limit("nobody"));
}

#[test]
fn added_input_is_granted_at_once() {
    let mut manager = ActiveProviderManager::new(&Vec::new());
    assert!(manager.acquire_connection("late").allocation().is_exhausted());
    manager.add_provider(&input(4, "late", 0, 1));
    assert_eq!(acquire_labels(&mut manager, "late", 1), vec!["ok4"]);
    manager.add_provider(&with_aliases(input(5, "later", 3, 1), vec![alias(6, "latest", 2, 1)]));
    assert_eq!(acquire_labels(&mut manager, "later", 1), vec!["ok6"]);
}

#[test]
fn alias_name_leads_to_its_lineup() {
    let cfg = with_aliases(input(1, "main1", 1, 1), vec![alias(2, "alias2", 0, 1)]);
    let mut manager = ActiveProviderManager::new(&vec![cfg, input(3, "main3", 0, 1)]);
    assert_eq!(acquire_labels(&mut manager, "alias2", 2), vec!["ok2", "ok1"]);
    assert_eq!(acquire_labels(&mut manager, "main3", 1), vec!["ok3"]);
}

#[test]
fn force_exact_takes_the_named_provider_whatever_its_limit() {
    let cfg = with_aliases(input(1, "main1", 1, 1), vec![alias(2, "alias2", 0, 1)]);
    let mut manager = ActiveProviderManager::new(&vec![cfg]);
    for n in 1..=4u16 {
        let guard = manager.force_exact_acquire_connection("main1");
        match guard.allocation() {
            ProviderAllocation::Available(p) => {
                assert_eq!(p.id, 1);
                assert_eq!(p.get_connection(), n);
            }
            _ => panic!("a forced connection is always available"),
        }
        assert_eq!(guard.get_provider_name(), Some("main1".to_string()));
    }
    assert!(manager.is_over_limit("main1"));
    assert!(!manager.is_over_limit("alias2"));
    let counts = manager.active_connections().unwrap();
    assert_eq!(count_of(&counts, "main1"), Some(4));
    assert_eq!(count_of(&counts, "alias2"), None);
    assert_eq!(counts.len(), 1);
    assert!(manager.force_exact_acquire_connection("nobody").allocation().is_exhausted());
}

#[test]
fn releasing_an_unknown_name_changes_nothing() {
    let cfg = with_aliases(input(1, "main1", 1, 2), vec![alias(2, "alias2", 1, 2)]);
    let mut manager = ActiveProviderManager::new(&vec![cfg]);
    assert_eq!(acquire_labels(&mut manager, "main1", 3), vec!["ok1", "ok2", "ok1"]);
    manager.release_connection("nobody");
    let counts = manager.active_connections().unwrap();
    assert_eq!(count_of(&counts, "main1"), Some(2));
    assert_eq!(count_of(&counts, "alias2"), Some(1));
    assert_eq!(acquire_labels(&mut manager, "main1", 1), vec!["ok2"]);
}

#[test]
fn ending_a_connection_gives_its_slot_back() {
    let cfg = with_aliases(input(1, "main1", 1, 1), vec![alias(2, "alias2", 1, 1)]);
    let mut manager = ActiveProviderManager::new(&vec![cfg]);
    let first = manager.acquire_connection("main1");
    let second = manager.acquire_connection("main1");
    assert_eq!(label(first.allocation()), "ok1");
    assert_eq!(label(second.allocation()), "ok2");
    assert_eq!(second.get_provider_config().map(|p| p.id), Some(2));
    let counts = manager.active_connections().unwrap();
    assert_eq!(count_of(&counts, "main1"), Some(1));
    assert_eq!(count_of(&counts, "alias2"), Some(1));
    manager.release_guard(second);
    let counts = manager.active_connections().unwrap();
    assert_eq!(count_of(&counts, "main1"), Some(1));
    assert_eq!(count_of(&counts, "alias2"), None);
    manager.release_guard(first);
    assert!(manager.active_connections().is_none());
    let nothing = manager.acquire_connection("nobody");
    manager.release_guard(nothing);
    assert!(manager.active_connections().is_none());
}

#[test]
fn equal_names_lead_to_the_first_lineup() {
    let mut manager =
        ActiveProviderManager::new(&vec![input(1, "same", 0, 5), input(2, "same", 0, 5)]);
    let _ = manager.acquire_connection("same");
    let _ = manager.acquire_connection("same");
    let _ = manager.force_exact_acquire_connection("same");
    assert_eq!(
        manager.active_connections(),
        Some(vec![("same".to_string(), 3)])
    );
    assert_eq!(
        ActiveProviderManager::get_provider_config("same", &vec![]),
        None
    );
}

#[test]
fn get_provider_config_finds_the_first_place() {
    let lineups = vec![
        ProviderLineup::Single(SingleProviderLineup::new(&input(1, "main1", 0, 1))),
        ProviderLineup::Multi(MultiProviderLineup::new(&with_aliases(
            input(2, "main2", 5, 1),
            vec![alias(3, "alias3", 5, 1), alias(4, "alias4", 1, 1), alias(5, "main1", 5, 1)],
        ))),
    ];
    assert_eq!(
        ActiveProviderManager::get_provider_config("main1", &lineups),
        Some(ProviderPosition { lineup: 0, group: 0, member: 0 })
    );
    assert_eq!(
        ActiveProviderManager::get_provider_config("alias4", &lineups),
        Some(ProviderPosition { lineup: 1, group: 0, member: 0 })
    );
    assert_eq!(
        ActiveProviderManager::get_provider_config("main2", &lineups),
        Some(ProviderPosition { lineup: 1, group: 1, member: 0 })
    );
    assert_eq!(
        ActiveProviderManager::get_provider_config("alias3", &lineups),
        Some(ProviderPosition { lineup: 1, group: 1, member: 1 })
    );
    assert_eq!(ActiveProviderManager::get_provider_config("alias9", &lineups), None);
}

#[test]
fn groups_keep_the_order_of_declaration() {
    let lineup = MultiProviderLineup::new(&with_aliases(
        input(1, "main1", 2, 1),
        vec![
            alias(2, "alias2", -1, 1),
            alias(3, "alias3", 2, 1),
            alias(4, "alias4", 7, 1),
            alias(5, "alias5", -1, 1),
            alias(6, "alias6", 2, 1),
        ],
    ));
    assert_eq!(lineup.group_count(), 3);
    let mut seen: Vec<Vec<u16>> = Vec::new();
    for g in 0..lineup.group_count() {
        let mut ids = Vec::new();
        for m in 0..lineup.member_count(g) {
            ids.push(lineup.member(g, m).config().id);
            assert_eq!(lineup.member(g, m).config().get_connection(), 0);
        }
        seen.push(ids);
    }
    assert_eq!(seen, vec![vec![2, 5], vec![1, 3, 6], vec![4]]);
    assert_eq!(lineup.locate(&"alias6".to_string()), Some((1, 2)));
    assert_eq!(lineup.locate(&"zz".to_string()), None);
}

#[test]
fn peeks_rotate_and_take_nothing() {
    let cfg = with_aliases(
        input(1, "main1", 1, 1),
        vec![alias(2, "alias2", 1, 1), alias(3, "alias3", 1, 1)],
    );
    let mut manager = ActiveProviderManager::new(&vec![cfg]);
    let mut ids = Vec::new();
    for _ in 0..7 {
        ids.push(next_id(manager.get_next_provider("main1")));
    }
    assert_eq!(
        ids,
        vec![Some(1), Some(2), Some(3), Some(1), Some(2), Some(3), Some(1)]
    );
    assert!(manager.active_connections().is_none());
}

#[test]
fn peeks_skip_exhausted_members() {
    let cfg = with_aliases(
        input(1, "main1", 1, 1),
        vec![alias(2, "alias2", 1, 1), alias(3, "alias3", 1, 1)],
    );
    let mut manager = ActiveProviderManager::new(&vec![cfg]);
    let _ = manager.force_exact_acquire_connection("alias2");
    let mut ids = Vec::new();
    for _ in 0..5 {
        ids.push(next_id(manager.get_next_provider("main1")));
    }
    assert_eq!(ids, vec![Some(1), Some(3), Some(1), Some(3), Some(1)]);
}

#[test]
fn peeks_stay_in_the_first_group_with_room() {
    let cfg = with_aliases(input(1, "main1", 1, 2), vec![alias(2, "alias2", 0, 2)]);
    let mut manager = ActiveProviderManager::new(&vec![cfg]);
    let mut ids = Vec::new();
    for _ in 0..4 {
        ids.push(next_id(manager.get_next_provider("main1")));
    }
    assert_eq!(ids, vec![Some(2), Some(2), Some(2), Some(2)]);
}

#[test]
fn peeks_pass_on_from_an_exhausted_group() {
    let cfg = with_aliases(input(1, "main1", 1, 1), vec![alias(2, "alias2", 0, 1)]);
    let mut manager = ActiveProviderManager::new(&vec![cfg]);
    assert_eq!(acquire_labels(&mut manager, "main1", 2), vec!["ok2", "ok1"]);
    let mut ids = Vec::new();
    for _ in 0..4 {
        ids.push(next_id(manager.get_next_provider("main1")));
    }
    assert_eq!(ids, vec![Some(2), Some(1), Some(2), Some(1)]);
    let counts = manager.active_connections().unwrap();
    assert_eq!(count_of(&counts, "main1"), Some(1));
    assert_eq!(count_of(&counts, "alias2"), Some(1));
}

#[test]
fn single_lineup_shows_its_provider_while_a_slot_is_left() {
    let mut lineup = SingleProviderLineup::new(&input(1, "main1", 0, 1));
    assert_eq!(next_id(lineup.get_next()), Some(1));
    assert_eq!(next_id(lineup.get_next()), Some(1));
    assert_eq!(lineup.provider().config().get_connection(), 0);
    assert_eq!(label(&lineup.acquire()), "ok1");
    assert_eq!(next_id(lineup.get_next()), Some(1));
    assert_eq!(lineup.provider().config().get_connection(), 1);
    assert_eq!(label(&lineup.acquire()), "grace1");
    assert_eq!(next_id(lineup.get_next()), None);
    lineup.release("main1");
    assert_eq!(next_id(lineup.get_next()), Some(1));
    assert_eq!(label(&lineup.force_allocate()), "ok1");
    assert_eq!(lineup.provider().config().get_connection(), 2);
    lineup.release("other");
    assert_eq!(lineup.provider().config().get_connection(), 2);
    assert_eq!(next_id(lineup.get_next()), None);
}

#[test]
fn single_lineup_at_its_limit_shows_its_provider() {
    let mut lineup = SingleProviderLineup::new(&input(1, "main1", 1, 2));
    assert_eq!(label(&lineup.acquire()), "ok1");
    assert_eq!(label(&lineup.acquire()), "ok1");
    let next = lineup.get_next();
    assert_eq!(next.as_ref().map(|p| p.id()), Some(1));
    assert_eq!(next.as_ref().map(|p| p.get_connection()), Some(2));
    assert_eq!(lineup.provider().config().get_connection(), 2);
    assert_eq!(label(&lineup.acquire()), "grace1");
    assert_eq!(next_id(lineup.get_next()), None);
}

#[test]
fn manager_peeks_a_single_input_at_its_limit() {
    let mut manager = ActiveProviderManager::new(&vec![input(1, "main1", 1, 2)]);
    assert_eq!(acquire_labels(&mut manager, "main1", 2), vec!["ok1", "ok1"]);
    assert_eq!(next_id(manager.get_next_provider("main1")), Some(1));
    assert_eq!(next_id(manager.get_next_provider("main1")), Some(1));
    assert_eq!(manager.active_connections(), Some(vec![("main1".to_string(), 2)]));
    assert_eq!(acquire_labels(&mut manager, "main1", 1), vec!["grace1"]);
    assert_eq!(next_id(manager.get_next_provider("main1")), None);
}

#[test]
fn index_does_not_go_back_on_release() {
    let cfg = with_aliases(input(1, "main1", 0, 1), vec![alias(2, "alias2", 1, 2)]);
    let mut lineup = MultiProviderLineup::new(&cfg);
    assert_eq!(label(&lineup.acquire()), "ok1");
    lineup.release("main1");
    assert_eq!(label(&lineup.acquire()), "ok2");
    assert_eq!(label(&lineup.acquire()), "ok2");
    assert_eq!(label(&lineup.acquire()), "ok1");
    assert_eq!(label(&lineup.acquire()), "grace2");
    assert_eq!(label(&lineup.acquire()), "grace1");
    assert_eq!(label(&lineup.acquire()), "none");
}

#[test]
fn walk_does_not_visit_members_before_the_cursor() {
    let cfg = with_aliases(input(1, "main1", 0, 2), vec![alias(2, "alias2", 0, 1)]);
    let mut group_lineup = MultiProviderLineup::new(&cfg);
    assert_eq!(label(&group_lineup.acquire()), "ok1");
    assert_eq!(label(&group_lineup.acquire()), "ok2");
    assert_eq!(label(&group_lineup.acquire()), "ok1");
    assert_eq!(label(&group_lineup.acquire()), "grace1");
    group_lineup.release("main1");
    group_lineup.release("main1");
    assert_eq!(label(&group_lineup.acquire()), "ok1");
}

#[test]
fn lineup_of_either_shape_answers_alike() {
    let mut single = ProviderLineup::Single(SingleProviderLineup::new(&input(1, "main1", 0, 1)));
    let mut multi = ProviderLineup::Multi(MultiProviderLineup::new(&input(1, "main1", 0, 1)));
    for lineup in [&mut single, &mut multi] {
        assert_eq!(lineup.group_count(), 1);
        assert_eq!(lineup.member_count(0), 1);
        assert_eq!(lineup.locate(&"main1".to_string()), Some((0, 0)));
        assert_eq!(lineup.locate(&"main2".to_string()), None);
        assert_eq!(label(&lineup.acquire()), "ok1");
        assert_eq!(label(&lineup.acquire()), "grace1");
        assert_eq!(label(&lineup.acquire()), "none");
        lineup.release("main1");
        assert_eq!(lineup.member(0, 0).config().get_connection(), 1);
        assert_eq!(label(&lineup.force_allocate_at(0, 0)), "ok1");
        assert_eq!(lineup.member(0, 0).config().get_connection(), 2);
    }
    assert_eq!(next_id(single.get_next()), None);
    assert_eq!(next_id(multi.get_next()), None);
    single.release("main1");
    multi.release("main1");
    assert_eq!(next_id(single.get_next()), Some(1));
    assert_eq!(next_id(multi.get_next()), Some(1));
    single.release("main1");
    multi.release("main1");
    assert_eq!(next_id(single.get_next()), Some(1));
    assert_eq!(next_id(multi.get_next()), Some(1));
}

#[test]
fn no_limit_never_runs_out() {
    let mut manager = ActiveProviderManager::new(&vec![input(1, "open", 0, 0)]);
    for n in 1..=300u16 {
        let guard = manager.acquire_connection("open");
        match guard.allocation() {
            ProviderAllocation::Available(p) => assert_eq!(p.get_connection(), n),
            _ => panic!("a provider without a limit always has a slot"),
        }
    }
    assert_eq!(
        manager.active_connections(),
        Some(vec![("open".to_string(), 300)])
    );
    assert!(!manager.is_over_limit("open"));
}

#[test]
fn active_connections_lists_busy_providers_in_order() {
    let first = with_aliases(
        input(1, "main1", 1, 3),
        vec![alias(2, "alias2", 0, 1), alias(3, "alias3", 1, 1)],
    );
    let mut manager = ActiveProviderManager::new(&vec![
        first,
        input(4, "main4", 0, 0),
        input(5, "main5", 0, 1),
    ]);
    assert_eq!(manager.active_connections(), None);
    assert_eq!(acquire_labels(&mut manager, "main1", 3), vec!["ok2", "ok1", "ok3"]);
    assert_eq!(acquire_labels(&mut manager, "main4", 2), vec!["ok4", "ok4"]);
    assert_eq!(
        manager.active_connections(),
        Some(vec![
            ("alias2".to_string(), 1),
            ("main1".to_string(), 1),
            ("alias3".to_string(), 1),
            ("main4".to_string(), 2),
        ])
    );
    manager.release_connection("main1");
    manager.release_connection("main4");
    assert_eq!(
        manager.active_connections(),
        Some(vec![("alias2".to_string(), 1), ("alias3".to_string(), 1), ("main4".to_string(), 1)])
    );
}
