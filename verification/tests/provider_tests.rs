use active_provider_manager::config::{ConfigInput, ConfigInputAlias, InputType};
use active_provider_manager::provider::{
    Grant, ProviderAllocation, ProviderConfig, ProviderConfigWrapper,
};

fn input(id: u16, name: &str, priority: i16, max_connections: u16) -> ConfigInput {
    ConfigInput {
        id,
        name: name.to_string(),
        url: "http://example.com".to_string(),
        username: Some("user".to_string()),
        password: None,
        input_type: InputType::M3u,
        max_connections,
        priority,
        aliases: None,
    }
}

fn alias(id: u16, name: &str, priority: i16, max_connections: u16) -> ConfigInputAlias {
    ConfigInputAlias {
        id,
        name: name.to_string(),
        url: "http://alias.example.com".to_string(),
        username: Some("alias_user".to_string()),
        password: Some("alias_pass".to_string()),
        priority,
        max_connections,
    }
}

#[test]
fn new_copies_the_input_and_starts_idle() {
    let provider = ProviderConfig::new(&input(7, "main", -3, 5));
    assert_eq!(provider.id, 7);
    assert_eq!(provider.name, "main");
    assert_eq!(provider.url, "http://example.com");
    assert_eq!(provider.username, Some("user".to_string()));
    assert_eq!(provider.password, None);
    assert_eq!(provider.input_type, InputType::M3u);
    assert_eq!(provider.max_connections(), 5);
    assert_eq!(provider.priority(), -3);
    assert_eq!(provider.get_connection(), 0);
    assert!(!provider.is_exhausted());
    assert!(!provider.is_over_limit());
}

#[test]
fn getters_return_the_fields() {
    let provider = ProviderConfig::new(&input(7, "main", -3, 5));
    assert_eq!(provider.id(), 7);
    assert_eq!(provider.name(), "main");
    assert_eq!(provider.url(), "http://example.com");
    assert_eq!(provider.username(), &Some("user".to_string()));
    assert_eq!(provider.password(), &None);
    assert_eq!(provider.input_type(), InputType::M3u);
    let second = ProviderConfig::new_alias(&input(7, "main", -3, 5), &alias(8, "second", 4, 2));
    assert_eq!(second.id(), 8);
    assert_eq!(second.name(), "second");
    assert_eq!(second.url(), "http://alias.example.com");
    assert_eq!(second.username(), &Some("alias_user".to_string()));
    assert_eq!(second.password(), &Some("alias_pass".to_string()));
    assert_eq!(second.input_type(), InputType::M3u);
}

#[test]
fn new_alias_takes_the_protocol_of_its_input() {
    let provider = ProviderConfig::new_alias(&input(7, "main", -3, 5), &alias(8, "second", 4, 2));
    assert_eq!(provider.id, 8);
    assert_eq!(provider.name, "second");
    assert_eq!(provider.url, "http://alias.example.com");
    assert_eq!(provider.username, Some("alias_user".to_string()));
    assert_eq!(provider.password, Some("alias_pass".to_string()));
    assert_eq!(provider.input_type, InputType::M3u);
    assert_eq!(provider.max_connections(), 2);
    assert_eq!(provider.priority(), 4);
    assert_eq!(provider.get_connection(), 0);
}

#[test]
fn strict_requests_stop_at_the_limit() {
    let mut provider = ProviderConfig::new(&input(1, "p", 0, 2));
    assert_eq!(provider.try_allocate(false), Grant::Granted);
    assert_eq!(provider.try_allocate(false), Grant::Granted);
    assert_eq!(provider.get_connection(), 2);
    assert!(provider.is_exhausted());
    assert!(!provider.is_over_limit());
    assert_eq!(provider.try_allocate(false), Grant::Denied);
    assert_eq!(provider.get_connection(), 2);
}

#[test]
fn one_grace_slot_above_the_limit() {
    let mut provider = ProviderConfig::new(&input(1, "p", 0, 2));
    assert_eq!(provider.try_allocate(true), Grant::Granted);
    assert_eq!(provider.try_allocate(true), Grant::Granted);
    assert_eq!(provider.try_allocate(false), Grant::Denied);
    assert_eq!(provider.try_allocate(true), Grant::Grace);
    assert_eq!(provider.get_connection(), 3);
    assert!(provider.is_exhausted());
    assert!(provider.is_over_limit());
    assert_eq!(provider.try_allocate(true), Grant::Denied);
    assert_eq!(provider.try_allocate(false), Grant::Denied);
    assert_eq!(provider.get_connection(), 3);
}

#[test]
fn no_limit_grants_every_request() {
    let mut provider = ProviderConfig::new(&input(1, "p", 0, 0));
    for n in 1..=1000u16 {
        let grace = n % 2 == 0;
        assert_eq!(provider.try_allocate(grace), Grant::Granted);
        assert_eq!(provider.get_connection(), n);
        assert!(!provider.is_exhausted());
        assert!(!provider.is_over_limit());
    }
}

#[test]
fn counter_wraps_after_the_largest_number() {
    let mut provider = ProviderConfig::new(&input(1, "p", 0, 0));
    for _ in 0..65535u32 {
        assert_eq!(provider.try_allocate(false), Grant::Granted);
    }
    assert_eq!(provider.get_connection(), 65535);
    assert_eq!(provider.try_allocate(false), Grant::Granted);
    assert_eq!(provider.get_connection(), 0);
    provider.force_allocate();
    assert_eq!(provider.get_connection(), 1);
}

#[test]
fn largest_limit_wraps_on_the_grace_slot() {
    let mut provider = ProviderConfig::new(&input(1, "p", 0, 65535));
    for _ in 0..65535u32 {
        assert_eq!(provider.try_allocate(false), Grant::Granted);
    }
    assert_eq!(provider.try_allocate(false), Grant::Denied);
    assert_eq!(provider.try_allocate(true), Grant::Grace);
    assert_eq!(provider.get_connection(), 0);
    assert_eq!(provider.try_allocate(false), Grant::Granted);
}

#[test]
fn release_stops_at_zero() {
    let mut provider = ProviderConfig::new(&input(1, "p", 0, 2));
    provider.release();
    assert_eq!(provider.get_connection(), 0);
    assert_eq!(provider.try_allocate(false), Grant::Granted);
    assert_eq!(provider.try_allocate(false), Grant::Granted);
    provider.release();
    assert_eq!(provider.get_connection(), 1);
    provider.release();
    provider.release();
    assert_eq!(provider.get_connection(), 0);
}

#[test]
fn balanced_requests_and_releases_end_idle() {
    let mut provider = ProviderConfig::new(&input(1, "p", 0, 3));
    let mut held: u16 = 0;
    for round in 0..50u16 {
        let grace = round % 3 == 0;
        if provider.try_allocate(grace) != Grant::Denied {
            held += 1;
        }
        assert_eq!(provider.get_connection(), held);
        assert!(provider.get_connection() <= provider.max_connections() + 1);
        if round % 4 == 3 && held > 0 {
            provider.release();
            held -= 1;
        }
    }
    while held > 0 {
        provider.release();
        held -= 1;
    }
    assert_eq!(provider.get_connection(), 0);
}

#[test]
fn peek_answers_like_a_request_and_takes_nothing() {
    let mut provider = ProviderConfig::new(&input(1, "p", 0, 1));
    assert!(provider.get_next(false));
    assert!(provider.get_next(true));
    assert_eq!(provider.get_connection(), 0);
    assert_eq!(provider.try_allocate(false), Grant::Granted);
    assert!(!provider.get_next(false));
    assert!(provider.get_next(true));
    assert_eq!(provider.get_connection(), 1);
    assert_eq!(provider.try_allocate(true), Grant::Grace);
    assert!(!provider.get_next(false));
    assert!(!provider.get_next(true));
    let unlimited = ProviderConfig::new(&input(2, "u", 0, 0));
    assert!(unlimited.get_next(false));
    assert!(unlimited.get_next(true));
}

#[test]
fn force_passes_the_limit() {
    let mut provider = ProviderConfig::new(&input(1, "p", 0, 1));
    provider.force_allocate();
    provider.force_allocate();
    provider.force_allocate();
    assert_eq!(provider.get_connection(), 3);
    assert!(provider.is_over_limit());
    assert_eq!(provider.try_allocate(true), Grant::Denied);
}

#[test]
fn snapshot_keeps_the_counter() {
    let mut provider = ProviderConfig::new(&input(9, "p", 2, 4));
    provider.force_allocate();
    let copy = provider.snapshot();
    provider.force_allocate();
    assert_eq!(copy.id, 9);
    assert_eq!(copy.name, "p");
    assert_eq!(copy.get_connection(), 1);
    assert_eq!(copy.max_connections(), 4);
    assert_eq!(copy.priority(), 2);
    assert_eq!(provider.get_connection(), 2);
    assert!(copy.is_named(&"p".to_string()));
    assert!(!copy.is_named(&"q".to_string()));
    assert_eq!(copy.name_text(), "p");
}

#[test]
fn wrapper_hands_out_allocations() {
    let mut wrapper = ProviderConfigWrapper::new(ProviderConfig::new(&input(3, "w", 0, 1)));
    match wrapper.try_allocate(false) {
        ProviderAllocation::Available(p) => {
            assert_eq!(p.id, 3);
            assert_eq!(p.get_connection(), 1);
        }
        _ => panic!("a regular slot was due"),
    }
    assert!(matches!(wrapper.try_allocate(false), ProviderAllocation::Exhausted));
    match wrapper.try_allocate(true) {
        ProviderAllocation::GracePeriod(p) => {
            assert_eq!(p.id, 3);
            assert_eq!(p.get_connection(), 2);
        }
        _ => panic!("the grace slot was due"),
    }
    assert!(matches!(wrapper.try_allocate(true), ProviderAllocation::Exhausted));
    assert!(wrapper.is_exhausted());
    assert!(wrapper.is_over_limit());
    match wrapper.force_allocate() {
        ProviderAllocation::Available(p) => assert_eq!(p.get_connection(), 3),
        _ => panic!("a forced slot is a regular one"),
    }
    assert_eq!(wrapper.config().get_connection(), 3);
    wrapper.release();
    wrapper.release();
    wrapper.release();
    assert_eq!(wrapper.config().get_connection(), 0);
    assert!(wrapper.is_named(&"w".to_string()));
}

#[test]
fn wrapper_shows_the_next_provider() {
    let mut wrapper = ProviderConfigWrapper::new(ProviderConfig::new(&input(3, "w", 0, 1)));
    assert_eq!(wrapper.get_next(false).map(|p| p.id), Some(3));
    assert_eq!(wrapper.config().get_connection(), 0);
    let _ = wrapper.try_allocate(false);
    assert!(wrapper.get_next(false).is_none());
    assert_eq!(wrapper.get_next(true).map(|p| p.get_connection()), Some(1));
    let _ = wrapper.try_allocate(true);
    assert!(wrapper.get_next(true).is_none());
}

#[test]
fn allocation_knows_when_it_holds_nothing() {
    let mut wrapper = ProviderConfigWrapper::new(ProviderConfig::new(&input(3, "w", 0, 1)));
    assert!(!wrapper.try_allocate(false).is_exhausted());
    assert!(!wrapper.try_allocate(true).is_exhausted());
    assert!(wrapper.try_allocate(true).is_exhausted());
}
