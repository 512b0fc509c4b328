//! One upstream provider: its descriptor and its count of connections in flight.

use crate::config::{clone_text, text, ConfigInput, ConfigInputAlias, InputType};
use vstd::prelude::*;

verus! {

/// The answer of a provider to a request for one connection.
#[derive(Clone, Copy, Debug, PartialEq, Eq, Structural)]
pub enum Grant {
    /// A regular slot, below the limit.
    Granted,
    /// The single slot above the limit.
    Grace,
    /// No slot.
    Denied,
}

/// The value of a provider: what identifies and limits it, and how many
/// connections it serves right now.
pub struct ProviderState {
    pub id: u16,
    pub name: Seq<char>,
    pub url: Seq<char>,
    pub username: Option<Seq<char>>,
    pub password: Option<Seq<char>>,
    pub input_type: InputType,
    /// Zero stands for "no limit".
    pub max_connections: u16,
    /// A lower number is served first.
    pub priority: i16,
    pub current_connections: u16,
}

impl ProviderState {
    /// The provider of an input's primary endpoint, with no connection yet.
    pub open spec fn of_input(cfg: ConfigInput) -> ProviderState {
        ProviderState {
            id: cfg.id,
            name: cfg.name@,
            url: cfg.url@,
            username: text(cfg.username),
            password: text(cfg.password),
            input_type: cfg.input_type,
            max_connections: cfg.max_connections,
            priority: cfg.priority,
            current_connections: 0,
        }
    }

    /// The provider of an alias, with no connection yet. The alias speaks
    /// the protocol of the input it belongs to.
    pub open spec fn of_alias(cfg: ConfigInput, alias: ConfigInputAlias) -> ProviderState {
        ProviderState {
            id: alias.id,
            name: alias.name@,
            url: alias.url@,
            username: text(alias.username),
            password: text(alias.password),
            input_type: cfg.input_type,
            max_connections: alias.max_connections,
            priority: alias.priority,
            current_connections: 0,
        }
    }

    /// The limit is reached or passed.
    pub open spec fn is_exhausted(self) -> bool {
        self.max_connections > 0 && self.current_connections >= self.max_connections
    }

    /// The limit is passed.
    pub open spec fn is_over_limit(self) -> bool {
        self.max_connections > 0 && self.current_connections > self.max_connections
    }

    /// No more than the grace slot is taken above the limit.
    pub open spec fn within_grace(self) -> bool {
        self.max_connections > 0 ==> self.current_connections <= self.max_connections + 1
    }

    /// What a request gets. Without a limit, and below the limit, a
    /// regular slot. At the limit, the grace slot if `grace` asks for it.
    pub open spec fn grant(self, grace: bool) -> Grant {
        if self.max_connections == 0 || self.current_connections < self.max_connections {
            Grant::Granted
        } else if grace && self.current_connections == self.max_connections {
            Grant::Grace
        } else {
            Grant::Denied
        }
    }

    /// A request gets a slot.
    pub open spec fn admits(self, grace: bool) -> bool {
        self.grant(grace) != Grant::Denied
    }

    /// One connection more. The counter has sixteen bits and wraps.
    pub open spec fn incremented(self) -> ProviderState {
        ProviderState {
            current_connections: if self.current_connections == u16::MAX {
                0u16
            } else {
                (self.current_connections + 1) as u16
            },
            ..self
        }
    }

    /// The provider after a request: one connection more if it gets a slot.
    pub open spec fn try_allocate(self, grace: bool) -> ProviderState {
        if self.admits(grace) {
            self.incremented()
        } else {
            self
        }
    }

    /// One connection less; at zero nothing changes.
    pub open spec fn released(self) -> ProviderState {
        if self.current_connections > 0 {
            ProviderState { current_connections: (self.current_connections - 1) as u16, ..self }
        } else {
            self
        }
    }
}

/// A provider and its counter of connections in flight.
#[derive(Debug)]
pub struct ProviderConfig {
    pub id: u16,
    pub name: String,
    pub url: String,
    pub username: Option<String>,
    pub password: Option<String>,
    pub input_type: InputType,
    max_connections: u16,
    priority: i16,
    current_connections: u16,
}

impl View for ProviderConfig {
    type V = ProviderState;

    closed spec fn view(&self) -> ProviderState {
        ProviderState {
            id: self.id,
            name: self.name@,
            url: self.url@,
            username: text(self.username),
            password: text(self.password),
            input_type: self.input_type,
            max_connections: self.max_connections,
            priority: self.priority,
            current_connections: self.current_connections,
        }
    }
}

impl ProviderConfig {
    /// The provider of an input's primary endpoint, with no connection.
    pub fn new(cfg: &ConfigInput) -> (provider: Self)
        ensures
            provider@ == ProviderState::of_input(*cfg),
    {
        Self {
            id: cfg.id,
            name: cfg.name.clone(),
            url: cfg.url.clone(),
            username: clone_text(&cfg.username),
            password: clone_text(&cfg.password),
            input_type: cfg.input_type,
            max_connections: cfg.max_connections,
            priority: cfg.priority,
            current_connections: 0,
        }
    }

    /// The provider of an alias of `cfg`, with no connection.
    pub fn new_alias(cfg: &ConfigInput, alias: &ConfigInputAlias) -> (provider: Self)
        ensures
            provider@ == ProviderState::of_alias(*cfg, *alias),
    {
        Self {
            id: alias.id,
            name: alias.name.clone(),
            url: alias.url.clone(),
            username: clone_text(&alias.username),
            password: clone_text(&alias.password),
            input_type: cfg.input_type,
            max_connections: alias.max_connections,
            priority: alias.priority,
            current_connections: 0,
        }
    }

    /// A copy that keeps the counter as it is now.
    pub fn snapshot(&self) -> (copy: Self)
        ensures
            copy@ == self@,
    {
        Self {
            id: self.id,
            name: self.name.clone(),
            url: self.url.clone(),
            username: clone_text(&self.username),
            password: clone_text(&self.password),
            input_type: self.input_type,
            max_connections: self.max_connections,
            priority: self.priority,
            current_connections: self.current_connections,
        }
    }

    /// Whether the limit is reached or passed.
    #[inline]
    pub fn is_exhausted(&self) -> (exhausted: bool)
        ensures
            exhausted == self@.is_exhausted(),
    {
        self.max_connections > 0 && self.current_connections >= self.max_connections
    }

    /// Whether the limit is passed.
    #[inline]
    pub fn is_over_limit(&self) -> (over: bool)
        ensures
            over == self@.is_over_limit(),
    {
        self.max_connections > 0 && self.current_connections > self.max_connections
    }

    /// Takes a slot if there is one and says which kind it was.
    pub fn try_allocate(&mut self, grace: bool) -> (grant: Grant)
        ensures
            grant == old(self)@.grant(grace),
            final(self)@ == old(self)@.try_allocate(grace),
    {
        let connections = self.current_connections;
        if self.max_connections == 0 {
            self.current_connections = connections.wrapping_add(1);
            return Grant::Granted;
        }
        if (!grace && connections < self.max_connections) || (grace && connections
            <= self.max_connections) {
            self.current_connections = connections.wrapping_add(1);
            return if connections < self.max_connections {
                Grant::Granted
            } else {
                Grant::Grace
            };
        }
        Grant::Denied
    }

    /// Takes a slot whatever the limit says.
    pub fn force_allocate(&mut self)
        ensures
            final(self)@ == old(self)@.incremented(),
    {
        self.current_connections = self.current_connections.wrapping_add(1);
    }

    /// Whether a request would get a slot now. Takes none.
    pub fn get_next(&self, grace: bool) -> (admitted: bool)
        ensures
            admitted == self@.admits(grace),
    {
        let connections = self.current_connections;
        if self.max_connections == 0 {
            return true;
        }
        if (!grace && connections < self.max_connections) || (grace && connections
            <= self.max_connections) {
            return true;
        }
        false
    }

    /// Gives one slot back. With no connection counted nothing changes.
    pub fn release(&mut self)
        ensures
            final(self)@ == old(self)@.released(),
    {
        let connections = self.current_connections;
        if connections > 0 {
            self.current_connections = connections - 1;
        }
    }

    /// The numeric identity.
    pub fn id(&self) -> (id: u16)
        ensures
            id == self@.id,
    {
        self.id
    }

    /// The name.
    pub fn name(&self) -> (name: &String)
        ensures
            name@ == self@.name,
    {
        &self.name
    }

    /// The address of the endpoint.
    pub fn url(&self) -> (url: &String)
        ensures
            url@ == self@.url,
    {
        &self.url
    }

    /// The user name, if one is set.
    pub fn username(&self) -> (username: &Option<String>)
        ensures
            text(*username) == self@.username,
    {
        &self.username
    }

    /// The password, if one is set.
    pub fn password(&self) -> (password: &Option<String>)
        ensures
            text(*password) == self@.password,
    {
        &self.password
    }

    /// The protocol.
    pub fn input_type(&self) -> (input_type: InputType)
        ensures
            input_type == self@.input_type,
    {
        self.input_type
    }

    /// The number of connections in flight.
    pub fn get_connection(&self) -> (connections: u16)
        ensures
            connections == self@.current_connections,
    {
        self.current_connections
    }

    /// The limit; zero stands for "no limit".
    pub fn max_connections(&self) -> (max: u16)
        ensures
            max == self@.max_connections,
    {
        self.max_connections
    }

    /// The priority; a lower number is served first.
    pub fn priority(&self) -> (priority: i16)
        ensures
            priority == self@.priority,
    {
        self.priority
    }

    /// Whether this provider goes by `name`.
    pub fn is_named(&self, name: &String) -> (same: bool)
        ensures
            same == (self@.name == name@),
    {
        self.name == *name
    }

    /// A copy of the name.
    pub fn name_text(&self) -> (name: String)
        ensures
            name@ == self@.name,
    {
        self.name.clone()
    }
}

/// The value of an allocation.
pub enum AllocationState {
    Exhausted,
    Available(ProviderState),
    GracePeriod(ProviderState),
}

impl AllocationState {
    /// The allocation that reports `grant`, taken on `provider`.
    pub open spec fn of(grant: Grant, provider: ProviderState) -> AllocationState {
        match grant {
            Grant::Granted => AllocationState::Available(provider),
            Grant::Grace => AllocationState::GracePeriod(provider),
            Grant::Denied => AllocationState::Exhausted,
        }
    }

    /// The provider that a slot was taken on, if one was.
    pub open spec fn provider(self) -> Option<ProviderState> {
        match self {
            AllocationState::Exhausted => None,
            AllocationState::Available(p) => Some(p),
            AllocationState::GracePeriod(p) => Some(p),
        }
    }
}

/// The outcome of asking a lineup for a connection. A granted allocation
/// carries the provider as it stood right after the slot was taken.
#[derive(Debug)]
pub enum ProviderAllocation {
    Exhausted,
    Available(ProviderConfig),
    GracePeriod(ProviderConfig),
}

impl View for ProviderAllocation {
    type V = AllocationState;

    open spec fn view(&self) -> AllocationState {
        match self {
            ProviderAllocation::Exhausted => AllocationState::Exhausted,
            ProviderAllocation::Available(p) => AllocationState::Available(p@),
            ProviderAllocation::GracePeriod(p) => AllocationState::GracePeriod(p@),
        }
    }
}

impl ProviderAllocation {
    /// Whether nothing was granted.
    pub fn is_exhausted(&self) -> (exhausted: bool)
        ensures
            exhausted == (self@ is Exhausted),
    {
        match self {
            ProviderAllocation::Exhausted => true,
            _ => false,
        }
    }
}

/// A provider as a member of a lineup. It hands out allocations.
#[derive(Debug)]
pub struct ProviderConfigWrapper {
    inner: ProviderConfig,
}

impl View for ProviderConfigWrapper {
    type V = ProviderState;

    closed spec fn view(&self) -> ProviderState {
        self.inner@
    }
}

impl ProviderConfigWrapper {
    /// Takes `cfg` in as a member.
    pub fn new(cfg: ProviderConfig) -> (wrapper: Self)
        ensures
            wrapper@ == cfg@,
    {
        Self { inner: cfg }
    }

    /// The provider inside.
    pub fn config(&self) -> (cfg: &ProviderConfig)
        ensures
            cfg@ == self@,
    {
        &self.inner
    }

    /// Takes a slot whatever the limit says.
    pub fn force_allocate(&mut self) -> (allocation: ProviderAllocation)
        ensures
            final(self)@ == old(self)@.incremented(),
            allocation@ == AllocationState::Available(final(self)@),
    {
        self.inner.force_allocate();
        ProviderAllocation::Available(self.inner.snapshot())
    }

    /// Takes a slot if there is one.
    pub fn try_allocate(&mut self, grace: bool) -> (allocation: ProviderAllocation)
        ensures
            final(self)@ == old(self)@.try_allocate(grace),
            allocation@ == AllocationState::of(old(self)@.grant(grace), final(self)@),
    {
        match self.inner.try_allocate(grace) {
            Grant::Granted => ProviderAllocation::Available(self.inner.snapshot()),
            Grant::Grace => ProviderAllocation::GracePeriod(self.inner.snapshot()),
            Grant::Denied => ProviderAllocation::Exhausted,
        }
    }

    /// The provider, if a request would get a slot now. Takes none.
    pub fn get_next(&self, grace: bool) -> (next: Option<ProviderConfig>)
        ensures
            next.is_some() == self@.admits(grace),
            next matches Some(p) ==> p@ == self@,
    {
        if self.inner.get_next(grace) {
            return Some(self.inner.snapshot());
        }
        None
    }

    /// Whether the limit is reached or passed.
    pub fn is_exhausted(&self) -> (exhausted: bool)
        ensures
            exhausted == self@.is_exhausted(),
    {
        self.inner.is_exhausted()
    }

    /// Whether the limit is passed.
    pub fn is_over_limit(&self) -> (over: bool)
        ensures
            over == self@.is_over_limit(),
    {
        self.inner.is_over_limit()
    }

    /// Gives one slot back. With no connection counted nothing changes.
    pub fn release(&mut self)
        ensures
            final(self)@ == old(self)@.released(),
    {
        self.inner.release();
    }

    /// Whether this provider goes by `name`.
    pub fn is_named(&self, name: &String) -> (same: bool)
        ensures
            same == (self@.name == name@),
    {
        self.inner.is_named(name)
    }
}

} // verus!
