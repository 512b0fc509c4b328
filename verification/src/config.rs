//! Configuration records from which lineups are built.

use vstd::prelude::*;

verus! {

/// The protocol an input speaks.
#[derive(Clone, Copy, Debug, PartialEq, Eq, Structural)]
pub enum InputType {
    M3u,
    Xtream,
}

/// A further endpoint of an input, with credentials and a limit of its own.
#[derive(Debug)]
pub struct ConfigInputAlias {
    pub id: u16,
    pub name: String,
    pub url: String,
    pub username: Option<String>,
    pub password: Option<String>,
    pub priority: i16,
    pub max_connections: u16,
}

/// One configured input: its primary endpoint and, optionally, aliases.
#[derive(Debug)]
pub struct ConfigInput {
    pub id: u16,
    pub name: String,
    pub url: String,
    pub username: Option<String>,
    pub password: Option<String>,
    pub input_type: InputType,
    pub max_connections: u16,
    pub priority: i16,
    pub aliases: Option<Vec<ConfigInputAlias>>,
}

/// The characters of an optional string.
pub open spec fn text(s: Option<String>) -> Option<Seq<char>> {
    match s {
        Some(t) => Some(t@),
        None => None,
    }
}

impl ConfigInput {
    /// The aliases as a sequence; none when the field is absent.
    pub open spec fn alias_seq(&self) -> Seq<ConfigInputAlias> {
        match self.aliases {
            Some(list) => list@,
            None => Seq::empty(),
        }
    }

    /// Whether at least one alias is configured.
    pub open spec fn has_aliases(&self) -> bool {
        self.alias_seq().len() > 0
    }
}

/// Copies an optional string.
pub fn clone_text(s: &Option<String>) -> (r: Option<String>)
    ensures
        text(r) == text(*s),
{
    match s {
        Some(t) => Some(t.clone()),
        None => None,
    }
}

} // verus!
