//! Connection accounting for a pool of upstream providers.
//!
//! A logical input fans out to a primary provider and its aliases. Each
//! provider limits the connections it serves at once. The manager picks
//! the provider for a new stream by priority, rotates among providers of
//! equal priority, and allows each provider a single slot above its
//! limit before refusing.
//!
//! The layers, leaves first: [`provider`] counts the connections of one
//! provider, [`group`] holds providers of equal priority with the cursor
//! of their rotation, [`lineup`] walks the groups of one input by
//! priority, [`manager`] keeps the lineups of all inputs and routes
//! requests by name. [`grouping`] sorts the providers of an input into
//! groups, and [`search`] finds the first element of a sequence that
//! satisfies a predicate.
//!
//! Every operation takes the state it changes by `&mut`, and its
//! contract states the new state as a function of the old one. A caller
//! that serves requests side by side keeps the manager behind a lock.
//!
//! [`laws`], [`traces`] and [`rotation`] prove what holds over
//! sequences of operations: balanced requests and releases end with
//! idle providers, no provider passes its limit by more than the grace
//! slot unless a connection is forced, and successive peeks rotate.

pub mod config;
pub mod group;
pub mod grouping;
pub mod laws;
pub mod lineup;
pub mod manager;
pub mod provider;
pub mod rotation;
pub mod search;
pub mod traces;
