//! A verified in-process instance graph with value marshaling and an
//! attribute codec.
//!
//! The crate models a single mutable tree of typed instances: an arena that
//! owns every instance, addressed by stable ids that are never reused. On top
//! of the arena sit conversions between a dynamic scripting value and a closed
//! set of typed property kinds, a packed binary codec for attribute maps, a
//! get-or-create policy for singleton services, and two import shapes for
//! merging externally produced graphs.

pub mod attributes;
pub mod bridge;
pub mod graph;
pub mod import;
pub mod json_table;
pub mod laws;
pub mod marshal;
pub mod roblox_api;
pub mod service;
pub mod session;
pub mod sniff_type;
pub mod strutil;
pub mod upload;
pub mod variant;

use vstd::prelude::*;

verus! {

/// The failure taxonomy shared by every operation of the library.
///
/// Each operation returns a typed failure; none panic. A failed call leaves
/// the graph unchanged.
#[derive(Clone, Copy, Debug, PartialEq, Eq, Structural)]
pub enum Error {
    /// The id never existed, was destroyed, or is missing from this graph.
    NotFound,
    /// A dynamic value's shape does not match the requested kind.
    TypeMismatch,
    /// The attribute blob's framing is malformed.
    CorruptAttributes,
    /// A variant kind with no marshaling rule.
    Unsupported,
    /// The class name is not present in the reflection database.
    InvalidClass,
    /// The class exists but is not tagged as a service.
    NotAService,
    /// The upload path was invoked without the credential it needs.
    AuthRequired,
    /// The remote endpoint reported a failure.
    RemoteFailure,
    /// Attaching here would make a node its own descendant.
    WouldCycle,
    /// A transferred id is already present in the receiving graph.
    IdCollision,
}

} // verus!
