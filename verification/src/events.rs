//! Classification of container lifecycle events.
//!
//! The runtime reports events as raw action strings. A fixed table maps them
//! to event classes: attach-class events lead to an inspection and possibly
//! an insert, detach-class events to a removal, everything else is ignored.
//! Events without an actor identifier are ignored outright.

use vstd::prelude::*;

use crate::strutil::str_eq;

verus! {

/// What kind of store mutation an event calls for.
#[derive(Clone, Copy, PartialEq, Eq, Structural, Debug)]
pub enum EventClass {
    /// The container may have become active: inspect and insert if eligible.
    Attach,
    /// The container is gone or inactive: remove its record if present.
    Detach,
    /// No store mutation.
    Ignored,
}

/// The fixed action table: `start`, `unpause` and `connect` attach; `die`,
/// `stop`, `kill`, `pause`, `disconnect` and `destroy` detach; anything else
/// is ignored.
pub open spec fn spec_classify(action: Seq<char>) -> EventClass {
    if action == "start"@ || action == "unpause"@ || action == "connect"@ {
        EventClass::Attach
    } else if action == "die"@ || action == "stop"@ || action == "kill"@ || action == "pause"@
        || action == "disconnect"@ || action == "destroy"@ {
        EventClass::Detach
    } else {
        EventClass::Ignored
    }
}

/// An event's effective class: an event without an actor identifier is
/// ignored, every other one goes by the action table.
pub open spec fn spec_disposition(action: Seq<char>, actor_id: Seq<char>) -> EventClass {
    if actor_id.len() == 0 {
        EventClass::Ignored
    } else {
        spec_classify(action)
    }
}

/// Decides [`spec_classify`].
pub fn classify_action(action: &str) -> (c: EventClass)
    ensures
        c == spec_classify(action@),
{
    if str_eq(action, "start") || str_eq(action, "unpause") || str_eq(action, "connect") {
        EventClass::Attach
    } else if str_eq(action, "die") || str_eq(action, "stop") || str_eq(action, "kill") || str_eq(
        action,
        "pause",
    ) || str_eq(action, "disconnect") || str_eq(action, "destroy") {
        EventClass::Detach
    } else {
        EventClass::Ignored
    }
}

/// Decides [`spec_disposition`].
pub fn event_disposition(action: &str, actor_id: &str) -> (c: EventClass)
    ensures
        c == spec_disposition(action@, actor_id@),
{
    if actor_id.is_empty() {
        EventClass::Ignored
    } else {
        classify_action(action)
    }
}

} // verus!
