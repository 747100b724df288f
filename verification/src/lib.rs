//! Keeps a local name-resolution file synchronized with the set of running
//! containers on a host: an event-driven synchronizer maintains the set of
//! active containers, a pure resolver derives address/hostname groupings from
//! container network metadata, a debounce scheduler coalesces write intents,
//! and an idempotent patcher rewrites a delimited managed section of a text
//! file without disturbing the surrounding content.

pub mod container;
pub mod debounce;
pub mod events;
pub mod hosts;
pub mod inspect;
pub mod store;
pub mod strutil;
pub mod writer;
