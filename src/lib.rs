//! A single-owner reactive state core: a dependency-tracking runtime with
//! signals and triggers, a stable-key arena, a keyed list reconciler and the
//! document and tab registries built on them.

pub mod runtime;
pub mod signal;
pub mod trigger;
pub mod arena;
pub mod reconcile;
pub mod registry;
