//! The engine registry: publishes the live compiled rule set to readers and
//! swaps it atomically on a rule edit. A snapshot is a shared handle to an
//! immutable engine; replacing the registry's engine never touches handles
//! already given out, so a reader keeps masking with the rules it saw.
//!
//! The host shares one registry behind its read-mostly lock; the registry
//! itself says what snapshot and replace mean.

use std::sync::Arc;

use vstd::prelude::*;

use crate::engine::MaskEngine;

verus! {

/// Holds the engine that new snapshots will see.
pub struct EngineRegistry {
    current: Arc<MaskEngine>,
}

impl EngineRegistry {
    /// The engine the registry currently publishes.
    pub closed spec fn engine(self) -> MaskEngine {
        *self.current
    }

    /// A registry publishing the given engine.
    pub fn new(engine: MaskEngine) -> (r: Self)
        ensures
            r.engine() == engine,
    {
        EngineRegistry { current: Arc::new(engine) }
    }

    /// A snapshot of the current engine: a handle whose validity does not
    /// depend on later [`Self::replace`] calls — the engine behind it is
    /// immutable and stays alive while the handle is held.
    pub fn snapshot(&self) -> (r: Arc<MaskEngine>)
        ensures
            *r == self.engine(),
    {
        self.current.clone()
    }

    /// Law (hot reload): installs a new engine. Every later snapshot sees
    /// the new engine; every snapshot taken earlier is a separate handle and
    /// still masks with the engine it captured.
    pub fn replace(&mut self, engine: MaskEngine)
        ensures
            final(self).engine() == engine,
    {
        self.current = Arc::new(engine);
    }
}

} // verus!
