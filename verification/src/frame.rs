use vstd::prelude::*;

use crate::damage::DamageRegion;

verus! {

/// How much of the retained scene a frame patched.
#[derive(Debug, Clone, Copy, PartialEq, Eq, Structural)]
pub struct CompositorFrameStats {
    pub patch_upserts: usize,
    pub patch_removes: usize,
}

impl CompositorFrameStats {
    /// No patches.
    pub fn none() -> (stats: Self)
        ensures
            stats.patch_upserts == 0,
            stats.patch_removes == 0,
    {
        CompositorFrameStats { patch_upserts: 0, patch_removes: 0 }
    }
}

/// A frame for the compositor: its payload, what it damaged, its generation
/// and its patch statistics.
#[derive(Debug, Clone)]
pub struct CompositorFrame<T, R> {
    pub payload: T,
    pub damage: DamageRegion<R>,
    pub generation: u64,
    pub stats: CompositorFrameStats,
}

impl<T, R> CompositorFrame<T, R> {
    pub fn new(payload: T, damage: DamageRegion<R>, generation: u64, stats: CompositorFrameStats) -> (frame: Self)
        ensures
            frame.payload == payload,
            frame.damage == damage,
            frame.generation == generation,
            frame.stats == stats,
    {
        CompositorFrame { payload, damage, generation, stats }
    }

    /// A frame that damages the whole viewport and patched nothing.
    pub fn full(payload: T, generation: u64) -> (frame: Self)
        ensures
            frame.payload == payload,
            frame.damage is Full,
            frame.generation == generation,
            frame.stats == CompositorFrameStats::none_spec(),
    {
        Self::new(payload, DamageRegion::Full, generation, CompositorFrameStats::none())
    }
}

impl CompositorFrameStats {
    pub open spec fn none_spec() -> Self {
        CompositorFrameStats { patch_upserts: 0, patch_removes: 0 }
    }
}

} // verus!
