use vstd::prelude::*;

use crate::tile::{TileContentHandle, TileId, TileLayout};
use crate::tile_cache::{RasterBatch, TilePlan};

verus! {

/// A compositor layer's id: 0 for the root, `i + 1` for stacking context `i`.
#[derive(Debug, Clone, Copy, PartialEq, Eq, Structural, Hash)]
pub struct CompositorLayerId(pub u32);

/// How a layer's pixels are combined with what lies under it.
#[derive(Debug, Clone, Copy, PartialEq, Eq, Structural)]
pub enum CompositorBlendMode {
    Normal,
    Multiply,
    Screen,
}

/// One entry of a layer's paint scope: an item it paints itself, or a
/// child layer painted at that point.
#[derive(Debug, Clone, Copy, PartialEq, Eq, Structural)]
pub enum CompositorScopeEntry {
    DirectItem(usize),
    ChildLayer(CompositorLayerId),
}

/// A layer of the compositor tree. The geometric and visual parameters
/// (opacity, effects, bounds) are carried as `V`.
#[derive(Debug, Clone)]
pub struct CompositorLayer<V> {
    pub layer_id: CompositorLayerId,
    pub parent: Option<CompositorLayerId>,
    pub child_layers: Vec<CompositorLayerId>,
    pub descendant_layers: Vec<CompositorLayerId>,
    pub scope_entries: Vec<CompositorScopeEntry>,
    pub stacking_context_index: Option<usize>,
    pub paint_order: usize,
    pub blend_mode: CompositorBlendMode,
    pub needs_offscreen: bool,
    pub item_count: usize,
    pub tile_ids: Vec<TileId>,
    pub visual: V,
}

/// The layers of a frame, root first.
#[derive(Debug, Clone)]
pub struct CompositorLayerTree<V> {
    pub layers: Vec<CompositorLayer<V>>,
}

/// How many of `layers` need an offscreen pass.
pub open spec fn offscreen_layers<V>(layers: Seq<CompositorLayer<V>>) -> nat
    decreases layers.len(),
{
    if layers.len() == 0 {
        0
    } else {
        offscreen_layers(layers.drop_last()) + if layers.last().needs_offscreen {
            1nat
        } else {
            0nat
        }
    }
}

impl<V> CompositorLayerTree<V> {
    pub fn layer_count(&self) -> (n: usize)
        ensures
            n == self.layers@.len(),
    {
        self.layers.len()
    }

    pub fn offscreen_layer_count(&self) -> (n: usize)
        ensures
            n == offscreen_layers(self.layers@),
    {
        let mut count: usize = 0;
        let mut i: usize = 0;
        while i < self.layers.len()
            invariant
                0 <= i <= self.layers@.len(),
                count == offscreen_layers(self.layers@.take(i as int)),
                count <= i,
            decreases self.layers@.len() - i,
        {
            proof {
                assert(self.layers@.take(i + 1).drop_last() =~= self.layers@.take(i as int));
            }
            if self.layers[i].needs_offscreen {
                count = count + 1;
            }
            i = i + 1;
        }
        proof {
            assert(self.layers@.take(self.layers@.len() as int) =~= self.layers@);
        }
        count
    }
}

/// A tile of a layer and the surface its content lives in.
#[derive(Debug, Clone, Copy, PartialEq, Eq, Structural)]
pub struct CompositeTileRef {
    pub tile_id: TileId,
    pub content_handle: TileContentHandle,
}

/// One layer's step of a composite pass.
#[derive(Debug, Clone)]
pub struct CompositeLayerPass<V> {
    pub layer_id: CompositorLayerId,
    pub parent: Option<CompositorLayerId>,
    pub descendant_layers: Vec<CompositorLayerId>,
    pub tiles: Vec<CompositeTileRef>,
    pub paint_order: usize,
    pub needs_offscreen: bool,
    pub blend_mode: CompositorBlendMode,
    pub visual: V,
}

/// The steps of a frame's composition, one per layer.
#[derive(Debug, Clone)]
pub struct CompositePass<V> {
    pub steps: Vec<CompositeLayerPass<V>>,
    pub full_present: bool,
}

/// How many tiles the steps composite in all.
pub open spec fn steps_tile_total<V>(steps: Seq<CompositeLayerPass<V>>) -> nat
    decreases steps.len(),
{
    if steps.len() == 0 {
        0
    } else {
        steps_tile_total(steps.drop_last()) + steps.last().tiles@.len()
    }
}

/// How many of the steps need an offscreen pass.
pub open spec fn offscreen_steps<V>(steps: Seq<CompositeLayerPass<V>>) -> nat
    decreases steps.len(),
{
    if steps.len() == 0 {
        0
    } else {
        offscreen_steps(steps.drop_last()) + if steps.last().needs_offscreen {
            1nat
        } else {
            0nat
        }
    }
}

/// A prefix never has more tiles than the whole.
pub proof fn lemma_steps_tile_total_prefix<V>(steps: Seq<CompositeLayerPass<V>>, i: int)
    requires
        0 <= i <= steps.len(),
    ensures
        steps_tile_total(steps.take(i)) <= steps_tile_total(steps),
    decreases steps.len() - i,
{
    if i < steps.len() {
        lemma_steps_tile_total_prefix(steps, i + 1);
        assert(steps.take(i + 1).drop_last() =~= steps.take(i));
    } else {
        assert(steps.take(i) =~= steps);
    }
}

impl<V> CompositePass<V> {
    /// How many tiles the pass composites.
    pub fn tile_count(&self) -> (n: usize)
        requires
            steps_tile_total(self.steps@) <= usize::MAX,
        ensures
            n == steps_tile_total(self.steps@),
    {
        let mut total: usize = 0;
        let mut i: usize = 0;
        while i < self.steps.len()
            invariant
                0 <= i <= self.steps@.len(),
                total == steps_tile_total(self.steps@.take(i as int)),
                steps_tile_total(self.steps@) <= usize::MAX,
            decreases self.steps@.len() - i,
        {
            proof {
                assert(self.steps@.take(i + 1).drop_last() =~= self.steps@.take(i as int));
                lemma_steps_tile_total_prefix(self.steps@, i + 1);
            }
            total = total + self.steps[i].tiles.len();
            i = i + 1;
        }
        proof {
            assert(self.steps@.take(self.steps@.len() as int) =~= self.steps@);
        }
        total
    }

    /// How many layers the pass composites.
    pub fn layer_count(&self) -> (n: usize)
        ensures
            n == self.steps@.len(),
    {
        self.steps.len()
    }
}

/// What executing a composite pass did.
#[derive(Debug, Clone, Copy, PartialEq, Eq, Structural)]
pub struct CompositeExecutionStats {
    pub executed_layer_count: usize,
    pub executed_tile_count: usize,
    pub offscreen_step_count: usize,
}

/// One tile to draw: the surface, the layer it belongs to, and where it goes.
#[derive(Debug, Clone, Copy, PartialEq, Eq, Structural)]
pub struct CompositeTileJob {
    pub layer_id: CompositorLayerId,
    pub content_handle: TileContentHandle,
    pub tile_id: TileId,
    pub needs_offscreen: bool,
}

/// One layer to set up before its tiles are drawn.
#[derive(Debug, Clone)]
pub struct CompositeLayerJob<V> {
    pub layer_id: CompositorLayerId,
    pub parent: Option<CompositorLayerId>,
    pub descendant_layers: Vec<CompositorLayerId>,
    pub paint_order: usize,
    pub blend_mode: CompositorBlendMode,
    pub needs_offscreen: bool,
    pub visual: V,
}

/// The work of a composite pass, layer by layer and tile by tile.
#[derive(Debug, Clone)]
pub struct CompositeExecutionPlan<V> {
    pub layer_jobs: Vec<CompositeLayerJob<V>>,
    pub jobs: Vec<CompositeTileJob>,
    pub stats: CompositeExecutionStats,
}

/// The tile jobs of one step: its tiles that lie in the grid, in order.
pub open spec fn step_tile_jobs(
    layer_id: CompositorLayerId,
    needs_offscreen: bool,
    tiles: Seq<CompositeTileRef>,
    layout: TileLayout,
) -> Seq<CompositeTileJob>
    decreases tiles.len(),
{
    if tiles.len() == 0 {
        Seq::empty()
    } else {
        let prev = step_tile_jobs(layer_id, needs_offscreen, tiles.drop_last(), layout);
        let tile = tiles.last();
        if layout.in_grid(tile.tile_id) {
            prev.push(
                CompositeTileJob {
                    layer_id,
                    content_handle: tile.content_handle,
                    tile_id: tile.tile_id,
                    needs_offscreen,
                },
            )
        } else {
            prev
        }
    }
}

/// The tile jobs of all steps, step after step.
pub open spec fn pass_tile_jobs<V>(steps: Seq<CompositeLayerPass<V>>, layout: TileLayout) -> Seq<
    CompositeTileJob,
>
    decreases steps.len(),
{
    if steps.len() == 0 {
        Seq::empty()
    } else {
        let step = steps.last();
        pass_tile_jobs(steps.drop_last(), layout) + step_tile_jobs(
            step.layer_id,
            step.needs_offscreen,
            step.tiles@,
            layout,
        )
    }
}

/// Whether `job` sets up `step`'s layer: the same ids, order, mode and
/// offscreen need, and its visual parameters cloned from the step's.
pub open spec fn layer_job_of<V: Clone>(job: CompositeLayerJob<V>, step: CompositeLayerPass<V>) -> bool {
    &&& job.layer_id == step.layer_id
    &&& job.parent == step.parent
    &&& job.descendant_layers@ == step.descendant_layers@
    &&& job.paint_order == step.paint_order
    &&& job.blend_mode == step.blend_mode
    &&& job.needs_offscreen == step.needs_offscreen
    &&& cloned(step.visual, job.visual)
}

/// A copy of a list of layer ids.
pub fn copy_layer_ids(ids: &Vec<CompositorLayerId>) -> (out: Vec<CompositorLayerId>)
    ensures
        out@ == ids@,
{
    let mut out: Vec<CompositorLayerId> = Vec::new();
    let mut i: usize = 0;
    while i < ids.len()
        invariant
            0 <= i <= ids@.len(),
            out@ == ids@.take(i as int),
        decreases ids@.len() - i,
    {
        out.push(ids[i]);
        proof {
            assert(ids@.take(i + 1) =~= ids@.take(i as int).push(ids@[i as int]));
        }
        i = i + 1;
    }
    proof {
        assert(ids@.take(ids@.len() as int) =~= ids@);
    }
    out
}

/// Runs composite passes: counts and plans their work.
#[derive(Debug, Default, Clone, Copy, PartialEq, Eq, Structural)]
pub struct CompositeExecutor;

impl CompositeExecutor {
    pub fn new() -> (executor: Self) {
        CompositeExecutor
    }

    /// Counts the layers, tiles and offscreen steps of `pass`.
    pub fn execute<V>(&self, pass: &CompositePass<V>) -> (stats: CompositeExecutionStats)
        requires
            steps_tile_total(pass.steps@) <= usize::MAX,
        ensures
            stats.executed_layer_count == pass.steps@.len(),
            stats.executed_tile_count == steps_tile_total(pass.steps@),
            stats.offscreen_step_count == offscreen_steps(pass.steps@),
    {
        let mut offscreen: usize = 0;
        let mut i: usize = 0;
        while i < pass.steps.len()
            invariant
                0 <= i <= pass.steps@.len(),
                offscreen == offscreen_steps(pass.steps@.take(i as int)),
                offscreen <= i,
            decreases pass.steps@.len() - i,
        {
            proof {
                assert(pass.steps@.take(i + 1).drop_last() =~= pass.steps@.take(i as int));
            }
            if pass.steps[i].needs_offscreen {
                offscreen = offscreen + 1;
            }
            i = i + 1;
        }
        proof {
            assert(pass.steps@.take(pass.steps@.len() as int) =~= pass.steps@);
        }
        CompositeExecutionStats {
            executed_layer_count: pass.layer_count(),
            executed_tile_count: pass.tile_count(),
            offscreen_step_count: offscreen,
        }
    }

    /// The jobs of `pass` on the grid `layout`: one layer job per step, and
    /// one tile job per tile of a step that lies in the grid, step by step.
    pub fn plan<V: Clone>(&self, pass: &CompositePass<V>, layout: &TileLayout) -> (plan: CompositeExecutionPlan<V>)
        requires
            layout.wf(),
            steps_tile_total(pass.steps@) <= usize::MAX,
        ensures
            plan.layer_jobs@.len() == pass.steps@.len(),
            forall|i: int| 0 <= i < pass.steps@.len() ==> layer_job_of(#[trigger] plan.layer_jobs@[i], pass.steps@[i]),
            plan.jobs@ == pass_tile_jobs(pass.steps@, *layout),
            plan.stats.executed_layer_count == pass.steps@.len(),
            plan.stats.executed_tile_count == steps_tile_total(pass.steps@),
            plan.stats.offscreen_step_count == offscreen_steps(pass.steps@),
    {
        let mut layer_jobs: Vec<CompositeLayerJob<V>> = Vec::new();
        let mut i: usize = 0;
        while i < pass.steps.len()
            invariant
                0 <= i <= pass.steps@.len(),
                layer_jobs@.len() == i,
                forall|k: int| 0 <= k < i ==> layer_job_of(#[trigger] layer_jobs@[k], pass.steps@[k]),
            decreases pass.steps@.len() - i,
        {
            let step = &pass.steps[i];
            let job = CompositeLayerJob {
                layer_id: step.layer_id,
                parent: step.parent,
                descendant_layers: copy_layer_ids(&step.descendant_layers),
                paint_order: step.paint_order,
                blend_mode: step.blend_mode,
                needs_offscreen: step.needs_offscreen,
                visual: step.visual.clone(),
            };
            layer_jobs.push(job);
            i = i + 1;
        }
        let mut jobs: Vec<CompositeTileJob> = Vec::new();
        let mut s: usize = 0;
        while s < pass.steps.len()
            invariant
                0 <= s <= pass.steps@.len(),
                layout.wf(),
                jobs@ == pass_tile_jobs(pass.steps@.take(s as int), *layout),
            decreases pass.steps@.len() - s,
        {
            let step = &pass.steps[s];
            let ghost before = jobs@;
            let mut t: usize = 0;
            while t < step.tiles.len()
                invariant
                    0 <= t <= step.tiles@.len(),
                    layout.wf(),
                    jobs@ == before + step_tile_jobs(
                        step.layer_id,
                        step.needs_offscreen,
                        step.tiles@.take(t as int),
                        *layout,
                    ),
                decreases step.tiles@.len() - t,
            {
                proof {
                    assert(step.tiles@.take(t + 1).drop_last() =~= step.tiles@.take(t as int));
                }
                let tile = step.tiles[t];
                if layout.contains_tile(tile.tile_id) {
                    jobs.push(
                        CompositeTileJob {
                            layer_id: step.layer_id,
                            content_handle: tile.content_handle,
                            tile_id: tile.tile_id,
                            needs_offscreen: step.needs_offscreen,
                        },
                    );
                    proof {
                        assert(jobs@ =~= before + step_tile_jobs(
                            step.layer_id,
                            step.needs_offscreen,
                            step.tiles@.take(t + 1),
                            *layout,
                        ));
                    }
                }
                t = t + 1;
            }
            proof {
                assert(step.tiles@.take(step.tiles@.len() as int) =~= step.tiles@);
                assert(pass.steps@.take(s + 1).drop_last() =~= pass.steps@.take(s as int));
            }
            s = s + 1;
        }
        proof {
            assert(pass.steps@.take(pass.steps@.len() as int) =~= pass.steps@);
        }
        let stats = self.execute(pass);
        CompositeExecutionPlan { layer_jobs, jobs, stats }
    }
}

/// Everything a frame hands to the compositor: the tile plan, the raster
/// work, the composite pass and the layer tree.
#[derive(Debug, Clone)]
pub struct CompositorSubmission<V> {
    pub tile_plan: TilePlan,
    pub raster_batch: RasterBatch,
    pub composite_pass: CompositePass<V>,
    pub layer_tree: CompositorLayerTree<V>,
}

} // verus!
