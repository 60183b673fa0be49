use zeno_compositor::composite::{
    CompositeExecutor, CompositeLayerPass, CompositePass, CompositeTileRef, CompositorBlendMode,
    CompositorLayerId, CompositorScopeEntry,
};
use zeno_compositor::damage::{DamageRegion, DamageTracker};
use zeno_compositor::planner::{CompositorPlanner, CompositorPlanningContext, CompositorPlanningItem};
use zeno_compositor::resource_pool::TileResourcePool;
use zeno_compositor::scheduler::{CompositorScheduler, CompositorTask, CompositorWorker};
use zeno_compositor::tile::{
    TileContentHandle, TileContentState, TileGridKey, TileId, TileLayout, TileResourceKind, TileSpan,
};
use zeno_compositor::tile_cache::TileCache;

/// The integer grid of a viewport cut into tiles, as a renderer computes it.
fn layout_for(viewport_width: f32, viewport_height: f32, tile_width: f32, tile_height: f32) -> TileLayout {
    let tile_width = tile_width.max(1.0);
    let tile_height = tile_height.max(1.0);
    let count_x = (viewport_width.max(0.0) / tile_width).ceil() as u32;
    let count_y = (viewport_height.max(0.0) / tile_height).ceil() as u32;
    let column_widths = (0..count_x)
        .map(|x| {
            let left = x as f32 * tile_width;
            let right = (left + tile_width).min(viewport_width);
            (right - left).max(0.0).ceil() as u32
        })
        .collect();
    let row_heights = (0..count_y)
        .map(|y| {
            let top = y as f32 * tile_height;
            let bottom = (top + tile_height).min(viewport_height);
            (bottom - top).max(0.0).ceil() as u32
        })
        .collect();
    TileLayout {
        key: TileGridKey {
            viewport_width_bits: viewport_width.to_bits(),
            viewport_height_bits: viewport_height.to_bits(),
            tile_width_bits: tile_width.to_bits(),
            tile_height_bits: tile_height.to_bits(),
        },
        column_widths,
        row_heights,
    }
}

/// The tile span a damaged rectangle touches, clipped to the viewport.
fn span_for(
    viewport_width: f32,
    viewport_height: f32,
    tile_width: f32,
    tile_height: f32,
    rect: (f32, f32, f32, f32),
) -> Option<TileSpan> {
    let (x, y, w, h) = rect;
    let left = x.max(0.0);
    let top = y.max(0.0);
    let right = (x + w).min(viewport_width);
    let bottom = (y + h).min(viewport_height);
    if right <= left || bottom <= top {
        return None;
    }
    Some(TileSpan {
        start_x: (left / tile_width).floor() as u32,
        start_y: (top / tile_height).floor() as u32,
        end_x: ((right - 0.0001) / tile_width).floor() as u32,
        end_y: ((bottom - 0.0001) / tile_height).floor() as u32,
    })
}

fn damage_of(viewport: f32, tile: f32, rects: &[(f32, f32, f32, f32)]) -> DamageRegion<Option<TileSpan>> {
    DamageRegion::from_rects(
        rects
            .iter()
            .map(|rect| span_for(viewport, viewport, tile, tile, *rect))
            .collect(),
    )
}

fn root_only_items() -> Vec<CompositorPlanningItem> {
    vec![CompositorPlanningItem {
        item_index: 0,
        paint_order: 0,
        stacking_context_index: None,
        tile_span: span_for(300.0, 300.0, 256.0, 256.0, (0.0, 0.0, 20.0, 20.0)),
    }]
}

#[test]
fn damage_tracker_collects_rects_until_full() {
    let mut tracker = DamageTracker::new();
    tracker.add_rect((0.0f32, 0.0f32, 10.0f32, 10.0f32));
    tracker.add_optional_rect(Some((5.0f32, 5.0f32, 3.0f32, 3.0f32)));

    let damage = tracker.build();
    assert_eq!(damage.rect_count(), 2);
    assert!(!damage.is_full());
}

#[test]
fn damage_tracker_full_overrides_accumulated_rects() {
    let mut tracker = DamageTracker::new();
    tracker.add_rect((0.0f32, 0.0f32, 10.0f32, 10.0f32));
    tracker.mark_full();
    tracker.add_rect((10.0f32, 10.0f32, 5.0f32, 5.0f32));

    assert_eq!(tracker.build(), DamageRegion::Full);
}

#[test]
fn tile_grid_maps_damage_rects_to_unique_tiles() {
    let layout = layout_for(300.0, 300.0, 128.0, 128.0);
    let damage = DamageRegion::from_rects(vec![
        span_for(300.0, 300.0, 128.0, 128.0, (10.0, 10.0, 150.0, 10.0)),
        span_for(300.0, 300.0, 128.0, 128.0, (90.0, 90.0, 100.0, 100.0)),
    ]);

    let tiles = layout.tiles_for_damage(&damage);
    assert_eq!(
        tiles,
        vec![
            TileId { x: 0, y: 0 },
            TileId { x: 0, y: 1 },
            TileId { x: 1, y: 0 },
            TileId { x: 1, y: 1 },
        ]
    );
}

#[test]
fn tile_grid_full_damage_marks_all_tiles() {
    let layout = layout_for(300.0, 300.0, 128.0, 128.0);
    assert_eq!(layout.tiles_for_damage(&DamageRegion::Full).len(), 9);
}

#[test]
fn tile_grid_clamps_damage_to_viewport() {
    let layout = layout_for(256.0, 256.0, 256.0, 256.0);
    let damage = DamageRegion::from_rects(vec![span_for(256.0, 256.0, 256.0, 256.0, (-20.0, -20.0, 40.0, 40.0))]);

    assert_eq!(layout.tiles_for_damage(&damage), vec![TileId { x: 0, y: 0 }]);
    let descriptor = layout.descriptor_for_tile(TileId { x: 0, y: 0 });
    assert_eq!((descriptor.width, descriptor.height), (256, 256));
}

#[test]
fn tile_cache_first_frame_rerasterizes_everything() {
    let mut cache = TileCache::new();
    let layout = layout_for(300.0, 300.0, 128.0, 128.0);

    let plan = cache.plan_frame(&layout, &DamageRegion::Full);
    assert_eq!(plan.stats.total_tile_count, 9);
    assert_eq!(plan.stats.cached_tile_count, 0);
    assert_eq!(plan.stats.reraster_tile_count, 9);
}

#[test]
fn tile_cache_reuses_clean_tiles_after_warmup() {
    let mut cache = TileCache::new();
    let layout = layout_for(300.0, 300.0, 128.0, 128.0);

    let _ = cache.build_tile_state(&layout, &DamageRegion::Full);
    let tile_state = cache.build_tile_state(&layout, &damage_of(300.0, 128.0, &[(0.0, 0.0, 20.0, 20.0)]));
    let plan = tile_state.tile_plan;

    assert_eq!(plan.stats.total_tile_count, 9);
    assert_eq!(plan.stats.cached_tile_count, 8);
    assert_eq!(plan.stats.reraster_tile_count, 1);
    assert_eq!(plan.dirty_tiles, vec![TileId { x: 0, y: 0 }]);
    assert_eq!(plan.reused_tiles.len(), 8);
    assert_eq!(cache.content_handle_count(), 9);
    assert_eq!(
        cache.content_slot(TileId { x: 1, y: 1 }).map(|slot| slot.state),
        Some(TileContentState::Reused)
    );
    assert_eq!(
        cache.content_slot(TileId { x: 1, y: 1 }).map(|slot| slot.resource.kind),
        Some(TileResourceKind::OffscreenSurface)
    );
}

#[test]
fn tile_cache_viewport_change_forces_full_rebuild() {
    let mut cache = TileCache::new();
    let _ = cache.plan_frame(&layout_for(256.0, 256.0, 128.0, 128.0), &DamageRegion::Full);

    let plan = cache.plan_frame(&layout_for(512.0, 256.0, 128.0, 128.0), &DamageRegion::Empty);
    assert_eq!(plan.stats.cached_tile_count, 0);
    assert_eq!(plan.stats.reraster_tile_count, 8);
}

#[test]
fn tile_cache_builds_submission_from_tile_plan() {
    let mut cache = TileCache::new();
    let layout = layout_for(300.0, 300.0, 128.0, 128.0);
    let _ = cache.build_tile_state(&layout, &DamageRegion::Full);

    let tile_state = cache.build_tile_state(&layout, &damage_of(300.0, 128.0, &[(0.0, 0.0, 20.0, 20.0)]));

    assert_eq!(tile_state.tile_plan.stats.reraster_tile_count, 1);
    assert_eq!(tile_state.raster_batch.tile_count(), 1);
    assert!(!tile_state.raster_batch.full_raster);
    let tile = tile_state.raster_batch.tiles[0];
    assert_eq!(tile.tile_id, TileId { x: 0, y: 0 });
    let descriptor = layout.descriptor_for_tile(tile.tile_id);
    assert_eq!((descriptor.width, descriptor.height), (128, 128));
    assert_eq!(tile_state.raster_batch.tiles[0].content_handle.0, 1);
}

#[test]
fn tile_cache_reports_released_handles_after_reraster() {
    let mut cache = TileCache::new();
    let layout = layout_for(300.0, 300.0, 128.0, 128.0);
    let _ = cache.build_tile_state(&layout, &DamageRegion::Full);
    assert!(cache.take_released_content_handles().is_empty());
    assert!(cache.take_reused_content_handles().is_empty());

    let _ = cache.build_tile_state(&layout, &damage_of(300.0, 128.0, &[(0.0, 0.0, 20.0, 20.0)]));
    let released = cache.take_released_content_handles();
    let reused = cache.take_reused_content_handles();

    assert!(released.is_empty());
    assert_eq!(reused.len(), 1);
    assert_eq!(reused[0].0, 1);
    assert!(cache.take_reused_content_handles().is_empty());
    assert_eq!(cache.content_handle(TileId { x: 0, y: 0 }).map(|h| h.0), Some(1));
}

#[test]
fn tile_resource_pool_tracks_allocated_and_released_handles() {
    let mut cache = TileCache::new();
    let mut pool = TileResourcePool::new();
    let layout = layout_for(300.0, 300.0, 128.0, 128.0);

    let _ = cache.build_tile_state(&layout, &DamageRegion::Full);
    let first = pool.synchronize(&mut cache);
    assert_eq!(first.allocated.len(), 9);
    assert_eq!(first.released.len(), 0);
    assert_eq!(first.reused.len(), 0);

    let _ = cache.build_tile_state(&layout, &damage_of(300.0, 128.0, &[(0.0, 0.0, 20.0, 20.0)]));
    let second = pool.synchronize(&mut cache);
    assert_eq!(second.allocated.len(), 0);
    assert_eq!(second.released.len(), 0);
    assert_eq!(second.reused.len(), 1);
}

#[test]
fn tile_cache_evicts_stale_reusable_handles() {
    let mut cache = TileCache::new();
    let mut pool = TileResourcePool::new();
    let large = layout_for(300.0, 300.0, 128.0, 128.0);
    let small = layout_for(128.0, 128.0, 128.0, 128.0);

    let _ = cache.build_tile_state(&large, &DamageRegion::Full);
    let _ = pool.synchronize(&mut cache);
    let _ = cache.build_tile_state(&small, &DamageRegion::Full);
    let _ = pool.synchronize(&mut cache);
    let mut released_count = 0;
    for _ in 0..5 {
        let _ = cache.build_tile_state(&small, &DamageRegion::Empty);
        let delta = pool.synchronize(&mut cache);
        released_count += delta.released.len();
    }
    assert!(released_count > 0);
}

#[test]
fn tile_cache_reusable_pool_stays_within_budget() {
    let mut cache = TileCache::new();
    let mut pool = TileResourcePool::new();
    let mut saw_budget_eviction = false;
    for tile_edge in [512.0f32, 448.0, 384.0, 320.0, 256.0, 192.0] {
        let layout = layout_for(2048.0, 2048.0, tile_edge, tile_edge);
        let _ = cache.build_tile_state(&layout, &DamageRegion::Full);
        let _ = pool.synchronize(&mut cache);
        saw_budget_eviction |= cache.eviction_stats().budget_eviction_count > 0;
    }

    assert!(cache.reusable_byte_count() <= cache.reuse_budget_byte_count());
    assert!(saw_budget_eviction);
}

#[test]
fn compositor_scheduler_emits_raster_composite_present_tasks() {
    let mut cache = TileCache::new();
    let planner = CompositorPlanner::new();
    let layout = layout_for(300.0, 300.0, 256.0, 256.0);
    let contexts: Vec<CompositorPlanningContext<()>> = Vec::new();
    let submission = planner.plan(
        &root_only_items(),
        &contexts,
        (),
        &layout,
        &mut cache,
        &damage_of(300.0, 256.0, &[(0.0, 0.0, 20.0, 20.0)]),
    );
    let mut scheduler = CompositorScheduler::new();

    let scheduled = scheduler.schedule(7, submission);

    assert_eq!(scheduler.latest_generation(), Some(7));
    assert_eq!(
        scheduled.tasks,
        vec![CompositorTask::Raster, CompositorTask::Composite, CompositorTask::Present]
    );
    assert_eq!(scheduled.enqueued_frame_count, 1);
    assert_eq!(scheduled.stale_frame_count, 0);
}

#[test]
fn compositor_scheduler_coalesces_older_frames() {
    let mut cache = TileCache::new();
    let planner = CompositorPlanner::new();
    let layout = layout_for(300.0, 300.0, 256.0, 256.0);
    let contexts: Vec<CompositorPlanningContext<()>> = Vec::new();
    let mut scheduler = CompositorScheduler::new();
    scheduler.enqueue_frame(
        1,
        planner.plan(
            &root_only_items(),
            &contexts,
            (),
            &layout,
            &mut cache,
            &damage_of(300.0, 256.0, &[(0.0, 0.0, 10.0, 10.0)]),
        ),
    );
    scheduler.enqueue_frame(
        2,
        planner.plan(
            &root_only_items(),
            &contexts,
            (),
            &layout,
            &mut cache,
            &damage_of(300.0, 256.0, &[(20.0, 20.0, 10.0, 10.0)]),
        ),
    );

    let scheduled = scheduler.take_latest().expect("latest frame");
    assert_eq!(scheduled.generation, 2);
    assert_eq!(scheduled.enqueued_frame_count, 2);
    assert_eq!(scheduled.stale_frame_count, 1);
    assert_eq!(scheduled.dropped_frame_count, 1);
    assert_eq!(scheduler.stats().pending_frame_count, 0);
}

#[test]
fn compositor_worker_tracks_processed_frames() {
    let mut cache = TileCache::new();
    let planner = CompositorPlanner::new();
    let layout = layout_for(300.0, 300.0, 256.0, 256.0);
    let contexts: Vec<CompositorPlanningContext<()>> = Vec::new();
    let mut worker = CompositorWorker::new();

    let scheduled = worker.submit_frame(
        3,
        planner.plan(
            &root_only_items(),
            &contexts,
            (),
            &layout,
            &mut cache,
            &damage_of(300.0, 256.0, &[(0.0, 0.0, 10.0, 10.0)]),
        ),
    );

    assert_eq!(scheduled.generation, 3);
    assert_eq!(worker.stats().processed_frame_count, 1);
    assert_eq!(worker.stats().latest_generation, Some(3));
}

/// The visual parameters a layer carries beside its integer structure.
#[derive(Debug, Clone, PartialEq)]
struct Visual {
    opacity: f32,
    bounds: (f32, f32, f32, f32),
    subtree_bounds: (f32, f32, f32, f32),
}

#[test]
fn composite_executor_counts_layers_tiles_and_offscreen_steps() {
    let executor = CompositeExecutor::new();
    let pass = CompositePass {
        steps: vec![
            CompositeLayerPass {
                layer_id: CompositorLayerId(0),
                parent: None,
                descendant_layers: vec![CompositorLayerId(1)],
                tiles: vec![CompositeTileRef { tile_id: TileId { x: 0, y: 0 }, content_handle: TileContentHandle(1) }],
                paint_order: 0,
                needs_offscreen: false,
                blend_mode: CompositorBlendMode::Normal,
                visual: Visual {
                    opacity: 1.0,
                    bounds: (0.0, 0.0, 128.0, 128.0),
                    subtree_bounds: (0.0, 0.0, 300.0, 300.0),
                },
            },
            CompositeLayerPass {
                layer_id: CompositorLayerId(1),
                parent: Some(CompositorLayerId(0)),
                descendant_layers: Vec::new(),
                tiles: vec![
                    CompositeTileRef { tile_id: TileId { x: 1, y: 0 }, content_handle: TileContentHandle(2) },
                    CompositeTileRef { tile_id: TileId { x: 1, y: 1 }, content_handle: TileContentHandle(3) },
                ],
                paint_order: 1,
                needs_offscreen: true,
                blend_mode: CompositorBlendMode::Multiply,
                visual: Visual {
                    opacity: 0.5,
                    bounds: (128.0, 0.0, 172.0, 300.0),
                    subtree_bounds: (128.0, 0.0, 172.0, 300.0),
                },
            },
        ],
        full_present: false,
    };

    let stats = executor.execute(&pass);
    assert_eq!(stats.executed_layer_count, 2);
    assert_eq!(stats.executed_tile_count, 3);
    assert_eq!(stats.offscreen_step_count, 1);

    let plan = executor.plan(&pass, &layout_for(300.0, 300.0, 128.0, 128.0));
    assert_eq!(plan.layer_jobs.len(), 2);
    assert_eq!(plan.jobs.len(), 3);
    assert_eq!(plan.stats.executed_layer_count, 2);
    assert_eq!(plan.layer_jobs[1].blend_mode, CompositorBlendMode::Multiply);
    assert_eq!(plan.layer_jobs[1].parent, Some(CompositorLayerId(0)));
    assert_eq!(plan.layer_jobs[1].paint_order, 1);
    assert_eq!(plan.layer_jobs[0].descendant_layers, vec![CompositorLayerId(1)]);
    assert_eq!(plan.layer_jobs[0].visual.subtree_bounds, (0.0, 0.0, 300.0, 300.0));
}

#[test]
fn compositor_planner_tracks_parent_child_layers_and_paint_order() {
    let planner = CompositorPlanner::new();
    let layout = layout_for(128.0, 128.0, 256.0, 256.0);
    let span = |rect| span_for(128.0, 128.0, 256.0, 256.0, rect);
    let items = vec![
        CompositorPlanningItem {
            item_index: 0,
            paint_order: 0,
            stacking_context_index: None,
            tile_span: span((0.0, 0.0, 30.0, 30.0)),
        },
        CompositorPlanningItem {
            item_index: 1,
            paint_order: 1,
            stacking_context_index: Some(0),
            tile_span: span((10.0, 10.0, 50.0, 50.0)),
        },
        CompositorPlanningItem {
            item_index: 2,
            paint_order: 2,
            stacking_context_index: Some(1),
            tile_span: span((20.0, 20.0, 15.0, 15.0)),
        },
    ];
    let contexts = vec![
        CompositorPlanningContext {
            parent_context_index: None,
            paint_order: 1,
            blend_mode: CompositorBlendMode::Normal,
            needs_offscreen: false,
            visual: 0.8f32,
        },
        CompositorPlanningContext {
            parent_context_index: Some(0),
            paint_order: 2,
            blend_mode: CompositorBlendMode::Multiply,
            needs_offscreen: true,
            visual: 0.5f32,
        },
    ];
    let mut cache = TileCache::new();

    let submission = planner.plan(&items, &contexts, 1.0f32, &layout, &mut cache, &DamageRegion::Full);

    let layers = &submission.layer_tree.layers;
    assert_eq!(layers.len(), 3);
    assert_eq!(layers[0].child_layers, vec![CompositorLayerId(1)]);
    assert_eq!(layers[0].descendant_layers, vec![CompositorLayerId(1), CompositorLayerId(2)]);
    assert_eq!(layers[1].parent, Some(CompositorLayerId(0)));
    assert_eq!(layers[1].child_layers, vec![CompositorLayerId(2)]);
    assert_eq!(layers[1].descendant_layers, vec![CompositorLayerId(2)]);
    assert_eq!(layers[1].paint_order, 1);
    assert_eq!(layers[2].parent, Some(CompositorLayerId(1)));
    assert_eq!(layers[2].paint_order, 2);
    assert_eq!(
        layers[0].scope_entries,
        vec![CompositorScopeEntry::DirectItem(0), CompositorScopeEntry::ChildLayer(CompositorLayerId(1))]
    );
    assert_eq!(
        layers[1].scope_entries,
        vec![CompositorScopeEntry::DirectItem(1), CompositorScopeEntry::ChildLayer(CompositorLayerId(2))]
    );
    assert_eq!(layers[2].scope_entries, vec![CompositorScopeEntry::DirectItem(2)]);
    assert_eq!(submission.composite_pass.steps[2].parent, Some(CompositorLayerId(1)));
    assert_eq!(submission.composite_pass.steps[2].paint_order, 2);
}

#[test]
fn tile_cache_submission_composites_every_tile_as_the_root_layer() {
    let mut cache = TileCache::new();
    let layout = layout_for(300.0, 300.0, 128.0, 128.0);

    let first = cache.build_submission(&layout, &DamageRegion::Full, 1.0f32);
    assert!(first.composite_pass.full_present);
    assert_eq!(first.composite_pass.steps.len(), 1);
    let root = &first.composite_pass.steps[0];
    assert_eq!(root.layer_id, CompositorLayerId(0));
    assert_eq!(root.tiles.len(), 9);
    assert_eq!(root.tiles[0].tile_id, TileId { x: 0, y: 0 });
    assert_eq!(root.tiles[1].tile_id, TileId { x: 1, y: 0 });
    assert_eq!(root.tiles[3].tile_id, TileId { x: 0, y: 1 });
    assert_eq!(root.tiles[4].content_handle, cache.content_handle(TileId { x: 1, y: 1 }).unwrap());
    assert_eq!(root.visual, 1.0f32);
    assert!(first.layer_tree.layers.is_empty());
    assert_eq!(first.raster_batch.tile_count(), 9);

    let second = cache.build_submission(&layout, &damage_of(300.0, 128.0, &[(0.0, 0.0, 20.0, 20.0)]), 1.0f32);
    assert!(!second.composite_pass.full_present);
    assert_eq!(second.composite_pass.steps[0].tiles.len(), 9);
    assert_eq!(second.raster_batch.tile_count(), 1);
    assert_eq!(second.tile_plan.stats.cached_tile_count, 8);
}

#[test]
fn damage_tracker_keeps_added_rects_in_order_until_marked_full() {
    let mut tracker: DamageTracker<u32> = DamageTracker::new();
    tracker.add_rect(3);
    tracker.add_rect(1);
    tracker.add_rect(2);
    assert_eq!(tracker.clone().build(), DamageRegion::Rects(vec![3, 1, 2]));
    tracker.mark_full();
    tracker.add_rect(7);
    assert_eq!(tracker.build(), DamageRegion::Full);
}
