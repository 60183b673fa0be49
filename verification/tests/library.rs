use zeno_compositor::compose::ComposeStats;
use zeno_compositor::composite::{
    CompositorLayer, CompositorLayerTree, CompositeExecutor, CompositeLayerPass, CompositePass, CompositeTileRef, CompositorBlendMode, CompositorLayerId,
    CompositorScopeEntry,
};
use zeno_compositor::damage::DamageRegion;
use zeno_compositor::font::{font_search_step, system_font_family, FontSearchStep};
use zeno_compositor::frame::CompositorFrame;
use zeno_compositor::glyph::blend_glyph_alpha;
use zeno_compositor::invalidation::{DirtyFlags, DirtyReason};
use zeno_compositor::keyed_cache::{image_cache_stats, text_cache_stats, KeyedCache};
use zeno_compositor::planner::{
    build_layer_tree, build_scope_entries_for_layer, immediate_child_context, sort_items_by_paint_order, CompositorPlanner,
    CompositorPlanningContext, CompositorPlanningItem,
};
use zeno_compositor::resource_pool::TileResourcePool;
use zeno_compositor::scheduler::{CompositorScheduler, CompositorServiceStats, CompositorTask, CompositorWorker};
use zeno_compositor::tile::{
    TileContentHandle, TileGridKey, TileId, TileLayout, TileResourceDescriptor, TileResourceKind, TileSpan,
};
use zeno_compositor::texture_cache::{ImageTextureCache, OffscreenContextCache, TextureLookup};
use zeno_compositor::tile_cache::TileCache;

fn grid(columns: &[u32], rows: &[u32]) -> TileLayout {
    TileLayout {
        key: TileGridKey {
            viewport_width_bits: columns.iter().sum(),
            viewport_height_bits: rows.iter().sum(),
            tile_width_bits: columns[0],
            tile_height_bits: rows[0],
        },
        column_widths: columns.to_vec(),
        row_heights: rows.to_vec(),
    }
}

fn context(parent: Option<usize>, paint_order: usize) -> CompositorPlanningContext<()> {
    CompositorPlanningContext {
        parent_context_index: parent,
        paint_order,
        blend_mode: CompositorBlendMode::Normal,
        needs_offscreen: false,
        visual: (),
    }
}

fn item(item_index: usize, paint_order: usize, context: Option<usize>) -> CompositorPlanningItem {
    CompositorPlanningItem {
        item_index,
        paint_order,
        stacking_context_index: context,
        tile_span: Some(TileSpan { start_x: 0, start_y: 0, end_x: 0, end_y: 0 }),
    }
}

#[test]
fn marking_a_reason_twice_is_marking_it_once() {
    for reason in [DirtyReason::Structure, DirtyReason::Layout, DirtyReason::Paint, DirtyReason::Text, DirtyReason::Order] {
        let mut once = DirtyFlags::clean();
        once.mark(reason);
        let mut twice = once;
        twice.mark(reason);
        assert_eq!(once, twice);
        assert!(!once.is_clean());
    }
}

#[test]
fn paint_alone_is_paint_only_work() {
    let mut flags = DirtyFlags::clean();
    flags.mark(DirtyReason::Paint);
    assert!(flags.requires_paint_only());
    assert!(!flags.requires_layout());
    flags.mark(DirtyReason::Text);
    assert!(flags.requires_layout());
    assert!(!flags.requires_paint_only());
    assert!(!flags.requires_structure_rebuild());
    flags.mark(DirtyReason::Structure);
    assert!(flags.requires_structure_rebuild());
}

#[test]
fn scheduler_keeps_two_newest_frames_and_counts_the_rest_dropped() {
    let mut cache = TileCache::new();
    let layout = grid(&[64], &[64]);
    let contexts: Vec<CompositorPlanningContext<()>> = Vec::new();
    let planner = CompositorPlanner::new();
    let mut scheduler = CompositorScheduler::new();
    for generation in 1..=3u64 {
        let submission = planner.plan(&Vec::new(), &contexts, (), &layout, &mut cache, &DamageRegion::Empty);
        scheduler.enqueue_frame(generation, submission);
    }
    assert_eq!(scheduler.stats().pending_frame_count, 2);
    assert_eq!(scheduler.dropped_frame_count(), 1);
    let frame = scheduler.take_latest().expect("a frame");
    assert_eq!(frame.generation, 3);
    assert_eq!(frame.stale_frame_count, 1);
    assert_eq!(frame.dropped_frame_count, 2);
    assert!(scheduler.take_latest().is_none());
    assert_eq!(scheduler.latest_generation(), Some(3));
}

#[test]
fn frame_without_raster_work_only_composites_and_presents() {
    let mut cache = TileCache::new();
    let layout = grid(&[64], &[64]);
    let contexts: Vec<CompositorPlanningContext<()>> = Vec::new();
    let planner = CompositorPlanner::new();
    let _ = planner.plan(&Vec::new(), &contexts, (), &layout, &mut cache, &DamageRegion::Full);
    let submission = planner.plan(&Vec::new(), &contexts, (), &layout, &mut cache, &DamageRegion::Empty);
    assert_eq!(submission.raster_batch.tile_count(), 0);
    let mut worker = CompositorWorker::new();
    let frame = worker.submit_frame(5, submission);
    assert_eq!(frame.tasks, vec![CompositorTask::Composite, CompositorTask::Present]);
    assert_eq!(worker.stats().submitted_frame_count, 1);
    assert_eq!(worker.scheduler_stats().pending_frame_count, 0);
    let service = CompositorServiceStats::from_worker_stats(worker.stats());
    assert_eq!(service.processed_frame_count, 1);
    assert!(service.worker_alive);
    assert!(!service.worker_threaded);
}

#[test]
fn resource_pool_drops_released_handles() {
    let mut cache = TileCache::new();
    let mut pool = TileResourcePool::new();
    let big = grid(&[128, 128], &[128, 128]);
    let small = grid(&[64], &[64]);
    let _ = cache.build_tile_state(&big, &DamageRegion::Full);
    let first = pool.synchronize(&mut cache);
    assert_eq!(first.allocated.len(), 4);
    assert_eq!(pool.resource_count(), 4);
    let mut released = Vec::new();
    for _ in 0..6 {
        let _ = cache.build_tile_state(&small, &DamageRegion::Empty);
        let delta = pool.synchronize(&mut cache);
        released.extend(delta.released);
    }
    assert_eq!(released.len(), 4);
    assert_eq!(pool.resource_count(), 1);
    for handle in released {
        assert!(cache.content_slots().iter().all(|(_, slot)| slot.handle != handle));
    }
}

#[test]
fn descriptor_sizes_count_four_bytes_per_pixel() {
    let descriptor = TileResourceDescriptor { kind: TileResourceKind::Texture, width: 3, height: 5 };
    assert_eq!(descriptor.estimated_byte_size(), 60);
}

#[test]
fn invalidated_cache_rebuilds_every_tile() {
    let mut cache = TileCache::new();
    let layout = grid(&[128, 128], &[128]);
    let _ = cache.build_tile_state(&layout, &DamageRegion::Full);
    assert_eq!(cache.content_handle_count(), 2);
    cache.invalidate_all();
    assert_eq!(cache.content_handle_count(), 0);
    assert_eq!(cache.reusable_handle_count(), 2);
    let state = cache.build_tile_state(&layout, &DamageRegion::Empty);
    assert_eq!(state.tile_plan.stats.reraster_tile_count, 2);
    assert!(state.raster_batch.full_raster);
    assert_eq!(cache.rasterized_slot_count(), 2);
    assert_eq!(cache.take_reused_content_handles().len(), 2);
    assert_eq!(cache.content_handle(TileId { x: 5, y: 5 }), None);
}

#[test]
fn executor_plans_only_tiles_inside_the_grid() {
    let executor = CompositeExecutor::new();
    let pass = CompositePass {
        steps: vec![CompositeLayerPass {
            layer_id: CompositorLayerId(0),
            parent: None,
            descendant_layers: Vec::new(),
            tiles: vec![
                CompositeTileRef { tile_id: TileId { x: 0, y: 0 }, content_handle: TileContentHandle(1) },
                CompositeTileRef { tile_id: TileId { x: 4, y: 0 }, content_handle: TileContentHandle(2) },
            ],
            paint_order: 0,
            needs_offscreen: true,
            blend_mode: CompositorBlendMode::Screen,
            visual: (),
        }],
        full_present: true,
    };
    let plan = executor.plan(&pass, &grid(&[64, 64], &[64]));
    assert_eq!(plan.jobs.len(), 1);
    assert_eq!(plan.jobs[0].content_handle, TileContentHandle(1));
    assert!(plan.jobs[0].needs_offscreen);
    assert_eq!(plan.stats.executed_tile_count, 2);
    assert_eq!(plan.stats.offscreen_step_count, 1);
    assert_eq!(pass.tile_count(), 2);
    assert_eq!(pass.layer_count(), 1);
}

#[test]
fn items_sort_by_paint_order_keeping_ties_in_order() {
    let items = vec![item(0, 2, None), item(1, 0, None), item(2, 2, None), item(3, 1, None)];
    let sorted = sort_items_by_paint_order(&items);
    let order: Vec<usize> = sorted.iter().map(|item| item.item_index).collect();
    assert_eq!(order, vec![1, 3, 0, 2]);
}

#[test]
fn immediate_child_context_walks_down_from_the_scope() {
    let contexts = vec![context(None, 1), context(Some(0), 2), context(Some(1), 3)];
    assert_eq!(immediate_child_context(None, 2, &contexts), Some(0));
    assert_eq!(immediate_child_context(Some(0), 2, &contexts), Some(1));
    assert_eq!(immediate_child_context(Some(1), 2, &contexts), Some(2));
    assert_eq!(immediate_child_context(Some(2), 2, &contexts), None);
    assert_eq!(immediate_child_context(Some(0), 0, &contexts), None);
}

#[test]
fn scope_lists_each_child_context_once_at_its_first_item() {
    let contexts = vec![context(None, 1), context(Some(0), 2)];
    let items = vec![item(0, 0, None), item(1, 1, Some(1)), item(2, 2, None), item(3, 3, Some(0))];
    assert_eq!(
        build_scope_entries_for_layer(None, &items, &contexts),
        vec![
            CompositorScopeEntry::DirectItem(0),
            CompositorScopeEntry::ChildLayer(CompositorLayerId(1)),
            CompositorScopeEntry::DirectItem(2),
        ]
    );
    assert_eq!(
        build_scope_entries_for_layer(Some(0), &items, &contexts),
        vec![CompositorScopeEntry::ChildLayer(CompositorLayerId(2)), CompositorScopeEntry::DirectItem(3)]
    );
}

#[test]
fn keyed_cache_serves_only_matching_sizes() {
    let mut cache: KeyedCache<u8> = KeyedCache::new();
    assert_eq!(cache.lookup(1, 2, 2), None);
    cache.store(1, 2, 2, 7);
    assert_eq!(cache.lookup(1, 2, 2), Some(7));
    assert_eq!(cache.lookup(1, 3, 2), None);
    cache.store(1, 3, 2, 9);
    assert_eq!(cache.lookup(1, 3, 2), Some(9));
    let stats = image_cache_stats(&cache);
    assert_eq!(stats.image_hits, 2);
    assert_eq!(stats.cached_images, 1);
}

#[test]
fn full_frame_damages_everything() {
    let frame: CompositorFrame<u32, ()> = CompositorFrame::full(4, 9);
    assert!(frame.damage.is_full());
    assert_eq!(frame.generation, 9);
    assert_eq!(frame.stats.patch_upserts, 0);
    let stats = ComposeStats::new();
    assert_eq!(stats.layout_passes, 0);
}

#[test]
fn font_search_moves_on_when_data_is_missing_or_not_a_font() {
    assert!(matches!(font_search_step(0, None), FontSearchStep::Next(1)));
    let garbage: &[u8] = b"definitely not a font file";
    assert!(matches!(font_search_step(2, Some(garbage)), FontSearchStep::Next(3)));
    assert_eq!(system_font_family(0), Some("PingFang SC"));
    assert_eq!(system_font_family(4), Some("Noto Sans"));
    assert_eq!(system_font_family(5), None);
}

#[test]
fn glyph_coverage_keeps_the_larger_value_and_clips() {
    let mut alpha = vec![0u8, 50, 0, 0, 0, 0];
    let bitmap = vec![10u8, 20, 0, 40];
    blend_glyph_alpha(&mut alpha, 3, 2, &bitmap, 2, 2, 1, 0);
    assert_eq!(alpha, vec![0, 50, 20, 0, 0, 40]);
    let mut clipped = vec![0u8; 4];
    blend_glyph_alpha(&mut clipped, 2, 2, &bitmap, 2, 2, 1, 1);
    assert_eq!(clipped, vec![0, 0, 0, 10]);
}

fn texture(cache: &mut ImageTextureCache<&'static str>, key: u64, width: u32, height: u32, name: &'static str) -> &'static str {
    match cache.lookup(key, width, height) {
        TextureLookup::Hit(found) => found,
        TextureLookup::Miss(now) => {
            cache.insert(key, width, height, name, now);
            name
        }
    }
}

#[test]
fn image_textures_evict_least_recently_used_over_budget() {
    let mut cache = ImageTextureCache::new(2 * 2 * 4 * 2);
    assert_eq!(texture(&mut cache, 1, 2, 2, "a"), "a");
    assert_eq!(texture(&mut cache, 2, 2, 2, "b"), "b");
    assert_eq!(cache.total_bytes(), 32);
    assert_eq!(texture(&mut cache, 1, 2, 2, "a again"), "a");
    assert_eq!(texture(&mut cache, 3, 2, 2, "c"), "c");
    assert_eq!(cache.entry_count(), 2);
    assert_eq!(texture(&mut cache, 1, 2, 2, "a third"), "a");
    assert_eq!(texture(&mut cache, 2, 2, 2, "b again"), "b again");
    assert_eq!(texture(&mut cache, 1, 4, 4, "big a"), "big a");
    assert_eq!(cache.entry_count(), 1);
    assert_eq!(cache.total_bytes(), 64);
}

#[test]
fn offscreen_cache_counts_hits_and_misses() {
    let mut cache: OffscreenContextCache<u32> = OffscreenContextCache::new();
    assert_eq!(cache.get(10), None);
    cache.insert(10, 7);
    assert_eq!(cache.get(10), Some(7));
    cache.insert(10, 8);
    assert_eq!(cache.get(10), Some(8));
    let stats = cache.stats();
    assert_eq!((stats.entry_count, stats.hits, stats.misses), (1, 2, 1));
    cache.clear();
    assert_eq!(cache.stats().entry_count, 0);
    assert_eq!(cache.stats().hits, 0);
}

#[test]
fn eviction_counters_count_the_evicted_handles() {
    let mut cache = TileCache::new();
    let mut pool = TileResourcePool::new();
    let big = grid(&[128, 128, 128], &[128, 128, 128]);
    let small = grid(&[64], &[64]);
    let _ = cache.build_tile_state(&big, &DamageRegion::Full);
    let _ = pool.synchronize(&mut cache);
    for _ in 0..6 {
        let _ = cache.build_tile_state(&small, &DamageRegion::Empty);
        let stats = cache.eviction_stats();
        let delta = pool.synchronize(&mut cache);
        assert_eq!(
            stats.budget_eviction_count + stats.age_eviction_count + stats.descriptor_limit_eviction_count,
            delta.evicted.len()
        );
    }
}

fn layer(id: u32, needs_offscreen: bool) -> CompositorLayer<()> {
    CompositorLayer {
        layer_id: CompositorLayerId(id),
        parent: None,
        child_layers: Vec::new(),
        descendant_layers: Vec::new(),
        scope_entries: Vec::new(),
        stacking_context_index: None,
        paint_order: 0,
        blend_mode: CompositorBlendMode::Normal,
        needs_offscreen,
        item_count: 0,
        tile_ids: Vec::new(),
        visual: (),
    }
}

#[test]
fn layer_tree_counts_offscreen_layers() {
    let tree = CompositorLayerTree { layers: vec![layer(0, false), layer(1, true), layer(2, false), layer(3, true)] };
    assert_eq!(tree.layer_count(), 4);
    assert_eq!(tree.offscreen_layer_count(), 2);
    let empty: CompositorLayerTree<()> = CompositorLayerTree { layers: Vec::new() };
    assert_eq!(empty.offscreen_layer_count(), 0);
}

#[test]
fn text_cache_stats_report_both_caches() {
    let mut typefaces: KeyedCache<u8> = KeyedCache::new();
    let mut fonts: KeyedCache<u16> = KeyedCache::new();
    typefaces.store(1, 0, 0, 3);
    fonts.store(1, 12, 0, 4);
    fonts.store(2, 14, 0, 5);
    assert_eq!(typefaces.lookup(1, 0, 0), Some(3));
    assert_eq!(fonts.lookup(2, 14, 0), Some(5));
    assert_eq!(fonts.lookup(2, 16, 0), None);
    let stats = text_cache_stats(&typefaces, &fonts);
    assert_eq!(stats.typeface_hits, 1);
    assert_eq!(stats.font_hits, 1);
    assert_eq!(stats.cached_typefaces, 1);
    assert_eq!(stats.cached_fonts, 2);
}

#[test]
fn single_damage_rect_or_whole_viewport() {
    let one: DamageRegion<u8> = DamageRegion::single_rect_or_full(Some(3));
    assert_eq!(one.rect_count(), 1);
    assert!(!one.is_full());
    let none: DamageRegion<u8> = DamageRegion::single_rect_or_full(None);
    assert!(none.is_full());
}

#[test]
fn grid_well_formedness_bounds_surface_sizes() {
    assert!(grid(&[256, 256, 100], &[256, 40]).is_well_formed());
    assert!(!grid(&[u32::MAX], &[u32::MAX]).is_well_formed());
}

#[test]
fn reuses_cached_images_for_same_key() {
    let mut cache: KeyedCache<Vec<u8>> = KeyedCache::new();
    let pixels = vec![255_u8, 0, 0, 255, 0, 255, 0, 255, 0, 0, 255, 255, 255, 255, 255, 255];

    let first = match cache.lookup(1, 2, 2) {
        Some(image) => image,
        None => {
            cache.store(1, 2, 2, pixels.clone());
            pixels.clone()
        }
    };
    let second = cache.lookup(1, 2, 2).expect("image should hit cache");

    assert_eq!(first.len(), second.len());
    assert_eq!(image_cache_stats(&cache).cached_images, 1);
    assert_eq!(image_cache_stats(&cache).image_hits, 1);
}

#[test]
fn texture_eviction_stops_once_within_budget() {
    let mut cache = ImageTextureCache::new(2 * 2 * 4 * 3);
    assert_eq!(texture(&mut cache, 1, 2, 2, "a"), "a");
    assert_eq!(texture(&mut cache, 2, 2, 2, "b"), "b");
    assert_eq!(texture(&mut cache, 3, 2, 2, "c"), "c");
    assert_eq!(cache.entry_count(), 3);
    assert_eq!(texture(&mut cache, 4, 2, 2, "d"), "d");
    assert_eq!(cache.entry_count(), 3);
    assert_eq!(cache.total_bytes(), 48);
}

#[test]
fn frames_chain_while_headroom_remains() {
    let mut cache = TileCache::new();
    let layout = grid(&[128, 128, 44], &[128, 128, 44]);
    assert!(cache.has_frame_headroom(&layout));
    let _ = cache.build_tile_state(&layout, &DamageRegion::Full);
    assert!(cache.has_frame_headroom(&layout));
    let _ = cache.build_tile_state(&layout, &DamageRegion::Empty);
    assert!(cache.has_frame_headroom(&layout));
}

#[test]
fn full_rebuild_hands_back_the_newest_recycled_surface_first() {
    let mut cache = TileCache::new();
    let layout = grid(&[128, 128], &[128]);
    let _ = cache.build_tile_state(&layout, &DamageRegion::Full);
    assert_eq!(cache.content_handle(TileId { x: 0, y: 0 }), Some(TileContentHandle(1)));
    assert_eq!(cache.content_handle(TileId { x: 1, y: 0 }), Some(TileContentHandle(2)));
    let _ = cache.take_reused_content_handles();
    let _ = cache.build_tile_state(&layout, &DamageRegion::Full);
    assert_eq!(cache.content_handle(TileId { x: 0, y: 0 }), Some(TileContentHandle(2)));
    assert_eq!(cache.content_handle(TileId { x: 1, y: 0 }), Some(TileContentHandle(1)));
    assert_eq!(cache.take_reused_content_handles(), vec![TileContentHandle(2), TileContentHandle(1)]);
    assert_eq!(cache.reusable_handle_count(), 0);
}

#[test]
fn new_descriptors_get_new_handles_and_old_surfaces_age_out() {
    let mut cache = TileCache::new();
    let big = grid(&[128, 128], &[128]);
    let small = grid(&[64, 64], &[64]);
    let _ = cache.build_tile_state(&big, &DamageRegion::Full);
    let _ = cache.build_tile_state(&small, &DamageRegion::Full);
    assert_eq!(cache.content_handle(TileId { x: 0, y: 0 }), Some(TileContentHandle(3)));
    assert_eq!(cache.content_handle(TileId { x: 1, y: 0 }), Some(TileContentHandle(4)));
    assert_eq!(cache.reusable_handle_count(), 2);
    let _ = cache.build_tile_state(&small, &DamageRegion::Empty);
    let _ = cache.build_tile_state(&small, &DamageRegion::Empty);
    assert_eq!(cache.reusable_handle_count(), 2);
    let _ = cache.build_tile_state(&small, &DamageRegion::Empty);
    assert_eq!(cache.reusable_handle_count(), 0);
    let mut evicted = cache.take_evicted_content_handles();
    evicted.sort_by_key(|h| h.0);
    assert_eq!(evicted, vec![TileContentHandle(1), TileContentHandle(2)]);
}

#[test]
fn over_budget_pool_releases_the_earliest_recycled_surfaces() {
    let mut cache = TileCache::new();
    let huge = grid(&[1024, 1024, 1024], &[1024, 1024]);
    let small = grid(&[64], &[64]);
    let _ = cache.build_tile_state(&huge, &DamageRegion::Full);
    let order: Vec<TileContentHandle> = cache.content_slots().iter().map(|(_, slot)| slot.handle).collect();
    assert_eq!(order.len(), 6);
    let _ = cache.take_evicted_content_handles();
    let _ = cache.build_tile_state(&small, &DamageRegion::Full);
    assert_eq!(cache.reusable_handle_count(), 4);
    assert_eq!(cache.reusable_byte_count(), 16 * 1024 * 1024);
    assert_eq!(cache.take_evicted_content_handles(), vec![order[0], order[1]]);
}

#[test]
fn layer_item_counts_add_up_to_the_items() {
    let items = vec![item(0, 0, None), item(1, 1, Some(0)), item(2, 2, Some(1)), item(3, 3, Some(0)), item(4, 4, None)];
    let contexts = vec![context(None, 1), context(Some(0), 2)];
    let layout = grid(&[128], &[128]);
    let tree = build_layer_tree(&items, &contexts, &layout, ());
    assert_eq!(tree.layers.len(), 3);
    let counts: Vec<usize> = tree.layers.iter().map(|layer| layer.item_count).collect();
    assert_eq!(counts, vec![2, 2, 1]);
    assert_eq!(counts.iter().sum::<usize>(), items.len());
}

#[test]
fn equal_caches_plan_equal_frames() {
    let layout = grid(&[128, 128, 44], &[128, 128, 44]);
    let damage = DamageRegion::Rects(vec![Some(TileSpan { start_x: 0, start_y: 0, end_x: 1, end_y: 0 })]);
    let mut first = TileCache::new();
    let mut second = TileCache::new();
    let a = first.build_tile_state(&layout, &DamageRegion::Full);
    let b = second.build_tile_state(&layout, &DamageRegion::Full);
    assert_eq!(a.tile_plan, b.tile_plan);
    let a = first.build_tile_state(&layout, &damage);
    let b = second.build_tile_state(&layout, &damage);
    assert_eq!(a.tile_plan, b.tile_plan);
    assert_eq!(first.content_slots(), second.content_slots());
    assert_eq!(first.take_reused_content_handles(), second.take_reused_content_handles());
    assert_eq!(first.reusable_handle_count(), second.reusable_handle_count());
}
