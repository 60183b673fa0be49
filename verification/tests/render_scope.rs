use zeno_compositor::composite::CompositorBlendMode;
use zeno_compositor::damage::DamageRegion;
use zeno_compositor::planner::{CompositorPlanner, CompositorPlanningContext, CompositorPlanningItem};
use zeno_compositor::render_scope::{
    child_context_id_for_layer, enclosing_contexts, immediate_child_context, item_in_stacking_context_subtree,
    layer_for_scope,
    parent_stacking_context, scope_entry_for_item, scope_steps, ClipChainId, RenderLookupTables, ScopeEntry,
    ScopeStep, StackingContextId, StackingContextLink,
};
use zeno_compositor::tile::{TileGridKey, TileLayout, TileSpan};
use zeno_compositor::tile_cache::TileCache;
use zeno_compositor::composite::{CompositorLayerId, CompositorLayerTree};

/// The stacking contexts of the sample display list: 10 at the root, 11 inside it.
fn sample_contexts() -> Vec<StackingContextLink> {
    vec![
        StackingContextLink { id: StackingContextId(10), parent: None },
        StackingContextLink { id: StackingContextId(11), parent: Some(StackingContextId(10)) },
    ]
}

/// The stacking context of each item of the sample display list.
fn sample_items() -> Vec<Option<StackingContextId>> {
    vec![None, Some(StackingContextId(10)), Some(StackingContextId(11))]
}

fn sample_clip_chains() -> Vec<ClipChainId> {
    vec![ClipChainId(1), ClipChainId(2), ClipChainId(3)]
}

fn lookups_for(contexts: &Vec<StackingContextLink>) -> RenderLookupTables {
    RenderLookupTables::build(&sample_clip_chains(), contexts)
}

fn steps_without_tree(
    contexts: &Vec<StackingContextLink>,
    items: &Vec<Option<StackingContextId>>,
    scope: Option<StackingContextId>,
) -> Vec<ScopeStep> {
    let lookups = lookups_for(contexts);
    scope_steps::<()>(contexts, items, &lookups, None, scope)
}

#[test]
fn immediate_child_context_picks_first_descendant_under_scope() {
    let contexts = sample_contexts();
    let lookups = lookups_for(&contexts);

    assert_eq!(
        immediate_child_context(&contexts, &lookups, None, StackingContextId(11)),
        Some(StackingContextId(10))
    );
    assert_eq!(
        immediate_child_context(&contexts, &lookups, Some(StackingContextId(10)), StackingContextId(11)),
        Some(StackingContextId(11))
    );
}

#[test]
fn root_scope_keeps_context_at_first_occurrence_without_duplicates() {
    let contexts = sample_contexts();
    let mut items = sample_items();
    items.insert(1, None);
    items.push(Some(StackingContextId(10)));

    let steps = steps_without_tree(&contexts, &items, None);

    assert_eq!(
        steps,
        vec![ScopeStep::Direct(0), ScopeStep::Direct(1), ScopeStep::ChildContext(StackingContextId(10))]
    );
}

#[test]
fn nested_scope_keeps_direct_items_before_child_context() {
    let contexts = sample_contexts();
    let mut items = sample_items();
    items.insert(2, Some(StackingContextId(10)));

    let steps = steps_without_tree(&contexts, &items, Some(StackingContextId(10)));

    assert_eq!(
        steps,
        vec![ScopeStep::Direct(1), ScopeStep::Direct(2), ScopeStep::ChildContext(StackingContextId(11))]
    );
}

fn single_tile_layout() -> TileLayout {
    TileLayout {
        key: TileGridKey {
            viewport_width_bits: 200f32.to_bits(),
            viewport_height_bits: 100f32.to_bits(),
            tile_width_bits: 256f32.to_bits(),
            tile_height_bits: 256f32.to_bits(),
        },
        column_widths: vec![200],
        row_heights: vec![100],
    }
}

fn planning_item(index: usize, context: Option<usize>) -> CompositorPlanningItem {
    CompositorPlanningItem {
        item_index: index,
        paint_order: index,
        stacking_context_index: context,
        tile_span: Some(TileSpan { start_x: 0, start_y: 0, end_x: 0, end_y: 0 }),
    }
}

#[test]
fn planner_layer_tree_preserves_scope_entry_order_for_backend() {
    let contexts = sample_contexts();
    let mut items = sample_items();
    items.insert(1, None);
    let planning_items = vec![
        planning_item(0, None),
        planning_item(1, None),
        planning_item(2, Some(0)),
        planning_item(3, Some(1)),
    ];
    let planning_contexts = vec![
        CompositorPlanningContext {
            parent_context_index: None,
            paint_order: 1,
            blend_mode: CompositorBlendMode::Normal,
            needs_offscreen: false,
            visual: (),
        },
        CompositorPlanningContext {
            parent_context_index: Some(0),
            paint_order: 2,
            blend_mode: CompositorBlendMode::Multiply,
            needs_offscreen: true,
            visual: (),
        },
    ];
    let mut cache = TileCache::new();
    let submission = CompositorPlanner::new().plan(
        &planning_items,
        &planning_contexts,
        (),
        &single_tile_layout(),
        &mut cache,
        &DamageRegion::Full,
    );
    let lookups = lookups_for(&contexts);

    assert_eq!(
        scope_steps(&contexts, &items, &lookups, Some(&submission.layer_tree), None),
        vec![ScopeStep::Direct(0), ScopeStep::Direct(1), ScopeStep::ChildContext(StackingContextId(10))]
    );
    assert_eq!(
        scope_steps(&contexts, &items, &lookups, Some(&submission.layer_tree), Some(StackingContextId(10))),
        vec![ScopeStep::Direct(2), ScopeStep::ChildContext(StackingContextId(11))]
    );
}

#[test]
fn image_item_participates_in_root_scope_ordering() {
    let contexts = sample_contexts();
    let mut items = sample_items();
    items.insert(1, None);

    let steps = steps_without_tree(&contexts, &items, None);

    assert_eq!(
        steps,
        vec![ScopeStep::Direct(0), ScopeStep::Direct(1), ScopeStep::ChildContext(StackingContextId(10))]
    );
}

#[test]
fn lookup_tables_find_the_last_listing_of_each_id() {
    let contexts = vec![
        StackingContextLink { id: StackingContextId(4), parent: None },
        StackingContextLink { id: StackingContextId(2), parent: Some(StackingContextId(4)) },
        StackingContextLink { id: StackingContextId(4), parent: None },
    ];
    let lookups = RenderLookupTables::build(&vec![ClipChainId(3), ClipChainId(0)], &contexts);
    assert_eq!(lookups.context_index(StackingContextId(4)), Some(2));
    assert_eq!(lookups.context_index(StackingContextId(2)), Some(1));
    assert_eq!(lookups.context_index(StackingContextId(3)), None);
    assert_eq!(lookups.context_index(StackingContextId(99)), None);
    assert_eq!(lookups.clip_chain_index(ClipChainId(3)), Some(0));
    assert_eq!(lookups.clip_chain_index(ClipChainId(0)), Some(1));
    assert_eq!(lookups.clip_chain_index(ClipChainId(1)), None);
    assert_eq!(parent_stacking_context(&contexts, &lookups, StackingContextId(2)), Some(StackingContextId(4)));
    assert_eq!(parent_stacking_context(&contexts, &lookups, StackingContextId(7)), None);
}

#[test]
fn item_bounds_reach_every_listed_enclosing_context() {
    let contexts = vec![
        StackingContextLink { id: StackingContextId(1), parent: None },
        StackingContextLink { id: StackingContextId(2), parent: Some(StackingContextId(1)) },
        StackingContextLink { id: StackingContextId(3), parent: Some(StackingContextId(9)) },
    ];
    let lookups = lookups_for(&contexts);
    assert_eq!(
        enclosing_contexts(&contexts, &lookups, Some(StackingContextId(2))),
        vec![StackingContextId(2), StackingContextId(1)]
    );
    assert_eq!(enclosing_contexts(&contexts, &lookups, Some(StackingContextId(3))), vec![StackingContextId(3)]);
    assert_eq!(enclosing_contexts(&contexts, &lookups, Some(StackingContextId(8))), Vec::new());
    assert_eq!(enclosing_contexts(&contexts, &lookups, None), Vec::new());
}

#[test]
fn items_outside_a_scope_are_skipped() {
    let contexts = vec![
        StackingContextLink { id: StackingContextId(1), parent: None },
        StackingContextLink { id: StackingContextId(2), parent: None },
        StackingContextLink { id: StackingContextId(3), parent: Some(StackingContextId(2)) },
    ];
    let lookups = lookups_for(&contexts);
    let scope = Some(StackingContextId(2));
    assert_eq!(scope_entry_for_item(&contexts, &lookups, scope, None), ScopeEntry::Skip);
    assert_eq!(scope_entry_for_item(&contexts, &lookups, scope, Some(StackingContextId(1))), ScopeEntry::Skip);
    assert_eq!(scope_entry_for_item(&contexts, &lookups, scope, Some(StackingContextId(2))), ScopeEntry::Direct);
    assert_eq!(
        scope_entry_for_item(&contexts, &lookups, scope, Some(StackingContextId(3))),
        ScopeEntry::ChildContext(StackingContextId(3))
    );
    assert_eq!(scope_entry_for_item(&contexts, &lookups, None, None), ScopeEntry::Direct);
}

#[test]
fn layer_lookup_by_scope_and_by_id() {
    let contexts = sample_contexts();
    let lookups = lookups_for(&contexts);
    let planning_contexts = vec![
        CompositorPlanningContext {
            parent_context_index: None,
            paint_order: 1,
            blend_mode: CompositorBlendMode::Normal,
            needs_offscreen: false,
            visual: (),
        },
        CompositorPlanningContext {
            parent_context_index: Some(0),
            paint_order: 2,
            blend_mode: CompositorBlendMode::Normal,
            needs_offscreen: false,
            visual: (),
        },
    ];
    let planning_items = vec![planning_item(0, None), planning_item(1, Some(0)), planning_item(2, Some(1))];
    let mut cache = TileCache::new();
    let submission = CompositorPlanner::new().plan(
        &planning_items,
        &planning_contexts,
        (),
        &single_tile_layout(),
        &mut cache,
        &DamageRegion::Full,
    );
    let tree: &CompositorLayerTree<()> = &submission.layer_tree;
    assert_eq!(layer_for_scope(&contexts, &lookups, tree, None), Some(0));
    assert_eq!(layer_for_scope(&contexts, &lookups, tree, Some(StackingContextId(11))), Some(2));
    assert_eq!(layer_for_scope(&contexts, &lookups, tree, Some(StackingContextId(12))), None);
    assert_eq!(child_context_id_for_layer(&contexts, tree, CompositorLayerId(1)), Some(StackingContextId(10)));
    assert_eq!(child_context_id_for_layer(&contexts, tree, CompositorLayerId(0)), None);
    assert_eq!(child_context_id_for_layer(&contexts, tree, CompositorLayerId(7)), None);
}

#[test]
fn first_listing_tables_find_the_first_listing_of_each_id() {
    let contexts = vec![
        StackingContextLink { id: StackingContextId(4), parent: None },
        StackingContextLink { id: StackingContextId(2), parent: Some(StackingContextId(4)) },
        StackingContextLink { id: StackingContextId(4), parent: Some(StackingContextId(2)) },
    ];
    let lookups = RenderLookupTables::build_first_listing(&vec![ClipChainId(5), ClipChainId(5)], &contexts);
    assert_eq!(lookups.context_index(StackingContextId(4)), Some(0));
    assert_eq!(lookups.clip_chain_index(ClipChainId(5)), Some(0));
    assert_eq!(parent_stacking_context(&contexts, &lookups, StackingContextId(4)), None);
    assert_eq!(parent_stacking_context(&contexts, &lookups, StackingContextId(2)), Some(StackingContextId(4)));
}

#[test]
fn subtree_membership_follows_the_parent_chain() {
    let contexts = vec![
        StackingContextLink { id: StackingContextId(10), parent: None },
        StackingContextLink { id: StackingContextId(11), parent: Some(StackingContextId(10)) },
        StackingContextLink { id: StackingContextId(12), parent: None },
    ];
    let lookups = RenderLookupTables::build_first_listing(&Vec::new(), &contexts);
    let inner = Some(StackingContextId(11));
    assert!(item_in_stacking_context_subtree(&contexts, &lookups, inner, StackingContextId(11)));
    assert!(item_in_stacking_context_subtree(&contexts, &lookups, inner, StackingContextId(10)));
    assert!(!item_in_stacking_context_subtree(&contexts, &lookups, inner, StackingContextId(12)));
    assert!(!item_in_stacking_context_subtree(&contexts, &lookups, None, StackingContextId(10)));
}

#[test]
fn subtree_membership_stops_at_the_ancestor_even_above_a_cycle() {
    let contexts = vec![
        StackingContextLink { id: StackingContextId(1), parent: Some(StackingContextId(2)) },
        StackingContextLink { id: StackingContextId(2), parent: Some(StackingContextId(1)) },
    ];
    let lookups = RenderLookupTables::build(&Vec::new(), &contexts);
    assert!(item_in_stacking_context_subtree(&contexts, &lookups, Some(StackingContextId(1)), StackingContextId(2)));
}
