use zeno_compositor::invalidation::DirtyReason;
use zeno_compositor::retained::{index_tree, NodeId, RetainedDirtyState, ShapeNode, TreeNode};

fn node(id: u64, parent: Option<usize>, container_like: bool) -> TreeNode {
    TreeNode { id: NodeId(id), parent, container_like }
}

fn text(id: u64) -> ShapeNode {
    ShapeNode { id: NodeId(id), container_like: false, children: Vec::new() }
}

fn group(id: u64, children: Vec<ShapeNode>) -> ShapeNode {
    ShapeNode { id: NodeId(id), container_like: true, children }
}

fn retained_tree(root: &ShapeNode) -> RetainedDirtyState {
    RetainedDirtyState::from_tree(root).expect("node ids are distinct")
}

fn sorted_roots(state: &RetainedDirtyState) -> Vec<NodeId> {
    let mut roots = state.layout_dirty_roots();
    roots.sort_by_key(|id| id.0);
    roots
}

/// column(root)[text(title), text(body)]
fn title_body_tree() -> RetainedDirtyState {
    retained_tree(&group(1, vec![text(2), text(3)]))
}

#[test]
fn text_dirty_keeps_leaf_as_layout_root() {
    let mut retained = title_body_tree();
    let body_id = NodeId(3);

    retained.mark_node_dirty(body_id, DirtyReason::Text);

    assert_eq!(sorted_roots(&retained), vec![body_id]);
}

#[test]
fn structure_dirty_promotes_to_parent_layout_root() {
    let mut retained = title_body_tree();
    let root_id = NodeId(1);
    let body_id = NodeId(3);

    retained.mark_node_dirty(body_id, DirtyReason::Structure);

    assert_eq!(sorted_roots(&retained), vec![root_id]);
}

#[test]
fn structure_dirty_on_container_stays_local_to_container_root() {
    // row(root)[column(card)[text(title), text(body)], text(side)]
    let mut retained = retained_tree(&group(1, vec![group(2, vec![text(3), text(4)]), text(5)]));
    let card_id = NodeId(2);

    retained.mark_node_dirty(card_id, DirtyReason::Structure);

    assert_eq!(sorted_roots(&retained), vec![card_id]);
}

#[test]
fn order_dirty_keeps_stack_node_as_local_root() {
    // row(root)[column(stack)[text(a), text(b)], text(side)]
    let mut retained = retained_tree(&group(1, vec![group(2, vec![text(3), text(4)]), text(5)]));
    let stack_id = NodeId(2);

    retained.mark_node_dirty(stack_id, DirtyReason::Order);

    assert_eq!(sorted_roots(&retained), vec![stack_id]);
}

#[test]
fn sibling_dirty_nodes_remain_independent_leaf_roots() {
    let mut retained = title_body_tree();
    let id_a = NodeId(2);
    let id_b = NodeId(3);
    retained.mark_node_dirty(id_a, DirtyReason::Layout);
    retained.mark_node_dirty(id_b, DirtyReason::Layout);
    let roots = sorted_roots(&retained);
    assert_eq!(roots, vec![id_a, id_b]);
}

#[test]
fn dirty_nodes_in_different_containers_stay_scoped_to_their_branches() {
    // row(root)[column(left)[l1, l2], column(right)[r1, r2]]
    let mut retained =
        retained_tree(&group(1, vec![group(2, vec![text(3), text(4)]), group(5, vec![text(6), text(7)])]));
    let id_l2 = NodeId(4);
    let id_r2 = NodeId(7);
    retained.mark_node_dirty(id_l2, DirtyReason::Layout);
    retained.mark_node_dirty(id_r2, DirtyReason::Layout);
    let roots = sorted_roots(&retained);
    assert_eq!(roots, vec![id_l2, id_r2]);
}

#[test]
fn ancestor_root_absorbs_dirty_descendant_roots() {
    let mut retained = title_body_tree();
    retained.mark_node_dirty(NodeId(2), DirtyReason::Layout);
    retained.mark_node_dirty(NodeId(3), DirtyReason::Layout);
    retained.mark_node_dirty(NodeId(1), DirtyReason::Layout);
    assert_eq!(sorted_roots(&retained), vec![NodeId(1)]);
    retained.mark_node_dirty(NodeId(3), DirtyReason::Text);
    assert_eq!(sorted_roots(&retained), vec![NodeId(1)]);
}

#[test]
fn layout_marks_propagate_to_ancestors_but_paint_stays_local() {
    let mut retained = title_body_tree();
    retained.mark_node_dirty(NodeId(3), DirtyReason::Paint);
    assert!(retained.dirty_flags_for(NodeId(3)).paint);
    assert!(retained.dirty_flags_for(NodeId(1)).is_clean());
    assert!(sorted_roots(&retained).is_empty());
    retained.mark_node_dirty(NodeId(2), DirtyReason::Layout);
    assert!(retained.dirty_flags_for(NodeId(1)).layout);
    assert!(retained.dirty_flags_for(NodeId(2)).layout);
    assert!(!retained.dirty_flags_for(NodeId(3)).layout);
    assert_eq!(retained.dirty_node_ids(), vec![NodeId(1), NodeId(2), NodeId(3)]);
}

#[test]
fn whole_tree_mark_makes_root_the_only_layout_root() {
    let mut retained = title_body_tree();
    retained.mark_node_dirty(NodeId(3), DirtyReason::Layout);
    retained.mark_dirty(DirtyReason::Structure);
    assert_eq!(sorted_roots(&retained), vec![NodeId(1)]);
    assert!(retained.dirty().structure);
    retained.clear_all();
    assert!(retained.dirty().is_clean());
    assert!(retained.layout_dirty_roots().is_empty());
    assert!(retained.dirty_node_ids().is_empty());
}

#[test]
fn descendant_lookup_follows_parent_chain() {
    let retained = title_body_tree();
    assert!(retained.is_ancestor_or_same(NodeId(1), NodeId(3)));
    assert!(retained.is_ancestor_or_same(NodeId(3), NodeId(3)));
    assert!(!retained.is_ancestor_or_same(NodeId(2), NodeId(3)));
    assert!(retained.has_descendant_in(NodeId(1), &vec![NodeId(3)]));
    assert!(!retained.has_descendant_in(NodeId(3), &vec![NodeId(3), NodeId(1)]));
}

#[test]
fn tree_index_lists_nodes_in_preorder_with_parent_positions() {
    let root = group(1, vec![group(2, vec![text(3), text(4)]), group(5, vec![text(6), text(7)]), text(8)]);
    assert_eq!(
        index_tree(&root),
        vec![
            node(1, None, true),
            node(2, Some(0), true),
            node(3, Some(1), false),
            node(4, Some(1), false),
            node(5, Some(0), true),
            node(6, Some(4), false),
            node(7, Some(4), false),
            node(8, Some(0), false),
        ]
    );
    assert_eq!(index_tree(&text(9)), vec![node(9, None, false)]);
}

#[test]
fn tree_with_repeated_ids_has_no_index() {
    assert!(RetainedDirtyState::from_tree(&group(1, vec![text(2), text(2)])).is_none());
    assert!(RetainedDirtyState::from_tree(&group(1, vec![group(2, vec![text(1)])])).is_none());
    assert!(RetainedDirtyState::from_tree(&group(1, vec![group(2, vec![text(3)])])).is_some());
}

#[test]
fn explicit_listing_indexes_like_the_tree() {
    let mut listed = RetainedDirtyState::new(
        NodeId(1),
        vec![node(1, None, true), node(2, Some(0), true), node(3, Some(1), false), node(4, Some(0), false)],
    );
    let mut built = retained_tree(&group(1, vec![group(2, vec![text(3)]), text(4)]));
    listed.mark_node_dirty(NodeId(3), DirtyReason::Structure);
    built.mark_node_dirty(NodeId(3), DirtyReason::Structure);
    assert_eq!(sorted_roots(&listed), vec![NodeId(2)]);
    assert_eq!(sorted_roots(&built), vec![NodeId(2)]);
}

#[test]
fn clearing_a_node_forgets_only_its_own_work() {
    let mut retained = title_body_tree();
    retained.mark_node_dirty(NodeId(3), DirtyReason::Paint);
    retained.mark_node_dirty(NodeId(2), DirtyReason::Paint);
    retained.clear_node(NodeId(3));
    assert!(retained.dirty_flags_for(NodeId(3)).is_clean());
    assert!(retained.dirty_flags_for(NodeId(2)).paint);
    assert!(retained.dirty().paint);
    retained.clear_node(NodeId(42));
    assert_eq!(retained.dirty_node_ids(), vec![NodeId(2)]);
}

use zeno_compositor::compose::{
    compose_path, new_node_ids, patch_update_ids, structure_changed, union_ids, ComposePath, ComposeStats,
};
use zeno_compositor::invalidation::DirtyFlags;

fn flags_for(reason: DirtyReason) -> DirtyFlags {
    let mut flags = DirtyFlags::clean();
    flags.mark(reason);
    flags
}

#[test]
fn compose_path_follows_retained_state_and_dirt() {
    assert_eq!(compose_path(false, true, DirtyFlags::clean()), ComposePath::FullRebuild);
    assert_eq!(compose_path(true, false, DirtyFlags::clean()), ComposePath::FullRebuild);
    assert_eq!(compose_path(true, true, DirtyFlags::clean()), ComposePath::CacheHit);
    assert_eq!(compose_path(true, true, flags_for(DirtyReason::Paint)), ComposePath::PaintPatch);
    assert_eq!(compose_path(true, true, flags_for(DirtyReason::Layout)), ComposePath::LayoutPatch);
    assert_eq!(compose_path(true, true, flags_for(DirtyReason::Structure)), ComposePath::LayoutPatch);
}

#[test]
fn compose_stats_count_each_path() {
    let s = ComposeStats::new();
    let hit = s.after(ComposePath::CacheHit);
    assert_eq!((hit.compose_passes, hit.layout_passes, hit.cache_hits), (0, 0, 1));
    let paint = hit.after(ComposePath::PaintPatch);
    assert_eq!((paint.compose_passes, paint.layout_passes, paint.cache_hits), (1, 0, 1));
    let layout = paint.after(ComposePath::LayoutPatch).after(ComposePath::FullRebuild);
    assert_eq!((layout.compose_passes, layout.layout_passes, layout.cache_hits), (3, 2, 1));
}

#[test]
fn update_ids_follow_new_nodes_and_structure() {
    assert_eq!(new_node_ids(&vec![1, 2, 3], &vec![3, 4, 1, 5]), vec![4, 5]);
    let mut both = union_ids(&vec![2, 7], &vec![7, 9]);
    both.sort();
    assert_eq!(both, vec![2, 7, 9]);
    let clean = DirtyFlags::clean();
    assert!(!structure_changed(clean, &vec![1, 2], &vec![2, 1]));
    assert!(structure_changed(clean, &vec![1, 2], &vec![1, 2, 3]));
    assert!(structure_changed(clean, &vec![1, 2], &vec![1]));
    assert!(structure_changed(flags_for(DirtyReason::Structure), &vec![1], &vec![1]));
    let mut ids = patch_update_ids(true, &vec![4], &vec![1, 4]);
    ids.sort();
    assert_eq!(ids, vec![1, 4]);
    assert_eq!(patch_update_ids(false, &vec![4], &vec![1]), vec![4]);
}
