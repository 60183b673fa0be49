use zeno_compositor::layer_ops::LayerOpKind::{Draw, EnterLayer, ExitLayer};
use zeno_compositor::layer_ops::{intersect_scissor, should_render_offscreen, skip_subtree, ScissorRect};

fn scissor(x: u64, y: u64, width: u64, height: u64) -> ScissorRect {
    ScissorRect { x, y, width, height }
}

#[test]
fn scissor_intersection_keeps_the_common_part() {
    assert_eq!(intersect_scissor(scissor(0, 0, 200, 100), scissor(10, 20, 50, 300)), scissor(10, 20, 50, 80));
    assert_eq!(intersect_scissor(scissor(10, 20, 50, 300), scissor(0, 0, 200, 100)), scissor(10, 20, 50, 80));
}

#[test]
fn disjoint_scissors_intersect_to_an_empty_rect() {
    let r = intersect_scissor(scissor(0, 0, 10, 10), scissor(20, 5, 10, 10));
    assert_eq!(r, scissor(20, 5, 0, 5));
}

#[test]
fn skipping_a_layer_passes_over_nested_layers() {
    let ops = vec![Draw, EnterLayer, Draw, EnterLayer, Draw, ExitLayer, Draw, ExitLayer, Draw];
    assert_eq!(skip_subtree(&ops, 1), 8);
    assert_eq!(skip_subtree(&ops, 3), 6);
}

#[test]
fn an_unclosed_layer_is_skipped_to_the_end() {
    let ops = vec![EnterLayer, Draw, EnterLayer, ExitLayer];
    assert_eq!(skip_subtree(&ops, 0), 4);
    assert_eq!(skip_subtree(&ops, 4), 4);
}

#[test]
fn offscreen_layer_policy_skips_root_and_keeps_explicit_offscreen_layers() {
    assert!(!should_render_offscreen(true, false, true, 0));
    assert!(should_render_offscreen(false, true, true, 0));
}

#[test]
fn offscreen_policy_follows_blending_and_effects() {
    assert!(!should_render_offscreen(false, false, true, 0));
    assert!(should_render_offscreen(false, false, false, 0));
    assert!(should_render_offscreen(false, false, true, 2));
    assert!(!should_render_offscreen(true, true, false, 3));
}
