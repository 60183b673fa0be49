//! Integer steps of walking a retained layer scene: intersecting scissor
//! rectangles and skipping the operations of a layer's subtree.

use vstd::prelude::*;

verus! {

/// A scissor rectangle in whole pixels.
#[derive(Debug, Clone, Copy, PartialEq, Eq, Structural)]
pub struct ScissorRect {
    pub x: u64,
    pub y: u64,
    pub width: u64,
    pub height: u64,
}

/// `a - b`, or 0 when `b` is larger.
pub open spec fn sat_sub(a: int, b: int) -> int {
    if a > b {
        a - b
    } else {
        0
    }
}

/// The overlap of two scissor rectangles: from the larger of their left and
/// top edges to the smaller of their right and bottom edges, empty (zero
/// width or height) where they do not meet.
pub open spec fn overlap(a: ScissorRect, b: ScissorRect) -> ScissorRect {
    let x = if a.x > b.x {
        a.x
    } else {
        b.x
    };
    let y = if a.y > b.y {
        a.y
    } else {
        b.y
    };
    let right = if a.x + a.width < b.x + b.width {
        a.x + a.width
    } else {
        b.x + b.width
    };
    let bottom = if a.y + a.height < b.y + b.height {
        a.y + a.height
    } else {
        b.y + b.height
    };
    ScissorRect { x, y, width: sat_sub(right, x as int) as u64, height: sat_sub(bottom, y as int) as u64 }
}

/// The part of the first scissor rectangle that the second also covers.
pub fn intersect_scissor(a: ScissorRect, b: ScissorRect) -> (r: ScissorRect)
    requires
        a.x + a.width <= u64::MAX,
        a.y + a.height <= u64::MAX,
        b.x + b.width <= u64::MAX,
        b.y + b.height <= u64::MAX,
    ensures
        r == overlap(a, b),
{
    let x = if a.x > b.x {
        a.x
    } else {
        b.x
    };
    let y = if a.y > b.y {
        a.y
    } else {
        b.y
    };
    let right = if a.x + a.width < b.x + b.width {
        a.x + a.width
    } else {
        b.x + b.width
    };
    let bottom = if a.y + a.height < b.y + b.height {
        a.y + a.height
    } else {
        b.y + b.height
    };
    ScissorRect { x, y, width: right.saturating_sub(x), height: bottom.saturating_sub(y) }
}

/// Whether scissor `inner` lies within scissor `outer`.
pub open spec fn scissor_within(inner: ScissorRect, outer: ScissorRect) -> bool {
    &&& outer.x <= inner.x
    &&& outer.y <= inner.y
    &&& inner.x + inner.width <= outer.x + outer.width
    &&& inner.y + inner.height <= outer.y + outer.height
}

/// A non-empty overlap lies within both scissor rectangles, and the overlap
/// does not depend on their order.
pub proof fn lemma_overlap_within(a: ScissorRect, b: ScissorRect)
    requires
        a.x + a.width <= u64::MAX,
        a.y + a.height <= u64::MAX,
        b.x + b.width <= u64::MAX,
        b.y + b.height <= u64::MAX,
    ensures
        overlap(a, b).width > 0 && overlap(a, b).height > 0 ==> scissor_within(overlap(a, b), a)
            && scissor_within(overlap(a, b), b),
        overlap(a, b) == overlap(b, a),
{
}

/// Whether a layer is composited through an offscreen surface: never the
/// root layer; any other layer that asks for one, blends other than
/// normally, or carries effects.
pub fn should_render_offscreen(is_root: bool, offscreen: bool, normal_blend: bool, effect_count: usize) -> (b: bool)
    ensures
        b == (!is_root && (offscreen || !normal_blend || effect_count > 0)),
{
    !is_root && (offscreen || !normal_blend || effect_count > 0)
}

/// What walking a retained scene needs to know of a drawing operation:
/// whether it opens a layer, closes one, or draws.
#[derive(Debug, Clone, Copy, PartialEq, Eq, Structural)]
pub enum LayerOpKind {
    EnterLayer,
    ExitLayer,
    Draw,
}

/// Whether position `k` closes the subtree opened at `i`: an exit after
/// which the layers opened from `i` on are balanced.
pub open spec fn closes_at(ops: Seq<LayerOpKind>, i: int, k: int) -> bool {
    i <= k < ops.len() && ops[k] == LayerOpKind::ExitLayer && net_depth(ops, i, k + 1) == 0
}

/// Where the subtree opened at `i` ends: just after the first position that
/// closes it, or at the end of the operations when none does.
pub open spec fn subtree_end(ops: Seq<LayerOpKind>, i: int) -> int {
    if exists|k: int| closes_at(ops, i, k) {
        (choose|k: int| closes_at(ops, i, k) && forall|j: int| i <= j < k ==> !closes_at(ops, i, j)) + 1
    } else {
        ops.len() as int
    }
}

/// The position just after the subtree that opens at `enter_index`: after
/// the exit that brings the layer depth back to zero, or the end of the
/// operations when none does.
pub fn skip_subtree(ops: &Vec<LayerOpKind>, enter_index: usize) -> (next: usize)
    requires
        ops@.len() <= i32::MAX,
    ensures
        next == subtree_end(ops@, enter_index as int),
{
    let ghost e = enter_index as int;
    let mut depth: i32 = 0;
    let mut i: usize = enter_index;
    while i < ops.len()
        invariant
            enter_index <= i,
            e == enter_index as int,
            ops@.len() <= i32::MAX,
            -(i - enter_index) <= depth <= i - enter_index,
            depth == net_depth(ops@, e, i as int),
            forall|j: int| e <= j < i ==> !closes_at(ops@, e, j),
        decreases ops@.len() - i,
    {
        proof {
            lemma_net_depth_step(ops@, e, i as int);
            assert(net_depth(ops@, e, i + 1) == net_depth(ops@, e, i as int) + match ops@[i as int] {
                LayerOpKind::EnterLayer => 1int,
                LayerOpKind::ExitLayer => -1int,
                LayerOpKind::Draw => 0int,
            });
        }
        match ops[i] {
            LayerOpKind::EnterLayer => {
                depth = depth + 1;
            },
            LayerOpKind::ExitLayer => {
                depth = depth - 1;
                if depth == 0 {
                    proof {
                        assert(closes_at(ops@, e, i as int));
                        let k = choose|k: int| closes_at(ops@, e, k) && forall|j: int| e <= j < k ==> !closes_at(ops@, e, j);
                        if k < i {
                            assert(!closes_at(ops@, e, k));
                        }
                        if k > i {
                            assert(!closes_at(ops@, e, i as int));
                        }
                    }
                    return i + 1;
                }
            },
            LayerOpKind::Draw => {},
        }
        i = i + 1;
    }
    proof {
        assert forall|k: int| !closes_at(ops@, e, k) by {
            if closes_at(ops@, e, k) {
                assert(e <= k < i);
            }
        }
    }
    ops.len()
}

/// How many layers the operations from `i` up to `j` open, less those they
/// close.
pub open spec fn net_depth(ops: Seq<LayerOpKind>, i: int, j: int) -> int
    decreases j - i,
{
    if j <= i {
        0
    } else {
        net_depth(ops, i, j - 1) + match ops[j - 1] {
            LayerOpKind::EnterLayer => 1int,
            LayerOpKind::ExitLayer => -1int,
            LayerOpKind::Draw => 0int,
        }
    }
}

proof fn lemma_net_depth_step(ops: Seq<LayerOpKind>, i: int, j: int)
    requires
        i <= j,
    ensures
        net_depth(ops, i, j + 1) == net_depth(ops, i, j) + match ops[j] {
            LayerOpKind::EnterLayer => 1int,
            LayerOpKind::ExitLayer => -1int,
            LayerOpKind::Draw => 0int,
        },
{
}

/// Skipping a layer's subtree passes over exactly that subtree: every
/// operation skipped lies inside the entered layer, and the walk stops
/// right after the exit that closes it, or at the end when nothing does.
pub proof fn lemma_skipped_subtree_is_balanced(ops: Seq<LayerOpKind>, enter_index: int)
    requires
        0 <= enter_index < ops.len(),
        ops[enter_index] == LayerOpKind::EnterLayer,
    ensures
        enter_index < subtree_end(ops, enter_index) <= ops.len(),
        forall|k: int| enter_index < k < subtree_end(ops, enter_index) ==> net_depth(ops, enter_index, k) > 0,
        net_depth(ops, enter_index, subtree_end(ops, enter_index)) == 0 || (subtree_end(ops, enter_index)
            == ops.len() && net_depth(ops, enter_index, ops.len() as int) > 0),
{
    let e = enter_index;
    let end = subtree_end(ops, e);
    let found = exists|k: int| closes_at(ops, e, k);
    let stop = if found {
        choose|k: int| closes_at(ops, e, k) && forall|j: int| e <= j < k ==> !closes_at(ops, e, j)
    } else {
        ops.len() as int
    };
    if found {
        lemma_first_close(ops, e);
    }
    assert forall|k: int| e < k < end implies net_depth(ops, e, k) > 0 by {
        lemma_open_at(ops, e, stop, k);
    }
    if !found {
        lemma_open_at(ops, e, stop, stop);
    }
}

/// When some position closes the subtree opened at `i`, a first one does.
proof fn lemma_first_close(ops: Seq<LayerOpKind>, i: int)
    requires
        exists|k: int| closes_at(ops, i, k),
    ensures
        exists|k: int| closes_at(ops, i, k) && forall|j: int| i <= j < k ==> !closes_at(ops, i, j),
{
    let k0 = choose|k: int| closes_at(ops, i, k);
    lemma_first_close_below(ops, i, k0);
}

proof fn lemma_first_close_below(ops: Seq<LayerOpKind>, i: int, k0: int)
    requires
        closes_at(ops, i, k0),
    ensures
        exists|k: int| closes_at(ops, i, k) && forall|j: int| i <= j < k ==> !closes_at(ops, i, j),
    decreases k0 - i,
{
    if exists|j: int| i <= j < k0 && closes_at(ops, i, j) {
        let j = choose|j: int| i <= j < k0 && closes_at(ops, i, j);
        lemma_first_close_below(ops, i, j);
    } else {
        assert(closes_at(ops, i, k0) && forall|j: int| i <= j < k0 ==> !closes_at(ops, i, j));
    }
}

/// Until the first closing position, the layers opened at an entered `i`
/// stay open.
proof fn lemma_open_at(ops: Seq<LayerOpKind>, i: int, stop: int, k: int)
    requires
        0 <= i < ops.len(),
        ops[i] == LayerOpKind::EnterLayer,
        i < stop <= ops.len(),
        forall|j: int| i <= j < stop ==> !closes_at(ops, i, j),
        i < k <= stop,
    ensures
        k < stop || !closes_at(ops, i, k - 1) ==> net_depth(ops, i, k) > 0,
    decreases k - i,
{
    if k == i + 1 {
        assert(net_depth(ops, i, i) == 0);
    } else {
        lemma_open_at(ops, i, stop, k - 1);
        if k < stop {
            assert(!closes_at(ops, i, k - 1));
        }
    }
}

} // verus!
