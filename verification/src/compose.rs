use vstd::prelude::*;

use crate::invalidation::DirtyFlags;

verus! {

/// How a node's layer is combined with what lies under it.
#[derive(Debug, Clone, Copy, PartialEq, Eq, Structural)]
pub enum BlendMode {
    Normal,
    Multiply,
    Screen,
}

/// The direction a stack lays out its children in.
#[derive(Debug, Clone, Copy, PartialEq, Eq, Structural)]
pub enum Axis {
    Horizontal,
    Vertical,
}

/// What a compose engine has done so far.
#[derive(Debug, Clone, Copy, PartialEq, Eq, Structural)]
pub struct ComposeStats {
    pub compose_passes: usize,
    pub layout_passes: usize,
    pub cache_hits: usize,
}

impl ComposeStats {
    /// Nothing done yet.
    pub fn new() -> (stats: Self)
        ensures
            stats.compose_passes == 0,
            stats.layout_passes == 0,
            stats.cache_hits == 0,
    {
        ComposeStats { compose_passes: 0, layout_passes: 0, cache_hits: 0 }
    }
}

/// How a compose engine answers a frame.
#[derive(Debug, Clone, Copy, PartialEq, Eq, Structural)]
pub enum ComposePath {
    /// The retained scene is submitted as it is.
    CacheHit,
    /// Only the dirty nodes are painted again.
    PaintPatch,
    /// The dirty subtrees are laid out and painted again.
    LayoutPatch,
    /// The whole tree is measured and painted from scratch.
    FullRebuild,
}

/// The path a frame takes: from scratch when nothing is retained or the
/// viewport changed; otherwise the retained scene when nothing is dirty, a
/// paint patch when only paint is dirty, a layout patch when layout is.
pub open spec fn spec_compose_path(has_retained: bool, same_viewport: bool, dirty: DirtyFlags) -> ComposePath {
    if !has_retained || !same_viewport {
        ComposePath::FullRebuild
    } else if dirty.spec_is_clean() {
        ComposePath::CacheHit
    } else if dirty.spec_requires_paint_only() {
        ComposePath::PaintPatch
    } else if dirty.spec_requires_layout() {
        ComposePath::LayoutPatch
    } else {
        ComposePath::FullRebuild
    }
}

/// How a frame is answered, in terms of the flags alone: from scratch
/// without a retained tree or at another viewport; otherwise from the
/// retained scene when nothing is dirty, by a layout patch whenever
/// structure, layout or text work is pending, and by a paint patch exactly
/// when paint work is pending and no layout work; never a full rebuild.
pub proof fn lemma_compose_path_follows_work(has_retained: bool, same_viewport: bool, dirty: DirtyFlags)
    ensures
        !has_retained || !same_viewport ==> spec_compose_path(has_retained, same_viewport, dirty)
            == ComposePath::FullRebuild,
        has_retained && same_viewport ==> (spec_compose_path(has_retained, same_viewport, dirty)
            == ComposePath::CacheHit <==> !dirty.structure && !dirty.layout && !dirty.paint && !dirty.text),
        has_retained && same_viewport && (dirty.structure || dirty.layout || dirty.text) ==> spec_compose_path(
            has_retained,
            same_viewport,
            dirty,
        ) == ComposePath::LayoutPatch,
        has_retained && same_viewport ==> (spec_compose_path(has_retained, same_viewport, dirty)
            == ComposePath::PaintPatch <==> dirty.paint && !dirty.structure && !dirty.layout && !dirty.text),
        has_retained && same_viewport ==> spec_compose_path(has_retained, same_viewport, dirty)
            != ComposePath::FullRebuild,
{
}

/// The path a frame takes, given whether a tree is retained, whether the
/// viewport is the one it was composed for, and what is dirty.
pub fn compose_path(has_retained: bool, same_viewport: bool, dirty: DirtyFlags) -> (p: ComposePath)
    ensures
        p == spec_compose_path(has_retained, same_viewport, dirty),
        !has_retained || !same_viewport ==> p == ComposePath::FullRebuild,
        has_retained && same_viewport ==> (p == ComposePath::CacheHit <==> !dirty.structure && !dirty.layout
            && !dirty.paint && !dirty.text),
        has_retained && same_viewport && (dirty.structure || dirty.layout || dirty.text) ==> p
            == ComposePath::LayoutPatch,
        has_retained && same_viewport ==> (p == ComposePath::PaintPatch <==> dirty.paint && !dirty.structure
            && !dirty.layout && !dirty.text),
{
    if !has_retained || !same_viewport {
        ComposePath::FullRebuild
    } else if dirty.is_clean() {
        ComposePath::CacheHit
    } else if dirty.requires_paint_only() {
        ComposePath::PaintPatch
    } else if dirty.requires_layout() {
        ComposePath::LayoutPatch
    } else {
        ComposePath::FullRebuild
    }
}

impl ComposeStats {
    /// The counters after a frame that took `path`: a cache hit counts as
    /// one; a patch or rebuild counts a compose pass, and a layout patch or
    /// rebuild also a layout pass.
    pub fn after(self, path: ComposePath) -> (stats: Self)
        requires
            self.compose_passes < usize::MAX,
            self.layout_passes < usize::MAX,
            self.cache_hits < usize::MAX,
        ensures
            stats.cache_hits == self.cache_hits + if path == ComposePath::CacheHit {
                1int
            } else {
                0int
            },
            stats.compose_passes == self.compose_passes + if path == ComposePath::CacheHit {
                0int
            } else {
                1int
            },
            stats.layout_passes == self.layout_passes + if path == ComposePath::LayoutPatch || path
                == ComposePath::FullRebuild {
                1int
            } else {
                0int
            },
    {
        match path {
            ComposePath::CacheHit => ComposeStats { cache_hits: self.cache_hits + 1, ..self },
            ComposePath::PaintPatch => ComposeStats { compose_passes: self.compose_passes + 1, ..self },
            ComposePath::LayoutPatch | ComposePath::FullRebuild => ComposeStats {
                compose_passes: self.compose_passes + 1,
                layout_passes: self.layout_passes + 1,
                ..self
            },
        }
    }
}

/// Whether a laid-out frame changed the tree's structure: the dirty flags
/// asked for it, or the set of node ids changed.
pub open spec fn spec_structure_changed(
    previous_dirty: DirtyFlags,
    previous_ids: Set<u64>,
    current_ids: Set<u64>,
) -> bool {
    previous_dirty.structure || previous_ids != current_ids
}

/// Whether `s` holds `x`, by a scan.
fn holds_id(s: &Vec<u64>, x: u64) -> (b: bool)
    ensures
        b == s@.contains(x),
{
    let mut j: usize = 0;
    while j < s.len()
        invariant
            0 <= j <= s@.len(),
            forall|k: int| 0 <= k < j ==> s@[k] != x,
        decreases s@.len() - j,
    {
        if s[j] == x {
            return true;
        }
        j = j + 1;
    }
    false
}

/// The ids of `current` that `previous` does not hold: the nodes new in
/// this frame, in `current`'s order.
pub fn new_node_ids(previous: &Vec<u64>, current: &Vec<u64>) -> (ids: Vec<u64>)
    ensures
        ids@.to_set() == current@.to_set().difference(previous@.to_set()),
{
    let mut ids: Vec<u64> = Vec::new();
    let mut i: usize = 0;
    while i < current.len()
        invariant
            0 <= i <= current@.len(),
            ids@.to_set() == current@.take(i as int).to_set().difference(previous@.to_set()),
        decreases current@.len() - i,
    {
        let x = current[i];
        proof {
            assert(current@.take(i + 1) =~= current@.take(i as int).push(x));
            current@.take(i as int).lemma_push_to_set_commute(x);
        }
        if !holds_id(previous, x) {
            proof {
                ids@.lemma_push_to_set_commute(x);
            }
            ids.push(x);
        }
        proof {
            assert(ids@.to_set() =~= current@.take(i + 1).to_set().difference(previous@.to_set()));
        }
        i = i + 1;
    }
    proof {
        assert(current@.take(current@.len() as int) =~= current@);
    }
    ids
}

/// The ids held by `a` or by `b`: `a` in order, then those of `b` that `a`
/// does not hold.
pub fn union_ids(a: &Vec<u64>, b: &Vec<u64>) -> (ids: Vec<u64>)
    ensures
        ids@.to_set() == a@.to_set().union(b@.to_set()),
{
    let extra = new_node_ids(a, b);
    let mut ids: Vec<u64> = Vec::new();
    let mut i: usize = 0;
    while i < a.len()
        invariant
            0 <= i <= a@.len(),
            ids@ == a@.take(i as int),
        decreases a@.len() - i,
    {
        ids.push(a[i]);
        proof {
            assert(ids@ =~= a@.take(i + 1));
        }
        i = i + 1;
    }
    proof {
        assert(a@.take(a@.len() as int) =~= a@);
    }
    let mut k: usize = 0;
    while k < extra.len()
        invariant
            0 <= k <= extra@.len(),
            ids@.to_set() == a@.to_set().union(extra@.take(k as int).to_set()),
        decreases extra@.len() - k,
    {
        proof {
            assert(extra@.take(k + 1) =~= extra@.take(k as int).push(extra@[k as int]));
            extra@.take(k as int).lemma_push_to_set_commute(extra@[k as int]);
            ids@.lemma_push_to_set_commute(extra@[k as int]);
        }
        ids.push(extra[k]);
        proof {
            assert(ids@.to_set() =~= a@.to_set().union(extra@.take(k + 1).to_set()));
        }
        k = k + 1;
    }
    proof {
        assert(extra@.take(extra@.len() as int) =~= extra@);
        assert(ids@.to_set() =~= a@.to_set().union(b@.to_set()));
    }
    ids
}

/// Whether a laid-out frame changed the tree's structure: the dirty flags
/// asked for it, or the ids before and after differ as sets.
pub fn structure_changed(previous_dirty: DirtyFlags, previous_ids: &Vec<u64>, current_ids: &Vec<u64>) -> (b: bool)
    ensures
        b == spec_structure_changed(previous_dirty, previous_ids@.to_set(), current_ids@.to_set()),
{
    let added = new_node_ids(previous_ids, current_ids);
    let removed = new_node_ids(current_ids, previous_ids);
    proof {
        let p = previous_ids@.to_set();
        let c = current_ids@.to_set();
        if added@.len() > 0 {
            assert(added@.to_set().contains(added@[0]));
            assert(p != c);
        }
        if removed@.len() > 0 {
            assert(removed@.to_set().contains(removed@[0]));
            assert(p != c);
        }
        if added@.len() == 0 && removed@.len() == 0 {
            assert(added@.to_set() =~= Set::<u64>::empty());
            assert(removed@.to_set() =~= Set::<u64>::empty());
            assert forall|x: u64| c.contains(x) implies p.contains(x) by {
                if !p.contains(x) {
                    assert(c.difference(p).contains(x));
                }
            }
            assert forall|x: u64| p.contains(x) implies c.contains(x) by {
                if !c.contains(x) {
                    assert(p.difference(c).contains(x));
                }
            }
            assert(p =~= c);
        }
    }
    previous_dirty.requires_structure_rebuild() || added.len() > 0 || removed.len() > 0
}

/// The nodes whose scene items a laid-out frame updates: those the layout
/// touched, and on a change of structure also every dirty node.
pub fn patch_update_ids(structure_changed: bool, layout_ids: &Vec<u64>, dirty_ids: &Vec<u64>) -> (ids: Vec<u64>)
    ensures
        ids@.to_set() == if structure_changed {
            layout_ids@.to_set().union(dirty_ids@.to_set())
        } else {
            layout_ids@.to_set()
        },
{
    if structure_changed {
        union_ids(layout_ids, dirty_ids)
    } else {
        union_ids(layout_ids, &Vec::new())
    }
}

} // verus!
