use vstd::prelude::*;

use crate::composite::{
    CompositeLayerPass, CompositePass, CompositeTileRef, CompositorBlendMode, CompositorLayer, CompositorLayerId,
    CompositorLayerTree, CompositorScopeEntry, CompositorSubmission,
};
use crate::damage::DamageRegion;
use crate::tile::{sat_dec, spans_cover, tiles_sorted, TileId, TileLayout, TileSpan};
use crate::tile_alloc::frame_exact;
use crate::tile_cache::{frame_grants, kept_surfaces, raster_of, TileCache, MAX_REUSABLE_BYTE_COUNT};

verus! {

/// A display item as the planner sees it: its index, paint order, the
/// stacking context it paints into (none: the root), and the tiles its
/// visual rectangle covers (none when it covers no tile).
#[derive(Debug, Clone, Copy, PartialEq, Eq, Structural)]
pub struct CompositorPlanningItem {
    pub item_index: usize,
    pub paint_order: usize,
    pub stacking_context_index: Option<usize>,
    pub tile_span: Option<TileSpan>,
}

/// Items in non-decreasing paint order.
pub open spec fn paint_ordered(s: Seq<CompositorPlanningItem>) -> bool {
    forall|i: int, j: int| 0 <= i < j < s.len() ==> (#[trigger] s[i]).paint_order <= (#[trigger] s[j]).paint_order
}

/// The items of `s` with paint order `k`, in their order in `s`.
pub open spec fn with_paint_order(s: Seq<CompositorPlanningItem>, k: usize) -> Seq<CompositorPlanningItem>
    decreases s.len(),
{
    if s.len() == 0 {
        Seq::empty()
    } else if s.last().paint_order == k {
        with_paint_order(s.drop_last(), k).push(s.last())
    } else {
        with_paint_order(s.drop_last(), k)
    }
}

/// `out` is `items` sorted by paint order, items of equal order keeping
/// their relative order.
pub open spec fn is_paint_sort(out: Seq<CompositorPlanningItem>, items: Seq<CompositorPlanningItem>) -> bool {
    &&& paint_ordered(out)
    &&& forall|k: usize| #[trigger] with_paint_order(out, k) == with_paint_order(items, k)
}

/// The stable sort of `items` by paint order (there is exactly one).
pub open spec fn paint_sorted(items: Seq<CompositorPlanningItem>) -> Seq<CompositorPlanningItem> {
    choose|out: Seq<CompositorPlanningItem>| is_paint_sort(out, items)
}

/// An item's paint order has a non-empty group.
pub proof fn lemma_with_paint_order_has(s: Seq<CompositorPlanningItem>, i: int)
    requires
        0 <= i < s.len(),
    ensures
        with_paint_order(s, s[i].paint_order).len() > 0,
    decreases s.len(),
{
    if i < s.len() - 1 {
        lemma_with_paint_order_has(s.drop_last(), i);
        assert(s.drop_last()[i] == s[i]);
    }
}

/// A non-empty group comes from some item of that order.
pub proof fn lemma_with_paint_order_from(s: Seq<CompositorPlanningItem>, k: usize)
    requires
        with_paint_order(s, k).len() > 0,
    ensures
        exists|i: int| 0 <= i < s.len() && (#[trigger] s[i]).paint_order == k,
    decreases s.len(),
{
    if s.last().paint_order != k {
        lemma_with_paint_order_from(s.drop_last(), k);
        let i = choose|i: int| 0 <= i < s.drop_last().len() && (#[trigger] s.drop_last()[i]).paint_order == k;
        assert(s[i] == s.drop_last()[i]);
    } else {
        assert(s[s.len() - 1].paint_order == k);
    }
}

/// Two stable sorts of the same items are equal.
pub proof fn lemma_paint_sort_unique(a: Seq<CompositorPlanningItem>, b: Seq<CompositorPlanningItem>)
    requires
        paint_ordered(a),
        paint_ordered(b),
        forall|k: usize| #[trigger] with_paint_order(a, k) == with_paint_order(b, k),
    ensures
        a == b,
    decreases a.len(),
{
    if a.len() == 0 {
        if b.len() > 0 {
            lemma_with_paint_order_has(b, 0);
            assert(with_paint_order(a, b[0].paint_order) == with_paint_order(b, b[0].paint_order));
        }
        assert(a =~= b);
    } else {
        let ka = a.last().paint_order;
        lemma_with_paint_order_has(a, a.len() - 1);
        assert(with_paint_order(a, ka) == with_paint_order(b, ka));
        lemma_with_paint_order_from(b, ka);
        let ib = choose|i: int| 0 <= i < b.len() && (#[trigger] b[i]).paint_order == ka;
        let kb = b.last().paint_order;
        assert(b[ib].paint_order <= kb);
        lemma_with_paint_order_has(b, b.len() - 1);
        assert(with_paint_order(a, kb) == with_paint_order(b, kb));
        lemma_with_paint_order_from(a, kb);
        let ia = choose|i: int| 0 <= i < a.len() && (#[trigger] a[i]).paint_order == kb;
        assert(a[ia].paint_order <= ka);
        assert(ka == kb);
        assert(with_paint_order(a, ka).last() == a.last());
        assert(with_paint_order(b, ka).last() == b.last());
        let a2 = a.drop_last();
        let b2 = b.drop_last();
        assert forall|k: usize| #[trigger] with_paint_order(a2, k) == with_paint_order(b2, k) by {
            assert(with_paint_order(a, k) == with_paint_order(b, k));
            if k == ka {
                assert(with_paint_order(a2, k) =~= with_paint_order(a, k).drop_last());
                assert(with_paint_order(b2, k) =~= with_paint_order(b, k).drop_last());
            }
        }
        assert forall|i: int, j: int| 0 <= i < j < a2.len() implies (#[trigger] a2[i]).paint_order
            <= (#[trigger] a2[j]).paint_order by {
            assert(a2[i] == a[i] && a2[j] == a[j]);
        }
        assert forall|i: int, j: int| 0 <= i < j < b2.len() implies (#[trigger] b2[i]).paint_order
            <= (#[trigger] b2[j]).paint_order by {
            assert(b2[i] == b[i] && b2[j] == b[j]);
        }
        lemma_paint_sort_unique(a2, b2);
        assert(a =~= a2.push(a.last()));
        assert(b =~= b2.push(b.last()));
    }
}

/// Inserting `x` after every item of order at most its own, and before the
/// others, keeps a sorted list sorted and adds `x` last to its group.
pub proof fn lemma_paint_insert(s: Seq<CompositorPlanningItem>, p: int, x: CompositorPlanningItem)
    requires
        paint_ordered(s),
        0 <= p <= s.len(),
        forall|i: int| 0 <= i < p ==> (#[trigger] s[i]).paint_order <= x.paint_order,
        forall|i: int| p <= i < s.len() ==> (#[trigger] s[i]).paint_order > x.paint_order,
    ensures
        paint_ordered(s.insert(p, x)),
        forall|k: usize|
            #[trigger] with_paint_order(s.insert(p, x), k) == if k == x.paint_order {
                with_paint_order(s, k).push(x)
            } else {
                with_paint_order(s, k)
            },
    decreases s.len() - p,
{
    let q = s.insert(p, x);
    assert forall|i: int, j: int| 0 <= i < j < q.len() implies (#[trigger] q[i]).paint_order
        <= (#[trigger] q[j]).paint_order by {
        if i < p && j > p {
            assert(q[j] == s[j - 1]);
        } else if i > p {
            assert(q[i] == s[i - 1] && q[j] == s[j - 1]);
        } else if j < p {
            assert(q[i] == s[i] && q[j] == s[j]);
        }
    }
    if p == s.len() {
        assert(q =~= s.push(x));
        assert(q.drop_last() =~= s);
    } else {
        let s2 = s.drop_last();
        assert forall|i: int, j: int| 0 <= i < j < s2.len() implies (#[trigger] s2[i]).paint_order
            <= (#[trigger] s2[j]).paint_order by {
            assert(s2[i] == s[i] && s2[j] == s[j]);
        }
        lemma_paint_insert(s2, p, x);
        assert(q.drop_last() =~= s2.insert(p, x));
        assert(q.last() == s.last());
        assert(s[s.len() - 1].paint_order > x.paint_order);
        assert forall|k: usize|
            #[trigger] with_paint_order(q, k) == if k == x.paint_order {
                with_paint_order(s, k).push(x)
            } else {
                with_paint_order(s, k)
            } by {
            assert(with_paint_order(s2.insert(p, x), k) == if k == x.paint_order {
                with_paint_order(s2, k).push(x)
            } else {
                with_paint_order(s2, k)
            });
            if k == x.paint_order {
                assert(s.last().paint_order != k);
            }
        }
    }
}

/// The items sorted by paint order, items of equal order keeping their order.
pub fn sort_items_by_paint_order(items: &Vec<CompositorPlanningItem>) -> (out: Vec<CompositorPlanningItem>)
    ensures
        is_paint_sort(out@, items@),
        out@ == paint_sorted(items@),
{
    let mut out: Vec<CompositorPlanningItem> = Vec::new();
    let mut i: usize = 0;
    while i < items.len()
        invariant
            0 <= i <= items@.len(),
            is_paint_sort(out@, items@.take(i as int)),
        decreases items@.len() - i,
    {
        let x = items[i];
        let mut p: usize = out.len();
        while p > 0 && out[p - 1].paint_order > x.paint_order
            invariant
                0 <= p <= out@.len(),
                paint_ordered(out@),
                forall|j: int| p <= j < out@.len() ==> (#[trigger] out@[j]).paint_order > x.paint_order,
            decreases p,
        {
            p = p - 1;
        }
        proof {
            assert forall|j: int| 0 <= j < p implies (#[trigger] out@[j]).paint_order <= x.paint_order by {
                if p > 0 {
                    assert(out@[p - 1].paint_order <= x.paint_order);
                    assert(out@[j].paint_order <= out@[p - 1].paint_order);
                }
            }
            lemma_paint_insert(out@, p as int, x);
            let t = items@.take(i + 1);
            assert(t.drop_last() =~= items@.take(i as int));
            assert(t.last() == x);
            assert forall|k: usize| #[trigger] with_paint_order(out@.insert(p as int, x), k) == with_paint_order(t, k) by {
                assert(with_paint_order(out@, k) == with_paint_order(items@.take(i as int), k));
            }
        }
        out.insert(p, x);
        i = i + 1;
    }
    proof {
        assert(items@.take(items@.len() as int) =~= items@);
        let c = paint_sorted(items@);
        assert(is_paint_sort(c, items@));
        lemma_paint_sort_unique(out@, c);
    }
    out
}

/// A stacking context as the planner sees it: its parent context (none: the
/// root), paint order, blend mode, whether it needs an offscreen pass, and
/// its visual parameters `V`.
#[derive(Debug, Clone)]
pub struct CompositorPlanningContext<V> {
    pub parent_context_index: Option<usize>,
    pub paint_order: usize,
    pub blend_mode: CompositorBlendMode,
    pub needs_offscreen: bool,
    pub visual: V,
}

/// The parent of context `c`; an index with no context has none.
pub open spec fn parent_of<V>(contexts: Seq<CompositorPlanningContext<V>>, c: usize) -> Option<usize> {
    if c < contexts.len() {
        contexts[c as int].parent_context_index
    } else {
        None
    }
}

/// Context `c` and its ancestors, nearest first, following at most `fuel`
/// parent links.
pub open spec fn chain<V>(contexts: Seq<CompositorPlanningContext<V>>, c: usize, fuel: nat) -> Seq<usize>
    decreases fuel,
{
    match parent_of(contexts, c) {
        Some(p) => if fuel > 0 {
            seq![c] + chain(contexts, p, (fuel - 1) as nat)
        } else {
            seq![c]
        },
        None => seq![c],
    }
}

/// The ancestor chain of `c` reaches a context without parent within as
/// many links as there are contexts.
pub open spec fn chain_ends<V>(contexts: Seq<CompositorPlanningContext<V>>, c: usize) -> bool {
    parent_of(contexts, chain(contexts, c, contexts.len()).last()) is None
}

/// No context is its own ancestor.
pub open spec fn contexts_acyclic<V>(contexts: Seq<CompositorPlanningContext<V>>) -> bool {
    forall|c: usize| c < contexts.len() ==> #[trigger] chain_ends(contexts, c)
}

/// The full ancestor chain of `c`.
pub open spec fn ancestry<V>(contexts: Seq<CompositorPlanningContext<V>>, c: usize) -> Seq<usize> {
    chain(contexts, c, contexts.len())
}

/// Where `x` first occurs in `s` (-1: nowhere).
pub open spec fn first_index(s: Seq<usize>, x: usize) -> int {
    if exists|i: int| 0 <= i < s.len() && s[i] == x {
        choose|i: int| 0 <= i < s.len() && s[i] == x && forall|j: int| 0 <= j < i ==> s[j] != x
    } else {
        -1
    }
}

/// The context directly under scope `scope` on the way from the root down
/// to context `c`: for the root scope, the outermost ancestor of `c`; for
/// scope `p`, the context after `p` on that path, if `p` is on it.
pub open spec fn immediate_child<V>(
    contexts: Seq<CompositorPlanningContext<V>>,
    scope: Option<usize>,
    c: usize,
) -> Option<usize> {
    let path = ancestry(contexts, c).reverse();
    match scope {
        None => Some(path[0]),
        Some(p) => {
            let i = first_index(path, p);
            if 0 <= i && i + 1 < path.len() {
                Some(path[i + 1])
            } else {
                None
            }
        },
    }
}

/// One more link when the chain's end has a parent.
pub proof fn lemma_chain_step<V>(contexts: Seq<CompositorPlanningContext<V>>, c: usize, k: nat)
    requires
        parent_of(contexts, chain(contexts, c, k).last()) is Some,
    ensures
        chain(contexts, c, k + 1) == chain(contexts, c, k).push(
            parent_of(contexts, chain(contexts, c, k).last())->0,
        ),
    decreases k,
{
    if k > 0 {
        match parent_of(contexts, c) {
            Some(p) => {
                lemma_chain_step(contexts, p, (k - 1) as nat);
                assert(chain(contexts, c, k).last() == chain(contexts, p, (k - 1) as nat).last());
                assert(chain(contexts, c, k + 1) =~= chain(contexts, c, k).push(
                    parent_of(contexts, chain(contexts, c, k).last())->0,
                ));
            },
            None => {},
        }
    } else {
        match parent_of(contexts, c) {
            Some(p) => {
                assert(chain(contexts, p, 0) == seq![p]);
                assert(chain(contexts, c, 1) =~= seq![c, p]);
            },
            None => {},
        }
    }
}

/// A chain whose end has no parent does not grow with more fuel.
pub proof fn lemma_chain_stable<V>(contexts: Seq<CompositorPlanningContext<V>>, c: usize, k: nat, m: nat)
    requires
        parent_of(contexts, chain(contexts, c, k).last()) is None,
        k <= m,
    ensures
        chain(contexts, c, m) == chain(contexts, c, k),
    decreases k,
{
    match parent_of(contexts, c) {
        Some(p) => {
            if k > 0 {
                assert(chain(contexts, c, k).last() == chain(contexts, p, (k - 1) as nat).last());
                lemma_chain_stable(contexts, p, (k - 1) as nat, (m - 1) as nat);
            }
        },
        None => {},
    }
}

/// The context under `scope` on the way to context `current`.
pub fn immediate_child_context<V>(
    parent_context_index: Option<usize>,
    current: usize,
    contexts: &Vec<CompositorPlanningContext<V>>,
) -> (r: Option<usize>)
    requires
        contexts_acyclic(contexts@),
    ensures
        r == immediate_child(contexts@, parent_context_index, current),
{
    let ghost cs = contexts@;
    let mut path: Vec<usize> = Vec::new();
    path.push(current);
    let mut cur = current;
    let ghost mut k: nat = 0;
    proof {
        assert(path@ =~= chain(cs, current, 0));
    }
    loop
        invariant
            cs == contexts@,
            contexts_acyclic(cs),
            k <= cs.len(),
            path@ == chain(cs, current, k),
            cur == path@.last(),
        ensures
            path@ == chain(cs, current, k),
            k <= cs.len(),
            parent_of(cs, path@.last()) is None,
        decreases cs.len() - k,
    {
        let next = if cur < contexts.len() {
            contexts[cur].parent_context_index
        } else {
            None
        };
        match next {
            None => {
                break;
            },
            Some(p) => {
                proof {
                    lemma_chain_step(cs, current, k);
                    if k == cs.len() {
                        if current < cs.len() {
                            assert(chain_ends(cs, current));
                        }
                    }
                }
                path.push(p);
                cur = p;
                proof {
                    k = k + 1;
                }
            },
        }
    }
    proof {
        lemma_chain_stable(cs, current, k, cs.len());
    }
    let n = path.len();
    let mut rev: Vec<usize> = Vec::new();
    let mut t: usize = 0;
    while t < n
        invariant
            0 <= t <= n,
            n == path@.len(),
            rev@ == path@.reverse().take(t as int),
        decreases n - t,
    {
        rev.push(path[n - 1 - t]);
        proof {
            assert(rev@ =~= path@.reverse().take(t + 1));
        }
        t = t + 1;
    }
    proof {
        assert(rev@ =~= path@.reverse());
        assert(path@ == ancestry(cs, current));
    }
    match parent_context_index {
        None => Some(rev[0]),
        Some(p) => {
            let mut j: usize = 0;
            while j < n && rev[j] != p
                invariant
                    0 <= j <= n,
                    n == rev@.len(),
                    forall|i: int| 0 <= i < j ==> rev@[i] != p,
                decreases n - j,
            {
                j = j + 1;
            }
            proof {
                let r = rev@;
                if j < n {
                    assert(r[j as int] == p);
                    let c = first_index(r, p);
                    assert(0 <= c < r.len() && r[c] == p && forall|i: int| 0 <= i < c ==> r[i] != p);
                    if c < j {
                        assert(r[c] != p);
                    }
                    if j < c {
                        assert(r[j as int] != p);
                    }
                    assert(c == j);
                } else {
                    assert(!(exists|i: int| 0 <= i < r.len() && r[i] == p));
                }
            }
            if j < n && j + 1 < n {
                Some(rev[j + 1])
            } else {
                None
            }
        },
    }
}

/// What an item contributes to a layer's paint scope.
#[derive(Debug, Clone, Copy, PartialEq, Eq, Structural)]
pub enum ScopeEntryKind {
    Skip,
    DirectItem,
    ChildContext(usize),
}

/// How an item painting into `item_context` shows in the scope of
/// `scope`: painted directly when it paints into that very scope, through
/// the child context on its way up otherwise, or not at all.
pub open spec fn scope_kind<V>(
    contexts: Seq<CompositorPlanningContext<V>>,
    scope: Option<usize>,
    item_context: Option<usize>,
) -> ScopeEntryKind {
    match item_context {
        None => if scope is None {
            ScopeEntryKind::DirectItem
        } else {
            ScopeEntryKind::Skip
        },
        Some(c) => if scope == Some(c) {
            ScopeEntryKind::DirectItem
        } else {
            match immediate_child(contexts, scope, c) {
                Some(x) => ScopeEntryKind::ChildContext(x),
                None => ScopeEntryKind::Skip,
            }
        },
    }
}

/// The id of the layer of stacking context `c`.
pub open spec fn context_layer_id(c: usize) -> CompositorLayerId {
    CompositorLayerId((c + 1) as u32)
}

/// The scope entries of `scope` over `items` in order, with the child
/// contexts already entered: each directly painted item, and each child
/// context at its first item.
pub open spec fn scope_fold<V>(
    contexts: Seq<CompositorPlanningContext<V>>,
    scope: Option<usize>,
    items: Seq<CompositorPlanningItem>,
) -> (Seq<CompositorScopeEntry>, Set<usize>)
    decreases items.len(),
{
    if items.len() == 0 {
        (Seq::empty(), Set::empty())
    } else {
        let prev = scope_fold(contexts, scope, items.drop_last());
        let item = items.last();
        match scope_kind(contexts, scope, item.stacking_context_index) {
            ScopeEntryKind::Skip => prev,
            ScopeEntryKind::DirectItem => (prev.0.push(CompositorScopeEntry::DirectItem(item.item_index)), prev.1),
            ScopeEntryKind::ChildContext(c) => if prev.1.contains(c) {
                prev
            } else {
                (prev.0.push(CompositorScopeEntry::ChildLayer(context_layer_id(c))), prev.1.insert(c))
            },
        }
    }
}

/// The scope entries of `scope` over `items`.
pub open spec fn scope_entries<V>(
    contexts: Seq<CompositorPlanningContext<V>>,
    scope: Option<usize>,
    items: Seq<CompositorPlanningItem>,
) -> Seq<CompositorScopeEntry> {
    scope_fold(contexts, scope, items).0
}

/// Every context index that can occur on an ancestor path fits one more.
pub open spec fn indices_bounded<V>(
    items: Seq<CompositorPlanningItem>,
    contexts: Seq<CompositorPlanningContext<V>>,
) -> bool {
    &&& forall|i: int|
        0 <= i < items.len() && (#[trigger] items[i]).stacking_context_index is Some
            ==> items[i].stacking_context_index->0 < usize::MAX
    &&& forall|i: int|
        0 <= i < contexts.len() && (#[trigger] contexts[i]).parent_context_index is Some
            ==> contexts[i].parent_context_index->0 < usize::MAX
}

/// Every index on the chain from `c` is `c` itself or a context's parent.
pub proof fn lemma_chain_members<V>(contexts: Seq<CompositorPlanningContext<V>>, c: usize, k: nat)
    ensures
        forall|j: int|
            0 <= j < chain(contexts, c, k).len() ==> #[trigger] chain(contexts, c, k)[j] == c || exists|i: int|
                0 <= i < contexts.len() && contexts[i].parent_context_index == Some(chain(contexts, c, k)[j]),
    decreases k,
{
    match parent_of(contexts, c) {
        Some(p) => {
            if k > 0 {
                lemma_chain_members(contexts, p, (k - 1) as nat);
                let s = chain(contexts, p, (k - 1) as nat);
                assert forall|j: int| 0 <= j < chain(contexts, c, k).len() implies #[trigger] chain(
                    contexts,
                    c,
                    k,
                )[j] == c || exists|i: int|
                    0 <= i < contexts.len() && contexts[i].parent_context_index == Some(chain(contexts, c, k)[j]) by {
                    if j > 0 {
                        assert(chain(contexts, c, k)[j] == s[j - 1]);
                        if s[j - 1] == p {
                            assert(contexts[c as int].parent_context_index == Some(p));
                        }
                    }
                }
            }
        },
        None => {},
    }
}

/// The child context found for an item is small enough to name a layer.
pub proof fn lemma_immediate_child_bounded<V>(
    items: Seq<CompositorPlanningItem>,
    contexts: Seq<CompositorPlanningContext<V>>,
    scope: Option<usize>,
    c: usize,
)
    requires
        indices_bounded(items, contexts),
        c < usize::MAX,
        immediate_child(contexts, scope, c) is Some,
    ensures
        (immediate_child(contexts, scope, c)->0) < usize::MAX,
{
    let a = ancestry(contexts, c);
    lemma_chain_members(contexts, c, contexts.len());
    let r = a.reverse();
    let x = immediate_child(contexts, scope, c)->0;
    let j: int = match scope {
        None => 0,
        Some(p) => first_index(r, p) + 1,
    };
    if scope is Some {
        let p = scope->0;
        if exists|i: int| 0 <= i < r.len() && r[i] == p {
        }
    }
    assert(x == r[j]);
    assert(r[j] == a[a.len() - 1 - j]);
    assert(a[a.len() - 1 - j] == c || exists|i: int|
        0 <= i < contexts.len() && contexts[i].parent_context_index == Some(a[a.len() - 1 - j]));
    if a[a.len() - 1 - j] != c {
        let i = choose|i: int| 0 <= i < contexts.len() && contexts[i].parent_context_index == Some(a[a.len() - 1 - j]);
        assert(contexts[i].parent_context_index is Some);
    }
}

/// How an item painting into `item_context` shows in the scope of `scope`.
pub fn scope_entry_for_item<V>(
    scope_context_index: Option<usize>,
    item_context_index: Option<usize>,
    contexts: &Vec<CompositorPlanningContext<V>>,
) -> (kind: ScopeEntryKind)
    requires
        contexts_acyclic(contexts@),
    ensures
        kind == scope_kind(contexts@, scope_context_index, item_context_index),
{
    match item_context_index {
        None => match scope_context_index {
            None => ScopeEntryKind::DirectItem,
            Some(_) => ScopeEntryKind::Skip,
        },
        Some(current) => {
            let same = match scope_context_index {
                Some(parent) => parent == current,
                None => false,
            };
            if same {
                ScopeEntryKind::DirectItem
            } else {
                match immediate_child_context(scope_context_index, current, contexts) {
                    Some(child) => ScopeEntryKind::ChildContext(child),
                    None => ScopeEntryKind::Skip,
                }
            }
        },
    }
}

/// The paint scope of the layer for `scope`: its own items and its child
/// layers, in paint order.
pub fn build_scope_entries_for_layer<V>(
    scope_context_index: Option<usize>,
    items: &Vec<CompositorPlanningItem>,
    contexts: &Vec<CompositorPlanningContext<V>>,
) -> (entries: Vec<CompositorScopeEntry>)
    requires
        contexts_acyclic(contexts@),
        indices_bounded(items@, contexts@),
    ensures
        entries@ == scope_entries(contexts@, scope_context_index, items@),
{
    let mut seen: Vec<usize> = Vec::new();
    let mut entries: Vec<CompositorScopeEntry> = Vec::new();
    let mut i: usize = 0;
    while i < items.len()
        invariant
            0 <= i <= items@.len(),
            contexts_acyclic(contexts@),
            indices_bounded(items@, contexts@),
            entries@ == scope_fold(contexts@, scope_context_index, items@.take(i as int)).0,
            forall|c: usize|
                seen@.contains(c) <==> scope_fold(contexts@, scope_context_index, items@.take(i as int)).1.contains(c),
        decreases items@.len() - i,
    {
        proof {
            assert(items@.take(i + 1).drop_last() =~= items@.take(i as int));
            assert(items@.take(i + 1).last() == items@[i as int]);
        }
        let item = items[i];
        let ghost prev = scope_fold(contexts@, scope_context_index, items@.take(i as int));
        let ghost next = scope_fold(contexts@, scope_context_index, items@.take(i + 1));
        let kind = scope_entry_for_item(scope_context_index, item.stacking_context_index, contexts);
        proof {
            assert(next == match kind {
                ScopeEntryKind::Skip => prev,
                ScopeEntryKind::DirectItem => (prev.0.push(CompositorScopeEntry::DirectItem(item.item_index)), prev.1),
                ScopeEntryKind::ChildContext(c) => if prev.1.contains(c) {
                    prev
                } else {
                    (prev.0.push(CompositorScopeEntry::ChildLayer(context_layer_id(c))), prev.1.insert(c))
                },
            });
        }
        match kind {
            ScopeEntryKind::Skip => {},
            ScopeEntryKind::DirectItem => {
                entries.push(CompositorScopeEntry::DirectItem(item.item_index));
            },
            ScopeEntryKind::ChildContext(child) => {
                let mut k: usize = 0;
                let mut found = false;
                while k < seen.len()
                    invariant
                        0 <= k <= seen@.len(),
                        found <==> exists|j: int| 0 <= j < k && seen@[j] == child,
                    decreases seen@.len() - k,
                {
                    if seen[k] == child {
                        found = true;
                    }
                    k = k + 1;
                }
                proof {
                    assert(found <==> seen@.contains(child));
                }
                if !found {
                    proof {
                        lemma_immediate_child_bounded(
                            items@,
                            contexts@,
                            scope_context_index,
                            item.stacking_context_index->0,
                        );
                    }
                    let id = CompositorLayerId(#[verifier::truncate] ((child + 1) as u32));
                    entries.push(CompositorScopeEntry::ChildLayer(id));
                    let ghost old_seen = seen@;
                    seen.push(child);
                    proof {
                        assert forall|c: usize| seen@.contains(c) <==> next.1.contains(c) by {
                            if seen@.contains(c) && c != child {
                                let j = choose|j: int| 0 <= j < seen@.len() && seen@[j] == c;
                                assert(old_seen[j] == c);
                            }
                            if old_seen.contains(c) {
                                let j = choose|j: int| 0 <= j < old_seen.len() && old_seen[j] == c;
                                assert(seen@[j] == c);
                            }
                            if c == child {
                                assert(seen@[old_seen.len() as int] == c);
                            }
                        }
                    }
                }
            },
        }
        i = i + 1;
    }
    proof {
        assert(items@.take(items@.len() as int) =~= items@);
    }
    entries
}

/// The tile spans of the items painting into `scope` (none: the root), in order.
pub open spec fn layer_spans(items: Seq<CompositorPlanningItem>, scope: Option<usize>) -> Seq<Option<TileSpan>>
    decreases items.len(),
{
    if items.len() == 0 {
        Seq::empty()
    } else if items.last().stacking_context_index == scope {
        layer_spans(items.drop_last(), scope).push(items.last().tile_span)
    } else {
        layer_spans(items.drop_last(), scope)
    }
}

/// Whether one of `spans` covers tile `t` of `layout`, clamped to its last
/// column and row.
pub open spec fn covered_by(layout: TileLayout, spans: Seq<Option<TileSpan>>, t: TileId) -> bool {
    spans.len() > 0 && spans_cover(
        spans,
        spans.len() as int,
        sat_dec(layout.count_x() as u32),
        sat_dec(layout.count_y() as u32),
        t,
    )
}

/// The layer id a context names as its parent: its parent context's layer,
/// or the root's.
pub open spec fn layer_parent_id<V>(context: CompositorPlanningContext<V>) -> CompositorLayerId {
    match context.parent_context_index {
        Some(p) => context_layer_id(p),
        None => CompositorLayerId(0),
    }
}

/// The position of layer `m`'s parent among the layers, when it names one
/// that exists (`m` from 1: the context layers).
pub open spec fn parent_layer_index<V>(contexts: Seq<CompositorPlanningContext<V>>, m: int) -> Option<int> {
    let pid = layer_parent_id(contexts[m - 1]).0;
    if pid < contexts.len() + 1 {
        Some(pid as int)
    } else {
        None
    }
}

/// The children of layer `j` among layers 1 to `m - 1`, in layer order.
pub open spec fn children_upto<V>(contexts: Seq<CompositorPlanningContext<V>>, j: int, m: int) -> Seq<
    CompositorLayerId,
>
    decreases m,
{
    if m <= 1 {
        Seq::empty()
    } else if parent_layer_index(contexts, m - 1) == Some(j) {
        children_upto(contexts, j, m - 1).push(CompositorLayerId((m - 1) as u32))
    } else {
        children_upto(contexts, j, m - 1)
    }
}

/// The child layers of layer `j`, in layer order.
pub open spec fn child_layers_of<V>(contexts: Seq<CompositorPlanningContext<V>>, j: int) -> Seq<CompositorLayerId> {
    children_upto(contexts, j, (contexts.len() + 1) as int)
}

/// The descendants of layer `i`: each child, followed by the descendants of
/// that child when it comes after `i` in layer order. (Layers are finished
/// from the last to the first, so a child at or before `i` has none yet.)
pub open spec fn descendants<V>(contexts: Seq<CompositorPlanningContext<V>>, i: int) -> Seq<CompositorLayerId>
    decreases (contexts.len() + 1 - i) as nat, child_layers_of(contexts, i).len() + 1,
{
    if 0 <= i <= contexts.len() {
        descendants_of_kids(contexts, i, child_layers_of(contexts, i))
    } else {
        Seq::empty()
    }
}

/// The descendants of layer `i` through the children `kids`.
pub open spec fn descendants_of_kids<V>(
    contexts: Seq<CompositorPlanningContext<V>>,
    i: int,
    kids: Seq<CompositorLayerId>,
) -> Seq<CompositorLayerId>
    decreases (contexts.len() + 1 - i) as nat, kids.len(),
{
    if kids.len() == 0 || !(0 <= i <= contexts.len()) {
        Seq::empty()
    } else {
        let c = kids.last();
        let below = if i < c.0 && c.0 <= contexts.len() {
            descendants(contexts, c.0 as int)
        } else {
            Seq::empty()
        };
        descendants_of_kids(contexts, i, kids.drop_last()).push(c) + below
    }
}

/// Every child of a layer is a context layer that exists.
pub proof fn lemma_children_in_range<V>(contexts: Seq<CompositorPlanningContext<V>>, j: int, m: int)
    requires
        m <= contexts.len() + 1,
        contexts.len() + 1 < u32::MAX,
    ensures
        forall|k: int|
            0 <= k < children_upto(contexts, j, m).len() ==> 1 <= (#[trigger] children_upto(contexts, j, m)[k]).0
                < m,
    decreases m,
{
    if m > 1 {
        lemma_children_in_range(contexts, j, m - 1);
        let prev = children_upto(contexts, j, m - 1);
        assert(((m - 1) as u32) as int == m - 1);
        assert forall|k: int|
            0 <= k < children_upto(contexts, j, m).len() implies 1 <= (#[trigger] children_upto(contexts, j, m)[k]).0
                < m by {
            if k < prev.len() {
                assert(children_upto(contexts, j, m)[k] == prev[k]);
            }
        }
    }
}

/// Whether `layer` is layer `m` of the tree planned from the sorted items
/// and the contexts: its ids, scope, children, descendants, paint scope,
/// item count and tiles, and its context's parameters (the root's for
/// layer 0).
pub open spec fn layer_planned<V: Clone>(
    layer: CompositorLayer<V>,
    m: int,
    sorted: Seq<CompositorPlanningItem>,
    contexts: Seq<CompositorPlanningContext<V>>,
    layout: TileLayout,
    root_visual: V,
) -> bool {
    let scope: Option<usize> = if m == 0 {
        None
    } else {
        Some((m - 1) as usize)
    };
    let spans = layer_spans(sorted, scope);
    &&& layer.layer_id == CompositorLayerId(m as u32)
    &&& layer.stacking_context_index == scope
    &&& layer.child_layers@ == child_layers_of(contexts, m)
    &&& layer.descendant_layers@ == descendants(contexts, m)
    &&& layer.scope_entries@ == scope_entries(contexts, scope, sorted)
    &&& layer.item_count == spans.len()
    &&& tiles_sorted(layer.tile_ids@)
    &&& forall|t: TileId| layer.tile_ids@.contains(t) <==> covered_by(layout, spans, t)
    &&& if m == 0 {
        &&& layer.parent is None
        &&& layer.paint_order == 0
        &&& layer.blend_mode == CompositorBlendMode::Normal
        &&& !layer.needs_offscreen
        &&& layer.visual == root_visual
    } else {
        let context = contexts[m - 1];
        &&& layer.parent == Some(layer_parent_id(context))
        &&& layer.paint_order == context.paint_order
        &&& layer.blend_mode == context.blend_mode
        &&& layer.needs_offscreen == context.needs_offscreen
        &&& cloned(context.visual, layer.visual)
    }
}

/// The tile spans of the items painting into `scope`.
fn layer_spans_for(items: &Vec<CompositorPlanningItem>, scope: Option<usize>) -> (spans: Vec<Option<TileSpan>>)
    ensures
        spans@ == layer_spans(items@, scope),
{
    let mut spans: Vec<Option<TileSpan>> = Vec::new();
    let mut i: usize = 0;
    while i < items.len()
        invariant
            0 <= i <= items@.len(),
            spans@ == layer_spans(items@.take(i as int), scope),
        decreases items@.len() - i,
    {
        proof {
            assert(items@.take(i + 1).drop_last() =~= items@.take(i as int));
        }
        let item = items[i];
        if item.stacking_context_index == scope {
            spans.push(item.tile_span);
        }
        i = i + 1;
    }
    proof {
        assert(items@.take(items@.len() as int) =~= items@);
    }
    spans
}

/// The tiles the spans cover, in tile order.
fn layer_tiles_for(layout: &TileLayout, spans: Vec<Option<TileSpan>>) -> (tiles: Vec<TileId>)
    requires
        layout.wf(),
    ensures
        tiles_sorted(tiles@),
        forall|t: TileId| tiles@.contains(t) <==> covered_by(*layout, spans@, t),
{
    let ghost sp = spans@;
    let damage = DamageRegion::from_rects(spans);
    let tiles = layout.tiles_for_damage(&damage);
    proof {
        if sp.len() == 0 {
            assert forall|i: int, j: int| 0 <= i < j < tiles@.len() implies crate::tile::tile_lt(
                #[trigger] tiles@[i],
                #[trigger] tiles@[j],
            ) by {}
        }
    }
    tiles
}

/// The layer id a context names as its parent.
fn parent_id_for<V>(context: &CompositorPlanningContext<V>) -> (id: CompositorLayerId)
    requires
        context.parent_context_index is Some ==> context.parent_context_index->0 < usize::MAX,
    ensures
        id == layer_parent_id(*context),
{
    match context.parent_context_index {
        Some(p) => CompositorLayerId(#[verifier::truncate] ((p + 1) as u32)),
        None => CompositorLayerId(0),
    }
}

/// The child layers of layer `j`.
fn child_layers_for<V>(contexts: &Vec<CompositorPlanningContext<V>>, j: usize) -> (kids: Vec<CompositorLayerId>)
    requires
        contexts@.len() + 1 < u32::MAX,
        forall|i: int|
            0 <= i < contexts@.len() && (#[trigger] contexts@[i]).parent_context_index is Some
                ==> contexts@[i].parent_context_index->0 < usize::MAX,
    ensures
        kids@ == child_layers_of(contexts@, j as int),
{
    let n = contexts.len() + 1;
    let mut kids: Vec<CompositorLayerId> = Vec::new();
    let mut m: usize = 1;
    while m < n
        invariant
            1 <= m <= n,
            n == contexts@.len() + 1,
            n < u32::MAX,
            kids@ == children_upto(contexts@, j as int, m as int),
            forall|i: int|
                0 <= i < contexts@.len() && (#[trigger] contexts@[i]).parent_context_index is Some
                    ==> contexts@[i].parent_context_index->0 < usize::MAX,
        decreases n - m,
    {
        let pid = parent_id_for(&contexts[m - 1]);
        if (pid.0 as usize) < n && pid.0 as usize == j {
            kids.push(CompositorLayerId(m as u32));
        }
        m = m + 1;
    }
    kids
}

/// Builds the layer tree: the root layer for the items outside every
/// stacking context, then one layer per context, each with its children,
/// descendants, paint scope, item count and tiles.
pub fn build_layer_tree<V: Clone>(
    sorted: &Vec<CompositorPlanningItem>,
    contexts: &Vec<CompositorPlanningContext<V>>,
    layout: &TileLayout,
    root_visual: V,
) -> (tree: CompositorLayerTree<V>)
    requires
        layout.wf(),
        contexts_acyclic(contexts@),
        indices_bounded(sorted@, contexts@),
        contexts@.len() + 1 < u32::MAX,
    ensures
        tree.layers@.len() == contexts@.len() + 1,
        forall|m: int|
            0 <= m < tree.layers@.len() ==> layer_planned(
                #[trigger] tree.layers@[m],
                m,
                sorted@,
                contexts@,
                *layout,
                root_visual,
            ),
{
    let n = contexts.len() + 1;
    let mut children: Vec<Vec<CompositorLayerId>> = Vec::new();
    let mut j: usize = 0;
    while j < n
        invariant
            0 <= j <= n,
            n == contexts@.len() + 1,
            n < u32::MAX,
            indices_bounded(sorted@, contexts@),
            children@.len() == j,
            forall|k: int| 0 <= k < j ==> (#[trigger] children@[k])@ == child_layers_of(contexts@, k),
        decreases n - j,
    {
        let kids = child_layers_for(contexts, j);
        children.push(kids);
        j = j + 1;
    }
    let mut desc: Vec<Vec<CompositorLayerId>> = Vec::new();
    let mut z: usize = 0;
    while z < n
        invariant
            0 <= z <= n,
            desc@.len() == z,
            forall|k: int| 0 <= k < z ==> (#[trigger] desc@[k])@.len() == 0,
        decreases n - z,
    {
        desc.push(Vec::new());
        z = z + 1;
    }
    let mut i: usize = n;
    while i > 0
        invariant
            0 <= i <= n,
            n == contexts@.len() + 1,
            n < u32::MAX,
            children@.len() == n,
            forall|k: int| 0 <= k < n ==> (#[trigger] children@[k])@ == child_layers_of(contexts@, k),
            desc@.len() == n,
            forall|k: int| i <= k < n ==> (#[trigger] desc@[k])@ == descendants(contexts@, k),
            forall|k: int| 0 <= k < i ==> (#[trigger] desc@[k])@.len() == 0,
        decreases i,
    {
        i = i - 1;
        let kids = &children[i];
        proof {
            lemma_children_in_range(contexts@, i as int, n as int);
        }
        let mut acc: Vec<CompositorLayerId> = Vec::new();
        let mut k: usize = 0;
        while k < kids.len()
            invariant
                0 <= k <= kids@.len(),
                0 <= i < n,
                n == contexts@.len() + 1,
                kids@ == child_layers_of(contexts@, i as int),
                forall|q: int| 0 <= q < kids@.len() ==> 1 <= (#[trigger] kids@[q]).0 < n,
                desc@.len() == n,
                forall|q: int| i < q < n ==> (#[trigger] desc@[q])@ == descendants(contexts@, q),
                forall|q: int| 0 <= q <= i ==> (#[trigger] desc@[q])@.len() == 0,
                acc@ == descendants_of_kids(contexts@, i as int, kids@.take(k as int)),
            decreases kids@.len() - k,
        {
            proof {
                assert(kids@.take(k + 1).drop_last() =~= kids@.take(k as int));
                assert(kids@.take(k + 1).last() == kids@[k as int]);
            }
            let c = kids[k];
            let ci = c.0 as usize;
            let ghost before = acc@;
            acc.push(c);
            let sub = &desc[ci];
            let mut q: usize = 0;
            while q < sub.len()
                invariant
                    0 <= q <= sub@.len(),
                    acc@ == before.push(c) + sub@.take(q as int),
                decreases sub@.len() - q,
            {
                acc.push(sub[q]);
                proof {
                    assert(sub@.take(q + 1) =~= sub@.take(q as int).push(sub@[q as int]));
                    assert(acc@ =~= before.push(c) + sub@.take(q + 1));
                }
                q = q + 1;
            }
            proof {
                assert(sub@.take(sub@.len() as int) =~= sub@);
                if ci as int <= i {
                    assert(sub@.len() == 0);
                    assert(sub@ =~= Seq::<CompositorLayerId>::empty());
                }
            }
            k = k + 1;
        }
        proof {
            assert(kids@.take(kids@.len() as int) =~= kids@);
        }
        desc.set(i, acc);
    }
    let mut layers: Vec<CompositorLayer<V>> = Vec::new();
    let root_spans = layer_spans_for(sorted, None);
    let root_count = root_spans.len();
    let root_tiles = layer_tiles_for(layout, root_spans);
    layers.push(
        CompositorLayer {
            layer_id: CompositorLayerId(0),
            parent: None,
            child_layers: crate::composite::copy_layer_ids(&children[0]),
            descendant_layers: crate::composite::copy_layer_ids(&desc[0]),
            scope_entries: build_scope_entries_for_layer(None, sorted, contexts),
            stacking_context_index: None,
            paint_order: 0,
            blend_mode: CompositorBlendMode::Normal,
            needs_offscreen: false,
            item_count: root_count,
            tile_ids: root_tiles,
            visual: root_visual,
        },
    );
    let mut c: usize = 0;
    while c < contexts.len()
        invariant
            0 <= c <= contexts@.len(),
            n == contexts@.len() + 1,
            n < u32::MAX,
            layout.wf(),
            contexts_acyclic(contexts@),
            indices_bounded(sorted@, contexts@),
            children@.len() == n,
            forall|k: int| 0 <= k < n ==> (#[trigger] children@[k])@ == child_layers_of(contexts@, k),
            desc@.len() == n,
            forall|k: int| 0 <= k < n ==> (#[trigger] desc@[k])@ == descendants(contexts@, k),
            layers@.len() == c + 1,
            forall|m: int|
                0 <= m < layers@.len() ==> layer_planned(
                    #[trigger] layers@[m],
                    m,
                    sorted@,
                    contexts@,
                    *layout,
                    root_visual,
                ),
        decreases contexts@.len() - c,
    {
        let context = &contexts[c];
        let spans = layer_spans_for(sorted, Some(c));
        let count = spans.len();
        let tiles = layer_tiles_for(layout, spans);
        let parent = parent_id_for(context);
        let layer = CompositorLayer {
            layer_id: CompositorLayerId((c + 1) as u32),
            parent: Some(parent),
            child_layers: crate::composite::copy_layer_ids(&children[c + 1]),
            descendant_layers: crate::composite::copy_layer_ids(&desc[c + 1]),
            scope_entries: build_scope_entries_for_layer(Some(c), sorted, contexts),
            stacking_context_index: Some(c),
            paint_order: context.paint_order,
            blend_mode: context.blend_mode,
            needs_offscreen: context.needs_offscreen,
            item_count: count,
            tile_ids: tiles,
            visual: context.visual.clone(),
        };
        proof {
            assert(((c + 1) as int - 1) as usize == c);
        }
        layers.push(layer);
        c = c + 1;
    }
    CompositorLayerTree { layers }
}

/// The composite tiles of a layer: each of its tiles that has a slot in
/// `cache`, in order, with the slot's surface.
pub open spec fn step_tiles(cache: TileCache, tile_ids: Seq<TileId>) -> Seq<CompositeTileRef>
    decreases tile_ids.len(),
{
    if tile_ids.len() == 0 {
        Seq::empty()
    } else {
        let prev = step_tiles(cache, tile_ids.drop_last());
        let t = tile_ids.last();
        if cache.has_slot(t) {
            prev.push(CompositeTileRef { tile_id: t, content_handle: cache.slot(t).handle })
        } else {
            prev
        }
    }
}

/// Whether `step` composites `layer` with the surfaces of `cache`.
pub open spec fn step_planned<V: Clone>(step: CompositeLayerPass<V>, layer: CompositorLayer<V>, cache: TileCache) -> bool {
    &&& step.layer_id == layer.layer_id
    &&& step.parent == layer.parent
    &&& step.descendant_layers@ == layer.descendant_layers@
    &&& step.tiles@ == step_tiles(cache, layer.tile_ids@)
    &&& step.paint_order == layer.paint_order
    &&& step.needs_offscreen == layer.needs_offscreen
    &&& step.blend_mode == layer.blend_mode
    &&& cloned(layer.visual, step.visual)
}

/// The composite pass of a layer tree: one step per layer, with the layer's
/// tiles that have a surface in `cache`.
pub fn build_composite_pass<V: Clone>(
    layer_tree: &CompositorLayerTree<V>,
    full_present: bool,
    cache: &TileCache,
) -> (pass: CompositePass<V>)
    requires
        cache.wf(),
    ensures
        pass.full_present == full_present,
        pass.steps@.len() == layer_tree.layers@.len(),
        forall|m: int|
            0 <= m < pass.steps@.len() ==> step_planned(#[trigger] pass.steps@[m], layer_tree.layers@[m], *cache),
{
    let mut steps: Vec<CompositeLayerPass<V>> = Vec::new();
    let mut m: usize = 0;
    while m < layer_tree.layers.len()
        invariant
            0 <= m <= layer_tree.layers@.len(),
            cache.wf(),
            steps@.len() == m,
            forall|k: int| 0 <= k < m ==> step_planned(#[trigger] steps@[k], layer_tree.layers@[k], *cache),
        decreases layer_tree.layers@.len() - m,
    {
        let layer = &layer_tree.layers[m];
        let mut tiles: Vec<CompositeTileRef> = Vec::new();
        let mut t: usize = 0;
        while t < layer.tile_ids.len()
            invariant
                0 <= t <= layer.tile_ids@.len(),
                cache.wf(),
                tiles@ == step_tiles(*cache, layer.tile_ids@.take(t as int)),
            decreases layer.tile_ids@.len() - t,
        {
            proof {
                assert(layer.tile_ids@.take(t + 1).drop_last() =~= layer.tile_ids@.take(t as int));
            }
            let tile_id = layer.tile_ids[t];
            match cache.content_handle(tile_id) {
                Some(content_handle) => {
                    tiles.push(CompositeTileRef { tile_id, content_handle });
                },
                None => {},
            }
            t = t + 1;
        }
        proof {
            assert(layer.tile_ids@.take(layer.tile_ids@.len() as int) =~= layer.tile_ids@);
        }
        steps.push(
            CompositeLayerPass {
                layer_id: layer.layer_id,
                parent: layer.parent,
                descendant_layers: crate::composite::copy_layer_ids(&layer.descendant_layers),
                tiles,
                paint_order: layer.paint_order,
                needs_offscreen: layer.needs_offscreen,
                blend_mode: layer.blend_mode,
                visual: layer.visual.clone(),
            },
        );
        m = m + 1;
    }
    CompositePass { steps, full_present }
}

/// Plans compositor frames: the tiles to raster, the layer tree and the
/// composite pass.
#[derive(Debug, Default, Clone, Copy, PartialEq, Eq, Structural)]
pub struct CompositorPlanner;

impl CompositorPlanner {
    pub fn new() -> (planner: Self) {
        CompositorPlanner
    }

    /// Plans a frame of `layout` under `damage`: the tile cache prepares the
    /// frame's tiles; the items, sorted by paint order, and the stacking
    /// contexts give the layer tree; the tree and the cache's surfaces give
    /// the composite pass, presented in full when the whole viewport is
    /// damaged.
    pub fn plan<V: Clone>(
        &self,
        items: &Vec<CompositorPlanningItem>,
        contexts: &Vec<CompositorPlanningContext<V>>,
        root_visual: V,
        layout: &TileLayout,
        tile_cache: &mut TileCache,
        damage: &DamageRegion<Option<TileSpan>>,
    ) -> (submission: CompositorSubmission<V>)
        requires
            old(tile_cache).wf(),
            layout.wf(),
            old(tile_cache).frame_headroom(*layout),
            contexts_acyclic(contexts@),
            indices_bounded(items@, contexts@),
            contexts@.len() + 1 < u32::MAX,
        ensures
            final(tile_cache).wf(),
            final(tile_cache).generation() == old(tile_cache).generation() + 1,
            old(tile_cache).plans(*layout, *damage, submission.tile_plan),
            final(tile_cache).frame_slots(
                *old(tile_cache),
                *layout,
                old(tile_cache).is_full_rebuild(*layout, *damage),
                submission.tile_plan.dirty_tiles@,
            ),
            submission.raster_batch.tiles@ == raster_of(
                submission.tile_plan.dirty_tiles@,
                *layout,
                final(tile_cache).slots(),
            ),
            submission.raster_batch.full_raster == (damage is Full || submission.tile_plan.stats.reraster_tile_count
                == submission.tile_plan.stats.total_tile_count),
            final(tile_cache).byte_count() <= MAX_REUSABLE_BYTE_COUNT,
            final(tile_cache).released() == old(tile_cache).released() + final(tile_cache).evicted(),
            final(tile_cache).cached_grid() == Some(layout.key),
            final(tile_cache).cached_tiles() == layout.spec_all_tiles(),
            final(tile_cache).stats().budget_eviction_count + final(tile_cache).stats().age_eviction_count
                + final(tile_cache).stats().descriptor_limit_eviction_count == final(tile_cache).evicted().len(),
            frame_grants(*old(tile_cache), *final(tile_cache)),
            frame_exact(
                *old(tile_cache),
                *final(tile_cache),
                *layout,
                old(tile_cache).is_full_rebuild(*layout, *damage),
                submission.tile_plan.dirty_tiles@,
            ),
            !old(tile_cache).is_full_rebuild(*layout, *damage) ==> kept_surfaces(
                *old(tile_cache),
                *final(tile_cache),
                submission.tile_plan.dirty_tiles@,
                *layout,
            ),
            submission.layer_tree.layers@.len() == contexts@.len() + 1,
            forall|m: int|
                0 <= m < submission.layer_tree.layers@.len() ==> layer_planned(
                    #[trigger] submission.layer_tree.layers@[m],
                    m,
                    paint_sorted(items@),
                    contexts@,
                    *layout,
                    root_visual,
                ),
            submission.composite_pass.full_present == (damage is Full),
            submission.composite_pass.steps@.len() == submission.layer_tree.layers@.len(),
            forall|m: int|
                0 <= m < submission.composite_pass.steps@.len() ==> step_planned(
                    #[trigger] submission.composite_pass.steps@[m],
                    submission.layer_tree.layers@[m],
                    *final(tile_cache),
                ),
    {
        let tile_state = tile_cache.build_tile_state(layout, damage);
        let sorted = sort_items_by_paint_order(items);
        proof {
            assert forall|i: int|
                0 <= i < sorted@.len() && (#[trigger] sorted@[i]).stacking_context_index is Some implies sorted@[i].stacking_context_index->0
                    < usize::MAX by {
                lemma_sorted_item_from(sorted@, items@, i);
            }
        }
        let layer_tree = build_layer_tree(&sorted, contexts, layout, root_visual);
        let composite_pass = build_composite_pass(&layer_tree, damage.is_full(), tile_cache);
        CompositorSubmission {
            tile_plan: tile_state.tile_plan,
            raster_batch: tile_state.raster_batch,
            composite_pass,
            layer_tree,
        }
    }
}

/// Every item of a stable sort is an item of the input.
pub proof fn lemma_sorted_item_from(out: Seq<CompositorPlanningItem>, items: Seq<CompositorPlanningItem>, i: int)
    requires
        is_paint_sort(out, items),
        0 <= i < out.len(),
    ensures
        exists|j: int| 0 <= j < items.len() && items[j] == out[i],
{
    let k = out[i].paint_order;
    lemma_with_paint_order_member(out, k, i);
    assert(with_paint_order(out, k) == with_paint_order(items, k));
    let w = with_paint_order(items, k);
    let q = choose|q: int| 0 <= q < w.len() && w[q] == out[i];
    lemma_with_paint_order_elem(items, k, q);
}

/// An item of order `k` is in its group.
pub proof fn lemma_with_paint_order_member(s: Seq<CompositorPlanningItem>, k: usize, i: int)
    requires
        0 <= i < s.len(),
        s[i].paint_order == k,
    ensures
        exists|q: int| 0 <= q < with_paint_order(s, k).len() && with_paint_order(s, k)[q] == s[i],
    decreases s.len(),
{
    if i == s.len() - 1 {
        let w = with_paint_order(s, k);
        assert(w[w.len() - 1] == s[i]);
    } else {
        lemma_with_paint_order_member(s.drop_last(), k, i);
        assert(s.drop_last()[i] == s[i]);
        let w0 = with_paint_order(s.drop_last(), k);
        let q = choose|q: int| 0 <= q < w0.len() && w0[q] == s.drop_last()[i];
        let w = with_paint_order(s, k);
        assert(w[q] == w0[q]);
    }
}

/// Every member of a group is an item of the sequence.
pub proof fn lemma_with_paint_order_elem(s: Seq<CompositorPlanningItem>, k: usize, q: int)
    requires
        0 <= q < with_paint_order(s, k).len(),
    ensures
        exists|j: int| 0 <= j < s.len() && s[j] == with_paint_order(s, k)[q],
    decreases s.len(),
{
    let w0 = with_paint_order(s.drop_last(), k);
    if q < w0.len() {
        lemma_with_paint_order_elem(s.drop_last(), k, q);
        let j = choose|j: int| 0 <= j < s.drop_last().len() && s.drop_last()[j] == w0[q];
        assert(s[j] == s.drop_last()[j]);
        assert(with_paint_order(s, k)[q] == w0[q]);
    } else {
        assert(with_paint_order(s, k)[q] == s.last());
        assert(s[s.len() - 1] == s.last());
    }
}

/// The stacking context a layer of the tree stands for: none for the root
/// layer `0`, context `m - 1` for layer `m`.
pub open spec fn layer_scope(m: int) -> Option<usize> {
    if m == 0 {
        None
    } else {
        Some((m - 1) as usize)
    }
}

/// How many items the first `k` layers hold directly.
pub open spec fn items_in_layers(items: Seq<CompositorPlanningItem>, k: int) -> int
    decreases k,
{
    if k <= 0 {
        0
    } else {
        items_in_layers(items, k - 1) + layer_spans(items, layer_scope(k - 1)).len()
    }
}

/// Whether item `x` belongs to one of the first `k` layers.
pub open spec fn item_in_first_layers(x: CompositorPlanningItem, k: int) -> bool {
    match x.stacking_context_index {
        None => k > 0,
        Some(c) => c + 1 < k,
    }
}

proof fn lemma_items_in_layers_push(items: Seq<CompositorPlanningItem>, x: CompositorPlanningItem, k: int)
    requires
        0 <= k <= usize::MAX,
        x.stacking_context_index is Some ==> x.stacking_context_index->0 < usize::MAX,
    ensures
        items_in_layers(items.push(x), k) == items_in_layers(items, k) + if item_in_first_layers(x, k) {
            1int
        } else {
            0int
        },
    decreases k,
{
    if k > 0 {
        lemma_items_in_layers_push(items, x, k - 1);
        assert(items.push(x).drop_last() =~= items);
        let s = layer_scope(k - 1);
        assert(layer_spans(items.push(x), s).len() == layer_spans(items, s).len() + if x.stacking_context_index
            == s {
            1int
        } else {
            0int
        });
        if k - 1 > 0 {
            assert(((k - 2) as usize) as int == k - 2);
            assert(s == Some((k - 2) as usize));
        }
        assert(item_in_first_layers(x, k) == (item_in_first_layers(x, k - 1) || x.stacking_context_index == s));
        assert(!(item_in_first_layers(x, k - 1) && x.stacking_context_index == s));
    }
}

/// The layer tree partitions the items: when every item names no stacking
/// context or one of the `n` contexts, each item is a direct item of exactly
/// one of the `n + 1` layers, and the layers' item counts add up to the
/// number of items.
pub proof fn lemma_layers_partition_items(items: Seq<CompositorPlanningItem>, n: nat)
    requires
        n < usize::MAX,
        forall|i: int|
            0 <= i < items.len() ==> match (#[trigger] items[i]).stacking_context_index {
                None => true,
                Some(c) => c < n,
            },
    ensures
        forall|i: int|
            0 <= i < items.len() ==> exists|m: int|
                0 <= m <= n && (#[trigger] items[i]).stacking_context_index == layer_scope(m) && forall|m2: int|
                    0 <= m2 <= n && m2 != m ==> items[i].stacking_context_index != layer_scope(m2),
        items_in_layers(items, n + 1int) == items.len(),
    decreases items.len(),
{
    assert forall|i: int| 0 <= i < items.len() implies exists|m: int|
        0 <= m <= n && (#[trigger] items[i]).stacking_context_index == layer_scope(m) && forall|m2: int|
            0 <= m2 <= n && m2 != m ==> items[i].stacking_context_index != layer_scope(m2) by {
        let m = match items[i].stacking_context_index {
            None => 0int,
            Some(c) => c + 1,
        };
        assert(items[i].stacking_context_index == layer_scope(m));
        assert forall|m2: int| 0 <= m2 <= n && m2 != m implies items[i].stacking_context_index != layer_scope(m2) by {
            if m2 > 0 && m > 0 {
                assert(((m2 - 1) as usize) as int == m2 - 1);
            }
        }
    }
    if items.len() == 0 {
        lemma_items_in_layers_empty(items, n + 1int);
    } else {
        let rest = items.drop_last();
        let x = items.last();
        assert(items == rest.push(x));
        assert forall|i: int| 0 <= i < rest.len() implies match (#[trigger] rest[i]).stacking_context_index {
            None => true,
            Some(c) => c < n,
        } by {
            assert(rest[i] == items[i]);
        }
        lemma_layers_partition_items(rest, n);
        assert(items[items.len() - 1] == x);
        lemma_items_in_layers_push(rest, x, n + 1int);
    }
}

proof fn lemma_items_in_layers_empty(items: Seq<CompositorPlanningItem>, k: int)
    requires
        items.len() == 0,
    ensures
        items_in_layers(items, k) == 0,
    decreases k,
{
    if k > 0 {
        lemma_items_in_layers_empty(items, k - 1);
    }
}

} // verus!
