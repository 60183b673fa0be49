//! How a display-list renderer walks stacking contexts: tables that find a
//! stacking context or clip chain by id, the chain of enclosing contexts, and
//! the order in which a scope paints its own items and its child contexts.

use vstd::prelude::*;

use crate::composite::{CompositorLayer, CompositorLayerId, CompositorLayerTree, CompositorScopeEntry};

verus! {

/// A stacking context's id in a display list.
#[derive(Debug, Clone, Copy, PartialEq, Eq, Structural, Hash)]
pub struct StackingContextId(pub u32);

/// A clip chain's id in a display list.
#[derive(Debug, Clone, Copy, PartialEq, Eq, Structural, Hash)]
pub struct ClipChainId(pub u32);

/// What scope walking reads of a stacking context: its id and its parent's.
#[derive(Debug, Clone, Copy, PartialEq, Eq, Structural)]
pub struct StackingContextLink {
    pub id: StackingContextId,
    pub parent: Option<StackingContextId>,
}

/// The last position at which `ids` holds `id`.
pub open spec fn last_position(ids: Seq<u32>, id: int) -> Option<int>
    decreases ids.len(),
{
    if ids.len() == 0 {
        None
    } else if ids.last() == id {
        Some(ids.len() - 1)
    } else {
        last_position(ids.drop_last(), id)
    }
}

/// One more than the largest of `ids` (0 when there is none): the length of
/// a table with an entry for every id.
pub open spec fn table_len(ids: Seq<u32>) -> nat
    decreases ids.len(),
{
    if ids.len() == 0 {
        0
    } else {
        let rest = table_len(ids.drop_last());
        if rest > ids.last() + 1 {
            rest
        } else {
            (ids.last() + 1) as nat
        }
    }
}

/// Whether `table` has an entry for each id up to the largest of `ids`,
/// holding the id's last position in `ids` (`None` where it has none).
pub open spec fn indexes(table: Seq<Option<usize>>, ids: Seq<u32>) -> bool {
    &&& table.len() == table_len(ids)
    &&& forall|k: int|
        0 <= k < table.len() ==> (#[trigger] table[k] matches Some(i) ==> last_position(ids, k) == Some(
            i as int,
        )) && (table[k] is None ==> last_position(ids, k) is None)
}

/// What `table` holds for `id`: nothing past its end.
pub open spec fn table_entry(table: Seq<Option<usize>>, id: u32) -> Option<usize> {
    if id < table.len() {
        table[id as int]
    } else {
        None
    }
}

/// The position found for `id` lies in `ids` and holds `id`, and no later
/// position does.
proof fn lemma_last_position(ids: Seq<u32>, id: int)
    ensures
        last_position(ids, id) matches Some(i) ==> 0 <= i < ids.len() && ids[i] == id && forall|j: int|
            i < j < ids.len() ==> ids[j] != id,
        last_position(ids, id) is None ==> forall|j: int| 0 <= j < ids.len() ==> ids[j] != id,
    decreases ids.len(),
{
    if ids.len() > 0 {
        lemma_last_position(ids.drop_last(), id);
        assert forall|j: int| 0 <= j < ids.len() - 1 implies ids[j] == ids.drop_last()[j] by {}
    }
}

/// Every id lies below the table length.
proof fn lemma_table_len(ids: Seq<u32>)
    ensures
        forall|j: int| 0 <= j < ids.len() ==> ids[j] < table_len(ids),
        table_len(ids) <= u32::MAX + 1,
    decreases ids.len(),
{
    if ids.len() > 0 {
        lemma_table_len(ids.drop_last());
        assert forall|j: int| 0 <= j < ids.len() implies ids[j] < table_len(ids) by {
            if j < ids.len() - 1 {
                assert(ids[j] == ids.drop_last()[j]);
            }
        }
    }
}

/// A table that indexes `ids` holds, for every id, its last position.
pub proof fn lemma_table_entry(table: Seq<Option<usize>>, ids: Seq<u32>, id: u32)
    requires
        indexes(table, ids),
    ensures
        table_entry(table, id) matches Some(i) ==> last_position(ids, id as int) == Some(i as int),
        table_entry(table, id) is None ==> last_position(ids, id as int) is None,
{
    if id < table.len() {
        assert(table[id as int] == table[id as int]);
    } else {
        lemma_table_len(ids);
        lemma_last_position(ids, id as int);
        if last_position(ids, id as int) is Some {
            let i = last_position(ids, id as int)->0;
            assert(ids[i] == id);
        }
    }
}

/// The table of last positions of `ids`, by id.
fn index_by_id(ids: &Vec<u32>) -> (table: Vec<Option<usize>>)
    requires
        forall|j: int| 0 <= j < ids@.len() ==> ids@[j] < usize::MAX,
    ensures
        indexes(table@, ids@),
{
    let n = ids.len();
    let len = table_len_for(ids);
    let mut table = empty_table(len);
    proof {
        lemma_table_len(ids@);
    }
    let mut i: usize = 0;
    while i < n
        invariant
            n == ids@.len(),
            0 <= i <= n,
            len == table_len(ids@),
            table@.len() == len,
            forall|j: int| 0 <= j < ids@.len() ==> ids@[j] < table_len(ids@),
            forall|m: int|
                0 <= m < table@.len() ==> (#[trigger] table@[m] matches Some(p) ==> last_position(
                    ids@.take(i as int),
                    m,
                ) == Some(p as int)) && (table@[m] is None ==> last_position(ids@.take(i as int), m)
                    is None),
        decreases n - i,
    {
        let id: usize = ids[i] as usize;
        table.set(id, Some(i));
        proof {
            let s = ids@.take(i + 1);
            assert(s.drop_last() =~= ids@.take(i as int));
            assert(s.last() == ids@[i as int]);
            assert forall|m: int| 0 <= m < table@.len() implies (#[trigger] table@[m] matches Some(p)
                ==> last_position(s, m) == Some(p as int)) && (table@[m] is None ==> last_position(s, m)
                is None) by {
            }
        }
        i = i + 1;
    }
    proof {
        assert(ids@.take(n as int) =~= ids@);
    }
    table
}

/// The first position at which `ids` holds `id`.
pub open spec fn first_listed(ids: Seq<u32>, id: int) -> Option<int>
    decreases ids.len(),
{
    if ids.len() == 0 {
        None
    } else {
        match first_listed(ids.drop_last(), id) {
            Some(i) => Some(i),
            None => if ids.last() == id {
                Some(ids.len() - 1)
            } else {
                None
            },
        }
    }
}

/// Whether `table` has an entry for each id up to the largest of `ids`,
/// holding the id's first position in `ids` (`None` where it has none).
pub open spec fn indexes_first(table: Seq<Option<usize>>, ids: Seq<u32>) -> bool {
    &&& table.len() == table_len(ids)
    &&& forall|k: int|
        0 <= k < table.len() ==> (#[trigger] table[k] matches Some(i) ==> first_listed(ids, k) == Some(i as int))
            && (table[k] is None ==> first_listed(ids, k) is None)
}

/// The length of the table for `ids`: one more than the largest id.
fn table_len_for(ids: &Vec<u32>) -> (len: usize)
    requires
        forall|j: int| 0 <= j < ids@.len() ==> ids@[j] < usize::MAX,
    ensures
        len == table_len(ids@),
{
    let n = ids.len();
    let mut len: usize = 0;
    let mut i: usize = 0;
    while i < n
        invariant
            n == ids@.len(),
            0 <= i <= n,
            len == table_len(ids@.take(i as int)),
            forall|j: int| 0 <= j < ids@.len() ==> ids@[j] < usize::MAX,
        decreases n - i,
    {
        proof {
            assert(ids@.take(i + 1).drop_last() =~= ids@.take(i as int));
        }
        let next: usize = ids[i] as usize + 1;
        if next > len {
            len = next;
        }
        i = i + 1;
    }
    proof {
        assert(ids@.take(n as int) =~= ids@);
    }
    len
}

/// A table of `len` empty entries.
fn empty_table(len: usize) -> (table: Vec<Option<usize>>)
    ensures
        table@.len() == len,
        forall|m: int| 0 <= m < len ==> #[trigger] table@[m] is None,
{
    let mut table: Vec<Option<usize>> = Vec::new();
    let mut k: usize = 0;
    while k < len
        invariant
            0 <= k <= len,
            table@.len() == k,
            forall|m: int| 0 <= m < k ==> #[trigger] table@[m] is None,
        decreases len - k,
    {
        table.push(None);
        k = k + 1;
    }
    table
}

/// The table of first positions of `ids`, by id.
fn index_by_first_id(ids: &Vec<u32>) -> (table: Vec<Option<usize>>)
    requires
        forall|j: int| 0 <= j < ids@.len() ==> ids@[j] < usize::MAX,
    ensures
        indexes_first(table@, ids@),
{
    let n = ids.len();
    let len = table_len_for(ids);
    let mut table = empty_table(len);
    proof {
        lemma_table_len(ids@);
    }
    let mut i: usize = 0;
    while i < n
        invariant
            n == ids@.len(),
            0 <= i <= n,
            len == table_len(ids@),
            table@.len() == len,
            forall|j: int| 0 <= j < ids@.len() ==> ids@[j] < table_len(ids@),
            forall|m: int|
                0 <= m < table@.len() ==> (#[trigger] table@[m] matches Some(p) ==> first_listed(
                    ids@.take(i as int),
                    m,
                ) == Some(p as int)) && (table@[m] is None ==> first_listed(ids@.take(i as int), m) is None),
        decreases n - i,
    {
        let id: usize = ids[i] as usize;
        proof {
            let s = ids@.take(i + 1);
            assert(s.drop_last() =~= ids@.take(i as int));
            assert(s.last() == ids@[i as int]);
        }
        if table[id].is_none() {
            table.set(id, Some(i));
        }
        i = i + 1;
    }
    proof {
        assert(ids@.take(n as int) =~= ids@);
    }
    table
}

/// The ids of `contexts`, in order.
pub open spec fn context_ids(contexts: Seq<StackingContextLink>) -> Seq<u32> {
    contexts.map_values(|c: StackingContextLink| c.id.0)
}

/// The ids of `chains`, in order.
pub open spec fn clip_chain_ids(chains: Seq<ClipChainId>) -> Seq<u32> {
    chains.map_values(|c: ClipChainId| c.0)
}

/// The ids of `chains`, in order.
fn copy_clip_chain_ids(chains: &Vec<ClipChainId>) -> (ids: Vec<u32>)
    ensures
        ids@ == clip_chain_ids(chains@),
{
    let mut ids: Vec<u32> = Vec::new();
    let mut i: usize = 0;
    while i < chains.len()
        invariant
            0 <= i <= chains@.len(),
            ids@ == clip_chain_ids(chains@).take(i as int),
        decreases chains@.len() - i,
    {
        ids.push(chains[i].0);
        proof {
            assert(ids@ =~= clip_chain_ids(chains@).take(i + 1));
        }
        i = i + 1;
    }
    proof {
        assert(ids@ =~= clip_chain_ids(chains@));
    }
    ids
}

/// The ids of `contexts`, in order.
fn copy_context_ids(contexts: &Vec<StackingContextLink>) -> (ids: Vec<u32>)
    ensures
        ids@ == context_ids(contexts@),
{
    let mut ids: Vec<u32> = Vec::new();
    let mut i: usize = 0;
    while i < contexts.len()
        invariant
            0 <= i <= contexts@.len(),
            ids@ == context_ids(contexts@).take(i as int),
        decreases contexts@.len() - i,
    {
        ids.push(contexts[i].id.0);
        proof {
            assert(ids@ =~= context_ids(contexts@).take(i + 1));
        }
        i = i + 1;
    }
    proof {
        assert(ids@ =~= context_ids(contexts@));
    }
    ids
}

/// The tables a renderer builds once per display list: where each clip
/// chain and each stacking context is listed, by id.
pub struct RenderLookupTables {
    clip_chain_indices_by_id: Vec<Option<usize>>,
    context_indices_by_id: Vec<Option<usize>>,
}

impl RenderLookupTables {
    /// The clip chain positions, by id.
    pub closed spec fn clip_chain_table(&self) -> Seq<Option<usize>> {
        self.clip_chain_indices_by_id@
    }

    /// The stacking context positions, by id.
    pub closed spec fn context_table(&self) -> Seq<Option<usize>> {
        self.context_indices_by_id@
    }

    /// Whether the tables were built from these clip chains and contexts.
    pub open spec fn indexes_list(&self, chains: Seq<ClipChainId>, contexts: Seq<StackingContextLink>) -> bool {
        &&& indexes(self.clip_chain_table(), clip_chain_ids(chains))
        &&& indexes(self.context_table(), context_ids(contexts))
    }

    /// Builds the tables for a display list's clip chains and stacking
    /// contexts; where an id is listed twice, the later listing wins.
    pub fn build(chains: &Vec<ClipChainId>, contexts: &Vec<StackingContextLink>) -> (tables: Self)
        requires
            forall|j: int| 0 <= j < chains@.len() ==> chains@[j].0 < usize::MAX,
            forall|j: int| 0 <= j < contexts@.len() ==> contexts@[j].id.0 < usize::MAX,
        ensures
            tables.indexes_list(chains@, contexts@),
    {
        let chain_ids = copy_clip_chain_ids(chains);
        let ids = copy_context_ids(contexts);
        RenderLookupTables {
            clip_chain_indices_by_id: index_by_id(&chain_ids),
            context_indices_by_id: index_by_id(&ids),
        }
    }

    /// Whether the tables were built from these clip chains and contexts,
    /// the first listing of an id winning.
    pub open spec fn indexes_first_listing(
        &self,
        chains: Seq<ClipChainId>,
        contexts: Seq<StackingContextLink>,
    ) -> bool {
        &&& indexes_first(self.clip_chain_table(), clip_chain_ids(chains))
        &&& indexes_first(self.context_table(), context_ids(contexts))
    }

    /// Builds the tables for a display list's clip chains and stacking
    /// contexts; where an id is listed twice, the earlier listing wins, as
    /// when each lookup searches the list from the front.
    pub fn build_first_listing(chains: &Vec<ClipChainId>, contexts: &Vec<StackingContextLink>) -> (tables: Self)
        requires
            forall|j: int| 0 <= j < chains@.len() ==> chains@[j].0 < usize::MAX,
            forall|j: int| 0 <= j < contexts@.len() ==> contexts@[j].id.0 < usize::MAX,
        ensures
            tables.indexes_first_listing(chains@, contexts@),
    {
        let chain_ids = copy_clip_chain_ids(chains);
        let ids = copy_context_ids(contexts);
        RenderLookupTables {
            clip_chain_indices_by_id: index_by_first_id(&chain_ids),
            context_indices_by_id: index_by_first_id(&ids),
        }
    }

    /// Where clip chain `id` is listed, if it is.
    pub fn clip_chain_index(&self, id: ClipChainId) -> (r: Option<usize>)
        ensures
            r == table_entry(self.clip_chain_table(), id.0),
    {
        let k: usize = id.0 as usize;
        if k < self.clip_chain_indices_by_id.len() {
            self.clip_chain_indices_by_id[k]
        } else {
            None
        }
    }

    /// Where stacking context `id` is listed, if it is.
    pub fn context_index(&self, id: StackingContextId) -> (r: Option<usize>)
        ensures
            r == table_entry(self.context_table(), id.0),
    {
        let k: usize = id.0 as usize;
        if k < self.context_indices_by_id.len() {
            self.context_indices_by_id[k]
        } else {
            None
        }
    }
}

/// The parent of context `id`, read from the listing that `table` gives for
/// it (none where the table has no entry or points past the list).
pub open spec fn parent_context(contexts: Seq<StackingContextLink>, table: Seq<Option<usize>>, id: StackingContextId) -> Option<
    StackingContextId,
> {
    match table_entry(table, id.0) {
        Some(i) => if i < contexts.len() {
            contexts[i as int].parent
        } else {
            None
        },
        None => None,
    }
}

/// Context `id` and its ancestors, nearest first, following at most `fuel`
/// parent links.
pub open spec fn context_chain(contexts: Seq<StackingContextLink>, table: Seq<Option<usize>>, id: StackingContextId, fuel: nat) -> Seq<
    StackingContextId,
>
    decreases fuel,
{
    match parent_context(contexts, table, id) {
        Some(p) => if fuel > 0 {
            seq![id] + context_chain(contexts, table, p, (fuel - 1) as nat)
        } else {
            seq![id]
        },
        None => seq![id],
    }
}

/// The ancestors of `id` run out within as many links as there are contexts.
pub open spec fn chain_ends(contexts: Seq<StackingContextLink>, table: Seq<Option<usize>>, id: StackingContextId) -> bool {
    parent_context(contexts, table, context_chain(contexts, table, id, contexts.len()).last()) is None
}

/// Context `id` and all its ancestors, nearest first.
pub open spec fn context_path(contexts: Seq<StackingContextLink>, table: Seq<Option<usize>>, id: StackingContextId) -> Seq<StackingContextId> {
    context_chain(contexts, table, id, contexts.len())
}

/// One more link when the chain's end has a parent.
proof fn lemma_chain_step(contexts: Seq<StackingContextLink>, table: Seq<Option<usize>>, id: StackingContextId, k: nat)
    requires
        parent_context(contexts, table, context_chain(contexts, table, id, k).last()) is Some,
    ensures
        context_chain(contexts, table, id, k + 1) == context_chain(contexts, table, id, k).push(
            parent_context(contexts, table, context_chain(contexts, table, id, k).last())->0,
        ),
    decreases k,
{
    match parent_context(contexts, table, id) {
        Some(p) => {
            if k > 0 {
                lemma_chain_step(contexts, table, p, (k - 1) as nat);
                assert(context_chain(contexts, table, id, k).last() == context_chain(contexts, table, p, (k - 1) as nat).last());
                assert(context_chain(contexts, table, id, k + 1) =~= context_chain(contexts, table, id, k).push(
                    parent_context(contexts, table, context_chain(contexts, table, id, k).last())->0,
                ));
            } else {
                assert(context_chain(contexts, table, p, 0) == seq![p]);
                assert(context_chain(contexts, table, id, 1) =~= seq![id, p]);
            }
        },
        None => {},
    }
}

/// A chain that has run out stays as it is with more links allowed.
proof fn lemma_chain_stable(contexts: Seq<StackingContextLink>, table: Seq<Option<usize>>, id: StackingContextId, k: nat, m: nat)
    requires
        parent_context(contexts, table, context_chain(contexts, table, id, k).last()) is None,
        k <= m,
    ensures
        context_chain(contexts, table, id, m) == context_chain(contexts, table, id, k),
    decreases k,
{
    match parent_context(contexts, table, id) {
        Some(p) => {
            if k > 0 {
                assert(context_chain(contexts, table, id, k).last() == context_chain(contexts, table, p, (k - 1) as nat).last());
                lemma_chain_stable(contexts, table, p, (k - 1) as nat, (m - 1) as nat);
            }
        },
        None => {},
    }
}

/// The parent of stacking context `context_id`, found through the tables.
pub fn parent_stacking_context(
    contexts: &Vec<StackingContextLink>,
    lookups: &RenderLookupTables,
    context_id: StackingContextId,
) -> (r: Option<StackingContextId>)
    ensures
        r == parent_context(contexts@, lookups.context_table(), context_id),
{
    match lookups.context_index(context_id) {
        Some(i) => if i < contexts.len() {
            contexts[i].parent
        } else {
            None
        },
        None => None,
    }
}

/// Stacking context `current` and all its ancestors, nearest first.
fn context_path_of(
    contexts: &Vec<StackingContextLink>,
    lookups: &RenderLookupTables,
    current: StackingContextId,
) -> (path: Vec<StackingContextId>)
    requires
        chain_ends(contexts@, lookups.context_table(), current),
    ensures
        path@ == context_path(contexts@, lookups.context_table(), current),
{
    let ghost cs = contexts@;
    let ghost table = lookups.context_table();
    let mut path: Vec<StackingContextId> = Vec::new();
    path.push(current);
    let mut cur = current;
    let ghost mut k: nat = 0;
    proof {
        assert(path@ =~= context_chain(cs, table, current, 0));
    }
    loop
        invariant
            cs == contexts@,
            table == lookups.context_table(),
            chain_ends(cs, table, current),
            k <= cs.len(),
            path@ == context_chain(cs, table, current, k),
            cur == path@.last(),
        ensures
            path@ == context_chain(cs, table, current, k),
            k <= cs.len(),
            parent_context(cs, table, path@.last()) is None,
        decreases cs.len() - k,
    {
        match parent_stacking_context(contexts, lookups, cur) {
            None => {
                break;
            },
            Some(p) => {
                proof {
                    lemma_chain_step(cs, table, current, k);
                }
                path.push(p);
                cur = p;
                proof {
                    k = k + 1;
                }
            },
        }
    }
    proof {
        lemma_chain_stable(cs, table, current, k, cs.len());
    }
    path
}

/// Where `x` first occurs in `s` (-1: nowhere).
pub open spec fn first_position(s: Seq<StackingContextId>, x: StackingContextId) -> int
    decreases s.len(),
{
    if s.len() == 0 {
        -1
    } else if s[0] == x {
        0
    } else {
        let r = first_position(s.drop_first(), x);
        if r < 0 {
            -1
        } else {
            r + 1
        }
    }
}

/// The context directly under scope `scope` on the way from the outermost
/// ancestor of `current` down to it: for the root scope that ancestor; for
/// scope `p`, the context after `p` on that way, if `p` is on it.
pub open spec fn immediate_child(
    contexts: Seq<StackingContextLink>, table: Seq<Option<usize>>,
    scope: Option<StackingContextId>,
    current: StackingContextId,
) -> Option<StackingContextId> {
    let path = context_path(contexts, table, current).reverse();
    match scope {
        None => Some(path[0]),
        Some(p) => {
            let i = first_position(path, p);
            if 0 <= i && i + 1 < path.len() {
                Some(path[i + 1])
            } else {
                None
            }
        },
    }
}

/// Where `x` first occurs in `s`, found by a scan from the front.
fn find_first(s: &Vec<StackingContextId>, x: StackingContextId) -> (r: Option<usize>)
    ensures
        match r {
            Some(i) => i == first_position(s@, x) && i < s@.len(),
            None => first_position(s@, x) == -1,
        },
{
    let n = s.len();
    let mut j: usize = n;
    let mut found: Option<usize> = None;
    while j > 0
        invariant
            0 <= j <= n,
            n == s@.len(),
            match found {
                Some(i) => j <= i < n && first_position(s@.skip(j as int), x) >= 0 && i == first_position(
                    s@.skip(j as int),
                    x,
                ) + j,
                None => first_position(s@.skip(j as int), x) == -1,
            },
        decreases j,
    {
        proof {
            let t = s@.skip(j - 1);
            assert(t.drop_first() =~= s@.skip(j as int));
            assert(t[0] == s@[j - 1]);
        }
        if s[j - 1] == x {
            found = Some(j - 1);
        }
        j = j - 1;
    }
    proof {
        assert(s@.skip(0) =~= s@);
    }
    found
}

/// The context under `scope` on the way to stacking context `current`.
pub fn immediate_child_context(
    contexts: &Vec<StackingContextLink>,
    lookups: &RenderLookupTables,
    scope: Option<StackingContextId>,
    current: StackingContextId,
) -> (r: Option<StackingContextId>)
    requires
        chain_ends(contexts@, lookups.context_table(), current),
    ensures
        r == immediate_child(contexts@, lookups.context_table(), scope, current),
{
    let path = context_path_of(contexts, lookups, current);
    let n = path.len();
    let mut rev: Vec<StackingContextId> = Vec::new();
    let mut t: usize = 0;
    while t < n
        invariant
            0 <= t <= n,
            n == path@.len(),
            rev@ == path@.reverse().take(t as int),
        decreases n - t,
    {
        rev.push(path[n - 1 - t]);
        proof {
            assert(rev@ =~= path@.reverse().take(t + 1));
        }
        t = t + 1;
    }
    proof {
        assert(rev@ =~= path@.reverse());
    }
    match scope {
        None => Some(rev[0]),
        Some(p) => match find_first(&rev, p) {
            Some(i) => {
                if i + 1 < n {
                    Some(rev[i + 1])
                } else {
                    None
                }
            },
            None => None,
        },
    }
}

/// The stacking contexts whose bounds take in an item painted into
/// `item_context`: that context and its ancestors, as far as they are listed.
pub open spec fn bounded_contexts(contexts: Seq<StackingContextLink>, table: Seq<Option<usize>>, item_context: Option<StackingContextId>) -> Seq<
    StackingContextId,
> {
    match item_context {
        None => Seq::empty(),
        Some(c) => {
            let path = context_path(contexts, table, c);
            if table_entry(table, path.last().0) is Some {
                path
            } else {
                path.drop_last()
            }
        },
    }
}

/// The stacking contexts whose bounds take in an item painted into
/// `item_context`, innermost first.
pub fn enclosing_contexts(
    contexts: &Vec<StackingContextLink>,
    lookups: &RenderLookupTables,
    item_context: Option<StackingContextId>,
) -> (r: Vec<StackingContextId>)
    requires
        item_context matches Some(c) ==> chain_ends(contexts@, lookups.context_table(), c),
    ensures
        r@ == bounded_contexts(contexts@, lookups.context_table(), item_context),
{
    match item_context {
        None => Vec::new(),
        Some(c) => {
            let mut path = context_path_of(contexts, lookups, c);
            let last = path[path.len() - 1];
            if lookups.context_index(last).is_none() {
                path.pop();
            }
            path
        },
    }
}

/// How an item shows in the paint scope of a stacking context.
#[derive(Debug, Clone, Copy, PartialEq, Eq, Structural)]
pub enum ScopeEntry {
    /// Painted by the scope itself.
    Direct,
    /// Painted through this child context of the scope.
    ChildContext(StackingContextId),
    /// Not painted in this scope.
    Skip,
}

/// One step of painting a scope: one of its own items, or one of its child
/// contexts with everything under it.
#[derive(Debug, Clone, Copy, PartialEq, Eq, Structural)]
pub enum ScopeStep {
    Direct(usize),
    ChildContext(StackingContextId),
}

/// How an item painted into `item_context` shows in scope `scope`: directly
/// when it paints into the scope itself, through the child context on its
/// way up when the scope encloses it, not at all otherwise.
pub open spec fn scope_entry(
    contexts: Seq<StackingContextLink>, table: Seq<Option<usize>>,
    scope: Option<StackingContextId>,
    item_context: Option<StackingContextId>,
) -> ScopeEntry {
    match item_context {
        None => if scope is None {
            ScopeEntry::Direct
        } else {
            ScopeEntry::Skip
        },
        Some(c) => if scope == Some(c) {
            ScopeEntry::Direct
        } else {
            match immediate_child(contexts, table, scope, c) {
                Some(child) => ScopeEntry::ChildContext(child),
                None => ScopeEntry::Skip,
            }
        },
    }
}

/// Whether an item painted into `item_context` has scope `scope` walk up its
/// ancestors, and that walk ends.
pub open spec fn walk_ends(
    contexts: Seq<StackingContextLink>, table: Seq<Option<usize>>,
    scope: Option<StackingContextId>,
    item_context: Option<StackingContextId>,
) -> bool {
    match item_context {
        Some(c) => scope != Some(c) ==> chain_ends(contexts, table, c),
        None => true,
    }
}

/// How an item painted into `item_context` shows in scope `scope`.
pub fn scope_entry_for_item(
    contexts: &Vec<StackingContextLink>,
    lookups: &RenderLookupTables,
    scope: Option<StackingContextId>,
    item_context: Option<StackingContextId>,
) -> (e: ScopeEntry)
    requires
        walk_ends(contexts@, lookups.context_table(), scope, item_context),
    ensures
        e == scope_entry(contexts@, lookups.context_table(), scope, item_context),
{
    match item_context {
        None => match scope {
            None => ScopeEntry::Direct,
            Some(_) => ScopeEntry::Skip,
        },
        Some(c) => {
            let same = match scope {
                Some(p) => p == c,
                None => false,
            };
            if same {
                ScopeEntry::Direct
            } else {
                match immediate_child_context(contexts, lookups, scope, c) {
                    Some(child) => ScopeEntry::ChildContext(child),
                    None => ScopeEntry::Skip,
                }
            }
        },
    }
}

/// The steps of scope `scope` read off the items, in item order: each item
/// the scope paints itself, and each child context where its first item
/// comes.
pub open spec fn item_steps(
    contexts: Seq<StackingContextLink>, table: Seq<Option<usize>>,
    scope: Option<StackingContextId>,
    items: Seq<Option<StackingContextId>>,
) -> Seq<ScopeStep>
    decreases items.len(),
{
    if items.len() == 0 {
        Seq::empty()
    } else {
        let prev = item_steps(contexts, table, scope, items.drop_last());
        match scope_entry(contexts, table, scope, items.last()) {
            ScopeEntry::Skip => prev,
            ScopeEntry::Direct => prev.push(ScopeStep::Direct((items.len() - 1) as usize)),
            ScopeEntry::ChildContext(child) => if prev.contains(ScopeStep::ChildContext(child)) {
                prev
            } else {
                prev.push(ScopeStep::ChildContext(child))
            },
        }
    }
}

/// Whether `steps` holds `step`, by a scan.
fn holds_step(steps: &Vec<ScopeStep>, step: ScopeStep) -> (b: bool)
    ensures
        b == steps@.contains(step),
{
    let mut j: usize = 0;
    while j < steps.len()
        invariant
            0 <= j <= steps@.len(),
            forall|k: int| 0 <= k < j ==> steps@[k] != step,
        decreases steps@.len() - j,
    {
        if steps[j] == step {
            return true;
        }
        j = j + 1;
    }
    false
}

/// The steps of scope `scope` read off the items.
fn steps_from_items(
    contexts: &Vec<StackingContextLink>,
    lookups: &RenderLookupTables,
    items: &Vec<Option<StackingContextId>>,
    scope: Option<StackingContextId>,
) -> (steps: Vec<ScopeStep>)
    requires
        forall|i: int| 0 <= i < items@.len() ==> walk_ends(contexts@, lookups.context_table(), scope, #[trigger] items@[i]),
    ensures
        steps@ == item_steps(contexts@, lookups.context_table(), scope, items@),
{
    let mut steps: Vec<ScopeStep> = Vec::new();
    let mut i: usize = 0;
    while i < items.len()
        invariant
            0 <= i <= items@.len(),
                forall|k: int| 0 <= k < items@.len() ==> walk_ends(contexts@, lookups.context_table(), scope, #[trigger] items@[k]),
            steps@ == item_steps(contexts@, lookups.context_table(), scope, items@.take(i as int)),
        decreases items@.len() - i,
    {
        proof {
            let t = items@.take(i + 1);
            assert(t.drop_last() =~= items@.take(i as int));
            assert(t.last() == items@[i as int]);
        }
        match scope_entry_for_item(contexts, lookups, scope, items[i]) {
            ScopeEntry::Skip => {},
            ScopeEntry::Direct => {
                steps.push(ScopeStep::Direct(i));
            },
            ScopeEntry::ChildContext(child) => {
                if !holds_step(&steps, ScopeStep::ChildContext(child)) {
                    steps.push(ScopeStep::ChildContext(child));
                }
            },
        }
        i = i + 1;
    }
    proof {
        assert(items@.take(items@.len() as int) =~= items@);
    }
    steps
}

/// The position of the first layer with id `layer_id`.
pub open spec fn first_layer_with_id<V>(layers: Seq<CompositorLayer<V>>, layer_id: CompositorLayerId) -> Option<int>
    decreases layers.len(),
{
    if layers.len() == 0 {
        None
    } else if layers[0].layer_id == layer_id {
        Some(0)
    } else {
        match first_layer_with_id(layers.drop_first(), layer_id) {
            Some(i) => Some(i + 1),
            None => None,
        }
    }
}

/// The position of the first layer made for stacking context `index`.
pub open spec fn first_layer_for_context<V>(layers: Seq<CompositorLayer<V>>, index: usize) -> Option<int>
    decreases layers.len(),
{
    if layers.len() == 0 {
        None
    } else if layers[0].stacking_context_index == Some(index) {
        Some(0)
    } else {
        match first_layer_for_context(layers.drop_first(), index) {
            Some(i) => Some(i + 1),
            None => None,
        }
    }
}

/// The layer that paints scope `scope`: the root layer for the root scope,
/// else the first layer made for the scope's context.
pub open spec fn scope_layer<V>(
    contexts: Seq<StackingContextLink>, table: Seq<Option<usize>>,
    layers: Seq<CompositorLayer<V>>,
    scope: Option<StackingContextId>,
) -> Option<int> {
    match scope {
        None => first_layer_with_id(layers, CompositorLayerId(0)),
        Some(c) => match table_entry(table, c.0) {
            Some(index) => first_layer_for_context(layers, index),
            None => None,
        },
    }
}

/// The stacking context of the first layer with id `layer_id`, if it has
/// one that is listed.
pub open spec fn layer_context<V>(
    contexts: Seq<StackingContextLink>,
    layers: Seq<CompositorLayer<V>>,
    layer_id: CompositorLayerId,
) -> Option<StackingContextId> {
    match first_layer_with_id(layers, layer_id) {
        Some(l) => match layers[l].stacking_context_index {
            Some(index) => if index < contexts.len() {
                Some(contexts[index as int].id)
            } else {
                None
            },
            None => None,
        },
        None => None,
    }
}

/// The steps of a layer's scope entries: its items, and the child contexts
/// of its child layers (a child layer without a listed context is left out).
pub open spec fn entry_steps<V>(
    contexts: Seq<StackingContextLink>,
    layers: Seq<CompositorLayer<V>>,
    entries: Seq<CompositorScopeEntry>,
) -> Seq<ScopeStep>
    decreases entries.len(),
{
    if entries.len() == 0 {
        Seq::empty()
    } else {
        let prev = entry_steps(contexts, layers, entries.drop_last());
        match entries.last() {
            CompositorScopeEntry::DirectItem(i) => prev.push(ScopeStep::Direct(i)),
            CompositorScopeEntry::ChildLayer(l) => match layer_context(contexts, layers, l) {
                Some(c) => prev.push(ScopeStep::ChildContext(c)),
                None => prev,
            },
        }
    }
}

/// The steps of scope `scope` as the layer tree orders them, when a layer
/// paints that scope.
pub open spec fn layer_tree_steps<V>(
    contexts: Seq<StackingContextLink>, table: Seq<Option<usize>>,
    layers: Seq<CompositorLayer<V>>,
    scope: Option<StackingContextId>,
) -> Option<Seq<ScopeStep>> {
    match scope_layer(contexts, table, layers, scope) {
        Some(l) => Some(entry_steps(contexts, layers, layers[l].scope_entries@)),
        None => None,
    }
}

/// The steps of scope `scope`: as the layer tree orders them where it has a
/// layer for the scope, else read off the items.
pub open spec fn scope_steps_of<V>(
    contexts: Seq<StackingContextLink>, table: Seq<Option<usize>>,
    items: Seq<Option<StackingContextId>>,
    layers: Option<Seq<CompositorLayer<V>>>,
    scope: Option<StackingContextId>,
) -> Seq<ScopeStep> {
    match layers {
        Some(ls) => match layer_tree_steps(contexts, table, ls, scope) {
            Some(steps) => steps,
            None => item_steps(contexts, table, scope, items),
        },
        None => item_steps(contexts, table, scope, items),
    }
}

/// The position of the first layer with id `layer_id`.
fn find_layer_with_id<V>(layers: &Vec<CompositorLayer<V>>, layer_id: CompositorLayerId) -> (r: Option<usize>)
    ensures
        match r {
            Some(i) => first_layer_with_id(layers@, layer_id) == Some(i as int) && i < layers@.len(),
            None => first_layer_with_id(layers@, layer_id) is None,
        },
{
    let n = layers.len();
    let mut j: usize = n;
    let mut found: Option<usize> = None;
    while j > 0
        invariant
            0 <= j <= n,
            n == layers@.len(),
            match found {
                Some(i) => j <= i < n && first_layer_with_id(layers@.skip(j as int), layer_id) == Some(
                    i - j,
                ),
                None => first_layer_with_id(layers@.skip(j as int), layer_id) is None,
            },
        decreases j,
    {
        proof {
            let t = layers@.skip(j - 1);
            assert(t.drop_first() =~= layers@.skip(j as int));
            assert(t[0] == layers@[j - 1]);
        }
        if layers[j - 1].layer_id.0 == layer_id.0 {
            found = Some(j - 1);
        }
        j = j - 1;
    }
    proof {
        assert(layers@.skip(0) =~= layers@);
    }
    found
}

/// The position of the first layer made for stacking context `index`.
fn find_layer_for_context<V>(layers: &Vec<CompositorLayer<V>>, index: usize) -> (r: Option<usize>)
    ensures
        match r {
            Some(i) => first_layer_for_context(layers@, index) == Some(i as int) && i < layers@.len(),
            None => first_layer_for_context(layers@, index) is None,
        },
{
    let n = layers.len();
    let mut j: usize = n;
    let mut found: Option<usize> = None;
    while j > 0
        invariant
            0 <= j <= n,
            n == layers@.len(),
            match found {
                Some(i) => j <= i < n && first_layer_for_context(layers@.skip(j as int), index) == Some(
                    i - j,
                ),
                None => first_layer_for_context(layers@.skip(j as int), index) is None,
            },
        decreases j,
    {
        proof {
            let t = layers@.skip(j - 1);
            assert(t.drop_first() =~= layers@.skip(j as int));
            assert(t[0] == layers@[j - 1]);
        }
        let matches = match layers[j - 1].stacking_context_index {
            Some(k) => k == index,
            None => false,
        };
        if matches {
            found = Some(j - 1);
        }
        j = j - 1;
    }
    proof {
        assert(layers@.skip(0) =~= layers@);
    }
    found
}

/// The position of the layer that paints scope `scope`.
pub fn layer_for_scope<V>(
    contexts: &Vec<StackingContextLink>,
    lookups: &RenderLookupTables,
    layer_tree: &CompositorLayerTree<V>,
    scope: Option<StackingContextId>,
) -> (r: Option<usize>)
    ensures
        match r {
            Some(i) => scope_layer(contexts@, lookups.context_table(), layer_tree.layers@, scope) == Some(i as int) && i
                < layer_tree.layers@.len(),
            None => scope_layer(contexts@, lookups.context_table(), layer_tree.layers@, scope) is None,
        },
{
    match scope {
        None => find_layer_with_id(&layer_tree.layers, CompositorLayerId(0)),
        Some(c) => {
            match lookups.context_index(c) {
                Some(index) => find_layer_for_context(&layer_tree.layers, index),
                None => None,
            }
        },
    }
}

/// The stacking context of the first layer with id `layer_id`.
pub fn child_context_id_for_layer<V>(
    contexts: &Vec<StackingContextLink>,
    layer_tree: &CompositorLayerTree<V>,
    layer_id: CompositorLayerId,
) -> (r: Option<StackingContextId>)
    ensures
        r == layer_context(contexts@, layer_tree.layers@, layer_id),
{
    match find_layer_with_id(&layer_tree.layers, layer_id) {
        Some(l) => match layer_tree.layers[l].stacking_context_index {
            Some(index) => if index < contexts.len() {
                Some(contexts[index].id)
            } else {
                None
            },
            None => None,
        },
        None => None,
    }
}

/// The steps of scope `scope` as the layer tree orders them, when a layer
/// paints that scope.
pub fn scope_steps_from_layer_tree<V>(
    contexts: &Vec<StackingContextLink>,
    lookups: &RenderLookupTables,
    layer_tree: &CompositorLayerTree<V>,
    scope: Option<StackingContextId>,
) -> (r: Option<Vec<ScopeStep>>)
    ensures
        match r {
            Some(steps) => layer_tree_steps(contexts@, lookups.context_table(), layer_tree.layers@, scope) == Some(steps@),
            None => layer_tree_steps(contexts@, lookups.context_table(), layer_tree.layers@, scope) is None,
        },
{
    match layer_for_scope(contexts, lookups, layer_tree, scope) {
        None => None,
        Some(l) => {
            let entries = &layer_tree.layers[l].scope_entries;
            let mut steps: Vec<ScopeStep> = Vec::new();
            let mut i: usize = 0;
            while i < entries.len()
                invariant
                    0 <= i <= entries@.len(),
                    steps@ == entry_steps(contexts@, layer_tree.layers@, entries@.take(i as int)),
                decreases entries@.len() - i,
            {
                proof {
                    let t = entries@.take(i + 1);
                    assert(t.drop_last() =~= entries@.take(i as int));
                    assert(t.last() == entries@[i as int]);
                }
                match entries[i] {
                    CompositorScopeEntry::DirectItem(item) => {
                        steps.push(ScopeStep::Direct(item));
                    },
                    CompositorScopeEntry::ChildLayer(layer_id) => {
                        match child_context_id_for_layer(contexts, layer_tree, layer_id) {
                            Some(c) => {
                                steps.push(ScopeStep::ChildContext(c));
                            },
                            None => {},
                        }
                    },
                }
                i = i + 1;
            }
            proof {
                assert(entries@.take(entries@.len() as int) =~= entries@);
            }
            Some(steps)
        },
    }
}

/// The order in which scope `scope` paints: as the layer tree orders it
/// where the tree has a layer for the scope, else its own items and the
/// child contexts at their first items, in item order.
pub fn scope_steps<V>(
    contexts: &Vec<StackingContextLink>,
    items: &Vec<Option<StackingContextId>>,
    lookups: &RenderLookupTables,
    layer_tree: Option<&CompositorLayerTree<V>>,
    scope: Option<StackingContextId>,
) -> (steps: Vec<ScopeStep>)
    requires
        (match layer_tree {
            Some(tree) => layer_tree_steps(contexts@, lookups.context_table(), tree.layers@, scope) is None,
            None => true,
        }) ==> forall|i: int| 0 <= i < items@.len() ==> walk_ends(contexts@, lookups.context_table(), scope, #[trigger] items@[i]),
    ensures
        steps@ == scope_steps_of(contexts@, lookups.context_table(),
            items@,
            match layer_tree {
                Some(tree) => Some(tree.layers@),
                None => None,
            },
            scope,
        ),
{
    match layer_tree {
        Some(tree) => match scope_steps_from_layer_tree(contexts, lookups, tree, scope) {
            Some(steps) => {
                return steps;
            },
            None => {},
        },
        None => {},
    }
    steps_from_items(contexts, lookups, items, scope)
}

/// Each context on a chain is the parent of the one before it.
proof fn lemma_chain_links(contexts: Seq<StackingContextLink>, table: Seq<Option<usize>>, id: StackingContextId, fuel: nat)
    ensures
        context_chain(contexts, table, id, fuel).len() >= 1,
        context_chain(contexts, table, id, fuel)[0] == id,
        forall|k: int|
            0 <= k < context_chain(contexts, table, id, fuel).len() - 1 ==> parent_context(contexts, table,
                #[trigger] context_chain(contexts, table, id, fuel)[k],
            ) == Some(context_chain(contexts, table, id, fuel)[k + 1]),
    decreases fuel,
{
    match parent_context(contexts, table, id) {
        Some(p) => {
            if fuel > 0 {
                lemma_chain_links(contexts, table, p, (fuel - 1) as nat);
                let rest = context_chain(contexts, table, p, (fuel - 1) as nat);
                let all = context_chain(contexts, table, id, fuel);
                assert forall|k: int| 0 <= k < all.len() - 1 implies parent_context(contexts, table, #[trigger] all[k])
                    == Some(all[k + 1]) by {
                    if k > 0 {
                        assert(all[k] == rest[k - 1]);
                        assert(all[k + 1] == rest[k]);
                    }
                }
            }
        },
        None => {},
    }
}

/// The context that scope `scope` paints an item through is a child of the
/// scope: its parent is the scope's context, or it has none for the root
/// scope.
pub proof fn lemma_child_context_is_child(
    contexts: Seq<StackingContextLink>, table: Seq<Option<usize>>,
    scope: Option<StackingContextId>,
    current: StackingContextId,
)
    requires
        chain_ends(contexts, table, current),
    ensures
        immediate_child(contexts, table, scope, current) matches Some(child) ==> parent_context(contexts, table, child) == scope,
{
    let chain = context_path(contexts, table, current);
    let path = chain.reverse();
    lemma_chain_links(contexts, table, current, contexts.len());
    match scope {
        None => {
            assert(path[0] == chain.last());
        },
        Some(p) => {
            let i = first_position(path, p);
            if 0 <= i && i + 1 < path.len() {
                lemma_first_position(path, p);
                let k = chain.len() - 2 - i;
                assert(path[i + 1] == chain[k]);
                assert(path[i] == chain[k + 1]);
                assert(parent_context(contexts, table, chain[k]) == Some(chain[k + 1]));
            }
        },
    }
}

/// The first position of `x` holds `x`.
proof fn lemma_first_position(s: Seq<StackingContextId>, x: StackingContextId)
    ensures
        first_position(s, x) >= 0 ==> first_position(s, x) < s.len() && s[first_position(s, x)] == x,
        first_position(s, x) >= -1,
    decreases s.len(),
{
    if s.len() > 0 && s[0] != x {
        lemma_first_position(s.drop_first(), x);
    }
}

/// A scope paints each of its items at most once and each child context
/// once: no step of the item order is repeated, and every item it names is
/// one of the items.
pub proof fn lemma_item_steps_distinct(
    contexts: Seq<StackingContextLink>, table: Seq<Option<usize>>,
    scope: Option<StackingContextId>,
    items: Seq<Option<StackingContextId>>,
)
    requires
        items.len() <= usize::MAX,
    ensures
        forall|i: int, j: int|
            0 <= i < j < item_steps(contexts, table, scope, items).len() ==> item_steps(contexts, table, scope, items)[i]
                != item_steps(contexts, table, scope, items)[j],
        forall|i: int|
            0 <= i < item_steps(contexts, table, scope, items).len() ==> (#[trigger] item_steps(contexts, table,
                scope,
                items,
            )[i] matches ScopeStep::Direct(k) ==> k < items.len() && scope_entry(contexts, table, scope, items[k as int])
                == ScopeEntry::Direct),
    decreases items.len(),
{
    if items.len() > 0 {
        let rest = items.drop_last();
        lemma_item_steps_distinct(contexts, table, scope, rest);
        let prev = item_steps(contexts, table, scope, rest);
        let all = item_steps(contexts, table, scope, items);
        assert forall|i: int|
            0 <= i < prev.len() implies (#[trigger] prev[i] matches ScopeStep::Direct(k) ==> k < items.len()
            && scope_entry(contexts, table, scope, items[k as int]) == ScopeEntry::Direct) by {
            if prev[i] is Direct {
                let k = prev[i]->Direct_0;
                assert(items[k as int] == rest[k as int]);
            }
        }
        match scope_entry(contexts, table, scope, items.last()) {
            ScopeEntry::Skip => {},
            ScopeEntry::Direct => {
                let step = ScopeStep::Direct((items.len() - 1) as usize);
                assert(all == prev.push(step));
                assert(items[items.len() - 1] == items.last());
                assert forall|i: int| 0 <= i < prev.len() implies prev[i] != step by {
                    if prev[i] is Direct {
                        assert(prev[i]->Direct_0 < rest.len());
                    }
                }
                assert forall|i: int, j: int| 0 <= i < j < all.len() implies all[i] != all[j] by {
                    if j == all.len() - 1 {
                        assert(all[i] == prev[i]);
                    } else {
                        assert(all[i] == prev[i] && all[j] == prev[j]);
                    }
                }
            },
            ScopeEntry::ChildContext(child) => {
                let step = ScopeStep::ChildContext(child);
                if !prev.contains(step) {
                    assert(all == prev.push(step));
                    assert forall|i: int, j: int| 0 <= i < j < all.len() implies all[i] != all[j] by {
                        if j == all.len() - 1 {
                            assert(all[i] == prev[i]);
                            assert(prev.contains(prev[i]));
                        } else {
                            assert(all[i] == prev[i] && all[j] == prev[j]);
                        }
                    }
                }
            },
        }
    }
}

/// A table that indexes `ids` by first listing holds, for every id, its
/// first position.
pub proof fn lemma_first_table_entry(table: Seq<Option<usize>>, ids: Seq<u32>, id: u32)
    requires
        indexes_first(table, ids),
    ensures
        table_entry(table, id) matches Some(i) ==> first_listed(ids, id as int) == Some(i as int),
        table_entry(table, id) is None ==> first_listed(ids, id as int) is None,
{
    if id >= table.len() {
        lemma_table_len(ids);
        lemma_first_listed(ids, id as int);
        if first_listed(ids, id as int) is Some {
            let i = first_listed(ids, id as int)->0;
            assert(ids[i] == id);
        }
    } else {
        assert(table[id as int] == table[id as int]);
    }
}

/// The position found first holds `id`, and no earlier position does.
proof fn lemma_first_listed(ids: Seq<u32>, id: int)
    ensures
        first_listed(ids, id) matches Some(i) ==> 0 <= i < ids.len() && ids[i] == id && forall|j: int|
            0 <= j < i ==> ids[j] != id,
        first_listed(ids, id) is None ==> forall|j: int| 0 <= j < ids.len() ==> ids[j] != id,
    decreases ids.len(),
{
    if ids.len() > 0 {
        lemma_first_listed(ids.drop_last(), id);
        assert forall|j: int| 0 <= j < ids.len() - 1 implies ids[j] == ids.drop_last()[j] by {}
    }
}

/// Whether an item painted into `item_context` lies under stacking context
/// `ancestor`: that context is its own or one of its ancestors.
pub open spec fn in_context_subtree(
    contexts: Seq<StackingContextLink>,
    table: Seq<Option<usize>>,
    item_context: Option<StackingContextId>,
    ancestor: StackingContextId,
) -> bool {
    match item_context {
        None => false,
        Some(c) => context_chain(contexts, table, c, contexts.len()).contains(ancestor),
    }
}

/// Whether an item painted into `item_context` lies under stacking context
/// `ancestor`, found by walking up from its context.
pub fn item_in_stacking_context_subtree(
    contexts: &Vec<StackingContextLink>,
    lookups: &RenderLookupTables,
    item_context: Option<StackingContextId>,
    ancestor: StackingContextId,
) -> (b: bool)
    requires
        item_context matches Some(c) ==> chain_ends(contexts@, lookups.context_table(), c) || context_chain(
            contexts@,
            lookups.context_table(),
            c,
            contexts@.len(),
        ).contains(ancestor),
    ensures
        b == in_context_subtree(contexts@, lookups.context_table(), item_context, ancestor),
{
    let ghost cs = contexts@;
    let ghost table = lookups.context_table();
    match item_context {
        None => false,
        Some(c) => {
            let ghost full = context_chain(cs, table, c, cs.len());
            let mut cur = c;
            let ghost mut k: nat = 0;
            proof {
                lemma_chain_links(cs, table, c, cs.len());
                lemma_chain_links(cs, table, c, 0);
            }
            loop
                invariant
                    item_context == Some(c),
                    cs == contexts@,
                    table == lookups.context_table(),
                    full == context_chain(cs, table, c, cs.len()),
                    chain_ends(cs, table, c) || full.contains(ancestor),
                    k <= cs.len(),
                    cur == context_chain(cs, table, c, k).last(),
                    context_chain(cs, table, c, k).len() == k + 1,
                    forall|j: int| 0 <= j < k ==> context_chain(cs, table, c, k)[j] != ancestor,
                    full.len() >= k + 1,
                    forall|j: int| 0 <= j <= k ==> full[j] == context_chain(cs, table, c, k)[j],
                decreases cs.len() - k,
            {
                if cur == ancestor {
                    proof {
                        assert(full[k as int] == ancestor);
                    }
                    return true;
                }
                match parent_stacking_context(contexts, lookups, cur) {
                    None => {
                        proof {
                            lemma_chain_stable(cs, table, c, k, cs.len());
                            assert(context_chain(cs, table, c, k)[k as int] != ancestor);
                            assert(!full.contains(ancestor)) by {
                                if full.contains(ancestor) {
                                    let j = choose|j: int| 0 <= j < full.len() && full[j] == ancestor;
                                    assert(full[j] == context_chain(cs, table, c, k)[j]);
                                }
                            }
                        }
                        return false;
                    },
                    Some(p) => {
                        proof {
                            lemma_chain_step(cs, table, c, k);
                            let next = context_chain(cs, table, c, k + 1);
                            assert(next == context_chain(cs, table, c, k).push(p));
                            if k == cs.len() {
                                assert(!chain_ends(cs, table, c));
                                assert(full =~= context_chain(cs, table, c, k));
                                assert(context_chain(cs, table, c, k)[k as int] != ancestor);
                                assert(!full.contains(ancestor)) by {
                                    if full.contains(ancestor) {
                                        let j = choose|j: int| 0 <= j < full.len() && full[j] == ancestor;
                                        assert(full[j] == context_chain(cs, table, c, k)[j]);
                                    }
                                }
                            }
                            lemma_chain_prefix(cs, table, c, k + 1, cs.len());
                        }
                        cur = p;
                        proof {
                            k = k + 1;
                        }
                    },
                }
            }
        },
    }
}

/// A chain with more links allowed begins with the chain with fewer.
proof fn lemma_chain_prefix(
    contexts: Seq<StackingContextLink>,
    table: Seq<Option<usize>>,
    id: StackingContextId,
    k: nat,
    m: nat,
)
    requires
        k <= m,
    ensures
        context_chain(contexts, table, id, k).len() <= context_chain(contexts, table, id, m).len(),
        forall|j: int|
            0 <= j < context_chain(contexts, table, id, k).len() ==> #[trigger] context_chain(contexts, table, id, k)[j]
                == context_chain(contexts, table, id, m)[j],
    decreases k,
{
    match parent_context(contexts, table, id) {
        Some(p) => {
            if k > 0 {
                lemma_chain_prefix(contexts, table, p, (k - 1) as nat, (m - 1) as nat);
                let a = context_chain(contexts, table, id, k);
                let b = context_chain(contexts, table, id, m);
                let ra = context_chain(contexts, table, p, (k - 1) as nat);
                let rb = context_chain(contexts, table, p, (m - 1) as nat);
                assert forall|j: int| 0 <= j < a.len() implies #[trigger] a[j] == b[j] by {
                    if j > 0 {
                        assert(a[j] == ra[j - 1]);
                        assert(b[j] == rb[j - 1]);
                    }
                }
            } else {
                lemma_chain_links(contexts, table, id, m);
            }
        },
        None => {},
    }
}

} // verus!
