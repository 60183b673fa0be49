use std::collections::BTreeMap;

use vstd::prelude::*;

use crate::tile::{TileContentHandle, TileId, TileResourceDescriptor};
use crate::tile_cache::{handles_distinct, lemma_inv_facts, TileCache, TileContentSlot};

verus! {

/// What one synchronization with a tile cache changed: the surfaces that
/// must be created, and the handles the cache released, reused and evicted.
#[derive(Debug, Default, Clone, PartialEq, Eq)]
pub struct TileResourcePoolDelta {
    pub allocated: Vec<(TileContentHandle, TileResourceDescriptor)>,
    pub released: Vec<TileContentHandle>,
    pub reused: Vec<TileContentHandle>,
    pub evicted: Vec<TileContentHandle>,
}

/// The surfaces a renderer keeps alive, by handle number, each with the
/// description it was created with.
#[derive(Debug, Clone)]
pub struct TileResourcePool {
    active: BTreeMap<u64, TileResourceDescriptor>,
}

/// Whether some slot holds the handle numbered `k`.
pub open spec fn slot_holds(slots: Seq<(TileId, TileContentSlot)>, k: u64) -> bool {
    exists|i: int| 0 <= i < slots.len() && (#[trigger] slots[i]).1.handle.0 == k
}

/// Whether the handle numbered `k` is on `handles`.
pub open spec fn handle_listed(handles: Seq<TileContentHandle>, k: u64) -> bool {
    exists|i: int| 0 <= i < handles.len() && (#[trigger] handles[i]).0 == k
}

/// `m` without the handles of `handles`, taken out in order.
pub open spec fn without_handles(
    m: Map<u64, TileResourceDescriptor>,
    handles: Seq<TileContentHandle>,
) -> Map<u64, TileResourceDescriptor>
    decreases handles.len(),
{
    if handles.len() == 0 {
        m
    } else {
        without_handles(m, handles.drop_last()).remove(handles.last().0)
    }
}

/// Walking the slots in order over the surfaces `m`: a slot whose handle is
/// already alive with the same description is skipped; any other is
/// (re)created, recorded in the map and reported as allocated.
pub open spec fn sync_fold(
    m: Map<u64, TileResourceDescriptor>,
    slots: Seq<(TileId, TileContentSlot)>,
) -> (Map<u64, TileResourceDescriptor>, Seq<(TileContentHandle, TileResourceDescriptor)>)
    decreases slots.len(),
{
    if slots.len() == 0 {
        (m, Seq::empty())
    } else {
        let prev = sync_fold(m, slots.drop_last());
        let slot = slots.last().1;
        if prev.0.contains_key(slot.handle.0) && prev.0[slot.handle.0] == slot.resource {
            prev
        } else {
            (prev.0.insert(slot.handle.0, slot.resource), prev.1.push((slot.handle, slot.resource)))
        }
    }
}

/// Whether `slot`'s surface is alive in `m` with the slot's description.
pub open spec fn alive_as(m: Map<u64, TileResourceDescriptor>, slot: TileContentSlot) -> bool {
    m.contains_key(slot.handle.0) && m[slot.handle.0] == slot.resource
}

/// The surfaces to create for `slots` over the surfaces `m`: in slot order,
/// each slot whose handle is not alive in `m` with the slot's description.
pub open spec fn to_allocate(
    m: Map<u64, TileResourceDescriptor>,
    slots: Seq<(TileId, TileContentSlot)>,
) -> Seq<(TileContentHandle, TileResourceDescriptor)>
    decreases slots.len(),
{
    if slots.len() == 0 {
        Seq::empty()
    } else {
        let prev = to_allocate(m, slots.drop_last());
        let slot = slots.last().1;
        if alive_as(m, slot) {
            prev
        } else {
            prev.push((slot.handle, slot.resource))
        }
    }
}

/// With slots holding distinct handles, the walk creates exactly the
/// surfaces of the slots not already alive as they are.
pub proof fn lemma_sync_fold_allocates(m: Map<u64, TileResourceDescriptor>, slots: Seq<(TileId, TileContentSlot)>)
    requires
        forall|i: int, j: int|
            0 <= i < slots.len() && 0 <= j < slots.len() && i != j ==> #[trigger] slots[i].1.handle
                != #[trigger] slots[j].1.handle,
    ensures
        sync_fold(m, slots).1 == to_allocate(m, slots),
    decreases slots.len(),
{
    if slots.len() > 0 {
        let s = slots.drop_last();
        assert forall|i: int, j: int| 0 <= i < s.len() && 0 <= j < s.len() && i != j implies #[trigger] s[i].1.handle
            != #[trigger] s[j].1.handle by {
            assert(s[i] == slots[i] && s[j] == slots[j]);
        }
        lemma_sync_fold_allocates(m, s);
        let h = slots.last().1.handle.0;
        if slot_holds(s, h) {
            let i = choose|i: int| 0 <= i < s.len() && (#[trigger] s[i]).1.handle.0 == h;
            assert(slots[i] == s[i]);
            assert(slots[i].1.handle != slots[slots.len() - 1].1.handle);
        }
        lemma_sync_fold_other(m, s, h);
    }
}

/// After the walk, each slot's handle is alive with the slot's description
/// (the slots holding distinct handles), and any other handle is as before.
pub proof fn lemma_sync_fold(m: Map<u64, TileResourceDescriptor>, slots: Seq<(TileId, TileContentSlot)>)
    requires
        forall|i: int, j: int|
            0 <= i < slots.len() && 0 <= j < slots.len() && i != j ==> #[trigger] slots[i].1.handle
                != #[trigger] slots[j].1.handle,
    ensures
        forall|i: int|
            0 <= i < slots.len() ==> sync_fold(m, slots).0.contains_key((#[trigger] slots[i]).1.handle.0)
                && sync_fold(m, slots).0[slots[i].1.handle.0] == slots[i].1.resource,
        forall|k: u64|
            !slot_holds(slots, k) ==> (sync_fold(
                m,
                slots,
            ).0.contains_key(k) <==> m.contains_key(k)) && (m.contains_key(k) ==> sync_fold(m, slots).0[k]
                == m[k]),
    decreases slots.len(),
{
    if slots.len() > 0 {
        let s = slots.drop_last();
        assert forall|i: int, j: int| 0 <= i < s.len() && 0 <= j < s.len() && i != j implies #[trigger] s[i].1.handle
            != #[trigger] s[j].1.handle by {
            assert(s[i] == slots[i] && s[j] == slots[j]);
        }
        lemma_sync_fold(m, s);
        let n = slots.len() - 1;
        assert forall|i: int|
            0 <= i < slots.len() implies sync_fold(m, slots).0.contains_key((#[trigger] slots[i]).1.handle.0)
                && sync_fold(m, slots).0[slots[i].1.handle.0] == slots[i].1.resource by {
            if i < n {
                assert(s[i] == slots[i]);
                assert(slots[i].1.handle != slots[n].1.handle);
            }
        }
    }
    assert forall|k: u64|
        !slot_holds(slots, k) implies (sync_fold(
            m,
            slots,
        ).0.contains_key(k) <==> m.contains_key(k)) && (m.contains_key(k) ==> sync_fold(m, slots).0[k]
            == m[k]) by {
        lemma_sync_fold_other(m, slots, k);
    }
}

/// A handle no slot holds keeps its entry through the walk.
pub proof fn lemma_sync_fold_other(
    m: Map<u64, TileResourceDescriptor>,
    slots: Seq<(TileId, TileContentSlot)>,
    k: u64,
)
    requires
        !slot_holds(slots, k),
    ensures
        sync_fold(m, slots).0.contains_key(k) <==> m.contains_key(k),
        m.contains_key(k) ==> sync_fold(m, slots).0[k] == m[k],
    decreases slots.len(),
{
    if slots.len() > 0 {
        let s = slots.drop_last();
        if slot_holds(s, k) {
            let i = choose|i: int| 0 <= i < s.len() && (#[trigger] s[i]).1.handle.0 == k;
            assert(slots[i] == s[i]);
        }
        lemma_sync_fold_other(m, s, k);
        assert(slots[slots.len() - 1].1.handle.0 != k);
    }
}

/// A handle taken out is not in the result, and any other keeps its entry.
pub proof fn lemma_without_handles(m: Map<u64, TileResourceDescriptor>, handles: Seq<TileContentHandle>)
    ensures
        forall|i: int| 0 <= i < handles.len() ==> !without_handles(m, handles).contains_key((#[trigger] handles[i]).0),
        forall|k: u64|
            !handle_listed(handles, k) ==> (without_handles(
                m,
                handles,
            ).contains_key(k) <==> m.contains_key(k)) && (m.contains_key(k) ==> without_handles(m, handles)[k]
                == m[k]),
    decreases handles.len(),
{
    if handles.len() > 0 {
        let h = handles.drop_last();
        lemma_without_handles(m, h);
        assert forall|i: int| 0 <= i < handles.len() implies !without_handles(m, handles).contains_key(
            (#[trigger] handles[i]).0,
        ) by {
            if i < handles.len() - 1 {
                assert(h[i] == handles[i]);
            }
        }
    }
    assert forall|k: u64|
        !handle_listed(handles, k) implies (without_handles(
            m,
            handles,
        ).contains_key(k) <==> m.contains_key(k)) && (m.contains_key(k) ==> without_handles(m, handles)[k]
            == m[k]) by {
        lemma_without_handles_other(m, handles, k);
    }
}

/// A handle not taken out keeps its entry.
pub proof fn lemma_without_handles_other(
    m: Map<u64, TileResourceDescriptor>,
    handles: Seq<TileContentHandle>,
    k: u64,
)
    requires
        !handle_listed(handles, k),
    ensures
        without_handles(m, handles).contains_key(k) <==> m.contains_key(k),
        m.contains_key(k) ==> without_handles(m, handles)[k] == m[k],
    decreases handles.len(),
{
    if handles.len() > 0 {
        let h = handles.drop_last();
        if handle_listed(h, k) {
            let i = choose|i: int| 0 <= i < h.len() && (#[trigger] h[i]).0 == k;
            assert(handles[i] == h[i]);
        }
        lemma_without_handles_other(m, h, k);
        assert(handles[handles.len() - 1].0 != k);
    }
}

/// After a synchronization every tile's surface is alive with its
/// description, and no released handle is.
pub proof fn lemma_synchronized(
    cache: TileCache,
    start: Map<u64, TileResourceDescriptor>,
    removed: Map<u64, TileResourceDescriptor>,
)
    requires
        cache.wf(),
        removed == without_handles(start, cache.released()),
    ensures
        forall|t: TileId|
            cache.has_slot(t) ==> sync_fold(removed, cache.slots()).0.contains_key(cache.slot(t).handle.0)
                && sync_fold(removed, cache.slots()).0[cache.slot(t).handle.0] == cache.slot(t).resource,
        forall|i: int|
            0 <= i < cache.released().len() ==> !sync_fold(removed, cache.slots()).0.contains_key(
                (#[trigger] cache.released()[i]).0,
            ),
        sync_fold(removed, cache.slots()).1 == to_allocate(removed, cache.slots()),
{
    let s = cache.slots();
    lemma_inv_facts(
        s,
        cache.pool(),
        cache.byte_count(),
        cache.serial(),
        cache.next_handle(),
        cache.released(),
        cache.evicted(),
    );
    assert(handles_distinct(s, cache.pool()));
    lemma_sync_fold(removed, s);
    lemma_sync_fold_allocates(removed, s);
    lemma_without_handles(start, cache.released());
    assert forall|t: TileId| cache.has_slot(t) implies sync_fold(removed, s).0.contains_key(
        cache.slot(t).handle.0,
    ) && sync_fold(removed, s).0[cache.slot(t).handle.0] == cache.slot(t).resource by {
        let k = choose|k: int| 0 <= k < s.len() && #[trigger] s[k].0 == t;
        assert(s[k].0 == t);
    }
    assert forall|i: int| 0 <= i < cache.released().len() implies !sync_fold(removed, s).0.contains_key(
        (#[trigger] cache.released()[i]).0,
    ) by {
        let h = cache.released()[i];
        crate::tile_cache::lemma_given_up_not_held(cache, h);
        if slot_holds(s, h.0) {
            let k = choose|k: int| 0 <= k < s.len() && (#[trigger] s[k]).1.handle.0 == h.0;
            assert(s[k].1.handle != h);
        }
    }
}

impl TileResourcePool {
    /// The surfaces alive, by handle number.
    pub closed spec fn view(&self) -> Map<u64, TileResourceDescriptor> {
        self.active@
    }

    /// An empty pool.
    pub fn new() -> (pool: Self)
        ensures
            pool.view() == Map::<u64, TileResourceDescriptor>::empty(),
    {
        TileResourcePool { active: BTreeMap::new() }
    }

    /// How many surfaces are alive.
    pub fn resource_count(&self) -> (n: usize)
        ensures
            n == self.view().len(),
    {
        self.active.len()
    }

    /// Brings the pool in line with `cache`: the handles the cache released
    /// are dropped, every tile's surface is made alive with its slot's
    /// description (reported as allocated unless it already was), and the
    /// cache's released, reused and evicted lists are handed over and emptied.
    pub fn synchronize(&mut self, cache: &mut TileCache) -> (delta: TileResourcePoolDelta)
        requires
            old(cache).wf(),
        ensures
            final(cache).wf(),
            final(cache).slots() == old(cache).slots(),
            final(cache).pool() == old(cache).pool(),
            final(cache).byte_count() == old(cache).byte_count(),
            final(cache).next_handle() == old(cache).next_handle(),
            final(cache).generation() == old(cache).generation(),
            final(cache).stats() == old(cache).stats(),
            final(cache).cached_grid() == old(cache).cached_grid(),
            final(cache).cached_tiles() == old(cache).cached_tiles(),
            final(cache).released().len() == 0,
            final(cache).reused().len() == 0,
            final(cache).evicted().len() == 0,
            delta.released@ == old(cache).released(),
            delta.reused@ == old(cache).reused(),
            delta.evicted@ == old(cache).evicted(),
            (final(self).view(), delta.allocated@) == sync_fold(
                without_handles(old(self).view(), old(cache).released()),
                old(cache).slots(),
            ),
            delta.allocated@ == to_allocate(
                without_handles(old(self).view(), old(cache).released()),
                old(cache).slots(),
            ),
            forall|t: TileId|
                old(cache).has_slot(t) ==> final(self).view().contains_key(old(cache).slot(t).handle.0)
                    && final(self).view()[old(cache).slot(t).handle.0] == old(cache).slot(t).resource,
            forall|i: int|
                0 <= i < old(cache).released().len() ==> !final(self).view().contains_key(
                    (#[trigger] old(cache).released()[i]).0,
                ),
    {
        let released = cache.take_released_content_handles();
        let reused = cache.take_reused_content_handles();
        let evicted = cache.take_evicted_content_handles();
        let ghost start = self.view();
        let mut i: usize = 0;
        while i < released.len()
            invariant
                0 <= i <= released@.len(),
                self.view() == without_handles(start, released@.take(i as int)),
            decreases released@.len() - i,
        {
            proof {
                assert(released@.take(i + 1).drop_last() =~= released@.take(i as int));
            }
            let h = released[i];
            self.active.remove(&h.0);
            i = i + 1;
        }
        proof {
            assert(released@.take(released@.len() as int) =~= released@);
        }
        let ghost removed = self.view();
        let slots = cache.content_slots();
        let mut allocated: Vec<(TileContentHandle, TileResourceDescriptor)> = Vec::new();
        let mut j: usize = 0;
        while j < slots.len()
            invariant
                0 <= j <= slots@.len(),
                (self.view(), allocated@) == sync_fold(removed, slots@.take(j as int)),
            decreases slots@.len() - j,
        {
            proof {
                assert(slots@.take(j + 1).drop_last() =~= slots@.take(j as int));
            }
            let slot = slots[j].1;
            let same = match self.active.get(&slot.handle.0) {
                Some(existing) => *existing == slot.resource,
                None => false,
            };
            if !same {
                self.active.insert(slot.handle.0, slot.resource);
                allocated.push((slot.handle, slot.resource));
            }
            j = j + 1;
        }
        proof {
            assert(slots@.take(slots@.len() as int) =~= slots@);
            lemma_synchronized(*old(cache), start, removed);
        }
        TileResourcePoolDelta { allocated, released, reused, evicted }
    }
}

impl Default for TileResourcePool {
    /// A pool with no surface alive, as `new` gives.
    fn default() -> (pool: Self)
        ensures
            pool.view() == Map::<u64, TileResourceDescriptor>::empty(),
    {
        TileResourcePool::new()
    }
}

} // verus!
