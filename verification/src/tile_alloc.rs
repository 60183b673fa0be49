//! The surface bookkeeping of one frame of the tile cache, stated as a
//! replay: which surface each tile receives and what the pool holds after.
use vstd::prelude::*;

use crate::damage::DamageRegion;
use crate::tile::{tile_lt, tiles_sorted, TileContentHandle, TileId, TileLayout, TileResourceDescriptor, TileSpan};
use crate::tile_cache::{
    desc_count, first_of_desc, group_end, has_desc, last_of_desc, pool_after_eviction, seq_has_slot, seq_slot,
    ReusableTileHandle, TileCache, TilePlan, takes_surface, TileContentSlot, MAX_REUSABLE_PER_DESCRIPTOR,
};

verus! {

/// The surface bookkeeping of a frame in progress: the reusable pool, the
/// next new handle, the handles reported as reused, and the recycling serial.
pub type Allocation = (Seq<ReusableTileHandle>, int, Seq<TileContentHandle>, int);

/// The bookkeeping of cache `c`.
#[verifier::opaque]
pub open spec fn alloc_of(c: TileCache) -> Allocation {
    (c.pool(), c.next_handle() as int, c.reused(), c.serial() as int)
}

/// The pool after `slot`'s surface is recycled with serial `serial + 1`: it
/// becomes the newest of its descriptor's group, and when that group then
/// holds more than `MAX_REUSABLE_PER_DESCRIPTOR` surfaces its oldest one is
/// released.
#[verifier::opaque]
pub open spec fn recycle_into(pool: Seq<ReusableTileHandle>, serial: int, slot: TileContentSlot) -> Seq<
    ReusableTileHandle,
> {
    let e = ReusableTileHandle {
        descriptor: slot.resource,
        handle: slot.handle,
        last_used_generation: slot.generation,
        access_serial: (serial + 1) as u64,
    };
    let q = pool.insert(group_end(pool, slot.resource), e);
    if desc_count(q, slot.resource) > MAX_REUSABLE_PER_DESCRIPTOR {
        q.remove(first_of_desc(q, slot.resource))
    } else {
        q
    }
}

/// The pool after the surfaces of `slots` are recycled in order, starting
/// from serial `serial`.
#[verifier::opaque]
pub open spec fn recycle_all_into(pool: Seq<ReusableTileHandle>, serial: int, slots: Seq<(TileId, TileContentSlot)>) -> Seq<
    ReusableTileHandle,
>
    decreases slots.len(),
{
    if slots.len() == 0 {
        pool
    } else {
        recycle_all_into(recycle_into(pool, serial, slots[0].1), serial + 1, slots.drop_first())
    }
}

/// Recycling `slot` in a frame in progress.
#[verifier::opaque]
pub open spec fn recycled(a: Allocation, slot: TileContentSlot) -> Allocation {
    (recycle_into(a.0, a.3, slot), a.1, a.2, a.3 + 1)
}

/// The handle a tile asking for descriptor `d` receives: the newest pooled
/// surface of `d`, or else the next new handle.
#[verifier::opaque]
pub open spec fn taken_handle(a: Allocation, d: TileResourceDescriptor) -> TileContentHandle {
    if has_desc(a.0, d) {
        a.0[last_of_desc(a.0, d)].handle
    } else {
        TileContentHandle(a.1 as u64)
    }
}

/// The bookkeeping after a tile receives a surface of descriptor `d`: a
/// pooled surface leaves the pool and is reported as reused; a new handle
/// advances the next one.
#[verifier::opaque]
pub open spec fn taken(a: Allocation, d: TileResourceDescriptor) -> Allocation {
    if has_desc(a.0, d) {
        let k = last_of_desc(a.0, d);
        (a.0.remove(k), a.1, a.2.push(a.0[k].handle), a.3)
    } else {
        (a.0, a.1 + 1, a.2, a.3)
    }
}

/// Before dirty tile `t` receives its surface, after the tiles of `prefix`:
/// its slot of `slots`, if any, has gone back to the pool.
#[verifier::opaque]
pub open spec fn dirty_pre(
    a: Allocation,
    slots: Seq<(TileId, TileContentSlot)>,
    prefix: Seq<TileId>,
    t: TileId,
    layout: TileLayout,
) -> Allocation {
    let b = dirty_alloc(a, slots, prefix, layout);
    if seq_has_slot(slots, t) {
        recycled(b, seq_slot(slots, t))
    } else {
        b
    }
}

/// The bookkeeping after each tile of `dirty`, in order, gave its slot of
/// `slots` (if any) back and received a surface of its grid descriptor.
#[verifier::opaque]
pub open spec fn dirty_alloc(
    a: Allocation,
    slots: Seq<(TileId, TileContentSlot)>,
    dirty: Seq<TileId>,
    layout: TileLayout,
) -> Allocation
    decreases dirty.len(),
{
    if dirty.len() == 0 {
        a
    } else {
        let t = dirty.last();
        let b = dirty_alloc(a, slots, dirty.drop_last(), layout);
        let c = if seq_has_slot(slots, t) {
            recycled(b, seq_slot(slots, t))
        } else {
            b
        };
        taken(c, layout.spec_descriptor_for(t))
    }
}

/// Whether a clean tile needs a surface: it is not dirty and has no slot.
pub open spec fn needs_surface(slots: Seq<(TileId, TileContentSlot)>, dirty: Seq<TileId>, t: TileId) -> bool {
    !dirty.contains(t) && !seq_has_slot(slots, t)
}

/// The bookkeeping after each tile of `tiles`, in order, that needs a
/// surface received one of its grid descriptor.
#[verifier::opaque]
pub open spec fn clean_alloc(
    a: Allocation,
    slots: Seq<(TileId, TileContentSlot)>,
    tiles: Seq<TileId>,
    dirty: Seq<TileId>,
    layout: TileLayout,
) -> Allocation
    decreases tiles.len(),
{
    if tiles.len() == 0 {
        a
    } else {
        let t = tiles.last();
        let b = clean_alloc(a, slots, tiles.drop_last(), dirty, layout);
        if needs_surface(slots, dirty, t) {
            taken(b, layout.spec_descriptor_for(t))
        } else {
            b
        }
    }
}

/// The slots a frame plans from: none on a full rebuild, else the cache's.
pub open spec fn planned_slots(before: TileCache, full: bool) -> Seq<(TileId, TileContentSlot)> {
    if full {
        Seq::empty()
    } else {
        before.slots()
    }
}

/// The bookkeeping once planning is done: on a full rebuild every slot's
/// surface went back to the pool, in tile order; nothing is reused yet.
#[verifier::opaque]
pub open spec fn planned_alloc(before: TileCache, full: bool) -> Allocation {
    let pool = if full {
        recycle_all_into(before.pool(), before.serial() as int, before.slots())
    } else {
        before.pool()
    };
    let serial = if full {
        before.serial() + before.slots().len()
    } else {
        before.serial() as int
    };
    (pool, before.next_handle() as int, Seq::empty(), serial)
}

/// The bookkeeping once the dirty tiles of a frame got their surfaces.
#[verifier::opaque]
pub open spec fn dirty_done(before: TileCache, layout: TileLayout, full: bool, dirty: Seq<TileId>) -> Allocation {
    dirty_alloc(planned_alloc(before, full), planned_slots(before, full), dirty, layout)
}

/// The bookkeeping once every tile of a frame has a surface, before the
/// pool is trimmed.
#[verifier::opaque]
pub open spec fn frame_alloc(before: TileCache, layout: TileLayout, full: bool, dirty: Seq<TileId>) -> Allocation {
    clean_alloc(
        dirty_done(before, layout, full, dirty),
        planned_slots(before, full),
        layout.spec_all_tiles(),
        dirty,
        layout,
    )
}

/// Exactly how a frame planned from `before` with `dirty` as its dirty tiles
/// handed out surfaces and left the pool, in `after`: each dirty tile, in
/// order, gives its old surface back as the newest of its descriptor and
/// then takes the newest pooled surface of its grid descriptor (or the next
/// new handle); each clean grid tile without a slot, in tile order, does the
/// same; the pool then loses its stale surfaces and its least recently
/// recycled ones while over the byte budget.
#[verifier::opaque]
pub open spec fn frame_exact(before: TileCache, after: TileCache, layout: TileLayout, full: bool, dirty: Seq<TileId>) -> bool {
    let a = frame_alloc(before, layout, full, dirty);
    let slots = planned_slots(before, full);
    let all = layout.spec_all_tiles();
    &&& after.pool() == pool_after_eviction(a.0, after.generation())
    &&& after.next_handle() == a.1
    &&& after.reused() == a.2
    &&& after.serial() == a.3
    &&& forall|j: int|
        0 <= j < dirty.len() ==> after.slot(#[trigger] dirty[j]).handle == taken_handle(
            dirty_pre(planned_alloc(before, full), slots, dirty.take(j), dirty[j], layout),
            layout.spec_descriptor_for(dirty[j]),
        )
    &&& forall|j: int|
        0 <= j < all.len() && needs_surface(slots, dirty, #[trigger] all[j]) ==> after.slot(all[j]).handle
            == taken_handle(
            clean_alloc(dirty_done(before, layout, full, dirty), slots, all.take(j), dirty, layout),
            layout.spec_descriptor_for(all[j]),
        )
}

/// Recycling `slot` as `recycle_into` states it.
pub proof fn lemma_recycle_into(pool: Seq<ReusableTileHandle>, serial: int, slot: TileContentSlot)
    ensures
        recycle_into(pool, serial, slot) == ({
            let e = ReusableTileHandle {
                descriptor: slot.resource,
                handle: slot.handle,
                last_used_generation: slot.generation,
                access_serial: (serial + 1) as u64,
            };
            let q = pool.insert(group_end(pool, slot.resource), e);
            if desc_count(q, slot.resource) > MAX_REUSABLE_PER_DESCRIPTOR {
                q.remove(first_of_desc(q, slot.resource))
            } else {
                q
            }
        }),
{
    reveal(recycle_into);
}

/// Recycling a list of slots: nothing for none, else the first and then the rest.
pub proof fn lemma_recycle_all_into(pool: Seq<ReusableTileHandle>, serial: int, slots: Seq<(TileId, TileContentSlot)>)
    ensures
        slots.len() == 0 ==> recycle_all_into(pool, serial, slots) == pool,
        slots.len() > 0 ==> recycle_all_into(pool, serial, slots) == recycle_all_into(
            recycle_into(pool, serial, slots[0].1),
            serial + 1,
            slots.drop_first(),
        ),
{
    reveal(recycle_all_into);
}

/// A slot recycled by the cache moves the bookkeeping as `recycled` says.
pub proof fn lemma_recycled(before: TileCache, after: TileCache, slot: TileContentSlot)
    requires
        after.pool() == recycle_into(before.pool(), before.serial() as int, slot),
        after.serial() == before.serial() + 1,
        after.next_handle() == before.next_handle(),
        after.reused() == before.reused(),
    ensures
        alloc_of(after) == recycled(alloc_of(before), slot),
{
    reveal(alloc_of);
    reveal(recycled);
}

/// Two caches with the same bookkeeping fields have the same bookkeeping.
pub proof fn lemma_alloc_same(a: TileCache, b: TileCache)
    requires
        a.pool() == b.pool(),
        a.next_handle() == b.next_handle(),
        a.reused() == b.reused(),
        a.serial() == b.serial(),
    ensures
        alloc_of(a) == alloc_of(b),
{
    reveal(alloc_of);
}

/// One more dirty tile: its old slot (if any) is recycled, then it takes a
/// surface.
pub proof fn lemma_dirty_step(
    a: Allocation,
    slots: Seq<(TileId, TileContentSlot)>,
    d: Seq<TileId>,
    i: int,
    layout: TileLayout,
    s0: TileCache,
    s1: TileCache,
    s2: TileCache,
    h: TileContentHandle,
)
    requires
        0 <= i < d.len(),
        alloc_of(s0) == dirty_alloc(a, slots, d.take(i), layout),
        seq_has_slot(slots, d[i]) ==> alloc_of(s1) == recycled(alloc_of(s0), seq_slot(slots, d[i])),
        !seq_has_slot(slots, d[i]) ==> alloc_of(s1) == alloc_of(s0),
        alloc_of(s2) == taken(alloc_of(s1), layout.spec_descriptor_for(d[i])),
        h == taken_handle(alloc_of(s1), layout.spec_descriptor_for(d[i])),
    ensures
        alloc_of(s2) == dirty_alloc(a, slots, d.take(i + 1), layout),
        h == taken_handle(dirty_pre(a, slots, d.take(i), d[i], layout), layout.spec_descriptor_for(d[i])),
{
    reveal(dirty_pre);
    reveal_with_fuel(dirty_alloc, 1);
    assert(d.take(i + 1).drop_last() =~= d.take(i));
    assert(d.take(i + 1).last() == d[i]);
}

/// One more tile of the grid in the clean pass.
pub proof fn lemma_clean_step(
    a: Allocation,
    slots: Seq<(TileId, TileContentSlot)>,
    tiles: Seq<TileId>,
    dirty: Seq<TileId>,
    k: int,
    layout: TileLayout,
    s0: TileCache,
    s1: TileCache,
    h: TileContentHandle,
)
    requires
        0 <= k < tiles.len(),
        alloc_of(s0) == clean_alloc(a, slots, tiles.take(k), dirty, layout),
        needs_surface(slots, dirty, tiles[k]) ==> alloc_of(s1) == taken(alloc_of(s0), layout.spec_descriptor_for(tiles[k]))
            && h == taken_handle(alloc_of(s0), layout.spec_descriptor_for(tiles[k])),
        !needs_surface(slots, dirty, tiles[k]) ==> alloc_of(s1) == alloc_of(s0),
    ensures
        alloc_of(s1) == clean_alloc(a, slots, tiles.take(k + 1), dirty, layout),
        needs_surface(slots, dirty, tiles[k]) ==> h == taken_handle(
            clean_alloc(a, slots, tiles.take(k), dirty, layout),
            layout.spec_descriptor_for(tiles[k]),
        ),
{
    reveal_with_fuel(clean_alloc, 1);
    assert(tiles.take(k + 1).drop_last() =~= tiles.take(k));
    assert(tiles.take(k + 1).last() == tiles[k]);
}

/// The clean pass depends on the slots only through which tiles need a surface.
pub proof fn lemma_clean_alloc_congr(
    a: Allocation,
    s1: Seq<(TileId, TileContentSlot)>,
    s2: Seq<(TileId, TileContentSlot)>,
    tiles: Seq<TileId>,
    dirty: Seq<TileId>,
    layout: TileLayout,
)
    requires
        forall|t: TileId| needs_surface(s1, dirty, t) == needs_surface(s2, dirty, t),
    ensures
        clean_alloc(a, s1, tiles, dirty, layout) == clean_alloc(a, s2, tiles, dirty, layout),
    decreases tiles.len(),
{
    reveal_with_fuel(clean_alloc, 1);
    if tiles.len() > 0 {
        lemma_clean_alloc_congr(a, s1, s2, tiles.drop_last(), dirty, layout);
    }
}

/// The whole frame, from the bookkeeping of each pass.
pub proof fn lemma_frame_exact(
    before: TileCache,
    mid: TileCache,
    after_dirty: TileCache,
    after_clean: TileCache,
    after: TileCache,
    layout: TileLayout,
    full: bool,
    dirty: Seq<TileId>,
)
    requires
        mid.pool() == (if full {
            recycle_all_into(before.pool(), before.serial() as int, before.slots())
        } else {
            before.pool()
        }),
        mid.serial() == (if full {
            before.serial() + before.slots().len()
        } else {
            before.serial() as int
        }),
        mid.next_handle() == before.next_handle(),
        mid.reused() == Seq::<TileContentHandle>::empty(),
        mid.slots() == planned_slots(before, full),
        alloc_of(after_dirty) == dirty_alloc(alloc_of(mid), mid.slots(), dirty, layout),
        forall|j: int|
            0 <= j < dirty.len() ==> after_dirty.slot(#[trigger] dirty[j]).handle == taken_handle(
                dirty_pre(alloc_of(mid), mid.slots(), dirty.take(j), dirty[j], layout),
                layout.spec_descriptor_for(dirty[j]),
            ),
        forall|t: TileId| !dirty.contains(t) ==> (after_dirty.has_slot(t) <==> mid.has_slot(t)),
        alloc_of(after_clean) == clean_alloc(
            alloc_of(after_dirty),
            after_dirty.slots(),
            layout.spec_all_tiles(),
            dirty,
            layout,
        ),
        forall|j: int|
            0 <= j < layout.spec_all_tiles().len() && needs_surface(
                after_dirty.slots(),
                dirty,
                #[trigger] layout.spec_all_tiles()[j],
            ) ==> after_clean.slot(layout.spec_all_tiles()[j]).handle == taken_handle(
                clean_alloc(
                    alloc_of(after_dirty),
                    after_dirty.slots(),
                    layout.spec_all_tiles().take(j),
                    dirty,
                    layout,
                ),
                layout.spec_descriptor_for(layout.spec_all_tiles()[j]),
            ),
        forall|t: TileId| dirty.contains(t) ==> after_clean.slot(t) == after_dirty.slot(t),
        after.slots() == after_clean.slots(),
        after.pool() == pool_after_eviction(after_clean.pool(), after.generation()),
        after.next_handle() == after_clean.next_handle(),
        after.reused() == after_clean.reused(),
        after.serial() == after_clean.serial(),
    ensures
        frame_exact(before, after, layout, full, dirty),
{
    reveal(frame_exact);
    reveal(frame_alloc);
    reveal(dirty_done);
    reveal(alloc_of);
    reveal(planned_alloc);
    let slots = planned_slots(before, full);
    let all = layout.spec_all_tiles();
    assert(alloc_of(mid) == planned_alloc(before, full));
    assert forall|t: TileId| needs_surface(after_dirty.slots(), dirty, t) == needs_surface(slots, dirty, t) by {
        if !dirty.contains(t) {
            assert(after_dirty.has_slot(t) <==> mid.has_slot(t));
        }
    }
    let ad = alloc_of(after_dirty);
    lemma_clean_alloc_congr(ad, after_dirty.slots(), slots, all, dirty, layout);
    assert forall|j: int|
        0 <= j < all.len() && needs_surface(slots, dirty, #[trigger] all[j]) implies after.slot(all[j]).handle
            == taken_handle(
            clean_alloc(dirty_done(before, layout, full, dirty), slots, all.take(j), dirty, layout),
            layout.spec_descriptor_for(all[j]),
        ) by {
        lemma_clean_alloc_congr(ad, after_dirty.slots(), slots, all.take(j), dirty, layout);
        assert(needs_surface(after_dirty.slots(), dirty, all[j]));
    }
    assert forall|j: int| 0 <= j < dirty.len() implies after.slot(#[trigger] dirty[j]).handle == taken_handle(
        dirty_pre(planned_alloc(before, full), slots, dirty.take(j), dirty[j], layout),
        layout.spec_descriptor_for(dirty[j]),
    ) by {
        assert(dirty.contains(dirty[j]));
    }
}

/// Two strictly sorted lists of the same tiles are the same list.
pub proof fn lemma_sorted_tiles_unique(a: Seq<TileId>, b: Seq<TileId>)
    requires
        tiles_sorted(a),
        tiles_sorted(b),
        forall|t: TileId| a.contains(t) <==> b.contains(t),
    ensures
        a == b,
    decreases a.len() + b.len(),
{
    if a.len() == 0 {
        if b.len() > 0 {
            assert(b.contains(b[0]));
        }
        assert(a =~= b);
    } else if b.len() == 0 {
        assert(a.contains(a[0]));
    } else {
        let la = a.last();
        let lb = b.last();
        assert(a.contains(la));
        assert(b.contains(lb));
        let ia = choose|i: int| 0 <= i < a.len() && a[i] == lb;
        let ib = choose|i: int| 0 <= i < b.len() && b[i] == la;
        if la != lb {
            if ia < a.len() - 1 {
                assert(tile_lt(a[ia], la));
            }
            if ib < b.len() - 1 {
                assert(tile_lt(b[ib], lb));
            }
        }
        assert(la == lb);
        let da = a.drop_last();
        let db = b.drop_last();
        assert forall|t: TileId| da.contains(t) <==> db.contains(t) by {
            if da.contains(t) {
                let i = choose|i: int| 0 <= i < da.len() && da[i] == t;
                assert(tile_lt(a[i], la));
                assert(b.contains(t));
                let j = choose|j: int| 0 <= j < b.len() && b[j] == t;
                assert(j != b.len() - 1);
                assert(db[j] == t);
            }
            if db.contains(t) {
                let j = choose|j: int| 0 <= j < db.len() && db[j] == t;
                assert(tile_lt(b[j], lb));
                assert(a.contains(t));
                let i = choose|i: int| 0 <= i < a.len() && a[i] == t;
                assert(i != a.len() - 1);
                assert(da[i] == t);
            }
        }
        lemma_sorted_tiles_unique(da, db);
        assert(a =~= da.push(la));
        assert(b =~= db.push(lb));
    }
}

/// Planning is deterministic: two frames planned from the same cache under
/// the same damage have the same plan, and hand out surfaces and leave the
/// pool alike.
pub proof fn lemma_frames_agree(
    before: TileCache,
    layout: TileLayout,
    damage: DamageRegion<Option<TileSpan>>,
    p1: TilePlan,
    p2: TilePlan,
    a1: TileCache,
    a2: TileCache,
)
    requires
        before.plans(layout, damage, p1),
        before.plans(layout, damage, p2),
        frame_exact(before, a1, layout, before.is_full_rebuild(layout, damage), p1.dirty_tiles@),
        frame_exact(before, a2, layout, before.is_full_rebuild(layout, damage), p2.dirty_tiles@),
        a1.generation() == a2.generation(),
    ensures
        p1.dirty_tiles@ == p2.dirty_tiles@,
        p1.reused_tiles@ == p2.reused_tiles@,
        p1.stats == p2.stats,
        a1.pool() == a2.pool(),
        a1.next_handle() == a2.next_handle(),
        a1.reused() == a2.reused(),
        a1.serial() == a2.serial(),
        forall|t: TileId| #[trigger] p1.dirty_tiles@.contains(t) ==> a1.slot(t).handle == a2.slot(t).handle,
{
    let d1 = p1.dirty_tiles@;
    let d2 = p2.dirty_tiles@;
    if !before.is_full_rebuild(layout, damage) {
        if damage is Rects {
            lemma_sorted_tiles_unique(d1, d2);
        } else {
            assert(d1 =~= d2);
        }
    }
    assert(d1 == d2);
    reveal(frame_exact);
    assert forall|t: TileId| #[trigger] d1.contains(t) implies a1.slot(t).handle == a2.slot(t).handle by {
        let j = choose|j: int| 0 <= j < d1.len() && d1[j] == t;
        assert(a1.slot(d1[j]).handle == a2.slot(d1[j]).handle);
    }
}

/// A surface handed out by the acquisition rule is the one `taken_handle`
/// names, and the bookkeeping moves as `taken` says.
pub proof fn lemma_takes(before: TileCache, after: TileCache, d: TileResourceDescriptor, h: TileContentHandle)
    requires
        takes_surface(before, after, d, h),
        after.serial() == before.serial(),
    ensures
        alloc_of(after) == taken(alloc_of(before), d),
        h == taken_handle(alloc_of(before), d),
{
    reveal(takes_surface);
    reveal(alloc_of);
    reveal(taken);
    reveal(taken_handle);
}

} // verus!
