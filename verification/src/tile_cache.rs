use vstd::prelude::*;

use crate::composite::{
    CompositeLayerPass, CompositePass, CompositeTileRef, CompositorBlendMode, CompositorLayerId, CompositorLayerTree,
    CompositorSubmission,
};
use crate::damage::DamageRegion;
use crate::tile_alloc::{
    alloc_of, clean_alloc, dirty_alloc, dirty_pre, frame_exact, needs_surface, recycle_all_into, recycle_into, recycled, taken,
    taken_handle,
};
use crate::tile::{
    desc_bytes, spec_all_tiles, tile_lt, tiles_sorted, TileContentHandle, TileContentState, TileId,
    TileLayout, TileGridKey, TileResourceDescriptor, TileResourceKind, TileSpan,
};

verus! {

/// The surface a tile's content lives in, and in which frame it was last used.
#[derive(Debug, Clone, Copy, PartialEq, Eq, Structural)]
pub struct TileContentSlot {
    pub handle: TileContentHandle,
    pub generation: u64,
    pub state: TileContentState,
    pub resource: TileResourceDescriptor,
}

/// A surface that no tile uses any more and that can be handed out again.
#[derive(Debug, Clone, Copy, PartialEq, Eq, Structural)]
pub struct ReusableTileHandle {
    pub descriptor: TileResourceDescriptor,
    pub handle: TileContentHandle,
    pub last_used_generation: u64,
    pub access_serial: u64,
}

#[derive(Debug, Default, Clone, Copy, PartialEq, Eq, Structural)]
pub struct TileResourceEvictionStats {
    pub budget_eviction_count: usize,
    pub age_eviction_count: usize,
    pub descriptor_limit_eviction_count: usize,
}

pub open spec fn kind_rank(k: TileResourceKind) -> int {
    match k {
        TileResourceKind::OffscreenSurface => 0,
        TileResourceKind::Texture => 1,
    }
}

/// The order of resource descriptors: by kind, then width, then height.
pub open spec fn desc_le(a: TileResourceDescriptor, b: TileResourceDescriptor) -> bool {
    kind_rank(a.kind) < kind_rank(b.kind) || (kind_rank(a.kind) == kind_rank(b.kind) && (a.width
        < b.width || (a.width == b.width && a.height <= b.height)))
}

pub fn desc_less_eq(a: TileResourceDescriptor, b: TileResourceDescriptor) -> (r: bool)
    ensures
        r == desc_le(a, b),
{
    let ka: u8 = match a.kind {
        TileResourceKind::OffscreenSurface => 0,
        TileResourceKind::Texture => 1,
    };
    let kb: u8 = match b.kind {
        TileResourceKind::OffscreenSurface => 0,
        TileResourceKind::Texture => 1,
    };
    ka < kb || (ka == kb && (a.width < b.width || (a.width == b.width && a.height <= b.height)))
}

/// The total byte size of a sequence of reusable surfaces.
pub open spec fn pool_bytes(pool: Seq<ReusableTileHandle>) -> int
    decreases pool.len(),
{
    if pool.len() == 0 {
        0
    } else {
        pool_bytes(pool.drop_last()) + desc_bytes(pool.last().descriptor)
    }
}

/// How many surfaces of a sequence have descriptor `d`.
pub open spec fn desc_count(pool: Seq<ReusableTileHandle>, d: TileResourceDescriptor) -> int
    decreases pool.len(),
{
    if pool.len() == 0 {
        0
    } else {
        desc_count(pool.drop_last(), d) + if pool.last().descriptor == d {
            1int
        } else {
            0int
        }
    }
}

pub proof fn lemma_pool_bytes_nonneg(pool: Seq<ReusableTileHandle>)
    ensures
        pool_bytes(pool) >= 0,
    decreases pool.len(),
{
    if pool.len() > 0 {
        lemma_pool_bytes_nonneg(pool.drop_last());
        assert(desc_bytes(pool.last().descriptor) >= 0) by (nonlinear_arith)
            requires
                pool.last().descriptor.width >= 0,
                pool.last().descriptor.height >= 0,
        ;
    }
}

/// Inserting a surface anywhere adds its bytes and its count.
pub proof fn lemma_pool_insert(pool: Seq<ReusableTileHandle>, k: int, e: ReusableTileHandle)
    requires
        0 <= k <= pool.len(),
    ensures
        pool_bytes(pool.insert(k, e)) == pool_bytes(pool) + desc_bytes(e.descriptor),
        forall|d: TileResourceDescriptor|
            desc_count(pool.insert(k, e), d) == desc_count(pool, d) + if e.descriptor == d {
                1int
            } else {
                0int
            },
    decreases pool.len(),
{
    let q = pool.insert(k, e);
    if k == pool.len() {
        assert(q.drop_last() =~= pool);
        assert(q.last() == e);
        assert forall|d: TileResourceDescriptor|
            desc_count(q, d) == desc_count(pool, d) + if e.descriptor == d {
                1int
            } else {
                0int
            } by {}
    } else {
        lemma_pool_insert(pool.drop_last(), k, e);
        assert(q.drop_last() =~= pool.drop_last().insert(k, e));
        assert(q.last() == pool.last());
        assert forall|d: TileResourceDescriptor|
            desc_count(q, d) == desc_count(pool, d) + if e.descriptor == d {
                1int
            } else {
                0int
            } by {
            assert(desc_count(q, d) == desc_count(q.drop_last(), d) + if q.last().descriptor == d {
                1int
            } else {
                0int
            });
            assert(desc_count(pool.drop_last().insert(k, e), d) == desc_count(pool.drop_last(), d)
                + if e.descriptor == d {
                1int
            } else {
                0int
            });
        }
    }
}

/// Removing a surface anywhere subtracts its bytes and its count.
pub proof fn lemma_pool_remove(pool: Seq<ReusableTileHandle>, k: int)
    requires
        0 <= k < pool.len(),
    ensures
        pool_bytes(pool.remove(k)) == pool_bytes(pool) - desc_bytes(pool[k].descriptor),
        forall|d: TileResourceDescriptor|
            desc_count(pool.remove(k), d) == desc_count(pool, d) - if pool[k].descriptor == d {
                1int
            } else {
                0int
            },
{
    let e = pool[k];
    assert(pool.remove(k).insert(k, e) =~= pool);
    lemma_pool_insert(pool.remove(k), k, e);
}

/// Each surface's bytes are at most the total.
pub proof fn lemma_pool_bytes_bound(pool: Seq<ReusableTileHandle>, k: int)
    requires
        0 <= k < pool.len(),
    ensures
        desc_bytes(pool[k].descriptor) <= pool_bytes(pool),
{
    lemma_pool_remove(pool, k);
    lemma_pool_bytes_nonneg(pool.remove(k));
}

/// A count is positive exactly when some surface has the descriptor.
pub proof fn lemma_desc_count_pos(pool: Seq<ReusableTileHandle>, d: TileResourceDescriptor)
    ensures
        desc_count(pool, d) >= 0,
        desc_count(pool, d) > 0 <==> exists|i: int| 0 <= i < pool.len() && #[trigger] pool[i].descriptor == d,
    decreases pool.len(),
{
    if pool.len() > 0 {
        lemma_desc_count_pos(pool.drop_last(), d);
        if exists|i: int| 0 <= i < pool.len() && #[trigger] pool[i].descriptor == d {
            let i = choose|i: int| 0 <= i < pool.len() && #[trigger] pool[i].descriptor == d;
            if i < pool.len() - 1 {
                assert(pool.drop_last()[i].descriptor == d);
            }
        }
        if exists|i: int| 0 <= i < pool.len() - 1 && #[trigger] pool.drop_last()[i].descriptor == d {
            let i = choose|i: int| 0 <= i < pool.len() - 1 && #[trigger] pool.drop_last()[i].descriptor == d;
            assert(pool[i].descriptor == d);
        }
    }
}

} // verus!

verus! {

/// At most this many reusable surfaces are kept per descriptor.
pub const MAX_REUSABLE_PER_DESCRIPTOR: usize = 8;

/// A reusable surface unused for more than this many frames is released.
pub const MAX_REUSABLE_GENERATION_AGE: u64 = 3;

/// The reusable surfaces together take at most this many bytes after a frame.
pub const MAX_REUSABLE_BYTE_COUNT: usize = 16 * 1024 * 1024;

/// Slot keys in strictly increasing tile order.
pub open spec fn slots_sorted(s: Seq<(TileId, TileContentSlot)>) -> bool {
    forall|i: int, j: int| 0 <= i < j < s.len() ==> tile_lt(#[trigger] s[i].0, #[trigger] s[j].0)
}

/// Reusable surfaces grouped by descriptor in descriptor order, each group
/// in the order the surfaces were recycled.
pub open spec fn pool_ordered(p: Seq<ReusableTileHandle>) -> bool {
    forall|i: int, j: int|
        0 <= i < j < p.len() ==> desc_le(#[trigger] p[i].descriptor, #[trigger] p[j].descriptor) && (
        p[i].descriptor == p[j].descriptor ==> p[i].access_serial < p[j].access_serial)
}

pub open spec fn in_slots(s: Seq<(TileId, TileContentSlot)>, h: TileContentHandle) -> bool {
    exists|i: int| 0 <= i < s.len() && #[trigger] s[i].1.handle == h
}

pub open spec fn in_pool(p: Seq<ReusableTileHandle>, h: TileContentHandle) -> bool {
    exists|i: int| 0 <= i < p.len() && #[trigger] p[i].handle == h
}

/// No surface is held twice: every slot and every reusable entry has its own handle.
pub open spec fn handles_distinct(s: Seq<(TileId, TileContentSlot)>, p: Seq<ReusableTileHandle>) -> bool {
    &&& forall|i: int, j: int|
        0 <= i < s.len() && 0 <= j < s.len() && i != j ==> #[trigger] s[i].1.handle
            != #[trigger] s[j].1.handle
    &&& forall|i: int, j: int|
        0 <= i < p.len() && 0 <= j < p.len() && i != j ==> #[trigger] p[i].handle
            != #[trigger] p[j].handle
    &&& forall|i: int, j: int|
        0 <= i < s.len() && 0 <= j < p.len() ==> #[trigger] s[i].1.handle != #[trigger] p[j].handle
}

/// Every handle handed out so far is below `next` (and none is zero).
pub open spec fn handle_issued(h: TileContentHandle, next: u64) -> bool {
    1 <= h.0 < next
}

/// The first position whose entry lies strictly after descriptor `d`
/// (for an ordered pool: the end of `d`'s group).
pub open spec fn group_end(p: Seq<ReusableTileHandle>, d: TileResourceDescriptor) -> int
    decreases p.len(),
{
    if p.len() == 0 {
        0
    } else if desc_le(p.last().descriptor, d) {
        p.len() as int
    } else {
        group_end(p.drop_last(), d)
    }
}

pub proof fn lemma_group_end(p: Seq<ReusableTileHandle>, d: TileResourceDescriptor)
    requires
        pool_ordered(p),
    ensures
        0 <= group_end(p, d) <= p.len(),
        forall|i: int| 0 <= i < group_end(p, d) ==> desc_le(#[trigger] p[i].descriptor, d),
        forall|i: int| group_end(p, d) <= i < p.len() ==> !desc_le(#[trigger] p[i].descriptor, d),
    decreases p.len(),
{
    if p.len() > 0 {
        if desc_le(p.last().descriptor, d) {
            assert forall|i: int| 0 <= i < p.len() implies desc_le(#[trigger] p[i].descriptor, d) by {
                if i < p.len() - 1 {
                    assert(desc_le(p[i].descriptor, p[p.len() - 1].descriptor));
                }
            }
        } else {
            let q = p.drop_last();
            assert(pool_ordered(q));
            lemma_group_end(q, d);
            assert forall|i: int| group_end(p, d) <= i < p.len() implies !desc_le(
                #[trigger] p[i].descriptor,
                d,
            ) by {
                if i < p.len() - 1 {
                    assert(q[i] == p[i]);
                }
            }
            assert forall|i: int| 0 <= i < group_end(p, d) implies desc_le(
                #[trigger] p[i].descriptor,
                d,
            ) by {
                assert(q[i] == p[i]);
            }
        }
    }
}

/// The last position holding descriptor `d` (the most recently recycled surface).
pub open spec fn last_of_desc(p: Seq<ReusableTileHandle>, d: TileResourceDescriptor) -> int {
    choose|k: int|
        0 <= k < p.len() && p[k].descriptor == d && (forall|i: int|
            k < i < p.len() ==> #[trigger] p[i].descriptor != d)
}

/// The first position holding descriptor `d` (the least recently recycled surface).
pub open spec fn first_of_desc(p: Seq<ReusableTileHandle>, d: TileResourceDescriptor) -> int {
    choose|k: int|
        0 <= k < p.len() && p[k].descriptor == d && (forall|i: int|
            0 <= i < k ==> #[trigger] p[i].descriptor != d)
}

pub open spec fn has_desc(p: Seq<ReusableTileHandle>, d: TileResourceDescriptor) -> bool {
    exists|i: int| 0 <= i < p.len() && #[trigger] p[i].descriptor == d
}

/// No handle is held by a tile or the pool once it was given up.
pub open spec fn given_up_ok(
    slots: Seq<(TileId, TileContentSlot)>,
    pool: Seq<ReusableTileHandle>,
    next: u64,
    gone: Seq<TileContentHandle>,
) -> bool {
    forall|i: int|
        0 <= i < gone.len() ==> !in_slots(slots, #[trigger] gone[i]) && !in_pool(pool, gone[i])
            && gone[i].0 < next
}

/// The cache's invariant over its parts: slots sorted by tile, the pool
/// grouped by descriptor and ordered by recycling within a group, the byte
/// count equal to the pool's bytes, every size within `usize`, every handle
/// issued and held once, recycling serials distinct and issued, and no
/// given-up handle held again.
#[verifier::opaque]
pub open spec fn cache_inv(
    slots: Seq<(TileId, TileContentSlot)>,
    pool: Seq<ReusableTileHandle>,
    bytes: int,
    serial: u64,
    next: u64,
    released: Seq<TileContentHandle>,
    evicted: Seq<TileContentHandle>,
) -> bool {
    &&& slots_sorted(slots)
    &&& pool_ordered(pool)
    &&& bytes == pool_bytes(pool)
    &&& forall|i: int| 0 <= i < pool.len() ==> desc_bytes(#[trigger] pool[i].descriptor) <= usize::MAX
    &&& forall|i: int| 0 <= i < slots.len() ==> desc_bytes(#[trigger] slots[i].1.resource) <= usize::MAX
    &&& handles_distinct(slots, pool)
    &&& forall|i: int| 0 <= i < slots.len() ==> handle_issued(#[trigger] slots[i].1.handle, next)
    &&& forall|i: int| 0 <= i < pool.len() ==> handle_issued(#[trigger] pool[i].handle, next)
    &&& forall|i: int| 0 <= i < pool.len() ==> #[trigger] pool[i].access_serial <= serial
    &&& forall|i: int, j: int|
        0 <= i < pool.len() && 0 <= j < pool.len() && i != j ==> #[trigger] pool[i].access_serial
            != #[trigger] pool[j].access_serial
    &&& given_up_ok(slots, pool, next, released)
    &&& given_up_ok(slots, pool, next, evicted)
}

/// At most `MAX_REUSABLE_PER_DESCRIPTOR` reusable surfaces share a descriptor.
pub open spec fn counts_ok(pool: Seq<ReusableTileHandle>) -> bool {
    forall|d: TileResourceDescriptor| #[trigger] desc_count(pool, d) <= MAX_REUSABLE_PER_DESCRIPTOR
}

/// A handle that neither a slot, the pool, nor a given-up list holds, and that was issued.
pub open spec fn handle_free(
    slots: Seq<(TileId, TileContentSlot)>,
    pool: Seq<ReusableTileHandle>,
    next: u64,
    released: Seq<TileContentHandle>,
    evicted: Seq<TileContentHandle>,
    h: TileContentHandle,
) -> bool {
    &&& !in_slots(slots, h)
    &&& !in_pool(pool, h)
    &&& handle_issued(h, next)
    &&& forall|i: int| 0 <= i < released.len() ==> released[i] != h
    &&& forall|i: int| 0 <= i < evicted.len() ==> evicted[i] != h
}

/// Issuing more handles keeps the invariant.
pub proof fn lemma_inv_next_grows(
    slots: Seq<(TileId, TileContentSlot)>,
    pool: Seq<ReusableTileHandle>,
    bytes: int,
    serial: u64,
    next: u64,
    released: Seq<TileContentHandle>,
    evicted: Seq<TileContentHandle>,
    next2: u64,
)
    requires
        cache_inv(slots, pool, bytes, serial, next, released, evicted),
        next <= next2,
    ensures
        cache_inv(slots, pool, bytes, serial, next2, released, evicted),
        forall|h: TileContentHandle|
            h.0 >= next && h.0 >= 1 && h.0 < next2 ==> handle_free(slots, pool, next2, released, evicted, h),
{
    reveal(cache_inv);
    assert forall|h: TileContentHandle|
        h.0 >= next && h.0 >= 1 && h.0 < next2 implies handle_free(slots, pool, next2, released, evicted, h) by {
        assert forall|i: int| 0 <= i < slots.len() implies #[trigger] slots[i].1.handle != h by {
            assert(handle_issued(slots[i].1.handle, next));
        }
        assert forall|i: int| 0 <= i < pool.len() implies #[trigger] pool[i].handle != h by {
            assert(handle_issued(pool[i].handle, next));
        }
        assert forall|i: int| 0 <= i < released.len() implies released[i] != h by {
            assert(released[i].0 < next);
        }
        assert forall|i: int| 0 <= i < evicted.len() implies evicted[i] != h by {
            assert(evicted[i].0 < next);
        }
    }
}

/// Taking a surface out of the pool keeps the invariant (less its bytes), and its handle is free.
pub proof fn lemma_inv_pool_take(
    slots: Seq<(TileId, TileContentSlot)>,
    pool: Seq<ReusableTileHandle>,
    bytes: int,
    serial: u64,
    next: u64,
    released: Seq<TileContentHandle>,
    evicted: Seq<TileContentHandle>,
    k: int,
)
    requires
        cache_inv(slots, pool, bytes, serial, next, released, evicted),
        0 <= k < pool.len(),
    ensures
        cache_inv(
            slots,
            pool.remove(k),
            bytes - desc_bytes(pool[k].descriptor),
            serial,
            next,
            released,
            evicted,
        ),
        handle_free(slots, pool.remove(k), next, released, evicted, pool[k].handle),
        0 <= desc_bytes(pool[k].descriptor) <= bytes,
{
    reveal(cache_inv);
    let q = pool.remove(k);
    let h = pool[k].handle;
    lemma_pool_remove(pool, k);
    lemma_pool_bytes_bound(pool, k);
    lemma_pool_bytes_nonneg(q);
    assert forall|i: int| 0 <= i < q.len() implies #[trigger] q[i] == pool[if i < k { i } else { i + 1 }] by {}
    assert forall|i: int| 0 <= i < q.len() implies #[trigger] q[i].handle != h by {
        if i < k {
            assert(q[i] == pool[i]);
        } else {
            assert(q[i] == pool[i + 1]);
        }
    }
    assert forall|i: int| 0 <= i < slots.len() implies #[trigger] slots[i].1.handle != h by {}
    assert forall|i: int| 0 <= i < released.len() implies released[i] != h by {
        if released[i] == h {
            assert(in_pool(pool, released[i]));
        }
    }
    assert forall|i: int| 0 <= i < evicted.len() implies evicted[i] != h by {
        if evicted[i] == h {
            assert(in_pool(pool, evicted[i]));
        }
    }
    assert forall|i: int| 0 <= i < released.len() implies !in_pool(q, #[trigger] released[i]) by {
        if in_pool(q, released[i]) {
            let j = choose|j: int| 0 <= j < q.len() && #[trigger] q[j].handle == released[i];
            assert(in_pool(pool, released[i]));
        }
    }
    assert forall|i: int| 0 <= i < evicted.len() implies !in_pool(q, #[trigger] evicted[i]) by {
        if in_pool(q, evicted[i]) {
            let j = choose|j: int| 0 <= j < q.len() && #[trigger] q[j].handle == evicted[i];
            assert(in_pool(pool, evicted[i]));
        }
    }
}

/// The plain facts the invariant gives about the pool and the slots.
pub proof fn lemma_inv_facts(
    slots: Seq<(TileId, TileContentSlot)>,
    pool: Seq<ReusableTileHandle>,
    bytes: int,
    serial: u64,
    next: u64,
    released: Seq<TileContentHandle>,
    evicted: Seq<TileContentHandle>,
)
    requires
        cache_inv(slots, pool, bytes, serial, next, released, evicted),
    ensures
        pool_ordered(pool),
        slots_sorted(slots),
        bytes == pool_bytes(pool),
        forall|i: int| 0 <= i < pool.len() ==> desc_bytes(#[trigger] pool[i].descriptor) <= usize::MAX,
        forall|i: int| 0 <= i < slots.len() ==> desc_bytes(#[trigger] slots[i].1.resource) <= usize::MAX,
        forall|i: int| 0 <= i < pool.len() ==> #[trigger] pool[i].access_serial <= serial,
        forall|i: int, j: int|
            0 <= i < pool.len() && 0 <= j < pool.len() && i != j ==> #[trigger] pool[i].access_serial
                != #[trigger] pool[j].access_serial,
        handles_distinct(slots, pool),
        forall|i: int| 0 <= i < slots.len() ==> handle_issued(#[trigger] slots[i].1.handle, next),
        forall|i: int| 0 <= i < pool.len() ==> handle_issued(#[trigger] pool[i].handle, next),
{
    reveal(cache_inv);
}

/// Recording a free, issued handle as given up keeps the invariant.
pub proof fn lemma_inv_give_up(
    slots: Seq<(TileId, TileContentSlot)>,
    pool: Seq<ReusableTileHandle>,
    bytes: int,
    serial: u64,
    next: u64,
    released: Seq<TileContentHandle>,
    evicted: Seq<TileContentHandle>,
    h: TileContentHandle,
)
    requires
        cache_inv(slots, pool, bytes, serial, next, released, evicted),
        !in_slots(slots, h),
        !in_pool(pool, h),
        h.0 < next,
    ensures
        cache_inv(slots, pool, bytes, serial, next, released.push(h), evicted.push(h)),
{
    reveal(cache_inv);
    assert forall|i: int| 0 <= i < released.push(h).len() implies !in_slots(slots, #[trigger] released.push(h)[i])
        && !in_pool(pool, released.push(h)[i]) && released.push(h)[i].0 < next by {
        if i < released.len() {
            assert(released.push(h)[i] == released[i]);
        }
    }
    assert forall|i: int| 0 <= i < evicted.push(h).len() implies !in_slots(slots, #[trigger] evicted.push(h)[i])
        && !in_pool(pool, evicted.push(h)[i]) && evicted.push(h)[i].0 < next by {
        if i < evicted.len() {
            assert(evicted.push(h)[i] == evicted[i]);
        }
    }
}

/// Recycling a free handle into its descriptor's group (as the newest entry)
/// keeps the invariant, with its bytes added.
pub proof fn lemma_inv_pool_insert(
    slots: Seq<(TileId, TileContentSlot)>,
    pool: Seq<ReusableTileHandle>,
    bytes: int,
    serial: u64,
    next: u64,
    released: Seq<TileContentHandle>,
    evicted: Seq<TileContentHandle>,
    e: ReusableTileHandle,
)
    requires
        cache_inv(slots, pool, bytes, serial, next, released, evicted),
        handle_free(slots, pool, next, released, evicted, e.handle),
        e.access_serial > serial,
        desc_bytes(e.descriptor) <= usize::MAX,
    ensures
        cache_inv(
            slots,
            pool.insert(group_end(pool, e.descriptor), e),
            bytes + desc_bytes(e.descriptor),
            e.access_serial,
            next,
            released,
            evicted,
        ),
        forall|d: TileResourceDescriptor|
            #[trigger] desc_count(pool.insert(group_end(pool, e.descriptor), e), d) == desc_count(pool, d)
                + if e.descriptor == d {
                1int
            } else {
                0int
            },
{
    reveal(cache_inv);
    let k = group_end(pool, e.descriptor);
    lemma_group_end(pool, e.descriptor);
    let q = pool.insert(k, e);
    lemma_pool_insert(pool, k, e);
    assert forall|i: int| 0 <= i < q.len() implies #[trigger] q[i] == if i < k {
        pool[i]
    } else if i == k {
        e
    } else {
        pool[i - 1]
    } by {}
    assert forall|i: int, j: int| 0 <= i < j < q.len() implies desc_le(
        #[trigger] q[i].descriptor,
        #[trigger] q[j].descriptor,
    ) && (q[i].descriptor == q[j].descriptor ==> q[i].access_serial < q[j].access_serial) by {
        if i < k && j == k {
            assert(desc_le(pool[i].descriptor, e.descriptor));
            assert(pool[i].access_serial <= serial);
        } else if i == k && j > k {
            assert(!desc_le(pool[j - 1].descriptor, e.descriptor));
        } else if i < k && j > k {
            assert(desc_le(pool[i].descriptor, pool[j - 1].descriptor));
        } else if j < k {
        } else {
            assert(desc_le(pool[i - 1].descriptor, pool[j - 1].descriptor));
        }
    }
    assert forall|i: int, j: int|
        0 <= i < q.len() && 0 <= j < q.len() && i != j implies #[trigger] q[i].handle
            != #[trigger] q[j].handle by {
        if i == k {
            assert(!in_pool(pool, e.handle));
            if j < k {
                assert(q[j] == pool[j]);
            } else {
                assert(q[j] == pool[j - 1]);
            }
        } else if j == k {
            if i < k {
                assert(q[i] == pool[i]);
            } else {
                assert(q[i] == pool[i - 1]);
            }
        }
    }
    assert forall|i: int, j: int|
        0 <= i < q.len() && 0 <= j < q.len() && i != j implies #[trigger] q[i].access_serial
            != #[trigger] q[j].access_serial by {
        if i != k && j != k {
        } else if i == k {
            if j < k {
                assert(pool[j].access_serial <= serial);
            } else {
                assert(pool[j - 1].access_serial <= serial);
            }
        } else {
            if i < k {
                assert(pool[i].access_serial <= serial);
            } else {
                assert(pool[i - 1].access_serial <= serial);
            }
        }
    }
    assert forall|i: int, j: int| 0 <= i < slots.len() && 0 <= j < q.len() implies #[trigger] slots[i].1.handle
        != #[trigger] q[j].handle by {
        if j == k {
            assert(!in_slots(slots, e.handle));
        }
    }
    assert forall|i: int| 0 <= i < released.len() implies !in_pool(q, #[trigger] released[i]) by {
        if in_pool(q, released[i]) {
            let j = choose|j: int| 0 <= j < q.len() && #[trigger] q[j].handle == released[i];
            if j != k {
                assert(in_pool(pool, released[i]));
            }
        }
    }
    assert forall|i: int| 0 <= i < evicted.len() implies !in_pool(q, #[trigger] evicted[i]) by {
        if in_pool(q, evicted[i]) {
            let j = choose|j: int| 0 <= j < q.len() && #[trigger] q[j].handle == evicted[i];
            if j != k {
                assert(in_pool(pool, evicted[i]));
            }
        }
    }
    lemma_pool_bytes_nonneg(pool);
}

/// The given-up lists grew by the same handles, at their ends.
pub open spec fn given_up_grew(
    old_released: Seq<TileContentHandle>,
    old_evicted: Seq<TileContentHandle>,
    released: Seq<TileContentHandle>,
    evicted: Seq<TileContentHandle>,
) -> bool {
    &&& old_released.len() <= released.len()
    &&& old_evicted.len() <= evicted.len()
    &&& released.take(old_released.len() as int) == old_released
    &&& evicted.take(old_evicted.len() as int) == old_evicted
    &&& released.skip(old_released.len() as int) == evicted.skip(old_evicted.len() as int)
}

/// How many slots were last used before frame `g`.
pub open spec fn aged_count(slots: Seq<(TileId, TileContentSlot)>, g: int) -> int
    decreases slots.len(),
{
    if slots.len() == 0 {
        0
    } else {
        aged_count(slots.drop_last(), g) + if slots.last().1.generation < g {
            1int
        } else {
            0int
        }
    }
}

/// The bytes of the slots last used before frame `g`.
pub open spec fn aged_bytes(slots: Seq<(TileId, TileContentSlot)>, g: int) -> int
    decreases slots.len(),
{
    if slots.len() == 0 {
        0
    } else {
        aged_bytes(slots.drop_last(), g) + if slots.last().1.generation < g {
            desc_bytes(slots.last().1.resource)
        } else {
            0int
        }
    }
}

pub proof fn lemma_aged_insert(slots: Seq<(TileId, TileContentSlot)>, k: int, e: (TileId, TileContentSlot), g: int)
    requires
        0 <= k <= slots.len(),
    ensures
        aged_count(slots.insert(k, e), g) == aged_count(slots, g) + if e.1.generation < g {
            1int
        } else {
            0int
        },
        aged_bytes(slots.insert(k, e), g) == aged_bytes(slots, g) + if e.1.generation < g {
            desc_bytes(e.1.resource)
        } else {
            0int
        },
    decreases slots.len(),
{
    let q = slots.insert(k, e);
    if k == slots.len() {
        assert(q.drop_last() =~= slots);
    } else {
        lemma_aged_insert(slots.drop_last(), k, e, g);
        assert(q.drop_last() =~= slots.drop_last().insert(k, e));
    }
}

pub proof fn lemma_aged_remove(slots: Seq<(TileId, TileContentSlot)>, k: int, g: int)
    requires
        0 <= k < slots.len(),
    ensures
        aged_count(slots.remove(k), g) == aged_count(slots, g) - if slots[k].1.generation < g {
            1int
        } else {
            0int
        },
        aged_bytes(slots.remove(k), g) == aged_bytes(slots, g) - if slots[k].1.generation < g {
            desc_bytes(slots[k].1.resource)
        } else {
            0int
        },
{
    assert(slots.remove(k).insert(k, slots[k]) =~= slots);
    lemma_aged_insert(slots.remove(k), k, slots[k], g);
}

pub proof fn lemma_aged_update(slots: Seq<(TileId, TileContentSlot)>, k: int, e: (TileId, TileContentSlot), g: int)
    requires
        0 <= k < slots.len(),
        e.1.generation >= g,
    ensures
        aged_count(slots.update(k, e), g) <= aged_count(slots, g),
        aged_bytes(slots.update(k, e), g) <= aged_bytes(slots, g),
{
    lemma_aged_remove(slots, k, g);
    lemma_aged_insert(slots.remove(k), k, e, g);
    assert(slots.remove(k).insert(k, e) =~= slots.update(k, e));
    assert(desc_bytes(slots[k].1.resource) >= 0) by (nonlinear_arith)
        requires
            slots[k].1.resource.width >= 0,
            slots[k].1.resource.height >= 0,
    ;
}

pub proof fn lemma_aged_nonneg(slots: Seq<(TileId, TileContentSlot)>, g: int)
    ensures
        aged_count(slots, g) >= 0,
        aged_bytes(slots, g) >= 0,
        aged_count(slots, g) <= slots.len(),
    decreases slots.len(),
{
    if slots.len() > 0 {
        lemma_aged_nonneg(slots.drop_last(), g);
        assert(desc_bytes(slots.last().1.resource) >= 0) by (nonlinear_arith)
            requires
                slots.last().1.resource.width >= 0,
                slots.last().1.resource.height >= 0,
        ;
    }
}

/// The bytes of all slots.
pub open spec fn slot_bytes(slots: Seq<(TileId, TileContentSlot)>) -> int {
    aged_bytes(slots, u64::MAX as int + 1)
}

/// A prefix of the slots takes no more aged bytes than all of them.
pub proof fn lemma_aged_bytes_prefix(slots: Seq<(TileId, TileContentSlot)>, i: int, g: int)
    requires
        0 <= i <= slots.len(),
    ensures
        aged_bytes(slots.take(i), g) <= aged_bytes(slots, g),
    decreases slots.len(),
{
    if i == slots.len() {
        assert(slots.take(i) =~= slots);
    } else {
        let q = slots.drop_last();
        lemma_aged_bytes_prefix(q, i, g);
        assert(q.take(i) =~= slots.take(i));
        assert(desc_bytes(slots.last().1.resource) >= 0) by (nonlinear_arith)
            requires
                slots.last().1.resource.width >= 0,
                slots.last().1.resource.height >= 0,
        ;
    }
}

/// When every slot was last used before `g`, all slots count as aged.
pub proof fn lemma_aged_all(slots: Seq<(TileId, TileContentSlot)>, g: int)
    requires
        forall|i: int| 0 <= i < slots.len() ==> (#[trigger] slots[i]).1.generation < g,
        g <= u64::MAX as int + 1,
    ensures
        aged_count(slots, g) == slots.len(),
        aged_bytes(slots, g) == slot_bytes(slots),
    decreases slots.len(),
{
    if slots.len() > 0 {
        let q = slots.drop_last();
        assert forall|i: int| 0 <= i < q.len() implies (#[trigger] q[i]).1.generation < g by {
            assert(q[i] == slots[i]);
        }
        lemma_aged_all(q, g);
        assert(slots.last() == slots[slots.len() - 1]);
    }
}

/// Taking a slot out keeps the invariant, and its handle is then free.
pub proof fn lemma_inv_slot_take(
    slots: Seq<(TileId, TileContentSlot)>,
    pool: Seq<ReusableTileHandle>,
    bytes: int,
    serial: u64,
    next: u64,
    released: Seq<TileContentHandle>,
    evicted: Seq<TileContentHandle>,
    k: int,
)
    requires
        cache_inv(slots, pool, bytes, serial, next, released, evicted),
        0 <= k < slots.len(),
    ensures
        cache_inv(slots.remove(k), pool, bytes, serial, next, released, evicted),
        handle_free(slots.remove(k), pool, next, released, evicted, slots[k].1.handle),
        desc_bytes(slots[k].1.resource) <= usize::MAX,
{
    reveal(cache_inv);
    let q = slots.remove(k);
    let h = slots[k].1.handle;
    assert forall|i: int| 0 <= i < q.len() implies #[trigger] q[i] == slots[if i < k { i } else { i + 1 }] by {}
    assert forall|i: int, j: int| 0 <= i < j < q.len() implies tile_lt(#[trigger] q[i].0, #[trigger] q[j].0) by {
        let ii = if i < k { i } else { i + 1 };
        let jj = if j < k { j } else { j + 1 };
        assert(q[i] == slots[ii] && q[j] == slots[jj]);
    }
    assert forall|i: int| 0 <= i < q.len() implies #[trigger] q[i].1.handle != h by {
        let ii = if i < k { i } else { i + 1 };
        assert(q[i] == slots[ii]);
    }
    assert forall|i: int| 0 <= i < pool.len() implies #[trigger] pool[i].handle != h by {}
    assert forall|i: int| 0 <= i < released.len() implies released[i] != h by {
        if released[i] == h {
            assert(in_slots(slots, released[i]));
        }
    }
    assert forall|i: int| 0 <= i < evicted.len() implies evicted[i] != h by {
        if evicted[i] == h {
            assert(in_slots(slots, evicted[i]));
        }
    }
    assert forall|i: int| 0 <= i < released.len() implies !in_slots(q, #[trigger] released[i]) by {
        if in_slots(q, released[i]) {
            let j = choose|j: int| 0 <= j < q.len() && #[trigger] q[j].1.handle == released[i];
            assert(in_slots(slots, released[i]));
        }
    }
    assert forall|i: int| 0 <= i < evicted.len() implies !in_slots(q, #[trigger] evicted[i]) by {
        if in_slots(q, evicted[i]) {
            let j = choose|j: int| 0 <= j < q.len() && #[trigger] q[j].1.handle == evicted[i];
            assert(in_slots(slots, evicted[i]));
        }
    }
}

/// Putting a free handle into a new slot at its sorted position keeps the invariant.
#[verifier::spinoff_prover]
pub proof fn lemma_inv_slot_insert(
    slots: Seq<(TileId, TileContentSlot)>,
    pool: Seq<ReusableTileHandle>,
    bytes: int,
    serial: u64,
    next: u64,
    released: Seq<TileContentHandle>,
    evicted: Seq<TileContentHandle>,
    k: int,
    e: (TileId, TileContentSlot),
)
    requires
        cache_inv(slots, pool, bytes, serial, next, released, evicted),
        0 <= k <= slots.len(),
        forall|i: int| 0 <= i < k ==> tile_lt(#[trigger] slots[i].0, e.0),
        forall|i: int| k <= i < slots.len() ==> tile_lt(e.0, #[trigger] slots[i].0),
        handle_free(slots, pool, next, released, evicted, e.1.handle),
        desc_bytes(e.1.resource) <= usize::MAX,
    ensures
        cache_inv(slots.insert(k, e), pool, bytes, serial, next, released, evicted),
{
    reveal(cache_inv);
    let q = slots.insert(k, e);
    assert forall|i: int| 0 <= i < q.len() implies #[trigger] q[i] == if i < k {
        slots[i]
    } else if i == k {
        e
    } else {
        slots[i - 1]
    } by {}
    assert forall|i: int, j: int| 0 <= i < j < q.len() implies tile_lt(#[trigger] q[i].0, #[trigger] q[j].0) by {
        if i < k && j > k {
            assert(tile_lt(slots[i].0, e.0));
        }
    }
    assert forall|i: int, j: int|
        0 <= i < q.len() && 0 <= j < q.len() && i != j implies #[trigger] q[i].1.handle
            != #[trigger] q[j].1.handle by {
        if i == k {
            assert(!in_slots(slots, e.1.handle));
            if j < k {
                assert(q[j] == slots[j]);
            } else {
                assert(q[j] == slots[j - 1]);
            }
        } else if j == k {
            if i < k {
                assert(q[i] == slots[i]);
            } else {
                assert(q[i] == slots[i - 1]);
            }
        }
    }
    assert forall|i: int, j: int| 0 <= i < q.len() && 0 <= j < pool.len() implies #[trigger] q[i].1.handle
        != #[trigger] pool[j].handle by {
        if i == k {
            assert(!in_pool(pool, e.1.handle));
        }
    }
    assert forall|i: int| 0 <= i < released.len() implies !in_slots(q, #[trigger] released[i]) by {
        if in_slots(q, released[i]) {
            let j = choose|j: int| 0 <= j < q.len() && #[trigger] q[j].1.handle == released[i];
            if j != k {
                assert(in_slots(slots, released[i]));
            }
        }
    }
    assert forall|i: int| 0 <= i < evicted.len() implies !in_slots(q, #[trigger] evicted[i]) by {
        if in_slots(q, evicted[i]) {
            let j = choose|j: int| 0 <= j < q.len() && #[trigger] q[j].1.handle == evicted[i];
            if j != k {
                assert(in_slots(slots, evicted[i]));
            }
        }
    }
}

/// Changing a slot's generation and state (keeping tile, handle and surface) keeps the invariant.
pub proof fn lemma_inv_slot_touch(
    slots: Seq<(TileId, TileContentSlot)>,
    pool: Seq<ReusableTileHandle>,
    bytes: int,
    serial: u64,
    next: u64,
    released: Seq<TileContentHandle>,
    evicted: Seq<TileContentHandle>,
    k: int,
    e: (TileId, TileContentSlot),
)
    requires
        cache_inv(slots, pool, bytes, serial, next, released, evicted),
        0 <= k < slots.len(),
        e.0 == slots[k].0,
        e.1.handle == slots[k].1.handle,
        e.1.resource == slots[k].1.resource,
    ensures
        cache_inv(slots.update(k, e), pool, bytes, serial, next, released, evicted),
{
    reveal(cache_inv);
    let q = slots.update(k, e);
    assert forall|i: int| 0 <= i < released.len() implies !in_slots(q, #[trigger] released[i]) by {
        if in_slots(q, released[i]) {
            let j = choose|j: int| 0 <= j < q.len() && #[trigger] q[j].1.handle == released[i];
            assert(slots[j].1.handle == q[j].1.handle);
            assert(in_slots(slots, released[i]));
        }
    }
    assert forall|i: int| 0 <= i < evicted.len() implies !in_slots(q, #[trigger] evicted[i]) by {
        if in_slots(q, evicted[i]) {
            let j = choose|j: int| 0 <= j < q.len() && #[trigger] q[j].1.handle == evicted[i];
            assert(slots[j].1.handle == q[j].1.handle);
            assert(in_slots(slots, evicted[i]));
        }
    }
    assert forall|i: int, j: int| 0 <= i < j < q.len() implies tile_lt(#[trigger] q[i].0, #[trigger] q[j].0) by {
        assert(q[i].0 == slots[i].0 && q[j].0 == slots[j].0);
    }
    assert forall|i: int, j: int|
        0 <= i < q.len() && 0 <= j < q.len() && i != j implies #[trigger] q[i].1.handle
            != #[trigger] q[j].1.handle by {
        assert(q[i].1.handle == slots[i].1.handle && q[j].1.handle == slots[j].1.handle);
    }
    assert forall|i: int, j: int| 0 <= i < q.len() && 0 <= j < pool.len() implies #[trigger] q[i].1.handle
        != #[trigger] pool[j].handle by {
        assert(q[i].1.handle == slots[i].1.handle);
    }
    assert forall|i: int| 0 <= i < q.len() implies handle_issued(#[trigger] q[i].1.handle, next) by {
        assert(q[i].1.handle == slots[i].1.handle);
    }
    assert forall|i: int| 0 <= i < q.len() implies desc_bytes(#[trigger] q[i].1.resource) <= usize::MAX by {
        assert(q[i].1.resource == slots[i].1.resource);
    }
}

/// A reusable surface last used more than `MAX_REUSABLE_GENERATION_AGE`
/// frames before `generation`.
pub open spec fn is_stale(generation: u64, e: ReusableTileHandle) -> bool {
    generation - e.last_used_generation > MAX_REUSABLE_GENERATION_AGE
}

/// Filtering one more element of a prefix appends it when it passes.
pub proof fn lemma_filter_take_step<A>(s: Seq<A>, i: int, f: spec_fn(A) -> bool)
    requires
        0 <= i < s.len(),
    ensures
        s.take(i + 1).filter(f) == if f(s[i]) {
            s.take(i).filter(f).push(s[i])
        } else {
            s.take(i).filter(f)
        },
{
    reveal_with_fuel(Seq::filter, 1);
    assert(s.take(i + 1).drop_last() =~= s.take(i));
    assert(s.take(i + 1).last() == s[i]);
}

/// Whether a reusable surface is still young enough at `generation`.
pub open spec fn not_stale(generation: u64) -> spec_fn(ReusableTileHandle) -> bool {
    |e: ReusableTileHandle| !is_stale(generation, e)
}

/// Among the first `n` entries of `pool`, the position of the least recently
/// recycled one (the first of them on a tie).
pub open spec fn oldest_in(pool: Seq<ReusableTileHandle>, n: int) -> int
    decreases n,
{
    if n <= 1 {
        0
    } else {
        let k = oldest_in(pool, n - 1);
        if pool[n - 1].access_serial < pool[k].access_serial {
            n - 1
        } else {
            k
        }
    }
}

pub proof fn lemma_oldest_in_range(pool: Seq<ReusableTileHandle>, n: int)
    requires
        1 <= n,
    ensures
        0 <= oldest_in(pool, n) < n,
    decreases n,
{
    if n > 1 {
        lemma_oldest_in_range(pool, n - 1);
    }
}

/// What stays of `pool` when the least recently recycled surface is
/// released, one at a time, until the rest take at most
/// `MAX_REUSABLE_BYTE_COUNT` bytes.
#[verifier::opaque]
pub open spec fn budget_kept(pool: Seq<ReusableTileHandle>) -> Seq<ReusableTileHandle>
    decreases pool.len(),
{
    let k = oldest_in(pool, pool.len() as int);
    if pool.len() == 0 || pool_bytes(pool) <= MAX_REUSABLE_BYTE_COUNT || !(0 <= k < pool.len()) {
        pool
    } else {
        budget_kept(pool.remove(k))
    }
}

/// What stays of `pool` at `generation`: its stale surfaces released, then
/// the least recently recycled ones until the rest fit the byte budget.
pub open spec fn pool_after_eviction(pool: Seq<ReusableTileHandle>, generation: u64) -> Seq<ReusableTileHandle> {
    budget_kept(pool.filter(not_stale(generation)))
}

#[derive(Debug, Default, Clone, Copy, PartialEq, Eq, Structural)]
pub struct TileCacheStats {
    pub total_tile_count: usize,
    pub cached_tile_count: usize,
    pub reraster_tile_count: usize,
}

/// Which tiles a frame rasterizes again and which it takes from the cache.
#[derive(Debug, Clone, PartialEq, Eq)]
pub struct TilePlan {
    pub dirty_tiles: Vec<TileId>,
    pub reused_tiles: Vec<TileId>,
    pub stats: TileCacheStats,
}

impl TilePlan {
    pub fn dirty_tile_count(&self) -> (n: usize)
        ensures
            n == self.stats.reraster_tile_count,
    {
        self.stats.reraster_tile_count
    }

    pub fn cached_tile_count(&self) -> (n: usize)
        ensures
            n == self.stats.cached_tile_count,
    {
        self.stats.cached_tile_count
    }

    pub fn total_tile_count(&self) -> (n: usize)
        ensures
            n == self.stats.total_tile_count,
    {
        self.stats.total_tile_count
    }
}

/// Whether `t` occurs in `v`.
pub fn tiles_contain(v: &Vec<TileId>, t: TileId) -> (b: bool)
    ensures
        b == v@.contains(t),
{
    let mut i: usize = 0;
    while i < v.len()
        invariant
            0 <= i <= v@.len(),
            forall|j: int| 0 <= j < i ==> v@[j] != t,
        decreases v@.len() - i,
    {
        if v[i] == t {
            proof {
                assert(v@[i as int] == t);
            }
            return true;
        }
        i = i + 1;
    }
    false
}

/// Tiles that a plan takes from the cache: cached before, and not dirty.
pub open spec fn reusable_tile(cached: Seq<TileId>, dirty: Seq<TileId>) -> spec_fn(TileId) -> bool {
    |t: TileId| cached.contains(t) && !dirty.contains(t)
}

pub open spec fn seq_has_slot(s: Seq<(TileId, TileContentSlot)>, t: TileId) -> bool {
    exists|i: int| 0 <= i < s.len() && #[trigger] s[i].0 == t
}

pub open spec fn seq_slot(s: Seq<(TileId, TileContentSlot)>, t: TileId) -> TileContentSlot {
    s[choose|i: int| 0 <= i < s.len() && #[trigger] s[i].0 == t].1
}

pub proof fn lemma_seq_slot_at(s: Seq<(TileId, TileContentSlot)>, k: int)
    requires
        slots_sorted(s),
        0 <= k < s.len(),
    ensures
        seq_has_slot(s, s[k].0),
        seq_slot(s, s[k].0) == s[k].1,
{
    let w = choose|i: int| 0 <= i < s.len() && #[trigger] s[i].0 == s[k].0;
    if w < k {
        assert(tile_lt(s[w].0, s[k].0));
    } else if w > k {
        assert(tile_lt(s[k].0, s[w].0));
    }
}

/// Removing the slot at `k` forgets its tile and keeps every other tile's slot.
pub proof fn lemma_seq_slot_remove(s: Seq<(TileId, TileContentSlot)>, k: int)
    requires
        slots_sorted(s),
        0 <= k < s.len(),
    ensures
        slots_sorted(s.remove(k)),
        !seq_has_slot(s.remove(k), s[k].0),
        forall|t: TileId|
            t != s[k].0 ==> (seq_has_slot(s.remove(k), t) <==> seq_has_slot(s, t)) && (seq_has_slot(s, t)
                ==> seq_slot(s.remove(k), t) == seq_slot(s, t)),
{
    let q = s.remove(k);
    assert forall|i: int| 0 <= i < q.len() implies #[trigger] q[i] == s[if i < k { i } else { i + 1 }] by {}
    assert forall|i: int, j: int| 0 <= i < j < q.len() implies tile_lt(#[trigger] q[i].0, #[trigger] q[j].0) by {
        let ii = if i < k { i } else { i + 1 };
        let jj = if j < k { j } else { j + 1 };
        assert(q[i] == s[ii] && q[j] == s[jj]);
    }
    if seq_has_slot(q, s[k].0) {
        let w = choose|i: int| 0 <= i < q.len() && #[trigger] q[i].0 == s[k].0;
        let ww = if w < k { w } else { w + 1 };
        assert(q[w] == s[ww]);
        if ww < k {
            assert(tile_lt(s[ww].0, s[k].0));
        } else {
            assert(tile_lt(s[k].0, s[ww].0));
        }
    }
    assert forall|t: TileId| t != s[k].0 implies (seq_has_slot(q, t) <==> seq_has_slot(s, t)) && (
    seq_has_slot(s, t) ==> seq_slot(q, t) == seq_slot(s, t)) by {
        if seq_has_slot(q, t) {
            let w = choose|i: int| 0 <= i < q.len() && #[trigger] q[i].0 == t;
            let ww = if w < k { w } else { w + 1 };
            assert(q[w] == s[ww]);
        }
        if seq_has_slot(s, t) {
            let w = choose|i: int| 0 <= i < s.len() && #[trigger] s[i].0 == t;
            assert(w != k);
            let ww = if w < k { w } else { w - 1 };
            assert(q[ww] == s[w]);
            lemma_seq_slot_at(s, w);
            lemma_seq_slot_at(q, ww);
        }
    }
}

/// Inserting a slot at its sorted position adds its tile and keeps every other tile's slot.
pub proof fn lemma_seq_slot_insert(s: Seq<(TileId, TileContentSlot)>, k: int, e: (TileId, TileContentSlot))
    requires
        slots_sorted(s),
        0 <= k <= s.len(),
        forall|i: int| 0 <= i < k ==> tile_lt(#[trigger] s[i].0, e.0),
        forall|i: int| k <= i < s.len() ==> tile_lt(e.0, #[trigger] s[i].0),
    ensures
        slots_sorted(s.insert(k, e)),
        seq_has_slot(s.insert(k, e), e.0),
        seq_slot(s.insert(k, e), e.0) == e.1,
        forall|t: TileId|
            t != e.0 ==> (seq_has_slot(s.insert(k, e), t) <==> seq_has_slot(s, t)) && (seq_has_slot(s, t)
                ==> seq_slot(s.insert(k, e), t) == seq_slot(s, t)),
{
    let q = s.insert(k, e);
    assert forall|i: int| 0 <= i < q.len() implies #[trigger] q[i] == if i < k {
        s[i]
    } else if i == k {
        e
    } else {
        s[i - 1]
    } by {}
    assert forall|i: int, j: int| 0 <= i < j < q.len() implies tile_lt(#[trigger] q[i].0, #[trigger] q[j].0) by {
        if i < k && j > k {
            assert(tile_lt(s[i].0, e.0));
        }
    }
    assert(q[k] == e);
    lemma_seq_slot_at(q, k);
    assert forall|t: TileId| t != e.0 implies (seq_has_slot(q, t) <==> seq_has_slot(s, t)) && (
    seq_has_slot(s, t) ==> seq_slot(q, t) == seq_slot(s, t)) by {
        if seq_has_slot(q, t) {
            let w = choose|i: int| 0 <= i < q.len() && #[trigger] q[i].0 == t;
            assert(w != k);
            let ww = if w < k { w } else { w - 1 };
            assert(q[w] == s[ww]);
        }
        if seq_has_slot(s, t) {
            let w = choose|i: int| 0 <= i < s.len() && #[trigger] s[i].0 == t;
            let ww = if w < k { w } else { w + 1 };
            assert(q[ww] == s[w]);
            lemma_seq_slot_at(s, w);
            lemma_seq_slot_at(q, ww);
        }
    }
}

/// Replacing the slot at `k` with one for the same tile changes only that tile's slot.
pub proof fn lemma_seq_slot_update(s: Seq<(TileId, TileContentSlot)>, k: int, e: (TileId, TileContentSlot))
    requires
        slots_sorted(s),
        0 <= k < s.len(),
        e.0 == s[k].0,
    ensures
        slots_sorted(s.update(k, e)),
        seq_has_slot(s.update(k, e), e.0),
        seq_slot(s.update(k, e), e.0) == e.1,
        forall|t: TileId|
            t != e.0 ==> (seq_has_slot(s.update(k, e), t) <==> seq_has_slot(s, t)) && (seq_has_slot(s, t)
                ==> seq_slot(s.update(k, e), t) == seq_slot(s, t)),
{
    let q = s.update(k, e);
    assert forall|i: int, j: int| 0 <= i < j < q.len() implies tile_lt(#[trigger] q[i].0, #[trigger] q[j].0) by {
        assert(q[i].0 == s[i].0 && q[j].0 == s[j].0);
    }
    lemma_seq_slot_at(q, k);
    assert forall|t: TileId| t != e.0 implies (seq_has_slot(q, t) <==> seq_has_slot(s, t)) && (
    seq_has_slot(s, t) ==> seq_slot(q, t) == seq_slot(s, t)) by {
        if seq_has_slot(q, t) {
            let w = choose|i: int| 0 <= i < q.len() && #[trigger] q[i].0 == t;
            assert(q[w].0 == s[w].0);
        }
        if seq_has_slot(s, t) {
            let w = choose|i: int| 0 <= i < s.len() && #[trigger] s[i].0 == t;
            assert(w != k);
            assert(q[w] == s[w]);
            lemma_seq_slot_at(s, w);
            lemma_seq_slot_at(q, w);
        }
    }
}

/// A dirty tile and the surface it is rasterized into.
#[derive(Debug, Clone, Copy, PartialEq, Eq, Structural)]
pub struct RasterTile {
    pub tile_id: TileId,
    pub content_handle: TileContentHandle,
}

/// The tiles a frame rasterizes.
#[derive(Debug, Clone, PartialEq, Eq)]
pub struct RasterBatch {
    pub tiles: Vec<RasterTile>,
    pub full_raster: bool,
}

impl RasterBatch {
    pub fn tile_count(&self) -> (n: usize)
        ensures
            n == self.tiles@.len(),
    {
        self.tiles.len()
    }
}

/// A frame's tile plan and the raster work it implies.
#[derive(Debug, Clone, PartialEq, Eq)]
pub struct TileState {
    pub tile_plan: TilePlan,
    pub raster_batch: RasterBatch,
}

/// The raster tiles for `dirty`: each dirty tile of the grid that has a
/// slot, in order, with its slot's surface.
pub open spec fn raster_of(
    dirty: Seq<TileId>,
    layout: TileLayout,
    slots: Seq<(TileId, TileContentSlot)>,
) -> Seq<RasterTile>
    decreases dirty.len(),
{
    if dirty.len() == 0 {
        Seq::empty()
    } else {
        let r = raster_of(dirty.drop_last(), layout, slots);
        let t = dirty.last();
        if layout.in_grid(t) && seq_has_slot(slots, t) {
            r.push(RasterTile { tile_id: t, content_handle: seq_slot(slots, t).handle })
        } else {
            r
        }
    }
}

pub open spec fn at_least_one(n: nat) -> nat {
    if n == 0 {
        1
    } else {
        n
    }
}

/// Forgetting the handles evicted so far keeps the invariant.
pub proof fn lemma_inv_clear_evicted(
    slots: Seq<(TileId, TileContentSlot)>,
    pool: Seq<ReusableTileHandle>,
    bytes: int,
    serial: u64,
    next: u64,
    released: Seq<TileContentHandle>,
    evicted: Seq<TileContentHandle>,
)
    requires
        cache_inv(slots, pool, bytes, serial, next, released, evicted),
    ensures
        cache_inv(slots, pool, bytes, serial, next, released, Seq::empty()),
{
    reveal(cache_inv);
}

/// What a plan's dirty list is like: without repeats, and no longer than
/// the grid's box.
pub proof fn lemma_dirty_facts(
    layout: TileLayout,
    damage: DamageRegion<Option<TileSpan>>,
    full: bool,
    dirty: Seq<TileId>,
)
    requires
        layout.wf(),
        full ==> dirty == layout.spec_all_tiles(),
        !full ==> !(damage is Full),
        !full && damage is Empty ==> dirty.len() == 0,
        !full && damage is Rects ==> tiles_sorted(dirty),
        !full ==> forall|t: TileId| dirty.contains(t) <==> layout.damaged(damage, t),
    ensures
        forall|a: int, b: int| 0 <= a < dirty.len() && 0 <= b < dirty.len() && a != b ==> dirty[a] != dirty[b],
        dirty.len() <= at_least_one(layout.count_x()) * at_least_one(layout.count_y()),
{
    let cx = layout.count_x();
    let cy = layout.count_y();
    if full {
        lemma_all_distinct_seq(layout);
    } else {
        match damage {
            DamageRegion::Empty => {},
            DamageRegion::Full => {},
            DamageRegion::Rects(spans) => {
                assert forall|a: int, b: int|
                    0 <= a < dirty.len() && 0 <= b < dirty.len() && a != b implies dirty[a] != dirty[b] by {
                    if a < b {
                        assert(tile_lt(dirty[a], dirty[b]));
                    } else {
                        assert(tile_lt(dirty[b], dirty[a]));
                    }
                }
                assert forall|j: int| 0 <= j < dirty.len() implies (#[trigger] dirty[j]).x < at_least_one(cx)
                    && dirty[j].y < at_least_one(cy) by {
                    assert(dirty.contains(dirty[j]));
                    assert(layout.damaged(damage, dirty[j]));
                }
                crate::tile::lemma_sorted_box_len(dirty, at_least_one(cx), at_least_one(cy));
            },
        }
    }
}

/// The grid's row-major enumeration lists each tile once and fits the box.
pub proof fn lemma_all_distinct_seq(layout: TileLayout)
    requires
        layout.wf(),
    ensures
        forall|a: int, b: int|
            0 <= a < layout.spec_all_tiles().len() && 0 <= b < layout.spec_all_tiles().len() && a != b
                ==> layout.spec_all_tiles()[a] != layout.spec_all_tiles()[b],
        layout.spec_all_tiles().len() <= at_least_one(layout.count_x()) * at_least_one(layout.count_y()),
{
    let cx = layout.count_x();
    let cy = layout.count_y();
    assert forall|a: int, b: int|
        0 <= a < layout.spec_all_tiles().len() && 0 <= b < layout.spec_all_tiles().len() && a != b
            implies layout.spec_all_tiles()[a] != layout.spec_all_tiles()[b] by {
        crate::tile::lemma_all_tiles_distinct(cx, cy, a, b);
    }
    assert(cx * cy <= at_least_one(cx) * at_least_one(cy)) by (nonlinear_arith)
        requires
            cx <= at_least_one(cx),
            cy <= at_least_one(cy),
    ;
}

/// The frame measures compose.
pub proof fn lemma_measures_trans(a: TileCache, b: TileCache, c: TileCache, g: int)
    requires
        b.frame_measures_le(a, g),
        c.frame_measures_le(b, g),
    ensures
        c.frame_measures_le(a, g),
{
    lemma_given_up_trans(a.released(), a.evicted(), b.released(), b.evicted(), c.released(), c.evicted());
}

/// Tile `t` after a refresh pass over `a` gives `b`: kept and marked
/// reused when it had a slot, otherwise given a new one for its descriptor.
pub open spec fn final_slot_fact(a: TileCache, b: TileCache, layout: TileLayout, t: TileId) -> bool {
    b.has_slot(t) && b.slot(t).generation == a.generation() && if a.has_slot(t) {
        b.slot(t) == (TileContentSlot {
            handle: a.slot(t).handle,
            generation: a.generation(),
            state: TileContentState::Reused,
            resource: a.slot(t).resource,
        })
    } else {
        b.slot(t).state == TileContentState::Allocated && b.slot(t).resource == layout.spec_descriptor_for(t)
    }
}

/// Handles given up after the evicted list was emptied: the released list
/// is what it was, followed by the evicted handles.
pub proof fn lemma_given_up_from_empty(
    r0: Seq<TileContentHandle>,
    r: Seq<TileContentHandle>,
    e: Seq<TileContentHandle>,
)
    requires
        given_up_grew(r0, Seq::empty(), r, e),
    ensures
        r == r0 + e,
{
    assert(e.skip(0) =~= e);
    assert(r =~= r.take(r0.len() as int) + r.skip(r0.len() as int));
}

/// Taking a surface for a new slot moves the frame measures no further than
/// the pool shrinking and the handle counter growing.
pub proof fn lemma_acquired_measures(a: TileCache, b: TileCache)
    requires
        b.slots() == a.slots(),
        b.released() == a.released(),
        b.evicted() == a.evicted(),
        b.serial() == a.serial(),
        b.stats() == a.stats(),
        b.generation() == a.generation(),
        b.cached_grid() == a.cached_grid(),
        b.cached_tiles() == a.cached_tiles(),
        a.next_handle() <= b.next_handle(),
        b.byte_count() <= a.byte_count(),
        b.pool().len() <= a.pool().len(),
    ensures
        b.frame_measures_le(a, a.generation() as int),
{
    lemma_given_up_refl(a.released(), a.evicted());
}

/// Inserting a fresh slot for a tile that had none, with a free handle and
/// the current generation, keeps the invariant and the frame measures, and
/// leaves every other tile's slot as it was.
#[verifier::spinoff_prover]
pub proof fn lemma_slot_inserted(
    a: TileCache,
    b: TileCache,
    c: TileCache,
    k: int,
    t: TileId,
    slot: TileContentSlot,
)
    requires
        a.wf(),
        b.wf(),
        !a.has_slot(t),
        b.slots() == a.slots(),
        b.released() == a.released(),
        b.evicted() == a.evicted(),
        b.serial() == a.serial(),
        b.stats() == a.stats(),
        b.generation() == a.generation(),
        b.cached_grid() == a.cached_grid(),
        b.cached_tiles() == a.cached_tiles(),
        a.next_handle() <= b.next_handle(),
        b.byte_count() <= a.byte_count(),
        b.pool().len() <= a.pool().len(),
        handle_free(b.slots(), b.pool(), b.next_handle(), b.released(), b.evicted(), slot.handle),
        desc_bytes(slot.resource) <= usize::MAX,
        slot.generation == a.generation(),
        0 <= k <= b.slots().len(),
        forall|i: int| 0 <= i < k ==> tile_lt(#[trigger] b.slots()[i].0, t),
        forall|i: int| k <= i < b.slots().len() ==> tile_lt(t, #[trigger] b.slots()[i].0),
        c.slots() == b.slots().insert(k, (t, slot)),
        c.pool() == b.pool(),
        c.byte_count() == b.byte_count(),
        c.serial() == b.serial(),
        c.next_handle() == b.next_handle(),
        c.released() == b.released(),
        c.evicted() == b.evicted(),
        c.stats() == b.stats(),
        c.generation() == b.generation(),
        c.cached_grid() == b.cached_grid(),
        c.cached_tiles() == b.cached_tiles(),
    ensures
        c.wf(),
        c.frame_measures_le(a, a.generation() as int),
        c.has_slot(t),
        c.slot(t) == slot,
        forall|u: TileId|
            u != t ==> (c.has_slot(u) <==> a.has_slot(u)) && (a.has_slot(u) ==> c.slot(u) == a.slot(u)),
{
    let g = a.generation() as int;
    let e = (t, slot);
    lemma_inv_facts(b.slots(), b.pool(), b.byte_count(), b.serial(), b.next_handle(), b.released(), b.evicted());
    lemma_inv_slot_insert(
        b.slots(),
        b.pool(),
        b.byte_count(),
        b.serial(),
        b.next_handle(),
        b.released(),
        b.evicted(),
        k,
        e,
    );
    lemma_seq_slot_insert(b.slots(), k, e);
    lemma_aged_insert(b.slots(), k, e, g);
    lemma_given_up_refl(a.released(), a.evicted());
    assert forall|i: int| 0 <= i < c.slots().len() implies (#[trigger] c.slots()[i]).1.generation <= c.generation() by {
        if i < k {
            assert(c.slots()[i] == b.slots()[i]);
        } else if i > k {
            assert(c.slots()[i] == b.slots()[i - 1]);
        }
    }
}

/// Chains what planning, the dirty pass and the refresh pass each do to the
/// slots into what the frame as a whole does.
#[verifier::spinoff_prover]
pub proof fn lemma_frame_slots_chain(
    before: TileCache,
    mid: TileCache,
    after_dirty: TileCache,
    after_clean: TileCache,
    fin: TileCache,
    layout: TileLayout,
    full: bool,
    dirty: Seq<TileId>,
)
    requires
        full ==> mid.slots().len() == 0,
        !full ==> mid.slots() == before.slots(),
        mid.generation() == fin.generation(),
        forall|t: TileId|
            dirty.contains(t) ==> after_dirty.has_slot(t) && after_dirty.slot(t).generation == mid.generation()
                && after_dirty.slot(t).state == TileContentState::Rasterized && after_dirty.slot(t).resource
                == layout.spec_descriptor_for(t),
        forall|u: TileId|
            !dirty.contains(u) ==> (after_dirty.has_slot(u) <==> mid.has_slot(u)) && (mid.has_slot(u)
                ==> after_dirty.slot(u) == mid.slot(u)),
        after_dirty.generation() == mid.generation(),
        forall|t: TileId|
            dirty.contains(t) ==> (after_clean.has_slot(t) <==> after_dirty.has_slot(t)) && (
            after_dirty.has_slot(t) ==> after_clean.slot(t) == after_dirty.slot(t)),
        forall|t: TileId|
            layout.in_grid(t) && !dirty.contains(t) ==> final_slot_fact(after_dirty, after_clean, layout, t),
        forall|t: TileId|
            !layout.in_grid(t) ==> (after_clean.has_slot(t) <==> after_dirty.has_slot(t)) && (
            after_dirty.has_slot(t) ==> after_clean.slot(t) == after_dirty.slot(t)),
        fin.slots() == after_clean.slots(),
    ensures
        fin.frame_slots(before, layout, full, dirty),
{
    assert forall|u: TileId| mid.has_slot(u) <==> (!full && before.has_slot(u)) by {}
    assert forall|t: TileId| layout.in_grid(t) && !dirty.contains(t) implies fin.has_slot(t)
        && fin.slot(t).generation == fin.generation() && if !full && before.has_slot(t) {
        fin.slot(t).handle == before.slot(t).handle && fin.slot(t).state == TileContentState::Reused
            && fin.slot(t).resource == before.slot(t).resource
    } else {
        fin.slot(t).state == TileContentState::Allocated && fin.slot(t).resource == layout.spec_descriptor_for(t)
    } by {
        assert(final_slot_fact(after_dirty, after_clean, layout, t));
    }
}

/// The per-tile surface cache: which surface each tile's content lives in,
/// which surfaces can be reused, and which were given up.
#[derive(Debug, Clone, PartialEq)]
pub struct TileCache {
    cached_grid: Option<TileGridKey>,
    cached_tiles: Vec<TileId>,
    content_slots: Vec<(TileId, TileContentSlot)>,
    reusable: Vec<ReusableTileHandle>,
    released_handles: Vec<TileContentHandle>,
    reused_handles: Vec<TileContentHandle>,
    evicted_handles: Vec<TileContentHandle>,
    reusable_byte_count: usize,
    access_serial: u64,
    eviction_stats: TileResourceEvictionStats,
    next_content_handle: u64,
    content_generation: u64,
}

pub proof fn lemma_given_up_refl(r: Seq<TileContentHandle>, e: Seq<TileContentHandle>)
    ensures
        given_up_grew(r, e, r, e),
{
    assert(r.take(r.len() as int) =~= r);
    assert(e.take(e.len() as int) =~= e);
    assert(r.skip(r.len() as int) =~= e.skip(e.len() as int));
}

pub proof fn lemma_given_up_push(r: Seq<TileContentHandle>, e: Seq<TileContentHandle>, h: TileContentHandle)
    ensures
        given_up_grew(r, e, r.push(h), e.push(h)),
{
    assert(r.push(h).take(r.len() as int) =~= r);
    assert(e.push(h).take(e.len() as int) =~= e);
    assert(r.push(h).skip(r.len() as int) =~= e.push(h).skip(e.len() as int));
}

pub proof fn lemma_given_up_trans(
    r1: Seq<TileContentHandle>,
    e1: Seq<TileContentHandle>,
    r2: Seq<TileContentHandle>,
    e2: Seq<TileContentHandle>,
    r3: Seq<TileContentHandle>,
    e3: Seq<TileContentHandle>,
)
    requires
        given_up_grew(r1, e1, r2, e2),
        given_up_grew(r2, e2, r3, e3),
    ensures
        given_up_grew(r1, e1, r3, e3),
{
    assert(r3.take(r1.len() as int) =~= r2.take(r1.len() as int));
    assert(e3.take(e1.len() as int) =~= e2.take(e1.len() as int));
    let a = r2.skip(r1.len() as int);
    assert(a == e2.skip(e1.len() as int));
    assert(r3.skip(r1.len() as int) =~= a + r3.skip(r2.len() as int));
    assert(e3.skip(e1.len() as int) =~= e2.skip(e1.len() as int) + e3.skip(e2.len() as int));
}

/// How `after` follows from `before` when a tile is given a surface of
/// descriptor `d` and receives handle `h`: the newest pooled surface of `d`
/// when the pool holds one, which is then reported as reused; otherwise a
/// new handle, the next one.
#[verifier::opaque]
pub open spec fn takes_surface(
    before: TileCache,
    after: TileCache,
    d: TileResourceDescriptor,
    h: TileContentHandle,
) -> bool {
    if has_desc(before.pool(), d) {
        let k = last_of_desc(before.pool(), d);
        &&& h == before.pool()[k].handle
        &&& after.pool() == before.pool().remove(k)
        &&& after.reused() == before.reused().push(h)
        &&& after.next_handle() == before.next_handle()
    } else {
        &&& h.0 == before.next_handle()
        &&& after.next_handle() == before.next_handle() + 1
        &&& after.pool() == before.pool()
        &&& after.reused() == before.reused()
    }
}

/// Whether the newest surface of descriptor `d` in `pool` is `h`.
pub open spec fn newest_pooled(pool: Seq<ReusableTileHandle>, d: TileResourceDescriptor, h: TileContentHandle) -> bool {
    has_desc(pool, d) && pool[last_of_desc(pool, d)].handle == h
}

/// Position `k` holds `d` and no later position does: it is the newest of `d`.
proof fn lemma_last_of_desc_at(p: Seq<ReusableTileHandle>, d: TileResourceDescriptor, k: int)
    requires
        0 <= k < p.len(),
        p[k].descriptor == d,
        forall|i: int| k < i < p.len() ==> #[trigger] p[i].descriptor != d,
    ensures
        has_desc(p, d),
        last_of_desc(p, d) == k,
{
    assert(p[k].descriptor == d);
    let c = last_of_desc(p, d);
    if c < k {
        assert(p[k].descriptor != d);
    }
}

/// With all other entries of another descriptor, `d` occurs at most once.
proof fn lemma_desc_count_single(p: Seq<ReusableTileHandle>, d: TileResourceDescriptor, k: int)
    requires
        forall|i: int| 0 <= i < p.len() && i != k ==> #[trigger] p[i].descriptor != d,
    ensures
        desc_count(p, d) <= 1,
    decreases p.len(),
{
    if p.len() > 0 {
        let q = p.drop_last();
        if k == p.len() - 1 {
            assert forall|i: int| 0 <= i < q.len() implies #[trigger] q[i].descriptor != d by {
                assert(q[i] == p[i]);
            }
            lemma_desc_count_pos(q, d);
        } else {
            assert forall|i: int| 0 <= i < q.len() && i != k implies #[trigger] q[i].descriptor != d by {
                assert(q[i] == p[i]);
            }
            lemma_desc_count_single(q, d, k);
        }
    }
}

/// Inserting a surface at the end of its descriptor's group in an ordered
/// pool leaves no surface of that descriptor after it.
proof fn lemma_group_tail(before: Seq<ReusableTileHandle>, e: ReusableTileHandle)
    requires
        pool_ordered(before),
    ensures
        0 <= group_end(before, e.descriptor) <= before.len(),
        before.insert(group_end(before, e.descriptor), e)[group_end(before, e.descriptor)] == e,
        forall|i: int|
            group_end(before, e.descriptor) < i < before.len() + 1 ==> #[trigger] before.insert(
                group_end(before, e.descriptor),
                e,
            )[i].descriptor != e.descriptor,
{
    let d = e.descriptor;
    lemma_group_end(before, d);
    let ge = group_end(before, d);
    let q = before.insert(ge, e);
    assert forall|i: int| ge < i < q.len() implies #[trigger] q[i].descriptor != d by {
        assert(q[i] == before[i - 1]);
        assert(!desc_le(before[i - 1].descriptor, d));
    }
}

/// After a surface is put at position `ge`, with no surface of its
/// descriptor after it (and the oldest of its group dropped when the group
/// grew past the limit), it is the newest of its descriptor.
proof fn lemma_recycle_newest(
    q: Seq<ReusableTileHandle>,
    after: Seq<ReusableTileHandle>,
    ge: int,
    slot: TileContentSlot,
)
    requires
        0 <= ge < q.len(),
        q[ge].descriptor == slot.resource,
        q[ge].handle == slot.handle,
        forall|i: int| ge < i < q.len() ==> #[trigger] q[i].descriptor != slot.resource,
        after == q || (desc_count(q, slot.resource) > MAX_REUSABLE_PER_DESCRIPTOR && after == q.remove(
            first_of_desc(q, slot.resource),
        )),
    ensures
        newest_pooled(after, slot.resource, slot.handle),
{
    if after == q {
        lemma_last_of_desc_at(q, slot.resource, ge);
    } else {
        lemma_oldest_dropped_newest(q, slot.resource, ge);
    }
}

/// The newest position of descriptor `d`, when `k` holds it.
proof fn lemma_last_of_desc(q: Seq<ReusableTileHandle>, d: TileResourceDescriptor, k: int) -> (l: int)
    requires
        0 <= k < q.len(),
        q[k].descriptor == d,
    ensures
        k <= l < q.len(),
        q[l].descriptor == d,
        last_of_desc(q, d) == l,
    decreases q.len() - k,
{
    let l = if exists|j: int| k < j < q.len() && #[trigger] q[j].descriptor == d {
        let j = choose|j: int| k < j < q.len() && #[trigger] q[j].descriptor == d;
        lemma_last_of_desc(q, d, j)
    } else {
        lemma_last_of_desc_at(q, d, k);
        k
    };
    l
}

/// The oldest position of descriptor `d`, when `k` holds it.
proof fn lemma_first_of_desc(q: Seq<ReusableTileHandle>, d: TileResourceDescriptor, k: int) -> (f: int)
    requires
        0 <= k < q.len(),
        q[k].descriptor == d,
    ensures
        0 <= f <= k,
        q[f].descriptor == d,
        forall|j: int| 0 <= j < f ==> #[trigger] q[j].descriptor != d,
        first_of_desc(q, d) == f,
    decreases k,
{
    let f = if exists|j: int| 0 <= j < k && #[trigger] q[j].descriptor == d {
        let j = choose|j: int| 0 <= j < k && #[trigger] q[j].descriptor == d;
        lemma_first_of_desc(q, d, j)
    } else {
        k
    };
    assert(q[f].descriptor == d);
    let c = first_of_desc(q, d);
    if c > f {
        assert(q[f].descriptor != d);
    }
    f
}

/// Dropping the oldest surface of a group with more than one surface keeps
/// the newest one the newest.
proof fn lemma_oldest_dropped_newest(q: Seq<ReusableTileHandle>, d: TileResourceDescriptor, ge: int)
    requires
        0 <= ge < q.len(),
        q[ge].descriptor == d,
        forall|i: int| ge < i < q.len() ==> #[trigger] q[i].descriptor != d,
        desc_count(q, d) > 1,
    ensures
        newest_pooled(q.remove(first_of_desc(q, d)), d, q[ge].handle),
{
    let o = lemma_first_of_desc(q, d, ge);
    if !(exists|i: int| 0 <= i < q.len() && i != ge && #[trigger] q[i].descriptor == d) {
        lemma_desc_count_single(q, d, ge);
    }
    let w = choose|i: int| 0 <= i < q.len() && i != ge && #[trigger] q[i].descriptor == d;
    assert(w < ge);
    assert(o <= w) by {
        if o > w {
            assert(q[w].descriptor != d);
        }
    }
    let r = q.remove(o);
    assert(r[ge - 1] == q[ge]);
    assert forall|i: int| ge - 1 < i < r.len() implies #[trigger] r[i].descriptor != d by {
        assert(r[i] == q[i + 1]);
    }
    lemma_last_of_desc_at(r, d, ge - 1);
}

/// Tile `u` was given a surface in the cache's current frame: its slot is of
/// the current generation and is not one kept from before.
#[verifier::opaque]
pub open spec fn fresh_surface(c: TileCache, u: TileId) -> bool {
    c.has_slot(u) && c.slot(u).generation == c.generation() && c.slot(u).state != TileContentState::Reused
}

pub proof fn lemma_fresh_surface(c: TileCache, u: TileId)
    ensures
        fresh_surface(c, u) == (c.has_slot(u) && c.slot(u).generation == c.generation() && c.slot(u).state
            != TileContentState::Reused),
{
    reveal(fresh_surface);
}

/// A tile whose slot is the same in two caches of one frame is given a
/// surface in both or in neither.
proof fn lemma_fresh_same(s0: TileCache, s1: TileCache, u: TileId)
    requires
        s0.generation() == s1.generation(),
        s0.has_slot(u) <==> s1.has_slot(u),
        s0.has_slot(u) ==> s0.slot(u) == s1.slot(u),
    ensures
        fresh_surface(s0, u) == fresh_surface(s1, u),
{
    reveal(fresh_surface);
}

/// `after` follows `before` in one frame by handing out surfaces: the
/// surfaces given so far keep their slots; every handle newly reported as
/// reused is the surface of a tile given one since, none twice; and every
/// tile given a surface since holds a newly reused handle or a new one.
#[verifier::opaque]
pub open spec fn grants_from(before: TileCache, after: TileCache) -> bool {
    let b = before.reused().len();
    let a = after.reused().len();
    &&& after.generation() == before.generation()
    &&& before.next_handle() <= after.next_handle()
    &&& b <= a
    &&& after.reused().take(b as int) == before.reused()
    &&& forall|i: int| b <= i < a ==> #[trigger] granted(before, after, after.reused()[i])
    &&& forall|i: int, j: int| b <= i < j < a ==> after.reused()[i] != after.reused()[j]
    &&& forall|u: TileId|
        #[trigger] fresh_surface(before, u) ==> after.has_slot(u) && after.slot(u) == before.slot(u)
    &&& forall|u: TileId|
        #[trigger] fresh_surface(after, u) && !fresh_surface(before, u) ==> after.reused().subrange(
            b as int,
            a as int,
        ).contains(after.slot(u).handle) || (before.next_handle() <= after.slot(u).handle.0
            < after.next_handle())
}

/// Handle `h` is the surface of a tile given one between `before` and `after`.
pub open spec fn granted(before: TileCache, after: TileCache, h: TileContentHandle) -> bool {
    exists|u: TileId| #[trigger] fresh_surface(after, u) && !fresh_surface(before, u) && after.slot(u).handle == h
}

pub proof fn lemma_grants_refl(c: TileCache)
    ensures
        grants_from(c, c),
{
    reveal(grants_from);
    assert(c.reused().take(c.reused().len() as int) =~= c.reused());
    assert forall|u: TileId| #[trigger] fresh_surface(c, u) implies c.has_slot(u) && c.slot(u) == c.slot(u) by {
        lemma_fresh_surface(c, u);
    }
}

/// A tile without a slot given a surface keeps the grants.
#[verifier::spinoff_prover]
proof fn lemma_grants_insert(start: TileCache, s0: TileCache, s1: TileCache, t: TileId, d: TileResourceDescriptor)
    requires
        grants_from(start, s0),
        handles_distinct(s0.slots(), s0.pool()),
        !s0.has_slot(t),
        s1.has_slot(t),
        s1.slot(t).generation == s0.generation(),
        s1.slot(t).state != TileContentState::Reused,
        s1.generation() == s0.generation(),
        forall|u: TileId|
            u != t ==> (s1.has_slot(u) <==> s0.has_slot(u)) && (s0.has_slot(u) ==> s1.slot(u) == s0.slot(u)),
        takes_surface(s0, s1, d, s1.slot(t).handle),
    ensures
        grants_from(start, s1),
{
    reveal(grants_from);
    reveal(takes_surface);
    let b = start.reused().len();
    let h = s1.slot(t).handle;
    lemma_fresh_surface(s1, t);
    lemma_fresh_surface(s0, t);
    assert(fresh_surface(s1, t));
    assert(!fresh_surface(s0, t));
    assert(!fresh_surface(start, t)) by {
        if fresh_surface(start, t) {
            assert(s0.has_slot(t));
        }
    }
    assert forall|u: TileId| #[trigger] fresh_surface(start, u) implies s1.has_slot(u) && s1.slot(u) == start.slot(u) by {
        assert(s0.has_slot(u));
    }
    let pooled = has_desc(s0.pool(), d);
    let n0 = s0.reused().len();
    assert(s1.reused().take(b as int) =~= s0.reused().take(b as int));
    assert forall|i: int| b <= i < s1.reused().len() implies #[trigger] granted(start, s1, s1.reused()[i]) by {
        if i < n0 {
            assert(s0.reused()[i] == s1.reused()[i]);
            assert(granted(start, s0, s0.reused()[i]));
            let u = choose|u: TileId|
                #[trigger] fresh_surface(s0, u) && !fresh_surface(start, u) && s0.slot(u).handle == s0.reused()[i];
            lemma_fresh_surface(s0, u);
            assert(u != t);
            lemma_fresh_same(s0, s1, u);
            assert(fresh_surface(s1, u) && !fresh_surface(start, u) && s1.slot(u).handle == s1.reused()[i]);
        } else {
            assert(s1.reused()[i] == h);
            assert(fresh_surface(s1, t) && !fresh_surface(start, t) && s1.slot(t).handle == s1.reused()[i]);
        }
    }
    if pooled {
        let k0 = choose|i: int| 0 <= i < s0.pool().len() && #[trigger] s0.pool()[i].descriptor == d;
        let k = lemma_last_of_desc(s0.pool(), d, k0);
        assert forall|i: int, j: int| b <= i < j < s1.reused().len() implies s1.reused()[i] != s1.reused()[j] by {
            if j == n0 {
                assert(s0.reused()[i] == s1.reused()[i]);
                assert(granted(start, s0, s0.reused()[i]));
                let u = choose|u: TileId|
                    #[trigger] fresh_surface(s0, u) && !fresh_surface(start, u) && s0.slot(u).handle == s0.reused()[i];
                lemma_fresh_surface(s0, u);
                let w = choose|w: int| 0 <= w < s0.slots().len() && #[trigger] s0.slots()[w].0 == u;
                assert(s0.slots()[w].1.handle != s0.pool()[k].handle);
            } else {
                assert(s0.reused()[i] == s1.reused()[i] && s0.reused()[j] == s1.reused()[j]);
            }
        }
    }
    assert forall|u: TileId| #[trigger] fresh_surface(s1, u) && !fresh_surface(start, u) implies s1.reused().subrange(
        b as int,
        s1.reused().len() as int,
    ).contains(s1.slot(u).handle) || (start.next_handle() <= s1.slot(u).handle.0 < s1.next_handle()) by {
        let r1 = s1.reused().subrange(b as int, s1.reused().len() as int);
        let r0 = s0.reused().subrange(b as int, n0 as int);
        if u == t {
            if pooled {
                assert(r1[n0 - b] == h);
            }
        } else {
            lemma_fresh_same(s0, s1, u);
            lemma_fresh_surface(s0, u);
            if r0.contains(s0.slot(u).handle) {
                let q = choose|q: int| 0 <= q < r0.len() && r0[q] == s0.slot(u).handle;
                assert(r1[q] == r0[q]);
            }
        }
    }
}

/// Taking or updating the slot of a tile not given a surface this frame,
/// with the reused list and the handle counter left as they are, keeps the
/// grants.
proof fn lemma_grants_other(start: TileCache, s0: TileCache, s1: TileCache, t: TileId)
    requires
        grants_from(start, s0),
        !fresh_surface(s0, t),
        !fresh_surface(s1, t),
        s1.generation() == s0.generation(),
        s1.reused() == s0.reused(),
        s1.next_handle() == s0.next_handle(),
        forall|u: TileId|
            u != t ==> (s1.has_slot(u) <==> s0.has_slot(u)) && (s0.has_slot(u) ==> s1.slot(u) == s0.slot(u)),
    ensures
        grants_from(start, s1),
{
    reveal(grants_from);
    let b = start.reused().len();
    assert(s1.reused().take(b as int) == start.reused());
    assert forall|i: int, j: int| b <= i < j < s1.reused().len() implies s1.reused()[i] != s1.reused()[j] by {
        assert(s0.reused()[i] != s0.reused()[j]);
    }
    assert forall|u: TileId| #[trigger] fresh_surface(start, u) implies s1.has_slot(u) && s1.slot(u) == start.slot(u) by {
        if u == t {
            assert(fresh_surface(s0, u) == fresh_surface(s0, t));
        }
        assert(s0.has_slot(u) && s0.slot(u) == start.slot(u));
        if u != t {
            lemma_fresh_same(s0, s1, u);
        } else {
            lemma_fresh_surface(s0, u);
            lemma_fresh_surface(start, u);
        }
    }
    assert forall|i: int| b <= i < s1.reused().len() implies #[trigger] granted(start, s1, s1.reused()[i]) by {
        assert(s0.reused()[i] == s1.reused()[i]);
        assert(granted(start, s0, s0.reused()[i]));
        let u = choose|u: TileId|
            #[trigger] fresh_surface(s0, u) && !fresh_surface(start, u) && s0.slot(u).handle == s0.reused()[i];
        assert(u != t);
        lemma_fresh_surface(s0, u);
        lemma_fresh_same(s0, s1, u);
        assert(fresh_surface(s1, u) && !fresh_surface(start, u) && s1.slot(u).handle == s1.reused()[i]);
    }
    assert forall|u: TileId| #[trigger] fresh_surface(s1, u) && !fresh_surface(start, u) implies s1.reused().subrange(
        b as int,
        s1.reused().len() as int,
    ).contains(s1.slot(u).handle) || (start.next_handle() <= s1.slot(u).handle.0 < s1.next_handle()) by {
        assert(u != t);
        lemma_fresh_same(s0, s1, u);
        lemma_fresh_surface(s0, u);
        assert(s1.slot(u) == s0.slot(u));
    }
}

/// Grants chain across the phases of a frame.
proof fn lemma_grants_trans(a: TileCache, b: TileCache, c: TileCache)
    requires
        grants_from(a, b),
        grants_from(b, c),
        handles_distinct(c.slots(), c.pool()),
    ensures
        grants_from(a, c),
{
    reveal(grants_from);
    let la = a.reused().len();
    let lb = b.reused().len();
    let lc = c.reused().len();
    assert(c.reused().take(la as int) =~= c.reused().take(lb as int).take(la as int));
    assert forall|u: TileId| #[trigger] fresh_surface(b, u) implies fresh_surface(c, u) by {
        lemma_fresh_surface(b, u);
        lemma_fresh_same(b, c, u);
    }
    assert forall|u: TileId| #[trigger] fresh_surface(a, u) implies c.has_slot(u) && c.slot(u) == a.slot(u) by {
        lemma_fresh_surface(a, u);
        lemma_fresh_same(a, b, u);
        assert(fresh_surface(b, u));
        lemma_fresh_surface(b, u);
    }
    assert forall|i: int| la <= i < lc implies #[trigger] granted(a, c, c.reused()[i]) by {
        if i < lb {
            assert(b.reused()[i] == c.reused()[i]) by {
                assert(c.reused().take(lb as int)[i] == c.reused()[i]);
            }
            assert(granted(a, b, b.reused()[i]));
            let u = choose|u: TileId|
                #[trigger] fresh_surface(b, u) && !fresh_surface(a, u) && b.slot(u).handle == b.reused()[i];
            assert(fresh_surface(c, u));
            lemma_fresh_surface(b, u);
            assert(c.slot(u) == b.slot(u));
        } else {
            assert(granted(b, c, c.reused()[i]));
            let u = choose|u: TileId|
                #[trigger] fresh_surface(c, u) && !fresh_surface(b, u) && c.slot(u).handle == c.reused()[i];
            if fresh_surface(a, u) {
                lemma_fresh_surface(a, u);
                lemma_fresh_same(a, b, u);
            }
        }
    }
    assert forall|i: int, j: int| la <= i < j < lc implies c.reused()[i] != c.reused()[j] by {
        if j < lb {
            assert(c.reused().take(lb as int)[i] == c.reused()[i]);
            assert(c.reused().take(lb as int)[j] == c.reused()[j]);
        } else if i >= lb {
        } else {
            assert(c.reused().take(lb as int)[i] == c.reused()[i]);
            assert(granted(a, b, b.reused()[i]));
            let u = choose|u: TileId|
                #[trigger] fresh_surface(b, u) && !fresh_surface(a, u) && b.slot(u).handle == b.reused()[i];
            assert(granted(b, c, c.reused()[j]));
            let w = choose|w: TileId|
                #[trigger] fresh_surface(c, w) && !fresh_surface(b, w) && c.slot(w).handle == c.reused()[j];
            assert(fresh_surface(c, u));
            lemma_fresh_surface(b, u);
            lemma_fresh_surface(c, u);
            lemma_fresh_surface(c, w);
            assert(u != w);
            let pu = choose|x: int| 0 <= x < c.slots().len() && #[trigger] c.slots()[x].0 == u;
            let pw = choose|x: int| 0 <= x < c.slots().len() && #[trigger] c.slots()[x].0 == w;
            assert(pu != pw);
            assert(c.slots()[pu].1.handle != c.slots()[pw].1.handle);
        }
    }
    assert forall|u: TileId| #[trigger] fresh_surface(c, u) && !fresh_surface(a, u) implies c.reused().subrange(
        la as int,
        lc as int,
    ).contains(c.slot(u).handle) || (a.next_handle() <= c.slot(u).handle.0 < c.next_handle()) by {
        let rc = c.reused().subrange(la as int, lc as int);
        if fresh_surface(b, u) {
            lemma_fresh_surface(b, u);
            assert(c.slot(u) == b.slot(u));
            let rb = b.reused().subrange(la as int, lb as int);
            if rb.contains(b.slot(u).handle) {
                let q = choose|q: int| 0 <= q < rb.len() && rb[q] == b.slot(u).handle;
                assert(c.reused().take(lb as int)[la + q] == c.reused()[la + q]);
                assert(rc[q] == rb[q]);
            }
        } else {
            let rbc = c.reused().subrange(lb as int, lc as int);
            if rbc.contains(c.slot(u).handle) {
                let q = choose|q: int| 0 <= q < rbc.len() && rbc[q] == c.slot(u).handle;
                assert(rc[lb - la + q] == rbc[q]);
            }
        }
    }
}

/// Every tile of `tiles` that had a surface of its grid descriptor in
/// `before` holds that same surface in `after`, reported as reused.
#[verifier::opaque]
pub open spec fn kept_surfaces(before: TileCache, after: TileCache, tiles: Seq<TileId>, layout: TileLayout) -> bool {
    forall|u: TileId|
        #[trigger] tiles.contains(u) && before.has_slot(u) && before.slot(u).resource == layout.spec_descriptor_for(u)
            ==> after.slot(u).handle == before.slot(u).handle && after.reused().contains(before.slot(u).handle)
}

/// Taking a surface only appends to the reused list.
proof fn lemma_reused_grows(s1: TileCache, s2: TileCache, d: TileResourceDescriptor, h: TileContentHandle)
    requires
        takes_surface(s1, s2, d, h),
    ensures
        forall|x: TileContentHandle| s1.reused().contains(x) ==> s2.reused().contains(x),
        has_desc(s1.pool(), d) ==> s2.reused() == s1.reused().push(h) && h == s1.pool()[last_of_desc(s1.pool(), d)].handle,
{
    reveal(takes_surface);
    assert forall|x: TileContentHandle| s1.reused().contains(x) implies s2.reused().contains(x) by {
        let q = choose|q: int| 0 <= q < s1.reused().len() && s1.reused()[q] == x;
        assert(s2.reused()[q] == x);
    }
}

/// Re-rasterizing tile `t`: its old surface goes back to the pool as the
/// newest of its descriptor and is taken back at once.
#[verifier::spinoff_prover]
#[verifier::rlimit(20)]
proof fn lemma_kept_step(
    start: TileCache,
    s0: TileCache,
    s1: TileCache,
    s2: TileCache,
    t: TileId,
    prev: Seq<TileId>,
    layout: TileLayout,
)
    requires
        kept_surfaces(start, s0, prev, layout),
        !prev.contains(t),
        s0.has_slot(t) <==> start.has_slot(t),
        s0.has_slot(t) ==> s0.slot(t) == start.slot(t),
        s1.reused() == s0.reused(),
        s0.has_slot(t) ==> newest_pooled(s1.pool(), s0.slot(t).resource, s0.slot(t).handle),
        takes_surface(s1, s2, layout.spec_descriptor_for(t), s2.slot(t).handle),
        forall|u: TileId| u != t && #[trigger] prev.contains(u) ==> s2.slot(u) == s0.slot(u),
    ensures
        kept_surfaces(start, s2, prev.push(t), layout),
{
    reveal(kept_surfaces);
    let dt = layout.spec_descriptor_for(t);
    lemma_reused_grows(s1, s2, dt, s2.slot(t).handle);
    if start.has_slot(t) && start.slot(t).resource == dt {
        assert(s2.reused()[s1.reused().len() as int] == s2.slot(t).handle);
    }
    assert forall|u: TileId|
        #[trigger] prev.push(t).contains(u) && start.has_slot(u) && start.slot(u).resource == layout.spec_descriptor_for(u)
            implies s2.slot(u).handle == start.slot(u).handle && s2.reused().contains(start.slot(u).handle) by {
        if u != t {
            let q = choose|q: int| 0 <= q < prev.push(t).len() && prev.push(t)[q] == u;
            assert(prev[q] == u);
            assert(prev.contains(u));
        }
    }
}

/// Handle `h` is the surface of a tile given one in `c`'s current frame.
pub open spec fn granted_now(c: TileCache, h: TileContentHandle) -> bool {
    exists|u: TileId| #[trigger] fresh_surface(c, u) && c.slot(u).handle == h
}

/// How `after`'s frame handed out surfaces, compared with the cache
/// `before` it: every handle reported as reused is the surface of a tile
/// given one in this frame, and none is reported twice; every tile given a
/// surface in this frame holds a handle reported as reused or a new one,
/// numbered from `before`'s next handle on.
#[verifier::opaque]
pub open spec fn frame_grants(before: TileCache, after: TileCache) -> bool {
    &&& forall|i: int| 0 <= i < after.reused().len() ==> #[trigger] granted_now(after, after.reused()[i])
    &&& forall|i: int, j: int| 0 <= i < j < after.reused().len() ==> after.reused()[i] != after.reused()[j]
    &&& forall|u: TileId|
        #[trigger] fresh_surface(after, u) ==> after.reused().contains(after.slot(u).handle) || (before.next_handle()
            <= after.slot(u).handle.0 < after.next_handle())
}

/// A frame that started with nothing reused and no surface given yet.
proof fn lemma_frame_grants(before: TileCache, mid: TileCache, after: TileCache)
    requires
        grants_from(mid, after),
        mid.reused().len() == 0,
        forall|u: TileId| !fresh_surface(mid, u),
        before.next_handle() <= mid.next_handle(),
    ensures
        frame_grants(before, after),
{
    reveal(grants_from);
    reveal(frame_grants);
    assert forall|i: int| 0 <= i < after.reused().len() implies #[trigger] granted_now(after, after.reused()[i]) by {
        assert(granted(mid, after, after.reused()[i]));
        let u = choose|u: TileId|
            #[trigger] fresh_surface(after, u) && !fresh_surface(mid, u) && after.slot(u).handle == after.reused()[i];
        assert(fresh_surface(after, u));
    }
    assert(after.reused().subrange(0, after.reused().len() as int) =~= after.reused());
    assert forall|u: TileId| #[trigger] fresh_surface(after, u) implies after.reused().contains(after.slot(u).handle)
        || (before.next_handle() <= after.slot(u).handle.0 < after.next_handle()) by {
        assert(!fresh_surface(mid, u));
    }
}

/// A step that leaves slots, reused list, handle counter and generation as
/// they are keeps the grants.
proof fn lemma_grants_same(start: TileCache, s0: TileCache, s1: TileCache)
    requires
        grants_from(start, s0),
        s1.slots() == s0.slots(),
        s1.reused() == s0.reused(),
        s1.next_handle() == s0.next_handle(),
        s1.generation() == s0.generation(),
    ensures
        grants_from(start, s1),
{
    reveal(grants_from);
    assert forall|u: TileId| fresh_surface(s0, u) == fresh_surface(s1, u) by {
        lemma_fresh_surface(s0, u);
        lemma_fresh_surface(s1, u);
    }
    assert forall|i: int| start.reused().len() <= i < s1.reused().len() implies #[trigger] granted(start, s1, s1.reused()[i]) by {
        assert(granted(start, s0, s0.reused()[i]));
        let u = choose|u: TileId|
            #[trigger] fresh_surface(s0, u) && !fresh_surface(start, u) && s0.slot(u).handle == s0.reused()[i];
        assert(fresh_surface(s1, u) && !fresh_surface(start, u) && s1.slot(u).handle == s1.reused()[i]);
    }
}

/// Kept surfaces stay kept while their slots stay and the reused list only
/// grows.
proof fn lemma_kept_persist(before: TileCache, a: TileCache, b: TileCache, tiles: Seq<TileId>, layout: TileLayout)
    requires
        kept_surfaces(before, a, tiles, layout),
        forall|u: TileId| #[trigger] tiles.contains(u) ==> b.slot(u) == a.slot(u),
        a.reused().len() <= b.reused().len(),
        b.reused().take(a.reused().len() as int) == a.reused(),
    ensures
        kept_surfaces(before, b, tiles, layout),
{
    reveal(kept_surfaces);
    assert forall|u: TileId|
        #[trigger] tiles.contains(u) && before.has_slot(u) && before.slot(u).resource == layout.spec_descriptor_for(u)
            implies b.slot(u).handle == before.slot(u).handle && b.reused().contains(before.slot(u).handle) by {
        let q = choose|q: int| 0 <= q < a.reused().len() && a.reused()[q] == before.slot(u).handle;
        assert(b.reused().take(a.reused().len() as int)[q] == b.reused()[q]);
    }
}

/// Kept surfaces are judged by the slots before: equal slots judge alike.
proof fn lemma_kept_rebase(b0: TileCache, b1: TileCache, after: TileCache, tiles: Seq<TileId>, layout: TileLayout)
    requires
        kept_surfaces(b1, after, tiles, layout),
        b0.slots() == b1.slots(),
    ensures
        kept_surfaces(b0, after, tiles, layout),
{
    reveal(kept_surfaces);
}

/// The surfaces of a whole frame: from the phases' grants and kept
/// surfaces to the frame's.
proof fn lemma_frame_end(
    before: TileCache,
    mid: TileCache,
    after_dirty: TileCache,
    after_clean: TileCache,
    fin: TileCache,
    dirty: Seq<TileId>,
    layout: TileLayout,
    full: bool,
)
    requires
        grants_from(mid, after_dirty),
        grants_from(after_dirty, after_clean),
        handles_distinct(after_clean.slots(), after_clean.pool()),
        fin.slots() == after_clean.slots(),
        fin.reused() == after_clean.reused(),
        fin.next_handle() == after_clean.next_handle(),
        fin.generation() == after_clean.generation(),
        mid.reused().len() == 0,
        forall|u: TileId| mid.has_slot(u) ==> mid.slot(u).generation < mid.generation(),
        before.next_handle() <= mid.next_handle(),
        kept_surfaces(mid, after_dirty, dirty, layout),
        forall|u: TileId| dirty.contains(u) ==> fin.has_slot(u),
        forall|u: TileId|
            dirty.contains(u) ==> (after_clean.has_slot(u) <==> after_dirty.has_slot(u)) && (after_dirty.has_slot(u)
                ==> after_clean.slot(u) == after_dirty.slot(u)),
        !full ==> mid.slots() == before.slots(),
    ensures
        frame_grants(before, fin),
        !full ==> kept_surfaces(before, fin, dirty, layout),
{
    lemma_grants_trans(mid, after_dirty, after_clean);
    lemma_grants_same(mid, after_clean, fin);
    assert forall|u: TileId| !fresh_surface(mid, u) by {
        lemma_fresh_surface(mid, u);
    }
    lemma_frame_grants(before, mid, fin);
    reveal(grants_from);
    assert forall|u: TileId| #[trigger] dirty.contains(u) implies fin.slot(u) == after_dirty.slot(u) by {
        assert(fin.has_slot(u));
        assert(after_clean.has_slot(u));
    }
    assert(fin.reused().take(after_dirty.reused().len() as int) == after_dirty.reused());
    lemma_kept_persist(mid, after_dirty, fin, dirty, layout);
    if !full {
        lemma_kept_rebase(before, mid, fin, dirty, layout);
    }
}

/// `b`'s given-up lists extend `a`'s by the same handles.
pub open spec fn given_up_appended(a: TileCache, b: TileCache) -> bool {
    given_up_grew(a.released(), a.evicted(), b.released(), b.evicted())
}

impl TileCache {
    pub closed spec fn slots(&self) -> Seq<(TileId, TileContentSlot)> {
        self.content_slots@
    }

    pub closed spec fn pool(&self) -> Seq<ReusableTileHandle> {
        self.reusable@
    }

    pub closed spec fn released(&self) -> Seq<TileContentHandle> {
        self.released_handles@
    }

    pub closed spec fn reused(&self) -> Seq<TileContentHandle> {
        self.reused_handles@
    }

    pub closed spec fn evicted(&self) -> Seq<TileContentHandle> {
        self.evicted_handles@
    }

    pub closed spec fn byte_count(&self) -> int {
        self.reusable_byte_count as int
    }

    pub closed spec fn serial(&self) -> u64 {
        self.access_serial
    }

    pub closed spec fn stats(&self) -> TileResourceEvictionStats {
        self.eviction_stats
    }

    pub closed spec fn next_handle(&self) -> u64 {
        self.next_content_handle
    }

    pub closed spec fn generation(&self) -> u64 {
        self.content_generation
    }

    pub closed spec fn cached_grid(&self) -> Option<TileGridKey> {
        self.cached_grid
    }

    pub closed spec fn cached_tiles(&self) -> Seq<TileId> {
        self.cached_tiles@
    }

    /// Whether tile `t` has a slot.
    pub open spec fn has_slot(&self, t: TileId) -> bool {
        seq_has_slot(self.slots(), t)
    }

    /// The slot of tile `t` (meaningful when `has_slot(t)`).
    pub open spec fn slot(&self, t: TileId) -> TileContentSlot {
        seq_slot(self.slots(), t)
    }

    /// The eviction counters less the handles on the evicted list: the
    /// counters count exactly the handles evicted since they were reset.
    pub open spec fn eviction_tally(&self) -> int {
        self.stats().budget_eviction_count + self.stats().age_eviction_count
            + self.stats().descriptor_limit_eviction_count - self.evicted().len()
    }

    /// The cache's internal invariant.
    pub open spec fn wf(&self) -> bool {
        &&& self.next_handle() >= 1
        &&& counts_ok(self.pool())
        &&& forall|i: int|
            0 <= i < self.slots().len() ==> (#[trigger] self.slots()[i]).1.generation <= self.generation()
        &&& cache_inv(
            self.slots(),
            self.pool(),
            self.byte_count(),
            self.serial(),
            self.next_handle(),
            self.released(),
            self.evicted(),
        )
    }

    /// The cache right after construction.
    pub open spec fn is_fresh(&self) -> bool {
        &&& self.slots().len() == 0
        &&& self.pool().len() == 0
        &&& self.released().len() == 0
        &&& self.reused().len() == 0
        &&& self.evicted().len() == 0
        &&& self.byte_count() == 0
        &&& self.serial() == 0
        &&& self.next_handle() == 1
        &&& self.generation() == 0
        &&& self.cached_grid() is None
        &&& self.cached_tiles().len() == 0
        &&& self.stats() == TileResourceEvictionStats {
            budget_eviction_count: 0,
            age_eviction_count: 0,
            descriptor_limit_eviction_count: 0,
        }
    }

    pub fn new() -> (cache: Self)
        ensures
            cache.wf(),
            cache.is_fresh(),
    {
        let cache = TileCache {
            cached_grid: None,
            cached_tiles: Vec::new(),
            content_slots: Vec::new(),
            reusable: Vec::new(),
            released_handles: Vec::new(),
            reused_handles: Vec::new(),
            evicted_handles: Vec::new(),
            reusable_byte_count: 0,
            access_serial: 0,
            eviction_stats: TileResourceEvictionStats {
                budget_eviction_count: 0,
                age_eviction_count: 0,
                descriptor_limit_eviction_count: 0,
            },
            next_content_handle: 1,
            content_generation: 0,
        };
        proof {
            reveal(cache_inv);
            assert forall|d: TileResourceDescriptor|
                #[trigger] desc_count(cache.pool(), d) <= MAX_REUSABLE_PER_DESCRIPTOR by {}
        }
        cache
    }

    /// A brand-new handle: the next unused number (never zero).
    fn allocate_handle(&mut self) -> (h: TileContentHandle)
        requires
            old(self).next_content_handle < u64::MAX,
        ensures
            h.0 == if old(self).next_content_handle >= 1 {
                old(self).next_content_handle
            } else {
                1
            },
            final(self).next_content_handle == h.0 + 1,
            final(self).content_slots == old(self).content_slots,
            final(self).reusable == old(self).reusable,
            final(self).released_handles == old(self).released_handles,
            final(self).reused_handles == old(self).reused_handles,
            final(self).evicted_handles == old(self).evicted_handles,
            final(self).reusable_byte_count == old(self).reusable_byte_count,
            final(self).access_serial == old(self).access_serial,
            final(self).eviction_stats == old(self).eviction_stats,
            final(self).content_generation == old(self).content_generation,
            final(self).cached_grid == old(self).cached_grid,
            final(self).cached_tiles == old(self).cached_tiles,
    {
        let n = if self.next_content_handle >= 1 {
            self.next_content_handle
        } else {
            1
        };
        self.next_content_handle = n + 1;
        TileContentHandle(n)
    }

    /// A surface for `resource`: the most recently recycled reusable one of
    /// that descriptor (reported as reused), or else a brand-new handle.
    fn acquire_handle(&mut self, resource: TileResourceDescriptor) -> (h: TileContentHandle)
        requires
            old(self).wf(),
            old(self).next_content_handle < u64::MAX,
        ensures
            final(self).wf(),
            has_desc(old(self).pool(), resource) ==> {
                let k = last_of_desc(old(self).pool(), resource);
                &&& h == old(self).pool()[k].handle
                &&& final(self).pool() == old(self).pool().remove(k)
                &&& final(self).reused() == old(self).reused().push(h)
                &&& final(self).next_handle() == old(self).next_handle()
            },
            !has_desc(old(self).pool(), resource) ==> {
                &&& h.0 == if old(self).next_handle() >= 1 {
                    old(self).next_handle()
                } else {
                    1
                }
                &&& final(self).next_handle() == h.0 + 1
                &&& final(self).pool() == old(self).pool()
                &&& final(self).reused() == old(self).reused()
            },
            old(self).next_handle() <= final(self).next_handle(),
            final(self).byte_count() <= old(self).byte_count(),
            final(self).pool().len() <= old(self).pool().len(),
            handle_free(
                final(self).slots(),
                final(self).pool(),
                final(self).next_handle(),
                final(self).released(),
                final(self).evicted(),
                h,
            ),
            final(self).slots() == old(self).slots(),
            final(self).released() == old(self).released(),
            final(self).evicted() == old(self).evicted(),
            final(self).serial() == old(self).serial(),
            final(self).stats() == old(self).stats(),
            final(self).generation() == old(self).generation(),
            final(self).cached_grid() == old(self).cached_grid(),
            final(self).cached_tiles() == old(self).cached_tiles(),
    {
        let len = self.reusable.len();
        let mut k: usize = len;
        while k > 0 && self.reusable[k - 1].descriptor != resource
            invariant
                0 <= k <= len,
                len == self.reusable@.len(),
                forall|i: int| k <= i < len ==> #[trigger] self.reusable@[i].descriptor != resource,
            decreases k,
        {
            k = k - 1;
        }
        if k == 0 {
            proof {
                assert(!has_desc(old(self).pool(), resource));
            }
            let h = self.allocate_handle();
            proof {
                lemma_inv_next_grows(
                    old(self).slots(),
                    old(self).pool(),
                    old(self).byte_count(),
                    old(self).serial(),
                    old(self).next_handle(),
                    old(self).released(),
                    old(self).evicted(),
                    self.next_handle(),
                );
            }
            return h;
        }
        let idx = k - 1;
        proof {
            assert(has_desc(old(self).pool(), resource));
            let kk = last_of_desc(old(self).pool(), resource);
            assert(self.reusable@[idx as int].descriptor == resource);
            if kk != idx {
                if kk < idx {
                    assert(self.reusable@[idx as int].descriptor != resource);
                } else {
                    assert(self.reusable@[kk].descriptor != resource);
                }
            }
            lemma_inv_pool_take(
                old(self).slots(),
                old(self).pool(),
                old(self).byte_count(),
                old(self).serial(),
                old(self).next_handle(),
                old(self).released(),
                old(self).evicted(),
                idx as int,
            );
            lemma_pool_remove(old(self).pool(), idx as int);
            assert forall|d: TileResourceDescriptor|
                #[trigger] desc_count(old(self).pool().remove(idx as int), d)
                    <= MAX_REUSABLE_PER_DESCRIPTOR by {
                assert(desc_count(old(self).pool(), d) <= MAX_REUSABLE_PER_DESCRIPTOR);
            }
        }
        let entry = self.reusable.remove(idx);
        let bytes = entry.descriptor.estimated_byte_size();
        self.reusable_byte_count = self.reusable_byte_count - bytes;
        self.reused_handles.push(entry.handle);
        entry.handle
    }

    /// Returns a tile's surface to the pool, as the newest entry of its
    /// descriptor's group; when the group then holds more than
    /// `MAX_REUSABLE_PER_DESCRIPTOR` surfaces, its oldest one is released.
    #[verifier::spinoff_prover]
    #[verifier::rlimit(30)]
    fn recycle_slot(&mut self, slot: TileContentSlot)
        requires
            old(self).wf(),
            handle_free(
                old(self).slots(),
                old(self).pool(),
                old(self).next_handle(),
                old(self).released(),
                old(self).evicted(),
                slot.handle,
            ),
            desc_bytes(slot.resource) <= usize::MAX,
            old(self).serial() < u64::MAX,
            old(self).byte_count() + desc_bytes(slot.resource) <= usize::MAX,
            old(self).stats().descriptor_limit_eviction_count < usize::MAX,
        ensures
            final(self).wf(),
            final(self).serial() == old(self).serial() + 1,
            final(self).pool() == recycle_into(old(self).pool(), old(self).serial() as int, slot),
            final(self).byte_count() <= old(self).byte_count() + desc_bytes(slot.resource),
            final(self).pool().len() <= old(self).pool().len() + 1,
            given_up_appended(*old(self), *final(self)),
            final(self).eviction_tally() == old(self).eviction_tally(),
            ({
                let e = ReusableTileHandle {
                    descriptor: slot.resource,
                    handle: slot.handle,
                    last_used_generation: slot.generation,
                    access_serial: (old(self).serial() + 1) as u64,
                };
                let q = old(self).pool().insert(group_end(old(self).pool(), slot.resource), e);
                if desc_count(q, slot.resource) > MAX_REUSABLE_PER_DESCRIPTOR {
                    let o = first_of_desc(q, slot.resource);
                    &&& final(self).pool() == q.remove(o)
                    &&& final(self).released() == old(self).released().push(q[o].handle)
                    &&& final(self).evicted() == old(self).evicted().push(q[o].handle)
                    &&& final(self).stats() == (TileResourceEvictionStats {
                        descriptor_limit_eviction_count: (old(self).stats().descriptor_limit_eviction_count
                            + 1) as usize,
                        ..old(self).stats()
                    })
                } else {
                    &&& final(self).pool() == q
                    &&& final(self).released() == old(self).released()
                    &&& final(self).evicted() == old(self).evicted()
                    &&& final(self).stats() == old(self).stats()
                }
            }),
            final(self).slots() == old(self).slots(),
            final(self).next_handle() == old(self).next_handle(),
            final(self).reused() == old(self).reused(),
            final(self).generation() == old(self).generation(),
            final(self).cached_grid() == old(self).cached_grid(),
            final(self).cached_tiles() == old(self).cached_tiles(),
    {
        proof {
            crate::tile_alloc::lemma_recycle_into(old(self).pool(), old(self).serial() as int, slot);
        }
        let bytes = slot.resource.estimated_byte_size();
        self.access_serial = self.access_serial + 1;
        let entry = ReusableTileHandle {
            descriptor: slot.resource,
            handle: slot.handle,
            last_used_generation: slot.generation,
            access_serial: self.access_serial,
        };
        let len = self.reusable.len();
        let mut p: usize = 0;
        proof {
            lemma_inv_facts(
                old(self).slots(),
                old(self).pool(),
                old(self).byte_count(),
                old(self).serial(),
                old(self).next_handle(),
                old(self).released(),
                old(self).evicted(),
            );
            lemma_group_end(old(self).pool(), slot.resource);
        }
        while p < len && desc_less_eq(self.reusable[p].descriptor, slot.resource)
            invariant
                0 <= p <= len,
                len == self.reusable@.len(),
                self.reusable@ == old(self).pool(),
                p <= group_end(old(self).pool(), slot.resource),
                0 <= group_end(old(self).pool(), slot.resource) <= len,
                forall|i: int|
                    group_end(old(self).pool(), slot.resource) <= i < len ==> !desc_le(
                        #[trigger] self.reusable@[i].descriptor,
                        slot.resource,
                    ),
            decreases len - p,
        {
            p = p + 1;
        }
        proof {
            assert(p == group_end(old(self).pool(), slot.resource));
            lemma_inv_pool_insert(
                old(self).slots(),
                old(self).pool(),
                old(self).byte_count(),
                old(self).serial(),
                old(self).next_handle(),
                old(self).released(),
                old(self).evicted(),
                entry,
            );
        }
        self.reusable.insert(p, entry);
        self.reusable_byte_count = self.reusable_byte_count + bytes;
        let ghost q = self.reusable@;
        let mut count: usize = 0;
        let mut first: usize = 0;
        let mut i: usize = 0;
        let n = self.reusable.len();
        while i < n
            invariant
                0 <= i <= n,
                n == q.len(),
                self.reusable@ == q,
                count == desc_count(q.take(i as int), slot.resource),
                count <= i,
                count > 0 ==> (0 <= first < i && q[first as int].descriptor == slot.resource
                    && forall|j: int| 0 <= j < first ==> #[trigger] q[j].descriptor != slot.resource),
                count == 0 ==> forall|j: int| 0 <= j < i ==> #[trigger] q[j].descriptor != slot.resource,
            decreases n - i,
        {
            proof {
                assert(q.take(i + 1).drop_last() =~= q.take(i as int));
                lemma_desc_count_pos(q.take(i as int), slot.resource);
            }
            if self.reusable[i].descriptor == slot.resource {
                if count == 0 {
                    first = i;
                }
                count = count + 1;
            }
            i = i + 1;
        }
        proof {
            assert(q.take(n as int) =~= q);
        }
        if count > MAX_REUSABLE_PER_DESCRIPTOR {
            proof {
                let o = first_of_desc(q, slot.resource);
                if o != first {
                    if o < first {
                        assert(q[o].descriptor != slot.resource);
                    } else {
                        assert(q[first as int].descriptor == slot.resource);
                    }
                }
                lemma_inv_pool_take(
                    old(self).slots(),
                    q,
                    self.byte_count(),
                    self.serial(),
                    old(self).next_handle(),
                    old(self).released(),
                    old(self).evicted(),
                    first as int,
                );
                lemma_pool_remove(q, first as int);
                assert forall|d: TileResourceDescriptor|
                    #[trigger] desc_count(q.remove(first as int), d) <= MAX_REUSABLE_PER_DESCRIPTOR by {
                    assert(desc_count(old(self).pool(), d) <= MAX_REUSABLE_PER_DESCRIPTOR);
                }
            }
            let removed = self.reusable.remove(first);
            proof {
                lemma_inv_give_up(
                    old(self).slots(),
                    self.reusable@,
                    self.byte_count() - desc_bytes(removed.descriptor),
                    self.serial(),
                    old(self).next_handle(),
                    old(self).released(),
                    old(self).evicted(),
                    removed.handle,
                );
            }
            self.released_handles.push(removed.handle);
            self.evicted_handles.push(removed.handle);
            self.eviction_stats.descriptor_limit_eviction_count =
                self.eviction_stats.descriptor_limit_eviction_count + 1;
            self.reusable_byte_count = self.reusable_byte_count - bytes;
            proof {
                lemma_given_up_push(old(self).released(), old(self).evicted(), removed.handle);
            }
        } else {
            proof {
                lemma_given_up_refl(old(self).released(), old(self).evicted());
                assert forall|d: TileResourceDescriptor|
                    #[trigger] desc_count(q, d) <= MAX_REUSABLE_PER_DESCRIPTOR by {
                    assert(desc_count(old(self).pool(), d) <= MAX_REUSABLE_PER_DESCRIPTOR);
                }
            }
        }
    }

    /// While the reusable surfaces take more than `MAX_REUSABLE_BYTE_COUNT`
    /// bytes, releases the least recently recycled one.
    fn evict_over_budget(&mut self)
        requires
            old(self).wf(),
            old(self).stats().budget_eviction_count + old(self).pool().len() <= usize::MAX,
        ensures
            final(self).wf(),
            final(self).pool() == budget_kept(old(self).pool()),
            final(self).byte_count() <= MAX_REUSABLE_BYTE_COUNT,
            final(self).pool().len() <= old(self).pool().len(),
            forall|i: int|
                0 <= i < final(self).pool().len() ==> old(self).pool().contains(#[trigger] final(self).pool()[i]),
            forall|e: ReusableTileHandle|
                old(self).pool().contains(e) && !final(self).pool().contains(e) ==> forall|j: int|
                    0 <= j < final(self).pool().len() ==> e.access_serial
                        < #[trigger] final(self).pool()[j].access_serial,
            given_up_appended(*old(self), *final(self)),
            final(self).eviction_tally() == old(self).eviction_tally(),
            final(self).stats().budget_eviction_count == old(self).stats().budget_eviction_count
                + (old(self).pool().len() - final(self).pool().len()),
            final(self).stats().age_eviction_count == old(self).stats().age_eviction_count,
            final(self).stats().descriptor_limit_eviction_count == old(self).stats().descriptor_limit_eviction_count,
            final(self).slots() == old(self).slots(),
            final(self).serial() == old(self).serial(),
            final(self).next_handle() == old(self).next_handle(),
            final(self).reused() == old(self).reused(),
            final(self).generation() == old(self).generation(),
            final(self).cached_grid() == old(self).cached_grid(),
            final(self).cached_tiles() == old(self).cached_tiles(),
    {
        proof {
            lemma_given_up_refl(self.released(), self.evicted());
        }
        loop
            invariant
                self.wf(),
                budget_kept(self.pool()) == budget_kept(old(self).pool()),
                self.pool().len() <= old(self).pool().len(),
                self.stats().budget_eviction_count + self.pool().len() <= usize::MAX,
                forall|i: int|
                    0 <= i < self.pool().len() ==> old(self).pool().contains(#[trigger] self.pool()[i]),
                forall|e: ReusableTileHandle|
                    old(self).pool().contains(e) && !self.pool().contains(e) ==> forall|j: int|
                        0 <= j < self.pool().len() ==> e.access_serial
                            < #[trigger] self.pool()[j].access_serial,
                given_up_appended(*old(self), *self),
                self.eviction_tally() == old(self).eviction_tally(),
                self.stats().budget_eviction_count == old(self).stats().budget_eviction_count
                    + (old(self).pool().len() - self.pool().len()),
                self.stats().age_eviction_count == old(self).stats().age_eviction_count,
                self.stats().descriptor_limit_eviction_count == old(self).stats().descriptor_limit_eviction_count,
                self.slots() == old(self).slots(),
                self.serial() == old(self).serial(),
                self.next_handle() == old(self).next_handle(),
                self.reused() == old(self).reused(),
                self.generation() == old(self).generation(),
                self.cached_grid() == old(self).cached_grid(),
                self.cached_tiles() == old(self).cached_tiles(),
            ensures
                self.wf(),
                self.pool() == budget_kept(old(self).pool()),
                self.byte_count() <= MAX_REUSABLE_BYTE_COUNT,
                self.pool().len() <= old(self).pool().len(),
                forall|i: int|
                    0 <= i < self.pool().len() ==> old(self).pool().contains(#[trigger] self.pool()[i]),
                forall|e: ReusableTileHandle|
                    old(self).pool().contains(e) && !self.pool().contains(e) ==> forall|j: int|
                        0 <= j < self.pool().len() ==> e.access_serial
                            < #[trigger] self.pool()[j].access_serial,
                given_up_appended(*old(self), *self),
                self.eviction_tally() == old(self).eviction_tally(),
                self.stats().budget_eviction_count == old(self).stats().budget_eviction_count
                    + (old(self).pool().len() - self.pool().len()),
                self.stats().age_eviction_count == old(self).stats().age_eviction_count,
                self.stats().descriptor_limit_eviction_count == old(self).stats().descriptor_limit_eviction_count,
                self.slots() == old(self).slots(),
                self.serial() == old(self).serial(),
                self.next_handle() == old(self).next_handle(),
                self.reused() == old(self).reused(),
                self.generation() == old(self).generation(),
                self.cached_grid() == old(self).cached_grid(),
                self.cached_tiles() == old(self).cached_tiles(),
            decreases self.pool().len(),
        {
            proof {
                lemma_inv_facts(
                    self.slots(),
                    self.pool(),
                    self.byte_count(),
                    self.serial(),
                    self.next_handle(),
                    self.released(),
                    self.evicted(),
                );
                lemma_pool_bytes_nonneg(self.pool());
            }
            if self.reusable_byte_count <= MAX_REUSABLE_BYTE_COUNT {
                proof {
                    reveal(budget_kept);
                    assert(budget_kept(self.pool()) == self.pool());
                }
                break;
            }
            let n = self.reusable.len();
            if n == 0 {
                proof {
                    reveal(budget_kept);
                }
                break;
            }
            let mut k: usize = 0;
            let mut i: usize = 1;
            while i < n
                invariant
                    0 <= k < n,
                    1 <= i <= n,
                    k < i,
                    k == oldest_in(self.reusable@, i as int),
                    n == self.reusable@.len(),
                    forall|j: int| 0 <= j < i ==> self.reusable@[k as int].access_serial
                        <= #[trigger] self.reusable@[j].access_serial,
                decreases n - i,
            {
                if self.reusable[i].access_serial < self.reusable[k].access_serial {
                    k = i;
                }
                i = i + 1;
            }
            let ghost before = *self;
            proof {
                lemma_oldest_in_range(before.pool(), n as int);
                reveal(budget_kept);
                assert(budget_kept(before.pool()) == budget_kept(before.pool().remove(k as int)));
                lemma_inv_pool_take(
                    self.slots(),
                    self.pool(),
                    self.byte_count(),
                    self.serial(),
                    self.next_handle(),
                    self.released(),
                    self.evicted(),
                    k as int,
                );
                lemma_pool_remove(self.pool(), k as int);
                assert forall|d: TileResourceDescriptor|
                    #[trigger] desc_count(self.pool().remove(k as int), d) <= MAX_REUSABLE_PER_DESCRIPTOR by {
                    assert(desc_count(self.pool(), d) <= MAX_REUSABLE_PER_DESCRIPTOR);
                }
            }
            let removed = self.reusable.remove(k);
            proof {
                lemma_inv_give_up(
                    self.slots(),
                    self.pool(),
                    before.byte_count() - desc_bytes(removed.descriptor),
                    self.serial(),
                    self.next_handle(),
                    self.released(),
                    self.evicted(),
                    removed.handle,
                );
            }
            let bytes = removed.descriptor.estimated_byte_size();
            self.released_handles.push(removed.handle);
            self.evicted_handles.push(removed.handle);
            self.eviction_stats.budget_eviction_count = self.eviction_stats.budget_eviction_count + 1;
            self.reusable_byte_count = self.reusable_byte_count - bytes;
            proof {
                let bp = before.pool();
                assert forall|i: int| 0 <= i < self.pool().len() implies #[trigger] self.pool()[i] == bp[if i < k { i } else { i + 1 }] by {}
                assert forall|i: int|
                    0 <= i < self.pool().len() implies old(self).pool().contains(#[trigger] self.pool()[i]) by {
                    let ii = if i < k { i } else { i + 1 };
                    assert(bp[ii] == self.pool()[i]);
                    assert(bp.contains(bp[ii]));
                }
                assert forall|e: ReusableTileHandle|
                    old(self).pool().contains(e) && !self.pool().contains(e) implies forall|j: int|
                        0 <= j < self.pool().len() ==> e.access_serial
                            < #[trigger] self.pool()[j].access_serial by {
                    assert forall|j: int| 0 <= j < self.pool().len() implies e.access_serial
                        < #[trigger] self.pool()[j].access_serial by {
                        let jj = if j < k { j } else { j + 1 };
                        assert(bp[jj] == self.pool()[j]);
                        assert(jj != k);
                        if bp.contains(e) {
                            let m = choose|m: int| 0 <= m < bp.len() && bp[m] == e;
                            if m != k {
                                let mm = if m < k { m } else { m - 1 };
                                assert(self.pool()[mm] == e);
                            }
                            assert(m == k);
                            assert(bp[k as int].access_serial <= bp[jj].access_serial);
                            assert(bp[k as int].access_serial != bp[jj].access_serial);
                        } else {
                            assert(before.pool().contains(bp[jj]));
                        }
                    }
                }
                lemma_given_up_push(before.released(), before.evicted(), removed.handle);
                lemma_given_up_trans(
                    old(self).released(),
                    old(self).evicted(),
                    before.released(),
                    before.evicted(),
                    self.released(),
                    self.evicted(),
                );
            }
        }
    }

    /// Releases every reusable surface unused for more than
    /// `MAX_REUSABLE_GENERATION_AGE` frames before `generation`, then
    /// enforces the byte budget.
    fn evict_stale_handles(&mut self, generation: u64)
        requires
            old(self).wf(),
            old(self).stats().age_eviction_count + old(self).pool().len() <= usize::MAX,
            old(self).stats().budget_eviction_count + old(self).pool().len() <= usize::MAX,
        ensures
            final(self).wf(),
            final(self).pool() == pool_after_eviction(old(self).pool(), generation),
            final(self).byte_count() <= MAX_REUSABLE_BYTE_COUNT,
            final(self).pool().len() <= old(self).pool().len(),
            forall|i: int|
                0 <= i < final(self).pool().len() ==> old(self).pool().contains(#[trigger] final(self).pool()[i])
                    && !is_stale(generation, final(self).pool()[i]),
            given_up_appended(*old(self), *final(self)),
            final(self).eviction_tally() == old(self).eviction_tally(),
            final(self).stats().descriptor_limit_eviction_count == old(self).stats().descriptor_limit_eviction_count,
            final(self).stats().age_eviction_count <= old(self).stats().age_eviction_count + old(self).pool().len(),
            final(self).stats().budget_eviction_count <= old(self).stats().budget_eviction_count + old(self).pool().len(),
            final(self).slots() == old(self).slots(),
            final(self).serial() == old(self).serial(),
            final(self).next_handle() == old(self).next_handle(),
            final(self).reused() == old(self).reused(),
            final(self).generation() == old(self).generation(),
            final(self).cached_grid() == old(self).cached_grid(),
            final(self).cached_tiles() == old(self).cached_tiles(),
    {
        let ghost pool0 = self.pool();
        let n = self.reusable.len();
        let mut kept: Vec<ReusableTileHandle> = Vec::new();
        let mut i: usize = 0;
        proof {
            lemma_given_up_refl(self.released(), self.evicted());
            assert(kept@ + pool0.skip(0) =~= pool0);
        }
        while i < n
            invariant
                0 <= i <= n,
                n == pool0.len(),
                self.pool() == pool0,
                pool0 == old(self).pool(),
                kept@.len() <= i,
                kept@ == pool0.take(i as int).filter(not_stale(generation)),
                cache_inv(
                    self.slots(),
                    kept@ + pool0.skip(i as int),
                    self.byte_count(),
                    self.serial(),
                    self.next_handle(),
                    self.released(),
                    self.evicted(),
                ),
                counts_ok(kept@ + pool0.skip(i as int)),
                forall|j: int|
                    0 <= j < kept@.len() ==> pool0.contains(#[trigger] kept@[j]) && !is_stale(
                        generation,
                        kept@[j],
                    ),
                given_up_appended(*old(self), *self),
                self.eviction_tally() == old(self).eviction_tally(),
                self.stats().age_eviction_count == old(self).stats().age_eviction_count + (i
                    - kept@.len()),
                self.stats().budget_eviction_count == old(self).stats().budget_eviction_count,
                self.stats().descriptor_limit_eviction_count == old(self).stats().descriptor_limit_eviction_count,
                old(self).stats().age_eviction_count + old(self).pool().len() <= usize::MAX,
                self.slots() == old(self).slots(),
                self.serial() == old(self).serial(),
                self.next_handle() == old(self).next_handle(),
                self.reused() == old(self).reused(),
                self.generation() == old(self).generation(),
                self.cached_grid() == old(self).cached_grid(),
                self.cached_tiles() == old(self).cached_tiles(),
            decreases n - i,
        {
            let entry = self.reusable[i];
            let ghost q = kept@ + pool0.skip(i as int);
            proof {
                assert(q[kept@.len() as int] == entry);
                lemma_filter_take_step(pool0, i as int, not_stale(generation));
            }
            if generation.saturating_sub(entry.last_used_generation) > MAX_REUSABLE_GENERATION_AGE {
                let ghost before = *self;
                proof {
                    lemma_inv_pool_take(
                        self.slots(),
                        q,
                        self.byte_count(),
                        self.serial(),
                        self.next_handle(),
                        self.released(),
                        self.evicted(),
                        kept@.len() as int,
                    );
                    lemma_pool_remove(q, kept@.len() as int);
                    assert(q.remove(kept@.len() as int) =~= kept@ + pool0.skip(i + 1));
                    assert forall|d: TileResourceDescriptor|
                        #[trigger] desc_count(kept@ + pool0.skip(i + 1), d) <= MAX_REUSABLE_PER_DESCRIPTOR by {
                        assert(desc_count(q, d) <= MAX_REUSABLE_PER_DESCRIPTOR);
                    }
                    lemma_inv_give_up(
                        self.slots(),
                        kept@ + pool0.skip(i + 1),
                        self.byte_count() - desc_bytes(entry.descriptor),
                        self.serial(),
                        self.next_handle(),
                        self.released(),
                        self.evicted(),
                        entry.handle,
                    );
                }
                let bytes = entry.descriptor.estimated_byte_size();
                self.released_handles.push(entry.handle);
                self.evicted_handles.push(entry.handle);
                self.eviction_stats.age_eviction_count = self.eviction_stats.age_eviction_count + 1;
                self.reusable_byte_count = self.reusable_byte_count - bytes;
                proof {
                    lemma_given_up_push(before.released(), before.evicted(), entry.handle);
                    lemma_given_up_trans(
                        old(self).released(),
                        old(self).evicted(),
                        before.released(),
                        before.evicted(),
                        self.released(),
                        self.evicted(),
                    );
                }
            } else {
                kept.push(entry);
                proof {
                    assert(kept@ + pool0.skip(i + 1) =~= q);
                    assert(pool0[i as int] == entry);
                    assert(pool0.contains(entry));
                }
            }
            i = i + 1;
        }
        proof {
            assert(kept@ + pool0.skip(n as int) =~= kept@);
            assert(pool0.take(n as int) =~= pool0);
        }
        self.reusable = kept;
        let ghost mid = *self;
        self.evict_over_budget();
        proof {
            lemma_given_up_trans(
                old(self).released(),
                old(self).evicted(),
                mid.released(),
                mid.evicted(),
                self.released(),
                self.evicted(),
            );
        }
    }

    /// Where tile `t`'s slot is, or where it would go.
    fn slot_position(&self, t: TileId) -> (r: (usize, bool))
        requires
            slots_sorted(self.slots()),
        ensures
            0 <= r.0 <= self.slots().len(),
            forall|i: int| 0 <= i < r.0 ==> tile_lt(#[trigger] self.slots()[i].0, t),
            r.1 <==> (r.0 < self.slots().len() && self.slots()[r.0 as int].0 == t),
            !r.1 ==> forall|i: int| r.0 <= i < self.slots().len() ==> tile_lt(t, #[trigger] self.slots()[i].0),
            r.1 ==> forall|i: int| r.0 < i < self.slots().len() ==> tile_lt(t, #[trigger] self.slots()[i].0),
            r.1 <==> self.has_slot(t),
            r.1 ==> self.slot(t) == self.slots()[r.0 as int].1,
    {
        let n = self.content_slots.len();
        let mut p: usize = 0;
        while p < n && crate::tile::tile_less(self.content_slots[p].0, t)
            invariant
                0 <= p <= n,
                n == self.slots().len(),
                slots_sorted(self.slots()),
                forall|i: int| 0 <= i < p ==> tile_lt(#[trigger] self.slots()[i].0, t),
            decreases n - p,
        {
            p = p + 1;
        }
        let found = p < n && self.content_slots[p].0 == t;
        proof {
            assert forall|i: int| p <= i < n && !found implies tile_lt(t, #[trigger] self.slots()[i].0) by {
                assert(!tile_lt(self.slots()[p as int].0, t));
                if i > p {
                    assert(tile_lt(self.slots()[p as int].0, self.slots()[i].0));
                }
            }
            assert forall|i: int| p < i < n && found implies tile_lt(t, #[trigger] self.slots()[i].0) by {
                assert(tile_lt(self.slots()[p as int].0, self.slots()[i].0));
            }
            if self.has_slot(t) {
                let w = choose|i: int| 0 <= i < self.slots().len() && #[trigger] self.slots()[i].0 == t;
                assert(w == p);
            }
            if found {
                assert(self.slots()[p as int].0 == t);
            }
        }
        (p, found)
    }

    /// Returns every slot's surface to the pool, in tile order.
    #[verifier::spinoff_prover]
    fn recycle_all_slots(&mut self)
        requires
            old(self).wf(),
            old(self).serial() + old(self).slots().len() <= u64::MAX,
            old(self).byte_count() + slot_bytes(old(self).slots()) <= usize::MAX,
            old(self).stats().descriptor_limit_eviction_count + old(self).slots().len() <= usize::MAX,
        ensures
            final(self).wf(),
            final(self).slots().len() == 0,
            final(self).pool() == recycle_all_into(old(self).pool(), old(self).serial() as int, old(self).slots()),
            given_up_appended(*old(self), *final(self)),
            final(self).eviction_tally() == old(self).eviction_tally(),
            final(self).serial() == old(self).serial() + old(self).slots().len(),
            final(self).byte_count() <= old(self).byte_count() + slot_bytes(old(self).slots()),
            final(self).pool().len() <= old(self).pool().len() + old(self).slots().len(),
            final(self).stats().descriptor_limit_eviction_count <= old(self).stats().descriptor_limit_eviction_count
                + old(self).slots().len(),
            final(self).stats().age_eviction_count == old(self).stats().age_eviction_count,
            final(self).stats().budget_eviction_count == old(self).stats().budget_eviction_count,
            final(self).next_handle() == old(self).next_handle(),
            final(self).reused() == old(self).reused(),
            final(self).generation() == old(self).generation(),
            final(self).cached_grid() == old(self).cached_grid(),
            final(self).cached_tiles() == old(self).cached_tiles(),
    {
        proof {
            lemma_given_up_refl(self.released(), self.evicted());
        }
        while self.content_slots.len() > 0
            invariant
                self.wf(),
                recycle_all_into(self.pool(), self.serial() as int, self.slots()) == recycle_all_into(
                    old(self).pool(),
                    old(self).serial() as int,
                    old(self).slots(),
                ),
                given_up_appended(*old(self), *self),
                self.eviction_tally() == old(self).eviction_tally(),
                self.serial() + self.slots().len() == old(self).serial() + old(self).slots().len(),
                self.serial() + self.slots().len() <= u64::MAX,
                self.byte_count() + slot_bytes(self.slots()) <= old(self).byte_count() + slot_bytes(old(self).slots()),
                old(self).byte_count() + slot_bytes(old(self).slots()) <= usize::MAX,
                self.pool().len() + self.slots().len() <= old(self).pool().len() + old(self).slots().len(),
                self.stats().descriptor_limit_eviction_count + self.slots().len()
                    <= old(self).stats().descriptor_limit_eviction_count + old(self).slots().len(),
                old(self).stats().descriptor_limit_eviction_count + old(self).slots().len() <= usize::MAX,
                self.stats().age_eviction_count == old(self).stats().age_eviction_count,
                self.stats().budget_eviction_count == old(self).stats().budget_eviction_count,
                self.next_handle() == old(self).next_handle(),
                self.reused() == old(self).reused(),
                self.generation() == old(self).generation(),
                self.cached_grid() == old(self).cached_grid(),
                self.cached_tiles() == old(self).cached_tiles(),
            decreases self.slots().len(),
        {
            let ghost before = *self;
            proof {
                lemma_inv_slot_take(
                    self.slots(),
                    self.pool(),
                    self.byte_count(),
                    self.serial(),
                    self.next_handle(),
                    self.released(),
                    self.evicted(),
                    0,
                );
                lemma_aged_remove(self.slots(), 0, u64::MAX as int + 1);
                lemma_aged_nonneg(self.slots().remove(0), u64::MAX as int + 1);
                lemma_pool_bytes_nonneg(self.pool());
            }
            let entry = self.content_slots.remove(0);
            proof {
                assert(before.slots().drop_first() =~= self.slots());
                assert(entry.1 == before.slots()[0].1);
                crate::tile_alloc::lemma_recycle_all_into(before.pool(), before.serial() as int, before.slots());
            }
            self.recycle_slot(entry.1);
            proof {
                lemma_given_up_trans(
                    old(self).released(),
                    old(self).evicted(),
                    before.released(),
                    before.evicted(),
                    self.released(),
                    self.evicted(),
                );
            }
        }
        proof {
            lemma_aged_nonneg(old(self).slots(), u64::MAX as int + 1);
            crate::tile_alloc::lemma_recycle_all_into(self.pool(), self.serial() as int, self.slots());
        }
    }

    /// Forgets every tile: all slots go back to the pool, stale surfaces are
    /// released and the pool is brought within budget; the next frame is a
    /// full rebuild.
    pub fn invalidate_all(&mut self)
        requires
            old(self).wf(),
            old(self).serial() + old(self).slots().len() <= u64::MAX,
            old(self).byte_count() + slot_bytes(old(self).slots()) <= usize::MAX,
            old(self).stats().descriptor_limit_eviction_count + old(self).slots().len() <= usize::MAX,
            old(self).stats().age_eviction_count + old(self).pool().len() + old(self).slots().len()
                <= usize::MAX,
            old(self).stats().budget_eviction_count + old(self).pool().len() + old(self).slots().len()
                <= usize::MAX,
        ensures
            final(self).wf(),
            final(self).slots().len() == 0,
            final(self).cached_grid() is None,
            final(self).cached_tiles().len() == 0,
            final(self).byte_count() <= MAX_REUSABLE_BYTE_COUNT,
            forall|i: int|
                0 <= i < final(self).pool().len() ==> !is_stale(final(self).generation(), #[trigger] final(self).pool()[i]),
            final(self).pool() == pool_after_eviction(
                recycle_all_into(old(self).pool(), old(self).serial() as int, old(self).slots()),
                old(self).generation(),
            ),
            given_up_appended(*old(self), *final(self)),
            final(self).eviction_tally() == old(self).eviction_tally(),
            final(self).next_handle() == old(self).next_handle(),
            final(self).reused() == old(self).reused(),
            final(self).generation() == old(self).generation(),
    {
        self.cached_tiles.clear();
        let ghost a = *self;
        proof {
            lemma_given_up_refl(a.released(), a.evicted());
        }
        self.recycle_all_slots();
        let ghost b = *self;
        let generation = self.content_generation;
        self.evict_stale_handles(generation);
        self.cached_grid = None;
        proof {
            lemma_given_up_trans(a.released(), a.evicted(), b.released(), b.evicted(), self.released(), self.evicted());
        }
    }

    /// Whether planning a frame of `layout` under `damage` rebuilds every tile:
    /// when the whole viewport is damaged, the grid changed, or the cache does
    /// not hold every tile of the grid.
    pub open spec fn is_full_rebuild(&self, layout: TileLayout, damage: DamageRegion<Option<TileSpan>>) -> bool {
        damage is Full || self.cached_grid() != Some(layout.key) || self.cached_tiles().len()
            != layout.count_x() * layout.count_y()
    }

    /// The plan of a frame of `layout` under `damage`, for a cache in this state.
    pub open spec fn plans(
        &self,
        layout: TileLayout,
        damage: DamageRegion<Option<TileSpan>>,
        plan: TilePlan,
    ) -> bool {
        let all = layout.spec_all_tiles();
        let dirty = plan.dirty_tiles@;
        &&& self.is_full_rebuild(layout, damage) ==> dirty == all && plan.reused_tiles@.len() == 0
        &&& !self.is_full_rebuild(layout, damage) ==> {
            &&& damage is Empty ==> dirty.len() == 0
            &&& damage is Rects ==> tiles_sorted(dirty)
            &&& forall|t: TileId| dirty.contains(t) <==> layout.damaged(damage, t)
            &&& plan.reused_tiles@ == all.filter(reusable_tile(self.cached_tiles(), dirty))
        }
        &&& plan.stats.total_tile_count == all.len()
        &&& plan.stats.reraster_tile_count == dirty.len()
        &&& plan.stats.cached_tile_count == if all.len() >= dirty.len() {
            all.len() - dirty.len()
        } else {
            0
        }
    }

    /// Plans a frame: on a full rebuild every slot goes back to the pool and
    /// every tile is dirty; otherwise the dirty tiles are those `damage`
    /// touches and the cached, undamaged tiles are reused. The grid is then
    /// remembered as cached.
    pub fn plan_frame(&mut self, layout: &TileLayout, damage: &DamageRegion<Option<TileSpan>>) -> (plan: TilePlan)
        requires
            old(self).wf(),
            layout.wf(),
            old(self).serial() + old(self).slots().len() <= u64::MAX,
            old(self).byte_count() + slot_bytes(old(self).slots()) <= usize::MAX,
            old(self).stats().descriptor_limit_eviction_count + old(self).slots().len() <= usize::MAX,
        ensures
            final(self).wf(),
            old(self).plans(*layout, *damage, plan),
            old(self).is_full_rebuild(*layout, *damage) ==> {
                &&& final(self).slots().len() == 0
                &&& final(self).pool() == recycle_all_into(old(self).pool(), old(self).serial() as int, old(self).slots())
                &&& final(self).serial() == old(self).serial() + old(self).slots().len()
                &&& final(self).byte_count() <= old(self).byte_count() + slot_bytes(old(self).slots())
                &&& final(self).pool().len() <= old(self).pool().len() + old(self).slots().len()
                &&& final(self).stats().descriptor_limit_eviction_count
                    <= old(self).stats().descriptor_limit_eviction_count + old(self).slots().len()
            },
            !old(self).is_full_rebuild(*layout, *damage) ==> {
                &&& final(self).slots() == old(self).slots()
                &&& final(self).pool() == old(self).pool()
                &&& final(self).serial() == old(self).serial()
                &&& final(self).byte_count() == old(self).byte_count()
                &&& final(self).released() == old(self).released()
                &&& final(self).evicted() == old(self).evicted()
                &&& final(self).stats() == old(self).stats()
            },
            given_up_appended(*old(self), *final(self)),
            final(self).eviction_tally() == old(self).eviction_tally(),
            final(self).stats().age_eviction_count == old(self).stats().age_eviction_count,
            final(self).stats().budget_eviction_count == old(self).stats().budget_eviction_count,
            final(self).cached_grid() == Some(layout.key),
            final(self).cached_tiles() == layout.spec_all_tiles(),
            final(self).next_handle() == old(self).next_handle(),
            final(self).reused() == old(self).reused(),
            final(self).generation() == old(self).generation(),
    {
        let all = layout.all_tiles();
        let same_grid = match self.cached_grid {
            Some(key) => key == layout.key,
            None => false,
        };
        let full = damage.is_full() || !same_grid || self.cached_tiles.len() != all.len();
        proof {
            assert(full == old(self).is_full_rebuild(*layout, *damage));
            lemma_given_up_refl(self.released(), self.evicted());
        }
        if full {
            self.recycle_all_slots();
        }
        let dirty = if full {
            layout.all_tiles()
        } else {
            layout.tiles_for_damage(damage)
        };
        let mut reused: Vec<TileId> = Vec::new();
        if !full {
            let ghost pred = reusable_tile(old(self).cached_tiles(), dirty@);
            let mut i: usize = 0;
            while i < all.len()
                invariant
                    0 <= i <= all@.len(),
                    self.cached_tiles() == old(self).cached_tiles(),
                    pred == reusable_tile(old(self).cached_tiles(), dirty@),
                    reused@ == all@.take(i as int).filter(pred),
                decreases all@.len() - i,
            {
                proof {
                    reveal_with_fuel(Seq::filter, 1);
                    assert(all@.take(i + 1).drop_last() =~= all@.take(i as int));
                    assert(all@.take(i + 1).last() == all@[i as int]);
                }
                let t = all[i];
                if tiles_contain(&self.cached_tiles, t) && !tiles_contain(&dirty, t) {
                    reused.push(t);
                }
                i = i + 1;
            }
            proof {
                assert(all@.take(all@.len() as int) =~= all@);
            }
        }
        let total = all.len();
        let reraster = dirty.len();
        let cached = total.saturating_sub(reraster);
        self.cached_grid = Some(layout.key);
        self.cached_tiles = all;
        TilePlan {
            dirty_tiles: dirty,
            reused_tiles: reused,
            stats: TileCacheStats {
                total_tile_count: total,
                cached_tile_count: cached,
                reraster_tile_count: reraster,
            },
        }
    }

    /// The measures that bound the work left in a frame at generation `g`.
    pub open spec fn frame_measures_le(&self, other: TileCache, g: int) -> bool {
        &&& self.serial() + aged_count(self.slots(), g) <= other.serial() + aged_count(other.slots(), g)
        &&& self.byte_count() + aged_bytes(self.slots(), g) <= other.byte_count() + aged_bytes(other.slots(), g)
        &&& self.pool().len() + aged_count(self.slots(), g) <= other.pool().len() + aged_count(other.slots(), g)
        &&& self.stats().descriptor_limit_eviction_count + aged_count(self.slots(), g)
            <= other.stats().descriptor_limit_eviction_count + aged_count(other.slots(), g)
        &&& self.stats().age_eviction_count == other.stats().age_eviction_count
        &&& self.stats().budget_eviction_count == other.stats().budget_eviction_count
        &&& self.eviction_tally() == other.eviction_tally()
        &&& other.next_handle() <= self.next_handle()
        &&& given_up_appended(other, *self)
        &&& self.generation() == other.generation()
        &&& self.cached_grid() == other.cached_grid()
        &&& self.cached_tiles() == other.cached_tiles()
    }

    /// Takes tile `t`'s slot, if it has one, and returns its surface to the pool.
    #[verifier::spinoff_prover]
    #[verifier::rlimit(30)]
    fn release_tile_slot(&mut self, t: TileId)
        requires
            old(self).wf(),
            old(self).has_slot(t) ==> old(self).slot(t).generation < old(self).generation(),
            old(self).serial() + aged_count(old(self).slots(), old(self).generation() as int) <= u64::MAX,
            old(self).byte_count() + aged_bytes(old(self).slots(), old(self).generation() as int) <= usize::MAX,
            old(self).stats().descriptor_limit_eviction_count + aged_count(
                old(self).slots(),
                old(self).generation() as int,
            ) <= usize::MAX,
        ensures
            final(self).wf(),
            final(self).frame_measures_le(*old(self), old(self).generation() as int),
            final(self).next_handle() == old(self).next_handle(),
            final(self).reused() == old(self).reused(),
            old(self).has_slot(t) ==> newest_pooled(final(self).pool(), old(self).slot(t).resource, old(self).slot(t).handle),
            old(self).has_slot(t) ==> alloc_of(*final(self)) == recycled(alloc_of(*old(self)), old(self).slot(t)),
            !old(self).has_slot(t) ==> alloc_of(*final(self)) == alloc_of(*old(self)),
            !final(self).has_slot(t),
            forall|u: TileId|
                u != t ==> (final(self).has_slot(u) <==> old(self).has_slot(u)) && (old(self).has_slot(u)
                    ==> final(self).slot(u) == old(self).slot(u)),
    {
        let ghost g = old(self).generation() as int;
        proof {
            lemma_inv_facts(
                self.slots(),
                self.pool(),
                self.byte_count(),
                self.serial(),
                self.next_handle(),
                self.released(),
                self.evicted(),
            );
            lemma_given_up_refl(self.released(), self.evicted());
            lemma_aged_nonneg(self.slots(), g);
        }
        let (p, found) = self.slot_position(t);
        if found {
            proof {
                lemma_inv_slot_take(
                    self.slots(),
                    self.pool(),
                    self.byte_count(),
                    self.serial(),
                    self.next_handle(),
                    self.released(),
                    self.evicted(),
                    p as int,
                );
                lemma_seq_slot_remove(self.slots(), p as int);
                lemma_aged_remove(self.slots(), p as int, g);
                lemma_aged_nonneg(self.slots().remove(p as int), g);
                lemma_pool_bytes_nonneg(self.pool());
            }
            let old_slot = self.content_slots.remove(p);
            let ghost before = *self;
            proof {
                lemma_seq_slot_at(old(self).slots(), p as int);
                lemma_inv_facts(
                    before.slots(),
                    before.pool(),
                    before.byte_count(),
                    before.serial(),
                    before.next_handle(),
                    before.released(),
                    before.evicted(),
                );
            }
            self.recycle_slot(old_slot.1);
            proof {
                let slot = old_slot.1;
                let e = ReusableTileHandle {
                    descriptor: slot.resource,
                    handle: slot.handle,
                    last_used_generation: slot.generation,
                    access_serial: (before.serial() + 1) as u64,
                };
                let ge = group_end(before.pool(), slot.resource);
                let q = before.pool().insert(ge, e);
                lemma_group_tail(before.pool(), e);
                lemma_recycle_newest(q, self.pool(), ge, slot);
                crate::tile_alloc::lemma_recycled(*old(self), *self, slot);
            }
        }
    }

    /// Gives tile `t`, which has no slot, a surface for its descriptor and a
    /// slot in `state` for the current frame.
    #[verifier::spinoff_prover]
    fn insert_new_slot(&mut self, layout: &TileLayout, t: TileId, state: TileContentState)
        requires
            old(self).wf(),
            layout.wf(),
            !old(self).has_slot(t),
            old(self).next_handle() < u64::MAX,
        ensures
            final(self).wf(),
            final(self).frame_measures_le(*old(self), old(self).generation() as int),
            final(self).next_handle() <= old(self).next_handle() + 1,
            final(self).has_slot(t),
            final(self).slot(t).generation == old(self).generation(),
            final(self).slot(t).state == state,
            final(self).slot(t).resource == layout.spec_descriptor_for(t),
            takes_surface(*old(self), *final(self), layout.spec_descriptor_for(t), final(self).slot(t).handle),
            alloc_of(*final(self)) == taken(alloc_of(*old(self)), layout.spec_descriptor_for(t)),
            final(self).slot(t).handle == taken_handle(alloc_of(*old(self)), layout.spec_descriptor_for(t)),
            forall|u: TileId|
                u != t ==> (final(self).has_slot(u) <==> old(self).has_slot(u)) && (old(self).has_slot(u)
                    ==> final(self).slot(u) == old(self).slot(u)),
    {
        let generation = self.content_generation;
        let resource = layout.descriptor_for_tile(t);
        let handle = self.acquire_handle(resource);
        let ghost b = *self;
        proof {
            lemma_acquired_measures(*old(self), b);
        }
        let slot = TileContentSlot { handle, generation, state, resource };
        self.place_slot(t, slot);
        proof {
            lemma_measures_trans(*old(self), b, *self, old(self).generation() as int);
            reveal(takes_surface);
            crate::tile_alloc::lemma_takes(*old(self), *self, layout.spec_descriptor_for(t), self.slot(t).handle);
        }
    }

    /// Puts `slot` in as tile `t`'s slot, keeping the slots in tile order.
    #[verifier::spinoff_prover]
    fn place_slot(&mut self, t: TileId, slot: TileContentSlot)
        requires
            old(self).wf(),
            !old(self).has_slot(t),
            handle_free(
                old(self).slots(),
                old(self).pool(),
                old(self).next_handle(),
                old(self).released(),
                old(self).evicted(),
                slot.handle,
            ),
            desc_bytes(slot.resource) <= usize::MAX,
            slot.generation == old(self).generation(),
        ensures
            final(self).wf(),
            final(self).frame_measures_le(*old(self), old(self).generation() as int),
            final(self).next_handle() == old(self).next_handle(),
            final(self).pool() == old(self).pool(),
            final(self).reused() == old(self).reused(),
            final(self).serial() == old(self).serial(),
            final(self).has_slot(t),
            final(self).slot(t) == slot,
            forall|u: TileId|
                u != t ==> (final(self).has_slot(u) <==> old(self).has_slot(u)) && (old(self).has_slot(u)
                    ==> final(self).slot(u) == old(self).slot(u)),
    {
        proof {
            lemma_inv_facts(
                self.slots(),
                self.pool(),
                self.byte_count(),
                self.serial(),
                self.next_handle(),
                self.released(),
                self.evicted(),
            );
        }
        let (p, found) = self.slot_position(t);
        self.content_slots.insert(p, (t, slot));
        proof {
            lemma_slot_inserted(*old(self), *old(self), *self, p as int, t, slot);
        }
    }

    /// Marks tile `t`'s existing slot as reused in the current frame.
    #[verifier::spinoff_prover]
    fn touch_slot(&mut self, t: TileId)
        requires
            old(self).wf(),
            old(self).has_slot(t),
        ensures
            final(self).wf(),
            final(self).frame_measures_le(*old(self), old(self).generation() as int),
            final(self).next_handle() == old(self).next_handle(),
            final(self).pool() == old(self).pool(),
            final(self).reused() == old(self).reused(),
            final(self).serial() == old(self).serial(),
            final(self).has_slot(t),
            final(self).slot(t) == (TileContentSlot {
                handle: old(self).slot(t).handle,
                generation: old(self).generation(),
                state: TileContentState::Reused,
                resource: old(self).slot(t).resource,
            }),
            forall|u: TileId|
                u != t ==> (final(self).has_slot(u) <==> old(self).has_slot(u)) && (old(self).has_slot(u)
                    ==> final(self).slot(u) == old(self).slot(u)),
    {
        let ghost g = old(self).generation() as int;
        proof {
            lemma_inv_facts(
                self.slots(),
                self.pool(),
                self.byte_count(),
                self.serial(),
                self.next_handle(),
                self.released(),
                self.evicted(),
            );
            lemma_given_up_refl(self.released(), self.evicted());
        }
        let (p, found) = self.slot_position(t);
        let generation = self.content_generation;
        let current = self.content_slots[p].1;
        let slot = TileContentSlot {
            handle: current.handle,
            generation,
            state: TileContentState::Reused,
            resource: current.resource,
        };
        proof {
            lemma_inv_slot_touch(
                self.slots(),
                self.pool(),
                self.byte_count(),
                self.serial(),
                self.next_handle(),
                self.released(),
                self.evicted(),
                p as int,
                (t, slot),
            );
            lemma_seq_slot_update(self.slots(), p as int, (t, slot));
            lemma_aged_update(self.slots(), p as int, (t, slot), g);
        }
        self.content_slots.set(p, (t, slot));
    }

    /// Enough room in the counters for one more frame of `layout`.
    pub open spec fn frame_headroom(&self, layout: TileLayout) -> bool {
        &&& self.generation() < u64::MAX
        &&& self.serial() + self.slots().len() <= u64::MAX
        &&& self.byte_count() + slot_bytes(self.slots()) <= usize::MAX
        &&& self.pool().len() + self.slots().len() <= usize::MAX
        &&& self.next_handle() + 2 * (at_least_one(layout.count_x()) * at_least_one(layout.count_y()))
            < u64::MAX
    }

    /// Whether the counters leave room for one more frame of `layout`.
    pub fn has_frame_headroom(&self, layout: &TileLayout) -> (b: bool)
        requires
            self.wf(),
            layout.wf(),
        ensures
            b == self.frame_headroom(*layout),
    {
        proof {
            lemma_inv_facts(
                self.slots(),
                self.pool(),
                self.byte_count(),
                self.serial(),
                self.next_handle(),
                self.released(),
                self.evicted(),
            );
        }
        if self.content_generation == u64::MAX {
            return false;
        }
        let n = self.content_slots.len();
        if (self.access_serial as u128) + (n as u128) > (u64::MAX as u128) {
            return false;
        }
        if (self.reusable.len() as u128) + (n as u128) > (usize::MAX as u128) {
            return false;
        }
        let cx = layout.column_widths.len();
        let cy = layout.row_heights.len();
        let ax: u128 = if cx == 0 { 1 } else { cx as u128 };
        let ay: u128 = if cy == 0 { 1 } else { cy as u128 };
        proof {
            assert(ax * ay <= 0x1_0000_0000u128 * 0x1_0000_0000u128) by (nonlinear_arith)
                requires
                    ax <= 0x1_0000_0000u128,
                    ay <= 0x1_0000_0000u128,
            ;
        }
        let tiles: u128 = ax * ay;
        if (self.next_content_handle as u128) + 2 * tiles >= (u64::MAX as u128) {
            return false;
        }
        let ghost slots = self.slots();
        let mut total: u128 = self.reusable_byte_count as u128;
        let mut i: usize = 0;
        while i < n
            invariant
                0 <= i <= n,
                n == slots.len(),
                slots == self.slots(),
                forall|k: int| 0 <= k < slots.len() ==> desc_bytes(#[trigger] slots[k].1.resource) <= usize::MAX,
                total == self.byte_count() + aged_bytes(slots.take(i as int), u64::MAX as int + 1),
                total <= usize::MAX,
            decreases n - i,
        {
            proof {
                assert(slots.take(i + 1).drop_last() =~= slots.take(i as int));
                assert(slots.take(i + 1).last() == slots[i as int]);
            }
            let bytes = self.content_slots[i].1.resource.estimated_byte_size();
            total = total + (bytes as u128);
            if total > (usize::MAX as u128) {
                proof {
                    lemma_aged_bytes_prefix(slots, i + 1, u64::MAX as int + 1);
                }
                return false;
            }
            i = i + 1;
        }
        proof {
            assert(slots.take(n as int) =~= slots);
        }
        true
    }

    /// What a frame leaves in the slots: every dirty tile rasterized into a
    /// surface of its descriptor; every other tile of the grid reused (when
    /// its slot survived planning) or given a new surface; any other surviving
    /// slot untouched.
    pub open spec fn frame_slots(
        &self,
        before: TileCache,
        layout: TileLayout,
        full: bool,
        dirty: Seq<TileId>,
    ) -> bool {
        let g = self.generation();
        &&& forall|t: TileId|
            dirty.contains(t) ==> self.has_slot(t) && self.slot(t).generation == g
                && self.slot(t).state == TileContentState::Rasterized && self.slot(t).resource
                == layout.spec_descriptor_for(t)
        &&& forall|t: TileId|
            layout.in_grid(t) && !dirty.contains(t) ==> self.has_slot(t) && self.slot(t).generation
                == g && if !full && before.has_slot(t) {
                self.slot(t).handle == before.slot(t).handle && self.slot(t).state
                    == TileContentState::Reused && self.slot(t).resource == before.slot(t).resource
            } else {
                self.slot(t).state == TileContentState::Allocated && self.slot(t).resource
                    == layout.spec_descriptor_for(t)
            }
        &&& forall|t: TileId|
            !layout.in_grid(t) && !dirty.contains(t) ==> (self.has_slot(t) <==> (!full
                && before.has_slot(t))) && (self.has_slot(t) ==> self.slot(t) == before.slot(t))
    }

    /// Gives every tile of `dirty` (a list without repeats) a fresh surface,
    /// in order.
    #[verifier::spinoff_prover]
    #[verifier::rlimit(40)]
    fn rasterize_dirty_tiles(&mut self, layout: &TileLayout, dirty: &Vec<TileId>)
        requires
            old(self).wf(),
            layout.wf(),
            forall|u: TileId| old(self).has_slot(u) ==> old(self).slot(u).generation < old(self).generation(),
            old(self).serial() + aged_count(old(self).slots(), old(self).generation() as int) <= u64::MAX,
            old(self).byte_count() + aged_bytes(old(self).slots(), old(self).generation() as int) <= usize::MAX,
            old(self).stats().descriptor_limit_eviction_count + aged_count(
                old(self).slots(),
                old(self).generation() as int,
            ) <= usize::MAX,
            old(self).next_handle() + dirty@.len() < u64::MAX,
            forall|a: int, b: int| 0 <= a < dirty@.len() && 0 <= b < dirty@.len() && a != b ==> dirty@[a] != dirty@[b],
        ensures
            final(self).wf(),
            final(self).frame_measures_le(*old(self), old(self).generation() as int),
            final(self).next_handle() <= old(self).next_handle() + dirty@.len(),
            forall|t: TileId|
                dirty@.contains(t) ==> final(self).has_slot(t) && final(self).slot(t).generation
                    == old(self).generation() && final(self).slot(t).state == TileContentState::Rasterized
                    && final(self).slot(t).resource == layout.spec_descriptor_for(t),
            forall|u: TileId|
                !dirty@.contains(u) ==> (final(self).has_slot(u) <==> old(self).has_slot(u)) && (old(self).has_slot(u)
                    ==> final(self).slot(u) == old(self).slot(u)),
            grants_from(*old(self), *final(self)),
            kept_surfaces(*old(self), *final(self), dirty@, *layout),
            alloc_of(*final(self)) == dirty_alloc(alloc_of(*old(self)), old(self).slots(), dirty@, *layout),
            forall|j: int|
                0 <= j < dirty@.len() ==> final(self).slot(#[trigger] dirty@[j]).handle == taken_handle(
                    dirty_pre(alloc_of(*old(self)), old(self).slots(), dirty@.take(j), dirty@[j], *layout),
                    layout.spec_descriptor_for(dirty@[j]),
                ),
    {
        let ghost g = old(self).generation() as int;
        let ghost d = dirty@;
        proof {
            lemma_grants_refl(*self);
        }
        let n = dirty.len();
        let mut i: usize = 0;
        proof {
            lemma_given_up_refl(self.released(), self.evicted());
            reveal(kept_surfaces);
            assert(d.take(0).len() == 0);
            reveal_with_fuel(dirty_alloc, 1);
            assert(d.take(0) =~= Seq::<TileId>::empty());
        }
        while i < n
            invariant
                0 <= i <= n,
                n == d.len(),
                d == dirty@,
                layout.wf(),
                self.wf(),
                self.generation() as int == g,
                self.frame_measures_le(*old(self), g),
                self.next_handle() <= old(self).next_handle() + i,
                old(self).next_handle() + n < u64::MAX,
                old(self).serial() + aged_count(old(self).slots(), g) <= u64::MAX,
                old(self).byte_count() + aged_bytes(old(self).slots(), g) <= usize::MAX,
                old(self).stats().descriptor_limit_eviction_count + aged_count(old(self).slots(), g) <= usize::MAX,
                forall|a: int, b: int| 0 <= a < n && 0 <= b < n && a != b ==> d[a] != d[b],
                forall|u: TileId| old(self).has_slot(u) ==> old(self).slot(u).generation < g,
                forall|j: int|
                    0 <= j < i ==> self.has_slot(#[trigger] d[j]) && self.slot(d[j]).generation
                        == g && self.slot(d[j]).state == TileContentState::Rasterized
                        && self.slot(d[j]).resource == layout.spec_descriptor_for(d[j]),
                forall|u: TileId|
                    (forall|j: int| 0 <= j < i ==> d[j] != u) ==> (self.has_slot(u)
                        <==> old(self).has_slot(u)) && (old(self).has_slot(u) ==> self.slot(u) == old(self).slot(u)),
                grants_from(*old(self), *self),
                kept_surfaces(*old(self), *self, d.take(i as int), *layout),
                alloc_of(*self) == dirty_alloc(alloc_of(*old(self)), old(self).slots(), d.take(i as int), *layout),
                forall|j: int|
                    0 <= j < i ==> self.slot(#[trigger] d[j]).handle == taken_handle(
                        dirty_pre(alloc_of(*old(self)), old(self).slots(), d.take(j), d[j], *layout),
                        layout.spec_descriptor_for(d[j]),
                    ),
            decreases n - i,
        {
            let t = dirty[i];
            let ghost s0 = *self;
            proof {
                assert forall|j: int| 0 <= j < i implies d[j] != t by {
                    assert(d[i as int] == t);
                }
                assert(self.has_slot(t) <==> old(self).has_slot(t));
                if self.has_slot(t) {
                    assert(self.slot(t) == old(self).slot(t));
                }
            }
            self.release_tile_slot(t);
            let ghost s1 = *self;
            proof {
                lemma_measures_trans(*old(self), s0, s1, g);
                lemma_fresh_surface(s0, t);
                lemma_fresh_surface(s1, t);
                lemma_grants_other(*old(self), s0, s1, t);
                lemma_inv_facts(
                    s1.slots(),
                    s1.pool(),
                    s1.byte_count(),
                    s1.serial(),
                    s1.next_handle(),
                    s1.released(),
                    s1.evicted(),
                );
            }
            self.insert_new_slot(layout, t, TileContentState::Rasterized);
            proof {
                let s2 = *self;
                lemma_grants_insert(*old(self), s1, s2, t, layout.spec_descriptor_for(t));
                assert(!d.take(i as int).contains(t)) by {
                    if d.take(i as int).contains(t) {
                        let q = choose|q: int| 0 <= q < i && d.take(i as int)[q] == t;
                        assert(d[q] == t);
                    }
                }
                lemma_kept_step(*old(self), s0, s1, s2, t, d.take(i as int), *layout);
                crate::tile_alloc::lemma_dirty_step(
                    alloc_of(*old(self)),
                    old(self).slots(),
                    d,
                    i as int,
                    *layout,
                    s0,
                    s1,
                    s2,
                    s2.slot(t).handle,
                );
                assert forall|j: int| 0 <= j < i + 1 implies s2.slot(#[trigger] d[j]).handle == taken_handle(
                    dirty_pre(alloc_of(*old(self)), old(self).slots(), d.take(j), d[j], *layout),
                    layout.spec_descriptor_for(d[j]),
                ) by {
                    if j < i {
                        assert(d[j] != t);
                    }
                }
                assert(d.take(i as int).push(t) =~= d.take(i + 1));
                lemma_measures_trans(*old(self), s1, *self, g);
                assert forall|u: TileId|
                    (forall|j: int| 0 <= j < i + 1 ==> d[j] != u) implies (self.has_slot(u)
                        <==> old(self).has_slot(u)) && (old(self).has_slot(u) ==> self.slot(u) == old(self).slot(u)) by {
                    assert(d[i as int] != u);
                    assert(forall|j: int| 0 <= j < i ==> d[j] != u);
                }
                assert forall|j: int|
                    0 <= j < i + 1 implies self.has_slot(#[trigger] d[j]) && self.slot(d[j]).generation
                        == g && self.slot(d[j]).state == TileContentState::Rasterized
                        && self.slot(d[j]).resource == layout.spec_descriptor_for(d[j]) by {
                    if j < i {
                        assert(d[j] != t);
                        assert(s0.has_slot(d[j]));
                    }
                }
            }
            i = i + 1;
        }
        proof {
            assert forall|t: TileId| d.contains(t) implies self.has_slot(t) && self.slot(t).generation == g
                && self.slot(t).state == TileContentState::Rasterized && self.slot(t).resource
                == layout.spec_descriptor_for(t) by {
                let j = choose|j: int| 0 <= j < d.len() && d[j] == t;
                assert(self.has_slot(d[j]));
            }
            assert(d.take(n as int) =~= d);
            assert forall|j: int| 0 <= j < d.len() implies self.slot(#[trigger] dirty@[j]).handle == taken_handle(
                dirty_pre(alloc_of(*old(self)), old(self).slots(), dirty@.take(j), dirty@[j], *layout),
                layout.spec_descriptor_for(dirty@[j]),
            ) by {
                assert(d[j] == dirty@[j]);
            }
            assert forall|u: TileId| !d.contains(u) implies (self.has_slot(u) <==> old(self).has_slot(u)) && (
            old(self).has_slot(u) ==> self.slot(u) == old(self).slot(u)) by {
                assert forall|j: int| 0 <= j < n implies d[j] != u by {
                    if d[j] == u {
                        assert(d.contains(u));
                    }
                }
            }
        }
    }

    /// Every tile of the grid that is not in `dirty` keeps its slot (marked
    /// reused in this frame) or gets a new surface.
    #[verifier::spinoff_prover]
    #[verifier::rlimit(40)]
    fn refresh_clean_tiles(&mut self, layout: &TileLayout, dirty: &Vec<TileId>)
        requires
            old(self).wf(),
            layout.wf(),
            old(self).next_handle() + layout.spec_all_tiles().len() < u64::MAX,
            forall|u: TileId|
                old(self).has_slot(u) && !dirty@.contains(u) ==> old(self).slot(u).generation < old(self).generation(),
        ensures
            final(self).wf(),
            final(self).frame_measures_le(*old(self), old(self).generation() as int),
            grants_from(*old(self), *final(self)),
            final(self).next_handle() <= old(self).next_handle() + layout.spec_all_tiles().len(),
            forall|t: TileId|
                dirty@.contains(t) ==> (final(self).has_slot(t) <==> old(self).has_slot(t)) && (old(self).has_slot(t)
                    ==> final(self).slot(t) == old(self).slot(t)),
            forall|t: TileId|
                layout.in_grid(t) && !dirty@.contains(t) ==> final(self).has_slot(t) && final(self).slot(t).generation
                    == old(self).generation() && if old(self).has_slot(t) {
                    final(self).slot(t) == (TileContentSlot {
                        handle: old(self).slot(t).handle,
                        generation: old(self).generation(),
                        state: TileContentState::Reused,
                        resource: old(self).slot(t).resource,
                    })
                } else {
                    final(self).slot(t).state == TileContentState::Allocated && final(self).slot(t).resource
                        == layout.spec_descriptor_for(t)
                },
            forall|t: TileId|
                !layout.in_grid(t) ==> (final(self).has_slot(t) <==> old(self).has_slot(t)) && (old(self).has_slot(t)
                    ==> final(self).slot(t) == old(self).slot(t)),
            alloc_of(*final(self)) == clean_alloc(
                alloc_of(*old(self)),
                old(self).slots(),
                layout.spec_all_tiles(),
                dirty@,
                *layout,
            ),
            forall|j: int|
                0 <= j < layout.spec_all_tiles().len() && needs_surface(old(self).slots(), dirty@, #[trigger] layout.spec_all_tiles()[j])
                    ==> final(self).slot(layout.spec_all_tiles()[j]).handle == taken_handle(
                    clean_alloc(alloc_of(*old(self)), old(self).slots(), layout.spec_all_tiles().take(j), dirty@, *layout),
                    layout.spec_descriptor_for(layout.spec_all_tiles()[j]),
                ),
    {
        let ghost g = old(self).generation() as int;
        let all = layout.all_tiles();
        let ghost alls = all@;
        let m = all.len();
        proof {
            lemma_all_distinct_seq(*layout);
            lemma_given_up_refl(self.released(), self.evicted());
            lemma_grants_refl(*self);
            reveal_with_fuel(clean_alloc, 1);
            assert(alls.take(0) =~= Seq::<TileId>::empty());
        }
        let mut k: usize = 0;
        while k < m
            invariant
                0 <= k <= m,
                m == alls.len(),
                alls == layout.spec_all_tiles(),
                all@ == alls,
                layout.wf(),
                self.wf(),
                self.generation() as int == g,
                self.frame_measures_le(*old(self), g),
                self.next_handle() <= old(self).next_handle() + k,
                old(self).next_handle() + m < u64::MAX,
                forall|a: int, b: int| 0 <= a < m && 0 <= b < m && a != b ==> alls[a] != alls[b],
                forall|j: int|
                    0 <= j < k && !dirty@.contains(#[trigger] alls[j]) ==> self.has_slot(alls[j])
                        && self.slot(alls[j]).generation == g && if old(self).has_slot(alls[j]) {
                        self.slot(alls[j]) == (TileContentSlot {
                            handle: old(self).slot(alls[j]).handle,
                            generation: old(self).generation(),
                            state: TileContentState::Reused,
                            resource: old(self).slot(alls[j]).resource,
                        })
                    } else {
                        self.slot(alls[j]).state == TileContentState::Allocated && self.slot(
                            alls[j],
                        ).resource == layout.spec_descriptor_for(alls[j])
                    },
                forall|u: TileId|
                    (dirty@.contains(u) || (forall|j: int| 0 <= j < k ==> alls[j] != u)) ==> (
                    self.has_slot(u) <==> old(self).has_slot(u)) && (old(self).has_slot(u) ==> self.slot(u)
                        == old(self).slot(u)),
                forall|u: TileId|
                    old(self).has_slot(u) && !dirty@.contains(u) ==> old(self).slot(u).generation < old(self).generation(),
                grants_from(*old(self), *self),
                alloc_of(*self) == clean_alloc(alloc_of(*old(self)), old(self).slots(), alls.take(k as int), dirty@, *layout),
                forall|j: int|
                    0 <= j < k && needs_surface(old(self).slots(), dirty@, #[trigger] alls[j]) ==> self.slot(alls[j]).handle
                        == taken_handle(
                        clean_alloc(alloc_of(*old(self)), old(self).slots(), alls.take(j), dirty@, *layout),
                        layout.spec_descriptor_for(alls[j]),
                    ),
            decreases m - k,
        {
            let t = all[k];
            if !tiles_contain(dirty, t) {
                let ghost s0 = *self;
                proof {
                    assert forall|j: int| 0 <= j < k implies alls[j] != t by {
                        assert(alls[k as int] == t);
                    }
                    assert(self.has_slot(t) <==> old(self).has_slot(t));
                    lemma_inv_facts(
                        self.slots(),
                        self.pool(),
                        self.byte_count(),
                        self.serial(),
                        self.next_handle(),
                        self.released(),
                        self.evicted(),
                    );
                }
                let (p, found) = self.slot_position(t);
                if found {
                    self.touch_slot(t);
                    proof {
                        crate::tile_alloc::lemma_alloc_same(*self, s0);
                        crate::tile_alloc::lemma_clean_step(
                            alloc_of(*old(self)),
                            old(self).slots(),
                            alls,
                            dirty@,
                            k as int,
                            *layout,
                            s0,
                            *self,
                            self.slot(t).handle,
                        );
                        lemma_fresh_surface(s0, t);
                        lemma_fresh_surface(*self, t);
                        lemma_grants_other(*old(self), s0, *self, t);
                    }
                } else {
                    self.insert_new_slot(layout, t, TileContentState::Allocated);
                    proof {
                        crate::tile_alloc::lemma_clean_step(
                            alloc_of(*old(self)),
                            old(self).slots(),
                            alls,
                            dirty@,
                            k as int,
                            *layout,
                            s0,
                            *self,
                            self.slot(t).handle,
                        );
                        lemma_grants_insert(*old(self), s0, *self, t, layout.spec_descriptor_for(t));
                    }
                }
                proof {
                    assert forall|j: int|
                        0 <= j < k + 1 && needs_surface(old(self).slots(), dirty@, #[trigger] alls[j]) implies self.slot(
                            alls[j],
                        ).handle == taken_handle(
                            clean_alloc(alloc_of(*old(self)), old(self).slots(), alls.take(j), dirty@, *layout),
                            layout.spec_descriptor_for(alls[j]),
                        ) by {
                        if j < k {
                            assert(alls[j] != t);
                        }
                    }
                    lemma_measures_trans(*old(self), s0, *self, g);
                    assert forall|u: TileId|
                        (dirty@.contains(u) || (forall|j: int| 0 <= j < k + 1 ==> alls[j] != u)) implies (
                        self.has_slot(u) <==> old(self).has_slot(u)) && (old(self).has_slot(u) ==> self.slot(u)
                            == old(self).slot(u)) by {
                        if dirty@.contains(u) {
                            assert(u != t);
                        } else {
                            assert(alls[k as int] != u);
                            assert(forall|j: int| 0 <= j < k ==> alls[j] != u);
                        }
                    }
                    assert forall|j: int|
                        0 <= j < k + 1 && !dirty@.contains(#[trigger] alls[j]) implies self.has_slot(alls[j])
                            && self.slot(alls[j]).generation == g && if old(self).has_slot(alls[j]) {
                            self.slot(alls[j]) == (TileContentSlot {
                                handle: old(self).slot(alls[j]).handle,
                                generation: old(self).generation(),
                                state: TileContentState::Reused,
                                resource: old(self).slot(alls[j]).resource,
                            })
                        } else {
                            self.slot(alls[j]).state == TileContentState::Allocated && self.slot(
                                alls[j],
                            ).resource == layout.spec_descriptor_for(alls[j])
                        } by {
                        if j < k {
                            assert(alls[j] != t);
                        } else {
                            if old(self).has_slot(t) {
                                assert(s0.slot(t) == old(self).slot(t));
                            }
                        }
                    }
                }
            } else {
                proof {
                    crate::tile_alloc::lemma_clean_step(
                        alloc_of(*old(self)),
                        old(self).slots(),
                        alls,
                        dirty@,
                        k as int,
                        *layout,
                        *self,
                        *self,
                        self.slot(t).handle,
                    );
                    assert forall|u: TileId|
                        (dirty@.contains(u) || (forall|j: int| 0 <= j < k + 1 ==> alls[j] != u)) implies (
                        self.has_slot(u) <==> old(self).has_slot(u)) && (old(self).has_slot(u) ==> self.slot(u)
                            == old(self).slot(u)) by {
                        if !dirty@.contains(u) {
                            assert(forall|j: int| 0 <= j < k ==> alls[j] != u);
                        }
                    }
                }
            }
            k = k + 1;
        }
        proof {
            assert(alls.take(m as int) =~= alls);
            assert forall|t: TileId| layout.in_grid(t) && !dirty@.contains(t) implies final_slot_fact(*old(self), *self, *layout, t) by {
                crate::tile::lemma_all_tiles_contains(layout.count_x(), layout.count_y(), t);
                let j = choose|j: int| 0 <= j < alls.len() && alls[j] == t;
                assert(!dirty@.contains(alls[j]));
            }
            assert forall|t: TileId| !layout.in_grid(t) implies (self.has_slot(t) <==> old(self).has_slot(t)) && (
            old(self).has_slot(t) ==> self.slot(t) == old(self).slot(t)) by {
                crate::tile::lemma_all_tiles_contains(layout.count_x(), layout.count_y(), t);
                assert forall|j: int| 0 <= j < m implies alls[j] != t by {
                    if alls[j] == t {
                        assert(alls.contains(t));
                    }
                }
            }
        }
    }

    /// The raster tiles of `dirty` for the current slots.
    fn raster_tiles_for(&self, layout: &TileLayout, dirty: &Vec<TileId>) -> (tiles: Vec<RasterTile>)
        requires
            self.wf(),
            layout.wf(),
        ensures
            tiles@ == raster_of(dirty@, *layout, self.slots()),
    {
        proof {
            lemma_inv_facts(
                self.slots(),
                self.pool(),
                self.byte_count(),
                self.serial(),
                self.next_handle(),
                self.released(),
                self.evicted(),
            );
        }
        let ghost d = dirty@;
        let n = dirty.len();
        let mut tiles: Vec<RasterTile> = Vec::new();
        let mut r: usize = 0;
        while r < n
            invariant
                0 <= r <= n,
                n == d.len(),
                d == dirty@,
                layout.wf(),
                slots_sorted(self.slots()),
                tiles@ == raster_of(d.take(r as int), *layout, self.slots()),
            decreases n - r,
        {
            proof {
                assert(d.take(r + 1).drop_last() =~= d.take(r as int));
                assert(d.take(r + 1).last() == d[r as int]);
            }
            let t = dirty[r];
            if layout.contains_tile(t) {
                let (p, found) = self.slot_position(t);
                if found {
                    tiles.push(RasterTile { tile_id: t, content_handle: self.content_slots[p].1.handle });
                }
            }
            r = r + 1;
        }
        proof {
            assert(d.take(n as int) =~= d);
        }
        tiles
    }

    /// Plans and prepares a frame: the tile plan, every dirty tile given a
    /// fresh surface, every other tile kept or given one, stale and
    /// over-budget reusable surfaces released, and the raster batch of the
    /// dirty tiles.
    #[verifier::spinoff_prover]
    pub fn build_tile_state(
        &mut self,
        layout: &TileLayout,
        damage: &DamageRegion<Option<TileSpan>>,
    ) -> (state: TileState)
        requires
            old(self).wf(),
            layout.wf(),
            old(self).frame_headroom(*layout),
        ensures
            final(self).wf(),
            final(self).generation() == old(self).generation() + 1,
            old(self).plans(*layout, *damage, state.tile_plan),
            final(self).frame_slots(
                *old(self),
                *layout,
                old(self).is_full_rebuild(*layout, *damage),
                state.tile_plan.dirty_tiles@,
            ),
            state.raster_batch.tiles@ == raster_of(state.tile_plan.dirty_tiles@, *layout, final(self).slots()),
            state.raster_batch.full_raster == (damage is Full || state.tile_plan.stats.reraster_tile_count
                == state.tile_plan.stats.total_tile_count),
            final(self).byte_count() <= MAX_REUSABLE_BYTE_COUNT,
            forall|i: int|
                0 <= i < final(self).pool().len() ==> !is_stale(final(self).generation(), #[trigger] final(self).pool()[i]),
            final(self).released() == old(self).released() + final(self).evicted(),
            final(self).stats().budget_eviction_count + final(self).stats().age_eviction_count
                + final(self).stats().descriptor_limit_eviction_count == final(self).evicted().len(),
            final(self).cached_grid() == Some(layout.key),
            final(self).cached_tiles() == layout.spec_all_tiles(),
            frame_grants(*old(self), *final(self)),
            frame_exact(
                *old(self),
                *final(self),
                *layout,
                old(self).is_full_rebuild(*layout, *damage),
                state.tile_plan.dirty_tiles@,
            ),
            !old(self).is_full_rebuild(*layout, *damage) ==> kept_surfaces(
                *old(self),
                *final(self),
                state.tile_plan.dirty_tiles@,
                *layout,
            ),
    {
        let ghost old_self = *old(self);
        self.content_generation = self.content_generation + 1;
        self.reused_handles.clear();
        self.evicted_handles.clear();
        self.eviction_stats = TileResourceEvictionStats {
            budget_eviction_count: 0,
            age_eviction_count: 0,
            descriptor_limit_eviction_count: 0,
        };
        proof {
            lemma_inv_clear_evicted(
                old_self.slots(),
                old_self.pool(),
                old_self.byte_count(),
                old_self.serial(),
                old_self.next_handle(),
                old_self.released(),
                old_self.evicted(),
            );
        }
        let ghost start = *self;
        let ghost g = self.content_generation as int;
        let tile_plan = self.plan_frame(layout, damage);
        let ghost mid = *self;
        let ghost full = old_self.is_full_rebuild(*layout, *damage);
        let ghost dirty = tile_plan.dirty_tiles@;
        proof {
            assert(start.is_full_rebuild(*layout, *damage) == full);
            lemma_aged_nonneg(mid.slots(), g);
            lemma_aged_all(mid.slots(), g);
            lemma_dirty_facts(*layout, *damage, full, dirty);
            lemma_all_distinct_seq(*layout);
            assert forall|u: TileId| mid.has_slot(u) implies mid.slot(u).generation < g by {
                let w = choose|i: int| 0 <= i < mid.slots().len() && #[trigger] mid.slots()[i].0 == u;
                assert(mid.slots()[w].1.generation <= mid.generation());
            }
        }
        self.rasterize_dirty_tiles(layout, &tile_plan.dirty_tiles);
        let ghost after_dirty = *self;
        self.refresh_clean_tiles(layout, &tile_plan.dirty_tiles);
        let ghost after_clean = *self;
        proof {
            lemma_measures_trans(mid, after_dirty, after_clean, g);
            lemma_aged_nonneg(self.slots(), g);
            lemma_inv_facts(
                after_clean.slots(),
                after_clean.pool(),
                after_clean.byte_count(),
                after_clean.serial(),
                after_clean.next_handle(),
                after_clean.released(),
                after_clean.evicted(),
            );
        }
        let generation = self.content_generation;
        self.evict_stale_handles(generation);

        let tiles = self.raster_tiles_for(layout, &tile_plan.dirty_tiles);
        proof {
            lemma_given_up_trans(
                start.released(),
                start.evicted(),
                mid.released(),
                mid.evicted(),
                after_clean.released(),
                after_clean.evicted(),
            );
            lemma_given_up_trans(
                start.released(),
                start.evicted(),
                after_clean.released(),
                after_clean.evicted(),
                self.released(),
                self.evicted(),
            );
            lemma_given_up_from_empty(start.released(), self.released(), self.evicted());
            lemma_frame_slots_chain(old_self, mid, after_dirty, after_clean, *self, *layout, full, dirty);
            lemma_frame_end(old_self, mid, after_dirty, after_clean, *self, dirty, *layout, full);
            if full {
                assert(mid.slots() =~= crate::tile_alloc::planned_slots(old_self, full));
            }
            assert forall|t: TileId| dirty.contains(t) implies after_clean.slot(t) == after_dirty.slot(t) by {
                assert(after_dirty.has_slot(t));
            }
            crate::tile_alloc::lemma_frame_exact(old_self, mid, after_dirty, after_clean, *self, *layout, full, dirty);
        }
        let full_raster = damage.is_full() || tile_plan.dirty_tile_count() == tile_plan.total_tile_count();
        TileState { tile_plan, raster_batch: RasterBatch { tiles, full_raster } }
    }
}


/// How many of `slots` hold freshly rasterized content.
pub open spec fn rasterized_count(slots: Seq<(TileId, TileContentSlot)>) -> nat
    decreases slots.len(),
{
    if slots.len() == 0 {
        0
    } else {
        rasterized_count(slots.drop_last()) + if slots.last().1.state == TileContentState::Rasterized {
            1nat
        } else {
            0nat
        }
    }
}

/// Dropping a given-up list keeps the invariant.
pub proof fn lemma_inv_clear_released(
    slots: Seq<(TileId, TileContentSlot)>,
    pool: Seq<ReusableTileHandle>,
    bytes: int,
    serial: u64,
    next: u64,
    released: Seq<TileContentHandle>,
    evicted: Seq<TileContentHandle>,
)
    requires
        cache_inv(slots, pool, bytes, serial, next, released, evicted),
    ensures
        cache_inv(slots, pool, bytes, serial, next, Seq::empty(), evicted),
{
    reveal(cache_inv);
}

/// A handle on a given-up list is held neither by a tile nor by the pool.
pub proof fn lemma_given_up_not_held(cache: TileCache, h: TileContentHandle)
    requires
        cache.wf(),
        cache.released().contains(h) || cache.evicted().contains(h),
    ensures
        forall|t: TileId| cache.has_slot(t) ==> cache.slot(t).handle != h,
        forall|i: int| 0 <= i < cache.slots().len() ==> (#[trigger] cache.slots()[i]).1.handle != h,
        forall|i: int| 0 <= i < cache.pool().len() ==> cache.pool()[i].handle != h,
{
    reveal(cache_inv);
    if cache.released().contains(h) {
        let k = choose|k: int| 0 <= k < cache.released().len() && cache.released()[k] == h;
        assert(!in_slots(cache.slots(), cache.released()[k]));
    } else {
        let k = choose|k: int| 0 <= k < cache.evicted().len() && cache.evicted()[k] == h;
        assert(!in_slots(cache.slots(), cache.evicted()[k]));
    }
    assert forall|t: TileId| cache.has_slot(t) implies cache.slot(t).handle != h by {
        let i = choose|i: int| 0 <= i < cache.slots().len() && #[trigger] cache.slots()[i].0 == t;
        let j = choose|j: int| 0 <= j < cache.slots().len() && #[trigger] cache.slots()[j].0 == t;
        assert(cache.slots()[j].1.handle != h);
    }
}

impl TileCache {
    /// The surface holding tile `tile_id`'s content, if it has one.
    pub fn content_handle(&self, tile_id: TileId) -> (h: Option<TileContentHandle>)
        requires
            self.wf(),
        ensures
            h == if self.has_slot(tile_id) {
                Some(self.slot(tile_id).handle)
            } else {
                None::<TileContentHandle>
            },
    {
        match self.content_slot(tile_id) {
            Some(slot) => Some(slot.handle),
            None => None,
        }
    }

    /// How many tiles have a slot.
    pub fn content_handle_count(&self) -> (n: usize)
        ensures
            n == self.slots().len(),
    {
        self.content_slots.len()
    }

    /// Tile `tile_id`'s slot, if it has one.
    pub fn content_slot(&self, tile_id: TileId) -> (slot: Option<TileContentSlot>)
        requires
            self.wf(),
        ensures
            slot == if self.has_slot(tile_id) {
                Some(self.slot(tile_id))
            } else {
                None::<TileContentSlot>
            },
    {
        proof {
            lemma_inv_facts(
                self.slots(),
                self.pool(),
                self.byte_count(),
                self.serial(),
                self.next_handle(),
                self.released(),
                self.evicted(),
            );
        }
        let (p, found) = self.slot_position(tile_id);
        if found {
            Some(self.content_slots[p].1)
        } else {
            None
        }
    }

    /// Every tile's slot, in tile order.
    pub fn content_slots(&self) -> (slots: Vec<(TileId, TileContentSlot)>)
        ensures
            slots@ == self.slots(),
    {
        let mut out: Vec<(TileId, TileContentSlot)> = Vec::new();
        let mut i: usize = 0;
        while i < self.content_slots.len()
            invariant
                0 <= i <= self.slots().len(),
                out@ == self.slots().take(i as int),
            decreases self.slots().len() - i,
        {
            out.push(self.content_slots[i]);
            proof {
                assert(self.slots().take(i + 1) =~= self.slots().take(i as int).push(self.slots()[i as int]));
            }
            i = i + 1;
        }
        proof {
            assert(self.slots().take(self.slots().len() as int) =~= self.slots());
        }
        out
    }

    /// How many slots hold content rasterized in their frame.
    pub fn rasterized_slot_count(&self) -> (n: usize)
        ensures
            n == rasterized_count(self.slots()),
    {
        let mut count: usize = 0;
        let mut i: usize = 0;
        while i < self.content_slots.len()
            invariant
                0 <= i <= self.slots().len(),
                count == rasterized_count(self.slots().take(i as int)),
                count <= i,
            decreases self.slots().len() - i,
        {
            proof {
                assert(self.slots().take(i + 1).drop_last() =~= self.slots().take(i as int));
            }
            if self.content_slots[i].1.state == TileContentState::Rasterized {
                count = count + 1;
            }
            i = i + 1;
        }
        proof {
            assert(self.slots().take(self.slots().len() as int) =~= self.slots());
        }
        count
    }

    /// How many surfaces wait in the pool to be reused.
    pub fn reusable_handle_count(&self) -> (n: usize)
        ensures
            n == self.pool().len(),
    {
        self.reusable.len()
    }

    /// How many bytes the pooled surfaces take.
    pub fn reusable_byte_count(&self) -> (n: usize)
        ensures
            n == self.byte_count(),
    {
        self.reusable_byte_count
    }

    /// The byte budget the pool is brought within after each frame.
    pub fn reuse_budget_byte_count(&self) -> (n: usize)
        ensures
            n == MAX_REUSABLE_BYTE_COUNT,
    {
        MAX_REUSABLE_BYTE_COUNT
    }

    /// Hands out the surfaces given up since the last call, and forgets them.
    pub fn take_released_content_handles(&mut self) -> (handles: Vec<TileContentHandle>)
        requires
            old(self).wf(),
        ensures
            final(self).wf(),
            handles@ == old(self).released(),
            final(self).released().len() == 0,
            final(self).reused() == old(self).reused(),
            final(self).evicted() == old(self).evicted(),
            final(self).slots() == old(self).slots(),
            final(self).pool() == old(self).pool(),
            final(self).byte_count() == old(self).byte_count(),
            final(self).serial() == old(self).serial(),
            final(self).next_handle() == old(self).next_handle(),
            final(self).generation() == old(self).generation(),
            final(self).stats() == old(self).stats(),
            final(self).cached_grid() == old(self).cached_grid(),
            final(self).cached_tiles() == old(self).cached_tiles(),
    {
        proof {
            lemma_inv_clear_released(
                self.slots(),
                self.pool(),
                self.byte_count(),
                self.serial(),
                self.next_handle(),
                self.released(),
                self.evicted(),
            );
        }
        let mut handles: Vec<TileContentHandle> = Vec::new();
        std::mem::swap(&mut handles, &mut self.released_handles);
        handles
    }

    /// Hands out the surfaces reused from the pool since the start of the
    /// last frame, and forgets them.
    pub fn take_reused_content_handles(&mut self) -> (handles: Vec<TileContentHandle>)
        requires
            old(self).wf(),
        ensures
            final(self).wf(),
            handles@ == old(self).reused(),
            final(self).reused().len() == 0,
            final(self).released() == old(self).released(),
            final(self).evicted() == old(self).evicted(),
            final(self).slots() == old(self).slots(),
            final(self).pool() == old(self).pool(),
            final(self).byte_count() == old(self).byte_count(),
            final(self).serial() == old(self).serial(),
            final(self).next_handle() == old(self).next_handle(),
            final(self).generation() == old(self).generation(),
            final(self).stats() == old(self).stats(),
            final(self).cached_grid() == old(self).cached_grid(),
            final(self).cached_tiles() == old(self).cached_tiles(),
    {
        let mut handles: Vec<TileContentHandle> = Vec::new();
        std::mem::swap(&mut handles, &mut self.reused_handles);
        handles
    }

    /// Hands out the surfaces evicted since the start of the last frame, and
    /// forgets them.
    pub fn take_evicted_content_handles(&mut self) -> (handles: Vec<TileContentHandle>)
        requires
            old(self).wf(),
        ensures
            final(self).wf(),
            handles@ == old(self).evicted(),
            final(self).evicted().len() == 0,
            final(self).released() == old(self).released(),
            final(self).reused() == old(self).reused(),
            final(self).slots() == old(self).slots(),
            final(self).pool() == old(self).pool(),
            final(self).byte_count() == old(self).byte_count(),
            final(self).serial() == old(self).serial(),
            final(self).next_handle() == old(self).next_handle(),
            final(self).generation() == old(self).generation(),
            final(self).stats() == old(self).stats(),
            final(self).cached_grid() == old(self).cached_grid(),
            final(self).cached_tiles() == old(self).cached_tiles(),
    {
        proof {
            lemma_inv_clear_evicted(
                self.slots(),
                self.pool(),
                self.byte_count(),
                self.serial(),
                self.next_handle(),
                self.released(),
                self.evicted(),
            );
        }
        let mut handles: Vec<TileContentHandle> = Vec::new();
        std::mem::swap(&mut handles, &mut self.evicted_handles);
        handles
    }

    /// How many surfaces each eviction rule released in the last frame.
    pub fn eviction_stats(&self) -> (stats: TileResourceEvictionStats)
        ensures
            stats == self.stats(),
    {
        self.eviction_stats
    }
}

/// The composite references for `tiles`: each tile that has a slot, in
/// order, with its slot's surface.
pub open spec fn composite_refs_of(tiles: Seq<TileId>, slots: Seq<(TileId, TileContentSlot)>) -> Seq<
    CompositeTileRef,
>
    decreases tiles.len(),
{
    if tiles.len() == 0 {
        Seq::empty()
    } else {
        let r = composite_refs_of(tiles.drop_last(), slots);
        let t = tiles.last();
        if seq_has_slot(slots, t) {
            r.push(CompositeTileRef { tile_id: t, content_handle: seq_slot(slots, t).handle })
        } else {
            r
        }
    }
}

impl TileCache {
    /// Plans and prepares a frame as `build_tile_state` does, and composites
    /// it as a single root layer over every tile of the grid that has a
    /// surface, row by row; `root_visual` is how that layer is drawn.
    pub fn build_submission<V>(
        &mut self,
        layout: &TileLayout,
        damage: &DamageRegion<Option<TileSpan>>,
        root_visual: V,
    ) -> (submission: CompositorSubmission<V>)
        requires
            old(self).wf(),
            layout.wf(),
            old(self).frame_headroom(*layout),
        ensures
            final(self).wf(),
            final(self).generation() == old(self).generation() + 1,
            old(self).plans(*layout, *damage, submission.tile_plan),
            final(self).frame_slots(
                *old(self),
                *layout,
                old(self).is_full_rebuild(*layout, *damage),
                submission.tile_plan.dirty_tiles@,
            ),
            submission.raster_batch.tiles@ == raster_of(
                submission.tile_plan.dirty_tiles@,
                *layout,
                final(self).slots(),
            ),
            submission.raster_batch.full_raster == (damage is Full || submission.tile_plan.stats.reraster_tile_count
                == submission.tile_plan.stats.total_tile_count),
            final(self).byte_count() <= MAX_REUSABLE_BYTE_COUNT,
            forall|i: int|
                0 <= i < final(self).pool().len() ==> !is_stale(final(self).generation(), #[trigger] final(self).pool()[i]),
            final(self).released() == old(self).released() + final(self).evicted(),
            final(self).stats().budget_eviction_count + final(self).stats().age_eviction_count
                + final(self).stats().descriptor_limit_eviction_count == final(self).evicted().len(),
            final(self).cached_grid() == Some(layout.key),
            final(self).cached_tiles() == layout.spec_all_tiles(),
            frame_grants(*old(self), *final(self)),
            frame_exact(
                *old(self),
                *final(self),
                *layout,
                old(self).is_full_rebuild(*layout, *damage),
                submission.tile_plan.dirty_tiles@,
            ),
            !old(self).is_full_rebuild(*layout, *damage) ==> kept_surfaces(
                *old(self),
                *final(self),
                submission.tile_plan.dirty_tiles@,
                *layout,
            ),
            submission.composite_pass.full_present == damage is Full,
            submission.composite_pass.steps@.len() == 1,
            submission.composite_pass.steps@[0].layer_id == CompositorLayerId(0),
            submission.composite_pass.steps@[0].parent is None,
            submission.composite_pass.steps@[0].descendant_layers@.len() == 0,
            submission.composite_pass.steps@[0].tiles@ == composite_refs_of(layout.spec_all_tiles(), final(self).slots()),
            submission.composite_pass.steps@[0].paint_order == 0,
            !submission.composite_pass.steps@[0].needs_offscreen,
            submission.composite_pass.steps@[0].blend_mode == CompositorBlendMode::Normal,
            submission.composite_pass.steps@[0].visual == root_visual,
            submission.layer_tree.layers@.len() == 0,
    {
        let state = self.build_tile_state(layout, damage);
        let all = layout.all_tiles();
        let mut tiles: Vec<CompositeTileRef> = Vec::new();
        let mut i: usize = 0;
        while i < all.len()
            invariant
                self.wf(),
                0 <= i <= all@.len(),
                tiles@ == composite_refs_of(all@.take(i as int), self.slots()),
            decreases all@.len() - i,
        {
            proof {
                assert(all@.take(i + 1).drop_last() =~= all@.take(i as int));
                assert(all@.take(i + 1).last() == all@[i as int]);
            }
            match self.content_handle(all[i]) {
                Some(handle) => {
                    tiles.push(CompositeTileRef { tile_id: all[i], content_handle: handle });
                },
                None => {},
            }
            i = i + 1;
        }
        proof {
            assert(all@.take(all@.len() as int) =~= all@);
        }
        let mut steps: Vec<CompositeLayerPass<V>> = Vec::new();
        steps.push(
            CompositeLayerPass {
                layer_id: CompositorLayerId(0),
                parent: None,
                descendant_layers: Vec::new(),
                tiles,
                paint_order: 0,
                needs_offscreen: false,
                blend_mode: CompositorBlendMode::Normal,
                visual: root_visual,
            },
        );
        let full_present = damage.is_full();
        CompositorSubmission {
            tile_plan: state.tile_plan,
            raster_batch: state.raster_batch,
            composite_pass: CompositePass { steps, full_present },
            layer_tree: CompositorLayerTree { layers: Vec::new() },
        }
    }
}

impl Default for TileCache {
    /// An empty cache, as `new` gives.
    fn default() -> (cache: Self)
        ensures
            cache.wf(),
            cache.is_fresh(),
    {
        TileCache::new()
    }
}

/// A frame's plan over a non-empty grid lists each dirty tile once and
/// only tiles of the grid, so the dirty and the cached tiles add up to all
/// the grid's tiles.
pub proof fn lemma_plan_counts(cache: TileCache, layout: TileLayout, damage: DamageRegion<Option<TileSpan>>, plan: TilePlan)
    requires
        layout.wf(),
        layout.count_x() > 0,
        layout.count_y() > 0,
        cache.plans(layout, damage, plan),
    ensures
        forall|t: TileId| plan.dirty_tiles@.contains(t) ==> layout.in_grid(t),
        plan.dirty_tiles@.no_duplicates(),
        plan.stats.reraster_tile_count + plan.stats.cached_tile_count == plan.stats.total_tile_count,
{
    let all = layout.spec_all_tiles();
    let dirty = plan.dirty_tiles@;
    let full = cache.is_full_rebuild(layout, damage);
    lemma_dirty_facts(layout, damage, full, dirty);
    lemma_all_distinct_seq(layout);
    assert forall|t: TileId| dirty.contains(t) implies layout.in_grid(t) by {
        crate::tile::lemma_all_tiles_contains(layout.count_x(), layout.count_y(), t);
        if !full {
            assert(layout.damaged(damage, t));
            if damage is Rects {
                let spans = damage->Rects_0@;
                let i = choose|i: int|
                    0 <= i < spans.len() && #[trigger] spans[i] is Some && crate::tile::span_covers(
                        spans[i]->0,
                        crate::tile::sat_dec(layout.count_x() as u32),
                        crate::tile::sat_dec(layout.count_y() as u32),
                        t,
                    );
            }
        }
    }
    assert(dirty.no_duplicates());
    assert(all.no_duplicates());
    dirty.unique_seq_to_set();
    all.unique_seq_to_set();
    assert(dirty.to_set().subset_of(all.to_set())) by {
        assert forall|t: TileId| dirty.to_set().contains(t) implies all.to_set().contains(t) by {
            crate::tile::lemma_all_tiles_contains(layout.count_x(), layout.count_y(), t);
        }
    }
    vstd::set_lib::lemma_len_subset(dirty.to_set(), all.to_set());
}

/// A planned frame never both re-rasterizes and reuses a tile, and every
/// tile it reuses is a tile of the grid.
pub proof fn lemma_plan_disjoint(
    cache: TileCache,
    layout: TileLayout,
    damage: DamageRegion<Option<TileSpan>>,
    plan: TilePlan,
)
    requires
        cache.plans(layout, damage, plan),
    ensures
        forall|t: TileId|
            #[trigger] plan.reused_tiles@.contains(t) ==> !plan.dirty_tiles@.contains(t)
                && layout.spec_all_tiles().contains(t),
{
    let all = layout.spec_all_tiles();
    let pred = reusable_tile(cache.cached_tiles(), plan.dirty_tiles@);
    assert forall|t: TileId| #[trigger] plan.reused_tiles@.contains(t) implies !plan.dirty_tiles@.contains(t)
        && all.contains(t) by {
        let i = choose|i: int| 0 <= i < plan.reused_tiles@.len() && plan.reused_tiles@[i] == t;
        if !cache.is_full_rebuild(layout, damage) {
            all.lemma_filter_pred(pred, i);
            all.lemma_filter_contains_rev(pred, t);
        }
    }
}

} // verus!
