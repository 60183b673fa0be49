use vstd::prelude::*;

verus! {

/// A cached image texture: its key, size, byte size, when it was last used,
/// and the texture itself.
#[derive(Debug, Clone)]
pub struct CachedImageTexture<T> {
    pub key: u64,
    pub width: u32,
    pub height: u32,
    pub byte_size: usize,
    pub last_used: u64,
    pub texture: T,
}

/// The bytes the entries take in all.
pub open spec fn total_size<T>(entries: Seq<CachedImageTexture<T>>) -> int
    decreases entries.len(),
{
    if entries.len() == 0 {
        0
    } else {
        total_size(entries.drop_last()) + entries.last().byte_size
    }
}

/// Every key is cached once.
pub open spec fn texture_keys_distinct<T>(entries: Seq<CachedImageTexture<T>>) -> bool {
    forall|i: int, j: int|
        0 <= i < entries.len() && 0 <= j < entries.len() && i != j ==> (#[trigger] entries[i]).key
            != (#[trigger] entries[j]).key
}

/// Whether key `key` is cached.
pub open spec fn has_texture<T>(entries: Seq<CachedImageTexture<T>>, key: u64) -> bool {
    exists|i: int| 0 <= i < entries.len() && (#[trigger] entries[i]).key == key
}

/// Taking an entry out takes its bytes out of the total.
pub proof fn lemma_total_size_remove<T>(entries: Seq<CachedImageTexture<T>>, i: int)
    requires
        0 <= i < entries.len(),
    ensures
        total_size(entries.remove(i)) == total_size(entries) - entries[i].byte_size,
    decreases entries.len(),
{
    if i < entries.len() - 1 {
        lemma_total_size_remove(entries.drop_last(), i);
        assert(entries.remove(i).drop_last() =~= entries.drop_last().remove(i));
        assert(entries.remove(i).last() == entries.last());
    } else {
        assert(entries.remove(i) =~= entries.drop_last());
    }
}

/// Sizes are never negative, and each entry fits in the total.
pub proof fn lemma_total_size_bounds<T>(entries: Seq<CachedImageTexture<T>>, i: int)
    requires
        0 <= i < entries.len(),
    ensures
        total_size(entries) >= entries[i].byte_size,
    decreases entries.len(),
{
    lemma_total_size_nonneg(entries.drop_last());
    if i < entries.len() - 1 {
        lemma_total_size_bounds(entries.drop_last(), i);
    }
}

pub proof fn lemma_total_size_nonneg<T>(entries: Seq<CachedImageTexture<T>>)
    ensures
        total_size(entries) >= 0,
    decreases entries.len(),
{
    if entries.len() > 0 {
        lemma_total_size_nonneg(entries.drop_last());
    }
}

/// A texture cache for images, by key, within a byte budget: the least
/// recently used textures are dropped when it runs over.
#[derive(Debug, Clone)]
pub struct ImageTextureCache<T> {
    entries: Vec<CachedImageTexture<T>>,
    total_bytes: usize,
    budget_bytes: usize,
    use_clock: u64,
}

/// What a lookup found.
pub enum TextureLookup<T> {
    /// The cached texture, made for this size.
    Hit(T),
    /// Nothing for this size: make the texture and insert it, with this use.
    Miss(u64),
}

impl<T: Clone> ImageTextureCache<T> {
    pub closed spec fn entries(&self) -> Seq<CachedImageTexture<T>> {
        self.entries@
    }

    pub closed spec fn total(&self) -> int {
        self.total_bytes as int
    }

    pub closed spec fn budget(&self) -> int {
        self.budget_bytes as int
    }

    pub closed spec fn clock(&self) -> u64 {
        self.use_clock
    }

    /// Keys cached once, the byte total the entries' sum, each size its
    /// pixel count times four, and no use after the clock.
    pub open spec fn wf(&self) -> bool {
        &&& texture_keys_distinct(self.entries())
        &&& self.total() == total_size(self.entries())
        &&& forall|i: int|
            0 <= i < self.entries().len() ==> (#[trigger] self.entries()[i]).byte_size == self.entries()[i].width
                * self.entries()[i].height * 4 && self.entries()[i].last_used <= self.clock()
    }

    /// An empty cache with a byte budget.
    pub fn new(budget_bytes: usize) -> (cache: Self)
        ensures
            cache.wf(),
            cache.entries().len() == 0,
            cache.budget() == budget_bytes,
            cache.clock() == 0,
    {
        ImageTextureCache { entries: Vec::new(), total_bytes: 0, budget_bytes, use_clock: 0 }
    }

    /// Counts one more use; a texture cached for `key` at this size is
    /// marked used now and handed out; one cached at another size is dropped.
    pub fn lookup(&mut self, key: u64, width: u32, height: u32) -> (r: TextureLookup<T>)
        requires
            old(self).wf(),
        ensures
            final(self).wf(),
            final(self).budget() == old(self).budget(),
            final(self).clock() == if old(self).clock() < u64::MAX {
                (old(self).clock() + 1) as u64
            } else {
                old(self).clock()
            },
            match r {
                TextureLookup::Hit(t) => exists|i: int|
                    0 <= i < old(self).entries().len() && (#[trigger] old(self).entries()[i]).key == key
                        && old(self).entries()[i].width == width && old(self).entries()[i].height == height
                        && cloned(old(self).entries()[i].texture, t) && final(self).entries() == old(self).entries().update(
                        i,
                        CachedImageTexture { last_used: final(self).clock(), ..old(self).entries()[i] },
                    ),
                TextureLookup::Miss(now) => {
                    &&& now == final(self).clock()
                    &&& !has_texture(final(self).entries(), key)
                    &&& forall|i: int|
                        0 <= i < old(self).entries().len() && (#[trigger] old(self).entries()[i]).key == key
                            ==> !(old(self).entries()[i].width == width && old(self).entries()[i].height == height)
                                && final(self).entries() == old(self).entries().remove(i)
                    &&& !has_texture(old(self).entries(), key) ==> final(self).entries() == old(self).entries()
                },
            },
    {
        self.use_clock = self.use_clock.saturating_add(1);
        let now = self.use_clock;
        let mut i: usize = 0;
        while i < self.entries.len()
            invariant
                0 <= i <= self.entries@.len(),
                old(self).wf(),
                self.entries@ == old(self).entries@,
                self.total_bytes == old(self).total_bytes,
                self.budget_bytes == old(self).budget_bytes,
                self.use_clock == now,
                now >= old(self).use_clock,
                now == if old(self).use_clock < u64::MAX {
                    (old(self).use_clock + 1) as u64
                } else {
                    old(self).use_clock
                },
                forall|k: int| 0 <= k < i ==> self.entries@[k].key != key,
            decreases self.entries@.len() - i,
        {
            if self.entries[i].key == key {
                let ghost e0 = old(self).entries@[i as int];
                let entry = self.entries.remove(i);
                if entry.width == width && entry.height == height {
                    let texture = entry.texture.clone();
                    let updated = CachedImageTexture {
                        key: entry.key,
                        width: entry.width,
                        height: entry.height,
                        byte_size: entry.byte_size,
                        last_used: now,
                        texture: entry.texture,
                    };
                    self.entries.insert(i, updated);
                    proof {
                        let target = old(self).entries@.update(i as int, CachedImageTexture { last_used: now, ..e0 });
                        assert(self.entries@ =~= target);
                        lemma_total_size_update(old(self).entries@, i as int, CachedImageTexture { last_used: now, ..e0 });
                        assert forall|a: int, b: int|
                            0 <= a < self.entries@.len() && 0 <= b < self.entries@.len() && a != b implies (
                            #[trigger] self.entries@[a]).key != (#[trigger] self.entries@[b]).key by {
                            assert(old(self).entries@[a].key != old(self).entries@[b].key);
                        }
                    }
                    return TextureLookup::Hit(texture);
                }
                proof {
                    lemma_total_size_remove(old(self).entries@, i as int);
                    lemma_total_size_bounds(old(self).entries@, i as int);
                    assert forall|a: int, b: int|
                        0 <= a < self.entries@.len() && 0 <= b < self.entries@.len() && a != b implies (
                        #[trigger] self.entries@[a]).key != (#[trigger] self.entries@[b]).key by {
                        let a0 = if a < i { a } else { a + 1 };
                        let b0 = if b < i { b } else { b + 1 };
                        assert(old(self).entries@[a0].key != old(self).entries@[b0].key);
                    }
                    assert forall|k: int| 0 <= k < old(self).entries@.len() && (#[trigger] old(self).entries@[k]).key == key implies k == i by {
                        if k != i {
                            assert(old(self).entries@[k].key != old(self).entries@[i as int].key);
                        }
                    }
                    if has_texture(self.entries@, key) {
                        let k = choose|k: int| 0 <= k < self.entries@.len() && (#[trigger] self.entries@[k]).key == key;
                        let k0 = if k < i { k } else { k + 1 };
                        assert(old(self).entries@[k0].key == key);
                    }
                }
                self.total_bytes = self.total_bytes - entry.byte_size;
                return TextureLookup::Miss(now);
            }
            i = i + 1;
        }
        proof {
            if has_texture(old(self).entries@, key) {
                let k = choose|k: int| 0 <= k < old(self).entries@.len() && (#[trigger] old(self).entries@[k]).key == key;
            }
        }
        TextureLookup::Miss(now)
    }

    /// Caches `texture` for `key` at this size, used at `now`, then drops
    /// the least recently used other textures while the cache is over its
    /// budget and holds more than one.
    pub fn insert(&mut self, key: u64, width: u32, height: u32, texture: T, now: u64)
        requires
            old(self).wf(),
            !has_texture(old(self).entries(), key),
            now == old(self).clock(),
            width * height * 4 <= usize::MAX,
            old(self).total() + width * height * 4 <= usize::MAX,
        ensures
            final(self).wf(),
            final(self).budget() == old(self).budget(),
            final(self).clock() == old(self).clock(),
            final(self).total() <= final(self).budget() || final(self).entries().len() <= 1,
            final(self).entries() == old(self).entries().push(
                CachedImageTexture { key, width, height, byte_size: (width * height * 4) as usize, last_used: now, texture },
            ) || exists|e: CachedImageTexture<T>|
                old(self).entries().contains(e) && !final(self).entries().contains(e) && final(self).total()
                    + e.byte_size > final(self).budget(),
            exists|i: int|
                0 <= i < final(self).entries().len() && final(self).entries()[i] == (CachedImageTexture {
                    key,
                    width,
                    height,
                    byte_size: (width * height * 4) as usize,
                    last_used: now,
                    texture,
                }),
            forall|i: int|
                0 <= i < final(self).entries().len() && (#[trigger] final(self).entries()[i]).key != key
                    ==> old(self).entries().contains(final(self).entries()[i]),
            forall|e: CachedImageTexture<T>|
                old(self).entries().contains(e) && !final(self).entries().contains(e) ==> forall|i: int|
                    0 <= i < final(self).entries().len() && (#[trigger] final(self).entries()[i]).key != key
                        ==> e.last_used <= final(self).entries()[i].last_used,
    {
        proof {
            assert(width * height <= usize::MAX) by (nonlinear_arith)
                requires
                    width * height * 4 <= usize::MAX,
            ;
        }
        let byte_size = width as usize * height as usize * 4;
        let entry = CachedImageTexture { key, width, height, byte_size, last_used: now, texture };
        let ghost fresh = entry;
        let ghost before = self.entries@;
        self.entries.push(entry);
        self.total_bytes = self.total_bytes + byte_size;
        proof {
            assert(self.entries@.drop_last() =~= before);
            assert forall|a: int, b: int|
                0 <= a < self.entries@.len() && 0 <= b < self.entries@.len() && a != b implies (
                #[trigger] self.entries@[a]).key != (#[trigger] self.entries@[b]).key by {
                if a < before.len() && b < before.len() {
                    assert(before[a].key != before[b].key);
                } else if a < before.len() {
                    assert(before[a].key != key);
                } else {
                    assert(before[b].key != key);
                }
            }
            assert(self.entries@[before.len() as int] == fresh);
        }
        self.evict_to_budget(key, Ghost(fresh));
        proof {
            assert forall|e: CachedImageTexture<T>|
                old(self).entries().contains(e) && !self.entries@.contains(e) implies forall|i: int|
                    0 <= i < self.entries@.len() && (#[trigger] self.entries@[i]).key != key
                        ==> e.last_used <= self.entries@[i].last_used by {
                let k = choose|k: int| 0 <= k < before.len() && before[k] == e;
                assert(before.push(fresh)[k] == e);
            }
            assert forall|i: int|
                0 <= i < self.entries@.len() && (#[trigger] self.entries@[i]).key != key implies old(self).entries().contains(
                self.entries@[i],
            ) by {
                let k = choose|k: int| 0 <= k < before.push(fresh).len() && before.push(fresh)[k] == self.entries@[i];
                if k == before.len() {
                    assert(self.entries@[i].key == key);
                }
                assert(before[k] == self.entries@[i]);
            }
        }
    }

    /// Drops the least recently used textures other than `keep` while the
    /// cache is over budget and holds more than one.
    fn evict_to_budget(&mut self, keep: u64, Ghost(kept): Ghost<CachedImageTexture<T>>)
        requires
            old(self).wf(),
            old(self).entries().contains(kept),
            kept.key == keep,
        ensures
            final(self).wf(),
            final(self).budget() == old(self).budget(),
            final(self).clock() == old(self).clock(),
            final(self).total() <= final(self).budget() || final(self).entries().len() <= 1,
            final(self).entries().contains(kept),
            final(self).entries() == old(self).entries() || exists|e: CachedImageTexture<T>|
                old(self).entries().contains(e) && !final(self).entries().contains(e) && final(self).total()
                    + e.byte_size > final(self).budget(),
            forall|i: int| 0 <= i < final(self).entries().len() ==> old(self).entries().contains(#[trigger] final(self).entries()[i]),
            forall|e: CachedImageTexture<T>|
                old(self).entries().contains(e) && !final(self).entries().contains(e) ==> forall|i: int|
                    0 <= i < final(self).entries().len() && (#[trigger] final(self).entries()[i]).key != keep
                        ==> e.last_used <= final(self).entries()[i].last_used,
    {
        let ghost start = self.entries@;
        let ghost mut last: Option<CachedImageTexture<T>> = None;
        while self.total_bytes > self.budget_bytes && self.entries.len() > 1
            invariant
                self.wf(),
                match last {
                    None => self.entries@ == start,
                    Some(e) => start.contains(e) && !self.entries@.contains(e) && self.total_bytes + e.byte_size
                        > self.budget_bytes,
                },
                self.budget_bytes == old(self).budget_bytes,
                self.use_clock == old(self).use_clock,
                start == old(self).entries@,
                self.entries@.contains(kept),
                kept.key == keep,
                forall|i: int| 0 <= i < self.entries@.len() ==> start.contains(#[trigger] self.entries@[i]),
                forall|e: CachedImageTexture<T>|
                    start.contains(e) && !self.entries@.contains(e) ==> forall|i: int|
                        0 <= i < self.entries@.len() && (#[trigger] self.entries@[i]).key != keep
                            ==> e.last_used <= self.entries@[i].last_used,
            decreases self.entries@.len(),
        {
            let mut best: usize = self.entries.len();
            let mut j: usize = 0;
            while j < self.entries.len()
                invariant
                    0 <= j <= self.entries@.len(),
                    best == self.entries@.len() || (best < j && self.entries@[best as int].key != keep),
                    best == self.entries@.len() ==> forall|k: int| 0 <= k < j ==> (#[trigger] self.entries@[k]).key == keep,
                    best < self.entries@.len() ==> forall|k: int|
                        0 <= k < j && (#[trigger] self.entries@[k]).key != keep ==> self.entries@[best as int].last_used
                            <= self.entries@[k].last_used,
                decreases self.entries@.len() - j,
            {
                if self.entries[j].key != keep {
                    if best == self.entries.len() || self.entries[j].last_used < self.entries[best].last_used {
                        best = j;
                    }
                }
                j = j + 1;
            }
            proof {
                if best == self.entries@.len() {
                    let a = choose|a: int| 0 <= a < self.entries@.len() && self.entries@[a] == kept;
                    let b: int = if a == 0 { 1 } else { 0 };
                    assert(self.entries@[b].key == keep);
                    assert(self.entries@[a].key != self.entries@[b].key);
                }
            }
            let ghost current = self.entries@;
            let removed = self.entries.remove(best);
            proof {
                lemma_total_size_remove(current, best as int);
                lemma_total_size_bounds(current, best as int);
                assert forall|a: int, b: int|
                    0 <= a < self.entries@.len() && 0 <= b < self.entries@.len() && a != b implies (
                    #[trigger] self.entries@[a]).key != (#[trigger] self.entries@[b]).key by {
                    let a0 = if a < best { a } else { a + 1 };
                    let b0 = if b < best { b } else { b + 1 };
                    assert(current[a0].key != current[b0].key);
                }
                assert forall|i: int| 0 <= i < self.entries@.len() implies (#[trigger] self.entries@[i]).byte_size
                    == self.entries@[i].width * self.entries@[i].height * 4 && self.entries@[i].last_used <= self.use_clock by {
                    let i0 = if i < best { i } else { i + 1 };
                    assert(self.entries@[i] == current[i0]);
                }
                let a = choose|a: int| 0 <= a < current.len() && current[a] == kept;
                assert(a != best);
                let a1 = if a < best { a } else { a - 1 };
                assert(self.entries@[a1] == kept);
                assert forall|i: int| 0 <= i < self.entries@.len() implies start.contains(#[trigger] self.entries@[i]) by {
                    let i0 = if i < best { i } else { i + 1 };
                    assert(self.entries@[i] == current[i0]);
                    assert(current.contains(current[i0]));
                }
                assert forall|e: CachedImageTexture<T>|
                    start.contains(e) && !self.entries@.contains(e) implies forall|i: int|
                        0 <= i < self.entries@.len() && (#[trigger] self.entries@[i]).key != keep
                            ==> e.last_used <= self.entries@[i].last_used by {
                    assert forall|i: int| 0 <= i < self.entries@.len() && (#[trigger] self.entries@[i]).key != keep implies e.last_used
                        <= self.entries@[i].last_used by {
                        let i0 = if i < best { i } else { i + 1 };
                        assert(self.entries@[i] == current[i0]);
                        if current.contains(e) {
                            let q = choose|q: int| 0 <= q < current.len() && current[q] == e;
                            if q != best {
                                let q1 = if q < best { q } else { q - 1 };
                                assert(self.entries@[q1] == e);
                            }
                            assert(current[best as int].last_used <= current[i0].last_used);
                        } else {
                            assert(current.contains(current[i0]));
                        }
                    }
                }
            }
            proof {
                assert(!self.entries@.contains(current[best as int])) by {
                    if self.entries@.contains(current[best as int]) {
                        let q = choose|q: int| 0 <= q < self.entries@.len() && self.entries@[q] == current[best as int];
                        let q0 = if q < best { q } else { q + 1 };
                        assert(self.entries@[q] == current[q0]);
                        assert(current[q0].key != current[best as int].key);
                    }
                }
                assert(start.contains(current[best as int])) by {
                    assert(current.contains(current[best as int]));
                }
                last = Some(current[best as int]);
            }
            self.total_bytes = self.total_bytes - removed.byte_size;
        }
    }

    /// How many textures are cached.
    pub fn entry_count(&self) -> (n: usize)
        ensures
            n == self.entries().len(),
    {
        self.entries.len()
    }

    /// How many bytes the cached textures take.
    pub fn total_bytes(&self) -> (n: usize)
        ensures
            n == self.total(),
    {
        self.total_bytes
    }
}

/// Updating an entry's use keeps the total.
pub proof fn lemma_total_size_update<T>(entries: Seq<CachedImageTexture<T>>, i: int, e: CachedImageTexture<T>)
    requires
        0 <= i < entries.len(),
        e.byte_size == entries[i].byte_size,
    ensures
        total_size(entries.update(i, e)) == total_size(entries),
    decreases entries.len(),
{
    if i < entries.len() - 1 {
        lemma_total_size_update(entries.drop_last(), i, e);
        assert(entries.update(i, e).drop_last() =~= entries.drop_last().update(i, e));
    } else {
        assert(entries.update(i, e).drop_last() =~= entries.drop_last());
    }
}

/// An offscreen render cache by stacking context, counting hits and misses.
#[derive(Debug, Clone)]
pub struct OffscreenContextCache<T> {
    entries: Vec<(u64, T)>,
    hits: usize,
    misses: usize,
}

#[derive(Debug, Clone, Copy, PartialEq, Eq, Structural)]
pub struct OffscreenContextCacheStats {
    pub entry_count: usize,
    pub hits: usize,
    pub misses: usize,
}

/// Where context `id` is cached, if it is.
pub open spec fn offscreen_index<T>(entries: Seq<(u64, T)>, id: u64) -> Option<int> {
    if exists|i: int| 0 <= i < entries.len() && entries[i].0 == id {
        Some(choose|i: int| 0 <= i < entries.len() && entries[i].0 == id)
    } else {
        None
    }
}

impl<T: Clone> OffscreenContextCache<T> {
    /// The cached renders, by context.
    pub closed spec fn view(&self) -> Map<u64, T> {
        Map::new(
            |id: u64| offscreen_index(self.entries@, id) is Some,
            |id: u64| self.entries@[offscreen_index(self.entries@, id)->0].1,
        )
    }

    pub closed spec fn hit_count(&self) -> nat {
        self.hits as nat
    }

    pub closed spec fn miss_count(&self) -> nat {
        self.misses as nat
    }

    pub closed spec fn wf(&self) -> bool {
        forall|i: int, j: int|
            0 <= i < self.entries@.len() && 0 <= j < self.entries@.len() && i != j ==> (#[trigger] self.entries@[i]).0
                != (#[trigger] self.entries@[j]).0
    }

    pub fn new() -> (cache: Self)
        ensures
            cache.wf(),
            cache.view() == Map::<u64, T>::empty(),
            cache.hit_count() == 0,
            cache.miss_count() == 0,
    {
        let cache = OffscreenContextCache { entries: Vec::new(), hits: 0, misses: 0 };
        proof {
            assert(cache.view() =~= Map::<u64, T>::empty());
        }
        cache
    }

    /// Forgets every render and the counts.
    pub fn clear(&mut self)
        ensures
            final(self).wf(),
            final(self).view() == Map::<u64, T>::empty(),
            final(self).hit_count() == 0,
            final(self).miss_count() == 0,
    {
        self.entries = Vec::new();
        self.hits = 0;
        self.misses = 0;
        proof {
            assert(self.view() =~= Map::<u64, T>::empty());
        }
    }

    fn position(&self, id: u64) -> (r: Option<usize>)
        requires
            self.wf(),
        ensures
            r matches Some(i) ==> i < self.entries@.len() && self.entries@[i as int].0 == id && offscreen_index(
                self.entries@,
                id,
            ) == Some(i as int),
            r is None ==> offscreen_index(self.entries@, id) is None,
    {
        let mut i: usize = 0;
        while i < self.entries.len()
            invariant
                0 <= i <= self.entries@.len(),
                self.wf(),
                forall|k: int| 0 <= k < i ==> self.entries@[k].0 != id,
            decreases self.entries@.len() - i,
        {
            if self.entries[i].0 == id {
                proof {
                    let c = choose|c: int| 0 <= c < self.entries@.len() && self.entries@[c].0 == id;
                    assert(self.entries@[c].0 == self.entries@[i as int].0);
                    assert(c == i);
                }
                return Some(i);
            }
            i = i + 1;
        }
        None
    }

    /// The render cached for context `id`, counting a hit, or none, counting
    /// a miss.
    pub fn get(&mut self, id: u64) -> (r: Option<T>)
        requires
            old(self).wf(),
            old(self).hit_count() < usize::MAX,
            old(self).miss_count() < usize::MAX,
        ensures
            final(self).wf(),
            final(self).view() == old(self).view(),
            match r {
                Some(t) => {
                    &&& old(self).view().contains_key(id)
                    &&& cloned(old(self).view()[id], t)
                    &&& final(self).hit_count() == old(self).hit_count() + 1
                    &&& final(self).miss_count() == old(self).miss_count()
                },
                None => {
                    &&& !old(self).view().contains_key(id)
                    &&& final(self).hit_count() == old(self).hit_count()
                    &&& final(self).miss_count() == old(self).miss_count() + 1
                },
            },
    {
        match self.position(id) {
            Some(i) => {
                self.hits = self.hits + 1;
                Some(self.entries[i].1.clone())
            },
            None => {
                self.misses = self.misses + 1;
                None
            },
        }
    }

    /// Caches `entry` for context `id`, in place of an earlier one.
    pub fn insert(&mut self, id: u64, entry: T)
        requires
            old(self).wf(),
        ensures
            final(self).wf(),
            final(self).view() == old(self).view().insert(id, entry),
            final(self).hit_count() == old(self).hit_count(),
            final(self).miss_count() == old(self).miss_count(),
    {
        let ghost before = self.entries@;
        match self.position(id) {
            Some(i) => {
                self.entries.set(i, (id, entry));
                proof {
                    assert forall|a: int, b: int|
                        0 <= a < self.entries@.len() && 0 <= b < self.entries@.len() && a != b implies (
                        #[trigger] self.entries@[a]).0 != (#[trigger] self.entries@[b]).0 by {
                        assert(before[a].0 != before[b].0);
                    }
                    assert forall|k: u64| #[trigger] offscreen_index(self.entries@, k) == offscreen_index(before, k) by {
                        if exists|j: int| 0 <= j < before.len() && before[j].0 == k {
                            let j = choose|j: int| 0 <= j < before.len() && before[j].0 == k;
                            assert(self.entries@[j].0 == k);
                        }
                        if exists|j: int| 0 <= j < self.entries@.len() && self.entries@[j].0 == k {
                            let j = choose|j: int| 0 <= j < self.entries@.len() && self.entries@[j].0 == k;
                            assert(before[j].0 == k);
                        }
                        if offscreen_index(before, k) is Some {
                            let c1 = offscreen_index(before, k)->0;
                            let c2 = offscreen_index(self.entries@, k)->0;
                            if c1 != c2 {
                                assert(before[c1].0 != before[c2].0);
                            }
                        }
                    }
                    assert(self.view() =~= old(self).view().insert(id, entry));
                }
            },
            None => {
                self.entries.push((id, entry));
                proof {
                    let n = before.len() as int;
                    assert forall|a: int, b: int|
                        0 <= a < self.entries@.len() && 0 <= b < self.entries@.len() && a != b implies (
                        #[trigger] self.entries@[a]).0 != (#[trigger] self.entries@[b]).0 by {
                        if a < n && b < n {
                            assert(before[a].0 != before[b].0);
                        } else if a == n {
                            assert(before[b].0 != id);
                        } else {
                            assert(before[a].0 != id);
                        }
                    }
                    assert forall|k: u64| k != id implies #[trigger] offscreen_index(self.entries@, k) == offscreen_index(before, k) by {
                        if exists|j: int| 0 <= j < before.len() && before[j].0 == k {
                            let j = choose|j: int| 0 <= j < before.len() && before[j].0 == k;
                            assert(self.entries@[j].0 == k);
                        }
                        if exists|j: int| 0 <= j < self.entries@.len() && self.entries@[j].0 == k {
                            let j = choose|j: int| 0 <= j < self.entries@.len() && self.entries@[j].0 == k;
                            assert(j < n);
                            assert(before[j].0 == k);
                        }
                        if offscreen_index(before, k) is Some {
                            let c1 = offscreen_index(before, k)->0;
                            let c2 = offscreen_index(self.entries@, k)->0;
                            if c1 != c2 {
                                assert(self.entries@[c1].0 != self.entries@[c2].0);
                            }
                        }
                    }
                    assert(self.entries@[n].0 == id);
                    let c = offscreen_index(self.entries@, id)->0;
                    if c != n {
                        assert(self.entries@[c].0 != self.entries@[n].0);
                    }
                    assert(self.view() =~= old(self).view().insert(id, entry));
                }
            },
        }
    }

    pub fn stats(&self) -> (stats: OffscreenContextCacheStats)
        requires
            self.wf(),
        ensures
            stats.entry_count == self.view().len(),
            stats.hits == self.hit_count(),
            stats.misses == self.miss_count(),
    {
        proof {
            lemma_offscreen_view_len(self.entries@);
            assert(self.view().dom() =~= Set::new(|id: u64| offscreen_index(self.entries@, id) is Some));
        }
        OffscreenContextCacheStats { entry_count: self.entries.len(), hits: self.hits, misses: self.misses }
    }
}

/// The contexts cached are as many as the entries.
pub proof fn lemma_offscreen_view_len<T>(entries: Seq<(u64, T)>)
    requires
        forall|i: int, j: int|
            0 <= i < entries.len() && 0 <= j < entries.len() && i != j ==> (#[trigger] entries[i]).0
                != (#[trigger] entries[j]).0,
    ensures
        Set::new(|id: u64| offscreen_index(entries, id) is Some).finite(),
        Set::new(|id: u64| offscreen_index(entries, id) is Some).len() == entries.len(),
    decreases entries.len(),
{
    let s = Set::new(|id: u64| offscreen_index(entries, id) is Some);
    if entries.len() == 0 {
        assert(s =~= Set::empty());
    } else {
        let d = entries.drop_last();
        assert forall|i: int, j: int| 0 <= i < d.len() && 0 <= j < d.len() && i != j implies (#[trigger] d[i]).0
            != (#[trigger] d[j]).0 by {
            assert(d[i] == entries[i] && d[j] == entries[j]);
        }
        lemma_offscreen_view_len(d);
        let sd = Set::new(|id: u64| offscreen_index(d, id) is Some);
        let last = entries.last().0;
        assert forall|k: u64| s.contains(k) <==> sd.insert(last).contains(k) by {
            if s.contains(k) && k != last {
                let j = choose|j: int| 0 <= j < entries.len() && entries[j].0 == k;
                assert(j < d.len());
                assert(d[j].0 == k);
            }
            if sd.contains(k) {
                let j = choose|j: int| 0 <= j < d.len() && d[j].0 == k;
                assert(entries[j].0 == k);
            }
            if k == last {
                assert(entries[entries.len() - 1].0 == k);
            }
        }
        assert(s =~= sd.insert(last));
        assert(!sd.contains(last)) by {
            if sd.contains(last) {
                let j = choose|j: int| 0 <= j < d.len() && d[j].0 == last;
                assert(entries[j].0 == entries[entries.len() - 1].0);
            }
        }
    }
}

} // verus!
