use std::collections::HashMap;
use vstd::prelude::*;

verus! {

broadcast use vstd::std_specs::hash::group_hash_axioms;

/// A cache of values by key that counts how often a lookup was served.
/// Each entry also records the size it was made for; a lookup for another
/// size misses.
#[derive(Debug, Clone)]
pub struct KeyedCache<V> {
    entries: HashMap<u64, (u32, u32, V)>,
    hits: usize,
}

impl<V: Clone> KeyedCache<V> {
    /// The entries, by key: the size each was made for and its value.
    pub closed spec fn view(&self) -> Map<u64, (u32, u32, V)> {
        self.entries@
    }

    /// How many lookups were served.
    pub closed spec fn hit_count(&self) -> nat {
        self.hits as nat
    }

    pub fn new() -> (cache: Self)
        ensures
            cache.view() == Map::<u64, (u32, u32, V)>::empty(),
            cache.hit_count() == 0,
    {
        KeyedCache { entries: HashMap::new(), hits: 0 }
    }

    /// The value stored for `key` when it was made for this size; a served
    /// lookup is counted.
    pub fn lookup(&mut self, key: u64, width: u32, height: u32) -> (r: Option<V>)
        requires
            old(self).hit_count() < usize::MAX,
        ensures
            final(self).view() == old(self).view(),
            match r {
                Some(v) => {
                    &&& old(self).view().contains_key(key)
                    &&& old(self).view()[key].0 == width
                    &&& old(self).view()[key].1 == height
                    &&& cloned(old(self).view()[key].2, v)
                    &&& final(self).hit_count() == old(self).hit_count() + 1
                },
                None => {
                    &&& !(old(self).view().contains_key(key) && old(self).view()[key].0 == width
                        && old(self).view()[key].1 == height)
                    &&& final(self).hit_count() == old(self).hit_count()
                },
            },
    {
        match self.entries.get(&key) {
            Some(entry) => {
                if entry.0 == width && entry.1 == height {
                    let value = entry.2.clone();
                    self.hits = self.hits + 1;
                    Some(value)
                } else {
                    None
                }
            },
            None => None,
        }
    }

    /// Stores `value` for `key`, made for this size, in place of any earlier
    /// entry.
    pub fn store(&mut self, key: u64, width: u32, height: u32, value: V)
        ensures
            final(self).view() == old(self).view().insert(key, (width, height, value)),
            final(self).hit_count() == old(self).hit_count(),
    {
        self.entries.insert(key, (width, height, value));
    }

    /// How many entries are stored.
    pub fn len(&self) -> (n: usize)
        ensures
            n == self.view().len(),
    {
        self.entries.len()
    }

    /// How many lookups were served.
    pub fn hits(&self) -> (n: usize)
        ensures
            n == self.hit_count(),
    {
        self.hits
    }
}

/// What a text cache has served and holds.
#[derive(Debug, Clone, Copy, PartialEq, Eq, Structural)]
pub struct SkiaTextCacheStats {
    pub typeface_hits: usize,
    pub font_hits: usize,
    pub cached_typefaces: usize,
    pub cached_fonts: usize,
}

/// What an image cache has served and holds.
#[derive(Debug, Clone, Copy, PartialEq, Eq, Structural)]
pub struct SkiaImageCacheStats {
    pub image_hits: usize,
    pub cached_images: usize,
}

/// The statistics of an image cache.
pub fn image_cache_stats<V: Clone>(cache: &KeyedCache<V>) -> (stats: SkiaImageCacheStats)
    ensures
        stats.image_hits == cache.hit_count(),
        stats.cached_images == cache.view().len(),
{
    SkiaImageCacheStats { image_hits: cache.hits(), cached_images: cache.len() }
}

/// The statistics of a text cache made of a typeface cache and a font cache.
pub fn text_cache_stats<T: Clone, F: Clone>(typefaces: &KeyedCache<T>, fonts: &KeyedCache<F>) -> (stats:
    SkiaTextCacheStats)
    ensures
        stats.typeface_hits == typefaces.hit_count(),
        stats.font_hits == fonts.hit_count(),
        stats.cached_typefaces == typefaces.view().len(),
        stats.cached_fonts == fonts.view().len(),
{
    SkiaTextCacheStats {
        typeface_hits: typefaces.hits(),
        font_hits: fonts.hits(),
        cached_typefaces: typefaces.len(),
        cached_fonts: fonts.len(),
    }
}

} // verus!
