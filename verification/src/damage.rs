use vstd::prelude::*;

verus! {

/// The part of the viewport that changed since the last frame.
///
/// The region is generic over the rectangle type `R`: the tracker only
/// collects rectangles, it never looks inside one.
#[derive(Debug, Clone, PartialEq)]
pub enum DamageRegion<R> {
    Empty,
    Rects(Vec<R>),
    Full,
}

impl<R> DamageRegion<R> {
    /// One damaged rectangle, or the whole viewport when none is known.
    pub fn single_rect_or_full(rect: Option<R>) -> (region: Self)
        ensures
            match rect {
                Some(r) => (region matches DamageRegion::Rects(v) && v@ == seq![r]),
                None => region is Full,
            },
    {
        match rect {
            Some(r) => {
                let mut v = Vec::new();
                v.push(r);
                DamageRegion::Rects(v)
            },
            None => DamageRegion::Full,
        }
    }

    /// The region made of `rects`: `Empty` when there are none.
    pub fn from_rects(rects: Vec<R>) -> (region: Self)
        ensures
            rects@.len() == 0 ==> region is Empty,
            rects@.len() > 0 ==> (region matches DamageRegion::Rects(v) && v@ == rects@),
    {
        if rects.len() == 0 {
            DamageRegion::Empty
        } else {
            DamageRegion::Rects(rects)
        }
    }

    /// How many rectangles the region lists (none for `Empty` and `Full`).
    pub fn rect_count(&self) -> (n: usize)
        ensures
            n == match self {
                DamageRegion::Rects(v) => v@.len(),
                _ => 0,
            },
    {
        match self {
            DamageRegion::Rects(v) => v.len(),
            _ => 0,
        }
    }

    pub fn is_empty(&self) -> (b: bool)
        ensures
            b == (self is Empty),
    {
        matches!(self, DamageRegion::Empty)
    }

    pub fn is_full(&self) -> (b: bool)
        ensures
            b == (self is Full),
    {
        matches!(self, DamageRegion::Full)
    }
}

/// Whether a tracker that started with `full` is fully damaged after
/// `calls`, where `None` stands for a call of `mark_full` and `Some(r)` for
/// one of `add_rect(r)`.
pub open spec fn full_after<R>(full: bool, calls: Seq<Option<R>>) -> bool
    decreases calls.len(),
{
    if calls.len() == 0 {
        full
    } else {
        full_after(full, calls.drop_last()) || calls.last() is None
    }
}

/// The rectangles a tracker that started with `full` and `rects` holds
/// after `calls` (as in `full_after`).
pub open spec fn collected_after<R>(full: bool, rects: Seq<R>, calls: Seq<Option<R>>) -> Seq<R>
    decreases calls.len(),
{
    if calls.len() == 0 {
        rects
    } else {
        let prev = collected_after(full, rects, calls.drop_last());
        match calls.last() {
            None => Seq::empty(),
            Some(r) => if full_after(full, calls.drop_last()) {
                prev
            } else {
                prev.push(r)
            },
        }
    }
}

/// Every rectangle that `calls` add, in order.
pub open spec fn added_rects<R>(calls: Seq<Option<R>>) -> Seq<R>
    decreases calls.len(),
{
    if calls.len() == 0 {
        Seq::empty()
    } else {
        match calls.last() {
            None => added_rects(calls.drop_last()),
            Some(r) => added_rects(calls.drop_last()).push(r),
        }
    }
}

/// Over any sequence of calls on a new tracker: it is fully damaged exactly
/// when one of the calls marked it so, and then it holds no rectangle;
/// otherwise it holds every added rectangle, in the order they were added.
pub proof fn lemma_damage_calls<R>(calls: Seq<Option<R>>)
    ensures
        full_after(false, calls) == exists|i: int| 0 <= i < calls.len() && #[trigger] calls[i] is None,
        !full_after(false, calls) ==> collected_after(false, Seq::<R>::empty(), calls) == added_rects(calls),
        full_after(false, calls) ==> collected_after(false, Seq::<R>::empty(), calls).len() == 0,
    decreases calls.len(),
{
    if calls.len() > 0 {
        let rest = calls.drop_last();
        lemma_damage_calls(rest);
        if exists|i: int| 0 <= i < rest.len() && #[trigger] rest[i] is None {
            let i = choose|i: int| 0 <= i < rest.len() && #[trigger] rest[i] is None;
            assert(calls[i] == rest[i]);
        }
        if exists|i: int| 0 <= i < calls.len() && #[trigger] calls[i] is None {
            let i = choose|i: int| 0 <= i < calls.len() && #[trigger] calls[i] is None;
            if i < calls.len() - 1 {
                assert(rest[i] == calls[i]);
            }
        }
        if calls.last() is None {
            assert(calls[calls.len() - 1] is None);
        }
    }
}

/// Accumulates damage over a frame; once the whole viewport is damaged,
/// further rectangles are ignored.
#[derive(Debug, Clone, PartialEq)]
pub struct DamageTracker<R> {
    full: bool,
    rects: Vec<R>,
}

impl<R> DamageTracker<R> {
    pub closed spec fn is_full_damage(&self) -> bool {
        self.full
    }

    /// The rectangles collected so far, in the order they were added.
    pub closed spec fn collected(&self) -> Seq<R> {
        self.rects@
    }

    pub fn new() -> (tracker: Self)
        ensures
            !tracker.is_full_damage(),
            tracker.collected() == Seq::<R>::empty(),
    {
        DamageTracker { full: false, rects: Vec::new() }
    }

    /// The whole viewport is damaged; the collected rectangles are dropped.
    pub fn mark_full(&mut self)
        ensures
            final(self).is_full_damage(),
            final(self).collected() == Seq::<R>::empty(),
            final(self).is_full_damage() == full_after(old(self).is_full_damage(), seq![None::<R>]),
            final(self).collected() == collected_after(old(self).is_full_damage(), old(self).collected(), seq![None::<R>]),
    {
        proof {
            assert(seq![None::<R>].drop_last() =~= Seq::<Option<R>>::empty());
        }
        self.full = true;
        self.rects.clear();
    }

    pub fn add_rect(&mut self, rect: R)
        ensures
            final(self).is_full_damage() == old(self).is_full_damage(),
            final(self).collected() == if old(self).is_full_damage() {
                old(self).collected()
            } else {
                old(self).collected().push(rect)
            },
            final(self).is_full_damage() == full_after(old(self).is_full_damage(), seq![Some(rect)]),
            final(self).collected() == collected_after(old(self).is_full_damage(), old(self).collected(), seq![Some(rect)]),
    {
        proof {
            let calls = seq![Some(rect)];
            reveal_with_fuel(full_after, 2);
            reveal_with_fuel(collected_after, 2);
            assert(calls.drop_last() =~= Seq::<Option<R>>::empty());
            assert(calls.last() == Some(rect));
            assert(full_after(old(self).is_full_damage(), calls) == old(self).is_full_damage());
            assert(collected_after(old(self).is_full_damage(), old(self).collected(), calls) == if old(
                self,
            ).is_full_damage() {
                old(self).collected()
            } else {
                old(self).collected().push(rect)
            });
        }
        if self.full {
            return;
        }
        self.rects.push(rect);
    }

    pub fn add_optional_rect(&mut self, rect: Option<R>)
        ensures
            final(self).is_full_damage() == old(self).is_full_damage(),
            final(self).collected() == match rect {
                Some(r) => if old(self).is_full_damage() {
                    old(self).collected()
                } else {
                    old(self).collected().push(r)
                },
                None => old(self).collected(),
            },
    {
        if let Some(r) = rect {
            self.add_rect(r);
        }
    }

    pub fn build(self) -> (region: DamageRegion<R>)
        ensures
            self.is_full_damage() ==> region is Full,
            !self.is_full_damage() && self.collected().len() == 0 ==> region is Empty,
            !self.is_full_damage() && self.collected().len() > 0 ==> (region matches DamageRegion::Rects(v)
                && v@ == self.collected()),
    {
        if self.full {
            DamageRegion::Full
        } else {
            DamageRegion::from_rects(self.rects)
        }
    }
}

impl<R> Default for DamageTracker<R> {
    /// A tracker that has collected nothing, as `new` gives.
    fn default() -> (tracker: Self)
        ensures
            !tracker.is_full_damage(),
            tracker.collected() == Seq::<R>::empty(),
    {
        DamageTracker::new()
    }
}

} // verus!
