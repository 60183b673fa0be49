use vstd::prelude::*;

verus! {

/// Why a node (or a whole tree) needs work before the next frame.
#[derive(Debug, Clone, Copy, PartialEq, Eq, Structural)]
pub enum DirtyReason {
    Structure,
    Layout,
    Paint,
    Text,
    Order,
}

/// The kinds of pending work a node carries.
#[derive(Debug, Default, Clone, Copy, PartialEq, Eq, Structural)]
pub struct DirtyFlags {
    pub structure: bool,
    pub layout: bool,
    pub paint: bool,
    pub text: bool,
}

impl DirtyFlags {
    /// The flags with every kind of work cleared.
    pub open spec fn spec_clean() -> DirtyFlags {
        DirtyFlags { structure: false, layout: false, paint: false, text: false }
    }

    /// The flags after recording `reason`.
    pub open spec fn marked(self, reason: DirtyReason) -> DirtyFlags {
        match reason {
            DirtyReason::Structure => DirtyFlags {
                structure: true,
                layout: true,
                paint: true,
                text: self.text,
            },
            DirtyReason::Layout | DirtyReason::Order => DirtyFlags {
                structure: self.structure,
                layout: true,
                paint: true,
                text: self.text,
            },
            DirtyReason::Paint => DirtyFlags {
                structure: self.structure,
                layout: self.layout,
                paint: true,
                text: self.text,
            },
            DirtyReason::Text => DirtyFlags {
                structure: self.structure,
                layout: true,
                paint: true,
                text: true,
            },
        }
    }

    pub open spec fn spec_requires_layout(self) -> bool {
        self.structure || self.layout || self.text
    }

    pub open spec fn spec_requires_paint_only(self) -> bool {
        self.paint && !self.spec_requires_layout()
    }

    pub open spec fn spec_is_clean(self) -> bool {
        !self.structure && !self.layout && !self.paint && !self.text
    }

    pub fn clean() -> (flags: DirtyFlags)
        ensures
            flags == DirtyFlags::spec_clean(),
    {
        DirtyFlags { structure: false, layout: false, paint: false, text: false }
    }

    pub fn mark(&mut self, reason: DirtyReason)
        ensures
            *final(self) == old(self).marked(reason),
            final(self).structure == (old(self).structure || reason == DirtyReason::Structure),
            final(self).layout == (old(self).layout || reason != DirtyReason::Paint),
            final(self).paint,
            final(self).text == (old(self).text || reason == DirtyReason::Text),
    {
        match reason {
            DirtyReason::Structure | DirtyReason::Layout | DirtyReason::Order => {
                self.structure = self.structure || matches!(reason, DirtyReason::Structure);
                self.layout = true;
                self.paint = true;
            },
            DirtyReason::Paint => {
                self.paint = true;
            },
            DirtyReason::Text => {
                self.text = true;
                self.layout = true;
                self.paint = true;
            },
        }
    }

    pub fn requires_layout(self) -> (b: bool)
        ensures
            b == self.spec_requires_layout(),
            b == (self.structure || self.layout || self.text),
    {
        self.structure || self.layout || self.text
    }

    pub fn requires_paint_only(self) -> (b: bool)
        ensures
            b == self.spec_requires_paint_only(),
            b == (self.paint && !self.structure && !self.layout && !self.text),
    {
        self.paint && !self.requires_layout()
    }

    pub fn is_clean(self) -> (b: bool)
        ensures
            b == self.spec_is_clean(),
    {
        !self.structure && !self.layout && !self.paint && !self.text
    }

    pub fn requires_structure_rebuild(self) -> (b: bool)
        ensures
            b == self.structure,
    {
        self.structure
    }
}

/// Marking the same reason twice has the effect of marking it once.
pub proof fn lemma_mark_idempotent(flags: DirtyFlags, reason: DirtyReason)
    ensures
        flags.marked(reason).marked(reason) == flags.marked(reason),
{
}

/// The order in which two reasons are recorded does not matter.
pub proof fn lemma_mark_commutes(flags: DirtyFlags, first: DirtyReason, second: DirtyReason)
    ensures
        flags.marked(first).marked(second) == flags.marked(second).marked(first),
{
}

/// Marking never clears pending work, and always leaves the flags unclean,
/// with paint work pending.
pub proof fn lemma_mark_monotone(flags: DirtyFlags, reason: DirtyReason)
    ensures
        flags.structure ==> flags.marked(reason).structure,
        flags.layout ==> flags.marked(reason).layout,
        flags.paint ==> flags.marked(reason).paint,
        flags.text ==> flags.marked(reason).text,
        !flags.marked(reason).spec_is_clean(),
        flags.marked(reason).paint,
{
}

/// Every reason but paint forces a layout pass; a structural change also asks
/// for a rebuild; a paint mark on clean flags asks for paint work alone.
pub proof fn lemma_mark_classifies_work(flags: DirtyFlags, reason: DirtyReason)
    ensures
        reason != DirtyReason::Paint ==> flags.marked(reason).spec_requires_layout(),
        reason == DirtyReason::Structure ==> flags.marked(reason).structure,
        flags.spec_is_clean() && reason == DirtyReason::Paint
            ==> flags.marked(reason).spec_requires_paint_only(),
{
}

/// What a mark records, flag by flag: only a structural change sets the
/// structure flag; every reason but paint sets the layout flag; every reason
/// sets the paint flag; only a text change sets the text flag; nothing is
/// ever cleared.
pub proof fn lemma_mark_sets_exactly(flags: DirtyFlags, reason: DirtyReason)
    ensures
        flags.marked(reason).structure == (flags.structure || reason == DirtyReason::Structure),
        reason != DirtyReason::Structure ==> flags.marked(reason).structure == flags.structure,
        flags.marked(reason).layout == (flags.layout || reason != DirtyReason::Paint),
        flags.marked(reason).paint,
        flags.marked(reason).text == (flags.text || reason == DirtyReason::Text),
        reason == DirtyReason::Text ==> flags.marked(reason).structure || flags.marked(reason).layout
            || flags.marked(reason).text,
{
}

/// Paint-only work and layout work exclude each other, and clean flags ask for neither.
pub proof fn lemma_work_classes_disjoint(flags: DirtyFlags)
    ensures
        !(flags.spec_requires_paint_only() && flags.spec_requires_layout()),
        flags.spec_is_clean() ==> !flags.spec_requires_layout() && !flags.spec_requires_paint_only(),
{
}

} // verus!
