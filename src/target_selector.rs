use vstd::prelude::*;

verus! {

/// Choice of a target among the attackable tiles of the unit on `pos`,
/// which came from `origin`.
#[derive(Debug)]
pub struct TargetSelector {
    pos: (u32, u32),
    origin: (u32, u32),
    selected: usize,
    targets: Vec<(u32, u32)>,
}

impl TargetSelector {
    pub closed spec fn spec_targets(&self) -> Seq<(u32, u32)> {
        self.targets@
    }

    pub closed spec fn spec_selected(&self) -> int {
        self.selected as int
    }

    pub closed spec fn spec_pos(&self) -> (u32, u32) {
        self.pos
    }

    pub closed spec fn spec_origin(&self) -> (u32, u32) {
        self.origin
    }

    /// The choice points at one of the targets.
    pub open spec fn wf(&self) -> bool {
        0 <= self.spec_selected() < self.spec_targets().len()
    }

    /// A selector over `targets`, starting at the first.
    pub fn new(pos: (u32, u32), origin: (u32, u32), targets: Vec<(u32, u32)>) -> (r: TargetSelector)
        requires
            targets@.len() > 0,
        ensures
            r.wf(),
            r.spec_targets() == targets@,
            r.spec_selected() == 0,
            r.spec_pos() == pos,
            r.spec_origin() == origin,
    {
        TargetSelector { pos, origin, selected: 0, targets }
    }

    /// The target chosen now.
    pub fn selected(&self) -> (r: (u32, u32))
        requires
            self.wf(),
        ensures
            r == self.spec_targets()[self.spec_selected()],
    {
        self.targets[self.selected]
    }

    /// Chooses the next target, wrapping round to the first.
    pub fn select_next(&mut self)
        requires
            old(self).wf(),
        ensures
            final(self).wf(),
            final(self).spec_targets() == old(self).spec_targets(),
            final(self).spec_selected() == (old(self).spec_selected() + 1) % (old(
                self,
            ).spec_targets().len() as int),
    {
        assert(self.selected < self.targets.len());
        self.selected = (self.selected + 1) % self.targets.len();
    }

    /// Chooses the previous target, wrapping round to the last.
    pub fn select_previous(&mut self)
        requires
            old(self).wf(),
        ensures
            final(self).wf(),
            final(self).spec_targets() == old(self).spec_targets(),
            final(self).spec_selected() == if old(self).spec_selected() == 0 {
                old(self).spec_targets().len() - 1
            } else {
                old(self).spec_selected() - 1
            },
    {
        self.selected = if self.selected == 0 {
            self.targets.len() - 1
        } else {
            self.selected - 1
        };
    }

    /// Chooses the target on `pos`, if `pos` is one; tells whether it was.
    pub fn select_at(&mut self, pos: (u32, u32)) -> (r: bool)
        requires
            old(self).wf(),
        ensures
            final(self).wf(),
            final(self).spec_targets() == old(self).spec_targets(),
            r == old(self).spec_targets().contains(pos),
            r ==> final(self).spec_targets()[final(self).spec_selected()] == pos,
            !r ==> final(self).spec_selected() == old(self).spec_selected(),
    {
        let mut found = false;
        let mut i: usize = 0;
        while i < self.targets.len()
            invariant
                self.wf(),
                self.targets@ == old(self).targets@,
                i <= self.targets.len(),
                found == exists|j: int| 0 <= j < i && self.targets@[j] == pos,
                found ==> self.targets@[self.selected as int] == pos,
                !found ==> self.selected == old(self).selected,
            decreases self.targets.len() - i,
        {
            let t = self.targets[i];
            if t.0 == pos.0 && t.1 == pos.1 {
                self.selected = i;
                found = true;
            }
            i = i + 1;
        }
        found
    }
}

} // verus!
