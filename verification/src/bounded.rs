//! The path tracker with a fixed nesting bound.
//!
//! Both per-level counter stacks live in fixed-capacity storage, so a routine
//! may nest subcase blocks at most [`MAX_SUBCASE_NESTING`] levels deep.

use vstd::prelude::*;
use crate::fixed_vec::FixedVec;
use crate::model;

verus! {

/// The deepest nesting of subcase blocks the tracker accepts.
pub const MAX_SUBCASE_NESTING: usize = 16;

/// A path of per-level counters, one slot per nesting level.
pub type TreePath = FixedVec<MAX_SUBCASE_NESTING>;

/// The traversal state: the nesting depth of the pass in progress, the shape
/// of siblings discovered this pass, and the target path kept across passes.
pub struct State {
    depth: usize,
    path: TreePath,
    exec_path: TreePath,
}

impl State {
    /// The nesting depth of the block currently open.
    pub closed spec fn depth(&self) -> nat {
        self.depth as nat
    }

    /// The sibling counters discovered so far this pass, one per level.
    pub closed spec fn shape(&self) -> Seq<u32> {
        self.path.entries()
    }

    /// The sibling index selected for execution at each level.
    pub closed spec fn target(&self) -> Seq<u32> {
        self.exec_path.entries()
    }

    /// Both counter stacks keep their storage invariant.
    pub closed spec fn wf(&self) -> bool {
        self.path.wf() && self.exec_path.wf()
    }

    /// Records one more sibling block at the current level and answers
    /// whether the block's body should run on this pass: it should exactly
    /// when the target and the shape agree on every level down to the block.
    pub fn enter_subcase(&mut self) -> (r: bool)
        requires
            old(self).wf(),
            old(self).depth() < MAX_SUBCASE_NESTING,
            old(self).target().len() >= old(self).depth(),
            old(self).shape().len() >= old(self).depth(),
            old(self).shape().len() > old(self).depth()
                ==> old(self).shape()[old(self).depth() as int] < u32::MAX,
        ensures
            final(self).wf(),
            final(self).depth() == old(self).depth() + 1,
            final(self).target() == model::grown(old(self).target(), old(self).depth()),
            final(self).shape() == model::bumped(old(self).shape(), old(self).depth()),
            r == (final(self).target().take(final(self).depth() as int)
                == final(self).shape().take(final(self).depth() as int)),
    {
        if self.exec_path.len() <= self.depth {
            self.exec_path.push();
        }
        if self.path.len() <= self.depth {
            self.path.push();
        } else {
            self.path.increment_at(self.depth);
        }
        self.depth = self.depth + 1;

        self.exec_path.coincides_till(&self.path, self.depth)
    }

    /// Closes the block opened by the matching [`Self::enter_subcase`]; must
    /// be called whether or not the block's body ran.
    pub fn exit_subcase(&mut self)
        requires
            old(self).depth() > 0,
        ensures
            final(self).wf() == old(self).wf(),
            final(self).depth() == old(self).depth() - 1,
            final(self).target() == old(self).target(),
            final(self).shape() == old(self).shape(),
    {
        self.depth = self.depth - 1;
    }

    /// Advances the target to the next unvisited leaf and clears the shape
    /// for the pass to come.
    pub fn update_exec_path(&mut self)
        requires
            old(self).wf(),
            old(self).shape().len() >= old(self).target().len(),
        ensures
            final(self).wf(),
            final(self).depth() == old(self).depth(),
            final(self).target() == model::advanced(old(self).target(), old(self).shape()),
            final(self).shape() == Seq::<u32>::empty(),
    {
        loop
            invariant_except_break
                self.wf(),
                self.depth == old(self).depth,
                self.shape() == old(self).shape(),
                self.shape().len() >= self.target().len(),
                model::advanced(old(self).target(), old(self).shape())
                    == model::advanced(self.target(), self.shape()),
            ensures
                self.wf(),
                self.depth == old(self).depth,
                self.shape() == old(self).shape(),
                self.target() == model::advanced(old(self).target(), old(self).shape()),
            decreases self.target().len(),
        {
            if self.exec_path.is_empty() {
                break;
            }
            let i: usize = self.exec_path.len() - 1;
            if self.exec_path.get(i) < self.path.get(i) {
                self.exec_path.increment_at(i);
                break;
            } else {
                self.exec_path.pop();
            }
        }
        self.path.clear();
    }

    /// Whether every leaf combination has executed.
    pub fn is_done(&mut self) -> (r: bool)
        requires
            old(self).wf(),
        ensures
            *final(self) == *old(self),
            r == (final(self).target().len() == 0),
    {
        self.exec_path.is_empty()
    }
}

impl Default for State {
    /// A fresh tracker: depth zero, both paths empty.
    fn default() -> (r: Self)
        ensures
            r.wf(),
            r.depth() == 0,
            r.shape() == Seq::<u32>::empty(),
            r.target() == Seq::<u32>::empty(),
    {
        State { depth: 0, path: FixedVec::default(), exec_path: FixedVec::default() }
    }
}

} // verus!
