//! The path tracker with growable paths and failure labels.
//!
//! Besides the shape and target counters, this tracker records the label of
//! the block chosen at each level, so that a failing pass can be reported as
//! a readable chain of subcase names.

use vstd::prelude::*;
use crate::model;
use crate::render;

verus! {

/// How many nesting levels the paths reserve room for up front.
const PRE_RESERVE_TREEPATH: usize = 8;

type TreePath = Vec<u32>;

type TreePathLabels = Vec<&'static str>;

/// The traversal state: the nesting depth of the pass in progress, the shape
/// of siblings discovered this pass, the target path kept across passes, and
/// the labels of the blocks chosen at each level.
pub struct State {
    depth: usize,
    path: TreePath,
    exec_path: TreePath,
    subcase_labels: TreePathLabels,
}

impl State {
    /// The nesting depth of the block currently open.
    pub closed spec fn depth(&self) -> nat {
        self.depth as nat
    }

    /// The sibling counters discovered so far this pass, one per level.
    pub closed spec fn shape(&self) -> Seq<u32> {
        self.path@
    }

    /// The sibling index selected for execution at each level.
    pub closed spec fn target(&self) -> Seq<u32> {
        self.exec_path@
    }

    /// The label recorded for the block chosen at each level.
    pub closed spec fn labels(&self) -> Seq<&'static str> {
        self.subcase_labels@
    }

    /// A fresh tracker: depth zero, every path empty.
    pub fn new() -> (r: Self)
        ensures
            r.depth() == 0,
            r.shape() == Seq::<u32>::empty(),
            r.target() == Seq::<u32>::empty(),
            r.labels() == Seq::<&'static str>::empty(),
    {
        State {
            depth: 0,
            path: Vec::with_capacity(PRE_RESERVE_TREEPATH),
            exec_path: Vec::with_capacity(PRE_RESERVE_TREEPATH),
            subcase_labels: Vec::with_capacity(PRE_RESERVE_TREEPATH),
        }
    }

    /// Records one more sibling block at the current level and answers
    /// whether the block's body should run on this pass: it should exactly
    /// when the target and the shape agree at the block's own level.  (The
    /// shallower levels agree already, because the body of a skipped block
    /// never runs, so its nested blocks are never entered.)
    pub fn enter_subcase(&mut self) -> (r: bool)
        requires
            old(self).depth() < usize::MAX,
            old(self).target().len() >= old(self).depth(),
            old(self).shape().len() >= old(self).depth(),
            old(self).shape().len() > old(self).depth()
                ==> old(self).shape()[old(self).depth() as int] < u32::MAX,
        ensures
            final(self).depth() == old(self).depth() + 1,
            final(self).target() == model::grown(old(self).target(), old(self).depth()),
            final(self).shape() == model::bumped(old(self).shape(), old(self).depth()),
            final(self).labels() == old(self).labels(),
            r == (final(self).target()[old(self).depth() as int]
                == final(self).shape()[old(self).depth() as int]),
    {
        self.depth = self.depth + 1;
        if self.exec_path.len() < self.depth {
            self.exec_path.push(0u32);
        }

        if self.path.len() < self.depth {
            self.path.push(0u32);
        } else {
            let i: usize = self.depth - 1;
            let v: u32 = self.path[i];
            self.path[i] = v + 1;
        }
        self.exec_path[self.depth - 1] == self.path[self.depth - 1]
    }

    /// Records `label` for the block open at the current level, overwriting
    /// a stale entry left by an earlier pass.
    pub fn set_label(&mut self, label: &'static str)
        requires
            old(self).depth() > 0,
        ensures
            final(self).depth() == old(self).depth(),
            final(self).target() == old(self).target(),
            final(self).shape() == old(self).shape(),
            final(self).labels() == (if old(self).labels().len() < old(self).depth() {
                old(self).labels().push(label)
            } else {
                old(self).labels().update(old(self).depth() - 1, label)
            }),
    {
        if self.subcase_labels.len() < self.depth {
            self.subcase_labels.push(label);
        } else {
            let i: usize = self.depth - 1;
            self.subcase_labels[i] = label;
        }
    }

    /// Closes the block opened by the matching [`Self::enter_subcase`]; must
    /// be called whether or not the block's body ran.
    pub fn exit_subcase(&mut self)
        requires
            old(self).depth() > 0,
        ensures
            final(self).depth() == old(self).depth() - 1,
            final(self).target() == old(self).target(),
            final(self).shape() == old(self).shape(),
            final(self).labels() == old(self).labels(),
    {
        self.depth = self.depth - 1;
    }

    /// Whether the bookkeeping of the finished pass lets the target be
    /// advanced: the shape must cover every level of the target.
    pub fn can_advance(&self) -> (r: bool)
        ensures
            r == (self.shape().len() >= self.target().len()),
    {
        self.path.len() >= self.exec_path.len()
    }

    /// Advances the target to the next unvisited leaf, clears the per-pass
    /// state, and answers whether another pass is needed.
    pub fn prepare_for_next_run(&mut self) -> (r: bool)
        requires
            old(self).shape().len() >= old(self).target().len(),
        ensures
            final(self).depth() == old(self).depth(),
            final(self).target() == model::advanced(old(self).target(), old(self).shape()),
            final(self).shape() == Seq::<u32>::empty(),
            final(self).labels() == Seq::<&'static str>::empty(),
            r == (final(self).target().len() > 0),
    {
        let mut ret = false;
        loop
            invariant_except_break
                ret == false,
                self.depth == old(self).depth,
                self.shape() == old(self).shape(),
                self.labels() == old(self).labels(),
                self.shape().len() >= self.target().len(),
                model::advanced(old(self).target(), old(self).shape())
                    == model::advanced(self.target(), self.shape()),
            ensures
                self.depth == old(self).depth,
                self.shape() == old(self).shape(),
                self.labels() == old(self).labels(),
                self.target() == model::advanced(old(self).target(), old(self).shape()),
                ret == (self.target().len() > 0),
            decreases self.target().len(),
        {
            if self.exec_path.is_empty() {
                break;
            }
            let i: usize = self.exec_path.len() - 1;
            if self.exec_path[i] < self.path[i] {
                let v: u32 = self.exec_path[i];
                self.exec_path[i] = v + 1;
                ret = true;
                break;
            } else {
                self.exec_path.pop();
            }
        }
        self.path.clear();
        self.subcase_labels.clear();
        ret
    }

    /// Renders the chain of labelled subcases the tracker was inside, for the
    /// report of a failed pass.
    pub fn report_exec_path(self) -> (r: String)
        ensures
            r@ == render::rendered_path(self.labels(), self.target()),
    {
        render::rendered_report(&self.subcase_labels, &self.exec_path)
    }
}

} // verus!
