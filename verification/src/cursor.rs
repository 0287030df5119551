//! The path tracker whose target path is owned by the caller.
//!
//! The per-pass state lives in [`SubcasesState`]; the target path selecting
//! the leaf to execute is a plain vector that the caller keeps across passes
//! and hands to every call.

use vstd::prelude::*;

verus! {

/// A path of per-level sibling indices.
pub type TreePath = Vec<usize>;

/// The target path after a block is entered at nesting level `depth`:
/// unchanged when the level was already reached, extended with `0` when the
/// block opens a deeper level than any pass saw before.
pub open spec fn grown(target: Seq<usize>, depth: nat) -> Seq<usize> {
    if target.len() < depth + 1 {
        target.push(0usize)
    } else {
        target
    }
}

/// The shape after a block is entered at nesting level `depth`: a `0` is
/// appended on the level's first visit this pass, and afterwards each sibling
/// bumps the level's counter by one.
pub open spec fn bumped(shape: Seq<usize>, depth: nat) -> Seq<usize> {
    if shape.len() < depth + 1 {
        shape.push(0usize)
    } else {
        shape.update(depth as int, (shape[depth as int] + 1) as usize)
    }
}

/// The target path selecting the next leaf, given the shape the finished
/// pass discovered; empty when the traversal is complete.
pub open spec fn advanced(target: Seq<usize>, shape: Seq<usize>) -> Seq<usize>
    decreases target.len(),
{
    if target.len() == 0 {
        target
    } else {
        let i = target.len() - 1;
        if target[i] < shape[i] {
            target.update(i, (target[i] + 1) as usize)
        } else {
            advanced(target.drop_last(), shape)
        }
    }
}

/// The per-pass traversal state: the nesting depth of the pass in progress
/// and the shape of siblings discovered so far.
pub struct SubcasesState {
    depth: usize,
    path: TreePath,
}

impl SubcasesState {
    /// The nesting depth of the block currently open.
    pub closed spec fn depth(&self) -> nat {
        self.depth as nat
    }

    /// The sibling counters discovered so far this pass, one per level.
    pub closed spec fn shape(&self) -> Seq<usize> {
        self.path@
    }

    /// Records one more sibling block at the current level and answers
    /// whether the block's body should run on this pass: it should exactly
    /// when the target and the shape agree on every level down to the block.
    pub fn enter_subcase(&mut self, exec_path: &mut TreePath) -> (r: bool)
        requires
            old(self).depth() < usize::MAX,
            old(exec_path)@.len() >= old(self).depth(),
            old(self).shape().len() >= old(self).depth(),
            old(self).shape().len() > old(self).depth()
                ==> old(self).shape()[old(self).depth() as int] < usize::MAX,
        ensures
            final(self).depth() == old(self).depth() + 1,
            final(exec_path)@ == grown(old(exec_path)@, old(self).depth()),
            final(self).shape() == bumped(old(self).shape(), old(self).depth()),
            r == (final(exec_path)@.take(final(self).depth() as int)
                == final(self).shape().take(final(self).depth() as int)),
    {
        if exec_path.len() <= self.depth {
            exec_path.push(0usize);
        }
        if self.path.len() <= self.depth {
            self.path.push(0usize);
        } else {
            let i: usize = self.depth;
            let v: usize = self.path[i];
            self.path[i] = v + 1;
        }
        self.depth = self.depth + 1;

        equal_prefix(exec_path, &self.path, self.depth)
    }

    /// Closes the block opened by the matching [`Self::enter_subcase`]; must
    /// be called whether or not the block's body ran.
    pub fn exit_subcase(&mut self)
        requires
            old(self).depth() > 0,
        ensures
            final(self).depth() == old(self).depth() - 1,
            final(self).shape() == old(self).shape(),
    {
        self.depth = self.depth - 1;
    }

    /// Advances the caller's target path to the next unvisited leaf; the
    /// target empties when every leaf combination has executed.
    pub fn update_exec_path(&mut self, exec_path: &mut TreePath)
        requires
            old(self).shape().len() >= old(exec_path)@.len(),
        ensures
            *final(self) == *old(self),
            final(exec_path)@ == advanced(old(exec_path)@, old(self).shape()),
    {
        loop
            invariant_except_break
                *self == *old(self),
                self.shape().len() >= exec_path@.len(),
                advanced(old(exec_path)@, old(self).shape())
                    == advanced(exec_path@, self.shape()),
            ensures
                *self == *old(self),
                exec_path@ == advanced(old(exec_path)@, old(self).shape()),
            decreases exec_path@.len(),
        {
            if exec_path.is_empty() {
                break;
            }
            let i: usize = exec_path.len() - 1;
            if exec_path[i] < self.path[i] {
                let v: usize = exec_path[i];
                exec_path[i] = v + 1;
                return;
            } else {
                exec_path.pop();
            }
        }
    }

    /// Resets the per-pass state for the pass to come.
    pub fn clear(&mut self)
        ensures
            final(self).depth() == 0,
            final(self).shape() == Seq::<usize>::empty(),
    {
        self.depth = 0;
        self.path.clear();
    }
}

impl Default for SubcasesState {
    /// A fresh per-pass state: depth zero, empty shape.
    fn default() -> (r: Self)
        ensures
            r.depth() == 0,
            r.shape() == Seq::<usize>::empty(),
    {
        SubcasesState { depth: 0, path: Vec::new() }
    }
}

/// Whether the first `n` entries of both paths agree.
fn equal_prefix(a: &Vec<usize>, b: &Vec<usize>, n: usize) -> (r: bool)
    requires
        n <= a@.len(),
        n <= b@.len(),
    ensures
        r == (a@.take(n as int) == b@.take(n as int)),
{
    let mut i: usize = 0;
    while i < n
        invariant
            i <= n,
            n <= a@.len(),
            n <= b@.len(),
            forall|j: int| 0 <= j < i ==> a@[j] == b@[j],
        decreases n - i,
    {
        if a[i] != b[i] {
            proof {
                assert(a@.take(n as int)[i as int] != b@.take(n as int)[i as int]);
            }
            return false;
        }
        i = i + 1;
    }
    proof {
        assert(a@.take(n as int) =~= b@.take(n as int));
    }
    true
}

} // verus!
