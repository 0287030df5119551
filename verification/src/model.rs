//! The mathematical model of one tracker transition.
//!
//! A tracker keeps two sequences of per-level counters: a *shape*, rebuilt on
//! every pass, and a *target*, kept across passes.  Entering a subcase block
//! at nesting level `depth` grows the target with a zero if the level was
//! never reached before, and bumps the shape's sibling counter at that level
//! (appending a zero on the level's first visit this pass).  After a pass the
//! target is advanced to the next leaf in depth-first order.

use vstd::prelude::*;

verus! {

/// The target path after a block is entered at nesting level `depth`:
/// unchanged when the level was already reached, extended with `0` when the
/// block opens a deeper level than any pass saw before.
pub open spec fn grown(target: Seq<u32>, depth: nat) -> Seq<u32> {
    if target.len() < depth + 1 {
        target.push(0u32)
    } else {
        target
    }
}

/// The shape after a block is entered at nesting level `depth`: a `0` is
/// appended on the level's first visit this pass, and afterwards each sibling
/// bumps the level's counter by one.
pub open spec fn bumped(shape: Seq<u32>, depth: nat) -> Seq<u32> {
    if shape.len() < depth + 1 {
        shape.push(0u32)
    } else {
        shape.update(depth as int, (shape[depth as int] + 1) as u32)
    }
}

/// The target path selecting the next leaf, given the shape the finished pass
/// discovered.  Scanning from the deepest level: a level with unvisited
/// siblings left is bumped and everything deeper is forgotten; an exhausted
/// level is dropped.  An empty result means the traversal is complete.
pub open spec fn advanced(target: Seq<u32>, shape: Seq<u32>) -> Seq<u32>
    decreases target.len(),
{
    if target.len() == 0 {
        target
    } else {
        let i = target.len() - 1;
        if target[i] < shape[i] {
            target.update(i, (target[i] + 1) as u32)
        } else {
            advanced(target.drop_last(), shape)
        }
    }
}

} // verus!
