//! Laws of the traversal, proved over the transition model, with the
//! activation of each block stated pass by pass.
//!
//! A pass of a *flat* routine — `k` sibling subcase blocks at top level,
//! none nested, none guarded — is modelled by [`flat_run`]: each block calls
//! `enter` at depth zero and `exit` straight after, exactly as the trackers'
//! contracts describe, and the driver then advances the target.  The proofs
//! here show that such a routine is driven through exactly `k` passes (one
//! when `k == 0`), that pass `p` runs the body of block `p` and no other,
//! that distinct passes select distinct leaves, and that a finished
//! traversal stays finished however often it is advanced.  The same is then
//! shown for the basic nested shape, a single block holding `m` children:
//! `m` passes, the parent's body on every one of them, each child's body on
//! exactly one.  The law for arbitrary nesting is proved in [`crate::forest`].

use vstd::prelude::*;
use crate::model::{advanced, bumped, grown};

verus! {

/// The target, the shape and the activation flags after the first `k` blocks
/// of a flat pass: block `j` grows the target at depth zero, bumps the shape
/// there, and runs exactly when the two agree at that level.
pub open spec fn flat_run(target: Seq<u32>, shape: Seq<u32>, k: nat) -> (Seq<u32>, Seq<u32>, Seq<
    bool,
>)
    decreases k,
{
    if k == 0 {
        (target, shape, Seq::empty())
    } else {
        let prev = flat_run(target, shape, (k - 1) as nat);
        let t = grown(prev.0, 0);
        let s = bumped(prev.1, 0);
        (t, s, prev.2.push(t[0] == s[0]))
    }
}

/// One driver step of a flat routine: run the `k` blocks of a pass against
/// the target, then advance the target using the shape the pass discovered.
pub open spec fn flat_step(target: Seq<u32>, k: nat) -> Seq<u32> {
    let run = flat_run(target, Seq::empty(), k);
    advanced(run.0, run.1)
}

/// The target of a flat traversal after `p` completed passes, starting from
/// a fresh tracker, whose target is empty.
pub open spec fn flat_target_after(p: nat, k: nat) -> Seq<u32>
    decreases p,
{
    if p == 0 {
        Seq::empty()
    } else {
        flat_step(flat_target_after((p - 1) as nat, k), k)
    }
}

/// Law: once the traversal is done — the target is empty — advancing again
/// is a no-op: the target stays empty, so the tracker reports done again.
pub proof fn lemma_advance_when_done(shape: Seq<u32>)
    ensures
        advanced(Seq::<u32>::empty(), shape) == Seq::<u32>::empty(),
{
}

/// A flat pass whose target already selects sibling `t` leaves the target
/// unchanged, discovers the shape `[k - 1]`, and runs block `t` alone.
pub proof fn lemma_flat_pass(t: u32, k: nat)
    requires
        k <= u32::MAX,
    ensures
        flat_run(seq![t], Seq::<u32>::empty(), k).0 == seq![t],
        flat_run(seq![t], Seq::<u32>::empty(), k).1 == (if k == 0 {
            Seq::<u32>::empty()
        } else {
            seq![(k - 1) as u32]
        }),
        flat_run(seq![t], Seq::<u32>::empty(), k).2.len() == k,
        forall|j: int|
            0 <= j < k ==> ((#[trigger] flat_run(seq![t], Seq::<u32>::empty(), k).2[j]) <==> j
                == t),
    decreases k,
{
    if k > 0 {
        lemma_flat_pass(t, (k - 1) as nat);
        let prev = flat_run(seq![t], Seq::<u32>::empty(), (k - 1) as nat);
        assert(grown(prev.0, 0) == seq![t]);
        assert(bumped(prev.1, 0) =~= seq![(k - 1) as u32]);
    }
}

/// The first pass of a fresh traversal grows the target to `[0]` and runs
/// the first block alone.
pub proof fn lemma_flat_first_pass(k: nat)
    requires
        k <= u32::MAX,
    ensures
        flat_run(Seq::<u32>::empty(), Seq::<u32>::empty(), k).0 == (if k == 0 {
            Seq::<u32>::empty()
        } else {
            seq![0u32]
        }),
        flat_run(Seq::<u32>::empty(), Seq::<u32>::empty(), k).1 == (if k == 0 {
            Seq::<u32>::empty()
        } else {
            seq![(k - 1) as u32]
        }),
        flat_run(Seq::<u32>::empty(), Seq::<u32>::empty(), k).2.len() == k,
        forall|j: int|
            0 <= j < k ==> ((#[trigger] flat_run(Seq::<u32>::empty(), Seq::<u32>::empty(), k).2[j])
                <==> j == 0),
    decreases k,
{
    if k > 0 {
        lemma_flat_first_pass((k - 1) as nat);
        let prev = flat_run(Seq::<u32>::empty(), Seq::<u32>::empty(), (k - 1) as nat);
        if k == 1 {
            assert(grown(prev.0, 0) =~= seq![0u32]);
            assert(bumped(prev.1, 0) =~= seq![0u32]);
        } else {
            assert(grown(prev.0, 0) == seq![0u32]);
            assert(bumped(prev.1, 0) =~= seq![(k - 1) as u32]);
        }
    }
}

/// Advancing from target `[t]` after a pass that found `k` siblings selects
/// the next sibling, or empties the target when block `t` was the last.
pub proof fn lemma_flat_advance(t: u32, k: u32)
    requires
        t < k,
    ensures
        advanced(seq![t], seq![(k - 1) as u32]) == (if t + 1 < k {
            seq![(t + 1) as u32]
        } else {
            Seq::<u32>::empty()
        }),
{
    if t + 1 < k {
        assert(advanced(seq![t], seq![(k - 1) as u32]) =~= seq![(t + 1) as u32]);
    } else {
        assert(seq![t].drop_last() =~= Seq::<u32>::empty());
        assert(advanced(Seq::<u32>::empty(), seq![(k - 1) as u32]) == Seq::<u32>::empty());
    }
}

/// Law, targets of a flat traversal: from a fresh tracker, pass `p` of a
/// flat routine with `k` blocks begins with target `[p]` (empty for the
/// first pass, which discovers `[0]`); so the passes visit the `k` sibling
/// blocks in order, each selected exactly once.
pub proof fn lemma_flat_traversal_targets(k: u32, p: u32)
    requires
        0 < p,
        p < k,
    ensures
        flat_target_after(p as nat, k as nat) == seq![p],
    decreases p,
{
    assert(flat_target_after(p as nat, k as nat) == flat_step(
        flat_target_after((p - 1) as nat, k as nat),
        k as nat,
    ));
    if p == 1 {
        assert(flat_target_after(0, k as nat) == Seq::<u32>::empty());
        lemma_flat_first_pass(k as nat);
        lemma_flat_advance(0, k);
        assert(seq![(0 + 1) as u32] =~= seq![1u32]);
    } else {
        lemma_flat_traversal_targets(k, (p - 1) as u32);
        lemma_flat_pass((p - 1) as u32, k as nat);
        lemma_flat_advance((p - 1) as u32, k);
        assert(seq![((p - 1) + 1) as u32] =~= seq![p]);
    }
}

/// Law, completion of a flat traversal: after pass `k` the target is empty,
/// so the traversal took exactly `k` passes.
pub proof fn lemma_flat_traversal_done(k: u32)
    requires
        0 < k,
    ensures
        flat_target_after(k as nat, k as nat) == Seq::<u32>::empty(),
{
    assert(flat_target_after(k as nat, k as nat) == flat_step(
        flat_target_after((k - 1) as nat, k as nat),
        k as nat,
    ));
    if k == 1 {
        assert(flat_target_after(0, 1) == Seq::<u32>::empty());
        lemma_flat_first_pass(1);
        lemma_flat_advance(0, 1);
    } else {
        lemma_flat_traversal_targets(k, (k - 1) as u32);
        lemma_flat_pass((k - 1) as u32, k as nat);
        lemma_flat_advance((k - 1) as u32, k);
    }
}

/// Law, routine without subcases: the first advance finds the target still
/// empty, so the routine runs exactly once.
pub proof fn lemma_flat_zero_blocks()
    ensures
        flat_target_after(1, 0) == Seq::<u32>::empty(),
{
    assert(flat_target_after(1, 0) == flat_step(flat_target_after(0, 0), 0));
    assert(flat_run(Seq::<u32>::empty(), Seq::<u32>::empty(), 0).0 == Seq::<u32>::empty());
    assert(advanced(Seq::<u32>::empty(), Seq::<u32>::empty()) == Seq::<u32>::empty());
}

/// Law, one block active per pass: on pass `p` of a flat traversal with `k`
/// blocks, the body of block `p` runs and every other block is skipped.
pub proof fn lemma_flat_one_hot(k: u32, p: u32)
    requires
        p < k,
    ensures
        forall|j: int|
            0 <= j < k ==> ((#[trigger] flat_run(
                flat_target_after(p as nat, k as nat),
                Seq::<u32>::empty(),
                k as nat,
            ).2[j]) <==> j == p),
{
    if p == 0 {
        lemma_flat_first_pass(k as nat);
    } else {
        lemma_flat_traversal_targets(k, p);
        lemma_flat_pass(p, k as nat);
    }
}

/// The children's enters and exits at depth one: the first `m` child blocks
/// of an active parent, each bracketed by `enter` and `exit`.
pub open spec fn children_run(target: Seq<u32>, shape: Seq<u32>, m: nat) -> (Seq<u32>, Seq<u32>, Seq<bool>)
    decreases m,
{
    if m == 0 {
        (target, shape, Seq::empty())
    } else {
        let prev = children_run(target, shape, (m - 1) as nat);
        let t = grown(prev.0, 1);
        let s = bumped(prev.1, 1);
        (t, s, prev.2.push(t[1] == s[1]))
    }
}

/// One pass of a routine whose single top-level block holds `m` sibling
/// child blocks: the parent enters at depth zero and, when its body runs,
/// the children enter at depth one.  Returns the target, the shape, whether
/// the parent's body ran, and the children's activation flags.
pub open spec fn parent_run(target: Seq<u32>, m: nat) -> (Seq<u32>, Seq<u32>, bool, Seq<bool>) {
    let t0 = grown(target, 0);
    let s0 = bumped(Seq::empty(), 0);
    if t0[0] == s0[0] {
        let inner = children_run(t0, s0, m);
        (inner.0, inner.1, true, inner.2)
    } else {
        (t0, s0, false, Seq::empty())
    }
}

/// One driver step of that routine: a pass, then the advance of the target.
pub open spec fn parent_step(target: Seq<u32>, m: nat) -> Seq<u32> {
    let run = parent_run(target, m);
    advanced(run.0, run.1)
}

/// The target of that routine's traversal after `p` completed passes.
pub open spec fn parent_target_after(p: nat, m: nat) -> Seq<u32>
    decreases p,
{
    if p == 0 {
        Seq::empty()
    } else {
        parent_step(parent_target_after((p - 1) as nat, m), m)
    }
}

/// The target selecting child `i` of the single parent block.
pub open spec fn child_target(i: u32) -> Seq<u32> {
    seq![0u32, i]
}

/// A pass whose target selects child `i` runs the parent's body, leaves the
/// target unchanged, discovers the shape `[0, m - 1]`, and runs child `i`
/// alone.
pub proof fn lemma_parent_pass(i: u32, m: nat)
    requires
        0 < m,
        m <= u32::MAX,
    ensures
        parent_run(child_target(i), m).0 == child_target(i),
        parent_run(child_target(i), m).1 == seq![0u32, (m - 1) as u32],
        parent_run(child_target(i), m).2 == true,
        parent_run(child_target(i), m).3.len() == m,
        forall|j: int|
            0 <= j < m ==> ((#[trigger] parent_run(child_target(i), m).3[j]) <==> j == i),
{
    assert(grown(child_target(i), 0) == child_target(i));
    assert(bumped(Seq::<u32>::empty(), 0) =~= seq![0u32]);
    lemma_children_run(i, seq![0u32], m);
}

/// The inner induction for [`lemma_parent_pass`]: the children's enters at
/// depth one bump the shape there and activate child `i` alone.
proof fn lemma_children_run(i: u32, shape: Seq<u32>, m: nat)
    requires
        m <= u32::MAX,
        shape == seq![0u32],
    ensures
        children_run(child_target(i), shape, m).0 == child_target(i),
        children_run(child_target(i), shape, m).1 == (if m == 0 {
            shape
        } else {
            seq![0u32, (m - 1) as u32]
        }),
        children_run(child_target(i), shape, m).2.len() == m,
        forall|j: int|
            0 <= j < m ==> ((#[trigger] children_run(child_target(i), shape, m).2[j]) <==> j == i),
    decreases m,
{
    if m > 0 {
        lemma_children_run(i, shape, (m - 1) as nat);
        let prev = children_run(child_target(i), shape, (m - 1) as nat);
        assert(grown(prev.0, 1) == child_target(i));
        if m == 1 {
            assert(bumped(prev.1, 1) =~= seq![0u32, (m - 1) as u32]);
        } else {
            assert(bumped(prev.1, 1) =~= seq![0u32, (m - 1) as u32]);
        }
    }
}

/// The first pass of that routine grows the target to `[0, 0]`, runs the
/// parent's body, and runs the first child alone.
pub proof fn lemma_parent_first_pass(m: nat)
    requires
        0 < m,
        m <= u32::MAX,
    ensures
        parent_run(Seq::<u32>::empty(), m).0 == seq![0u32, 0u32],
        parent_run(Seq::<u32>::empty(), m).1 == seq![0u32, (m - 1) as u32],
        parent_run(Seq::<u32>::empty(), m).2 == true,
        parent_run(Seq::<u32>::empty(), m).3.len() == m,
        forall|j: int|
            0 <= j < m ==> ((#[trigger] parent_run(Seq::<u32>::empty(), m).3[j]) <==> j == 0),
{
    assert(grown(Seq::<u32>::empty(), 0) =~= seq![0u32]);
    assert(bumped(Seq::<u32>::empty(), 0) =~= seq![0u32]);
    lemma_children_first_run(seq![0u32], seq![0u32], m);
}

/// The inner induction for [`lemma_parent_first_pass`]: on the first pass
/// the first child's enter deepens the target with a zero.
proof fn lemma_children_first_run(target: Seq<u32>, shape: Seq<u32>, m: nat)
    requires
        m <= u32::MAX,
        target == seq![0u32],
        shape == seq![0u32],
    ensures
        children_run(target, shape, m).0 == (if m == 0 {
            target
        } else {
            seq![0u32, 0u32]
        }),
        children_run(target, shape, m).1 == (if m == 0 {
            shape
        } else {
            seq![0u32, (m - 1) as u32]
        }),
        children_run(target, shape, m).2.len() == m,
        forall|j: int|
            0 <= j < m ==> ((#[trigger] children_run(target, shape, m).2[j]) <==> j == 0),
    decreases m,
{
    if m > 0 {
        lemma_children_first_run(target, shape, (m - 1) as nat);
        let prev = children_run(target, shape, (m - 1) as nat);
        if m == 1 {
            assert(grown(prev.0, 1) =~= seq![0u32, 0u32]);
            assert(bumped(prev.1, 1) =~= seq![0u32, 0u32]);
        } else {
            assert(grown(prev.0, 1) == seq![0u32, 0u32]);
            assert(bumped(prev.1, 1) =~= seq![0u32, (m - 1) as u32]);
        }
    }
}

/// Advancing from target `[0, i]` after a pass that found `m` children
/// selects the next child, or empties the target after the last child.
pub proof fn lemma_parent_advance(i: u32, m: u32)
    requires
        i < m,
    ensures
        advanced(child_target(i), seq![0u32, (m - 1) as u32]) == (if i + 1 < m {
            seq![0u32, (i + 1) as u32]
        } else {
            Seq::<u32>::empty()
        }),
{
    if i + 1 < m {
        assert(advanced(child_target(i), seq![0u32, (m - 1) as u32]) =~= seq![
            0u32,
            (i + 1) as u32,
        ]);
    } else {
        assert(child_target(i).drop_last() =~= seq![0u32]);
        assert(seq![0u32].drop_last() =~= Seq::<u32>::empty());
        assert(advanced(Seq::<u32>::empty(), seq![0u32, (m - 1) as u32]) == Seq::<u32>::empty());
        assert(advanced(seq![0u32], seq![0u32, (m - 1) as u32]) == Seq::<u32>::empty());
    }
}

/// Law, nested traversal of one parent with `m` children: pass `p` begins
/// with target `[0, p]` (empty for the first pass, which discovers
/// `[0, 0]`), so the passes visit the `m` child leaves in order.
pub proof fn lemma_parent_traversal_targets(m: u32, p: u32)
    requires
        0 < p,
        p < m,
    ensures
        parent_target_after(p as nat, m as nat) == seq![0u32, p],
    decreases p,
{
    assert(parent_target_after(p as nat, m as nat) == parent_step(
        parent_target_after((p - 1) as nat, m as nat),
        m as nat,
    ));
    if p == 1 {
        assert(parent_target_after(0, m as nat) == Seq::<u32>::empty());
        lemma_parent_first_pass(m as nat);
        lemma_parent_advance(0, m);
        assert(seq![0u32, (0 + 1) as u32] =~= seq![0u32, 1u32]);
    } else {
        lemma_parent_traversal_targets(m, (p - 1) as u32);
        lemma_parent_pass((p - 1) as u32, m as nat);
        lemma_parent_advance((p - 1) as u32, m);
        assert(seq![0u32, ((p - 1) + 1) as u32] =~= seq![0u32, p]);
    }
}

/// Law, number of passes for nested subcases: a routine whose single block
/// holds `m` unconditional children has `m` leaves and is driven through
/// exactly `m` passes — the target is empty after pass `m` and not before.
/// The parent's body runs on every one of those passes, once per child
/// leaf, and each child's body runs on exactly one pass.
pub proof fn lemma_parent_traversal_done(m: u32)
    requires
        0 < m,
    ensures
        parent_target_after(m as nat, m as nat) == Seq::<u32>::empty(),
        forall|p: u32|
            p < m ==> (#[trigger] parent_run(
                parent_target_after(p as nat, m as nat),
                m as nat,
            ).2) == true,
{
    assert(parent_target_after(m as nat, m as nat) == parent_step(
        parent_target_after((m - 1) as nat, m as nat),
        m as nat,
    ));
    if m == 1 {
        assert(parent_target_after(0, 1) == Seq::<u32>::empty());
        lemma_parent_first_pass(1);
        lemma_parent_advance(0, 1);
    } else {
        lemma_parent_traversal_targets(m, (m - 1) as u32);
        lemma_parent_pass((m - 1) as u32, m as nat);
        lemma_parent_advance((m - 1) as u32, m);
    }
    assert forall|p: u32| p < m implies (#[trigger] parent_run(
        parent_target_after(p as nat, m as nat),
        m as nat,
    ).2) == true by {
        if p == 0 {
            lemma_parent_first_pass(m as nat);
        } else {
            lemma_parent_traversal_targets(m, p);
            lemma_parent_pass(p, m as nat);
        }
    }
}

/// Law, round trip of a flat traversal: distinct passes carry distinct
/// targets, so with distinct labels the `k` passes produce `k` distinct
/// leaf label paths — none twice, none skipped.
pub proof fn lemma_flat_round_trip(k: u32, p: u32, q: u32)
    requires
        p < k,
        q < k,
        p != q,
    ensures
        flat_target_after(p as nat, k as nat) != flat_target_after(q as nat, k as nat),
{
    if p == 0 || q == 0 {
        assert(flat_target_after(0, k as nat) == Seq::<u32>::empty());
    }
    if 0 < p {
        lemma_flat_traversal_targets(k, p);
        assert(flat_target_after(p as nat, k as nat)[0] == p);
        assert(flat_target_after(p as nat, k as nat).len() == 1);
    }
    if 0 < q {
        lemma_flat_traversal_targets(k, q);
        assert(flat_target_after(q as nat, k as nat)[0] == q);
        assert(flat_target_after(q as nat, k as nat).len() == 1);
    }
}

/// Law, round trip of the nested traversal: distinct passes of the parent's
/// traversal carry distinct targets, so its `m` child leaves are each
/// selected exactly once.
pub proof fn lemma_parent_round_trip(m: u32, p: u32, q: u32)
    requires
        p < m,
        q < m,
        p != q,
    ensures
        parent_target_after(p as nat, m as nat) != parent_target_after(q as nat, m as nat),
{
    if p == 0 || q == 0 {
        assert(parent_target_after(0, m as nat) == Seq::<u32>::empty());
    }
    if 0 < p {
        lemma_parent_traversal_targets(m, p);
        assert(parent_target_after(p as nat, m as nat)[1] == p);
        assert(parent_target_after(p as nat, m as nat).len() == 2);
    }
    if 0 < q {
        lemma_parent_traversal_targets(m, q);
        assert(parent_target_after(q as nat, m as nat)[1] == q);
        assert(parent_target_after(q as nat, m as nat).len() == 2);
    }
}

} // verus!
