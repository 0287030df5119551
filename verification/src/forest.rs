//! The traversal law for arbitrary nesting: one pass per leaf.
//!
//! A routine's unconditional subcase blocks form a forest: each block holds
//! the forest of its children.  A pass is modelled block by block with the
//! same transition functions the trackers' contracts use, and the law proved
//! at the bottom says that a traversal from a fresh tracker takes exactly as
//! many passes as the forest has leaves.

use vstd::prelude::*;
use crate::model::{advanced, bumped, grown};

verus! {

/// One subcase block: its nested blocks, in order.
pub struct Block {
    pub children: Seq<Block>,
}

/// Every sibling list in the subtree fits the counters' width.
pub open spec fn block_bounded(b: Block) -> bool
    decreases b,
{
    &&& b.children.len() <= u32::MAX
    &&& forall|j: int| 0 <= j < b.children.len() ==> block_bounded(#[trigger] b.children[j])
}

/// Every sibling list in the forest fits the counters' width.
pub open spec fn forest_bounded(f: Seq<Block>) -> bool {
    &&& f.len() <= u32::MAX
    &&& forall|j: int| 0 <= j < f.len() ==> block_bounded(#[trigger] f[j])
}

/// How many leaves the blocks of `f` from index `i` on carry.
pub open spec fn forest_leaves(f: Seq<Block>, i: nat) -> nat
    decreases f, f.len() - i,
{
    if i >= f.len() {
        0
    } else {
        block_leaves(f[i as int]) + forest_leaves(f, i + 1)
    }
}

/// How many leaves the subtree of one block carries: itself when it has no
/// children, its children's leaves otherwise.
pub open spec fn block_leaves(b: Block) -> nat
    decreases b, 0nat,
{
    if b.children.len() == 0 {
        1
    } else {
        forest_leaves(b.children, 0)
    }
}

/// The path of leaf number `n` among the blocks of `f` from index `i` on:
/// the sibling index of the block it lies under, then the path within that
/// block's children.
pub open spec fn nth_path(f: Seq<Block>, i: nat, n: nat) -> Seq<u32>
    recommends
        n < forest_leaves(f, i),
    decreases f, f.len() - i, 1nat,
{
    if i >= f.len() {
        Seq::empty()
    } else if n < block_leaves(f[i as int]) {
        seq![i as u32] + block_nth(f[i as int], n)
    } else {
        nth_path(f, i + 1, (n - block_leaves(f[i as int])) as nat)
    }
}

/// The path of leaf number `n` within one block: empty when the block is
/// itself the leaf.
pub open spec fn block_nth(b: Block, n: nat) -> Seq<u32>
    recommends
        n < block_leaves(b),
    decreases b, 0nat, 0nat,
{
    if b.children.len() == 0 {
        Seq::empty()
    } else {
        nth_path(b.children, 0, n)
    }
}

/// The shape a pass discovers along `path`: at each level, the number of
/// siblings there minus one — the whole forest at the top, the children of
/// the active block below.
pub open spec fn forest_path_shape(f: Seq<Block>, path: Seq<u32>) -> Seq<u32>
    recommends
        path.len() >= 1,
        path[0] < f.len(),
    decreases f, 0nat,
{
    if path.len() == 0 || f.len() == 0 || path[0] >= f.len() {
        Seq::empty()
    } else {
        seq![(f.len() - 1) as u32] + block_path_shape(f[path[0] as int], path.drop_first())
    }
}

/// The shape below one block: empty at a leaf.
pub open spec fn block_path_shape(b: Block, path: Seq<u32>) -> Seq<u32>
    decreases b, 1nat,
{
    if b.children.len() == 0 {
        Seq::empty()
    } else {
        forest_path_shape(b.children, path)
    }
}

/// The path with its trailing zeros removed: the target a fresh traversal
/// holds before the pass that first discovers those deepest levels.
pub open spec fn trimmed(t: Seq<u32>) -> Seq<u32>
    decreases t.len(),
{
    if t.len() == 0 {
        t
    } else if t.last() == 0 {
        trimmed(t.drop_last())
    } else {
        t
    }
}

/// One pass over the blocks of `f` from index `i` on, at nesting depth `d`:
/// each block grows the target and bumps the shape at its level, and the
/// block whose level agrees runs its children.
pub open spec fn forest_pass(t: Seq<u32>, s: Seq<u32>, d: nat, f: Seq<Block>, i: nat) -> (Seq<
    u32,
>, Seq<u32>)
    decreases f, f.len() - i, 1nat,
{
    if i >= f.len() {
        (t, s)
    } else {
        let b = block_pass(t, s, d, f[i as int]);
        forest_pass(b.0, b.1, d, f, i + 1)
    }
}

/// One block's enter, body and exit within a pass.
pub open spec fn block_pass(t: Seq<u32>, s: Seq<u32>, d: nat, b: Block) -> (Seq<u32>, Seq<u32>)
    decreases b, 0nat, 0nat,
{
    let t1 = grown(t, d);
    let s1 = bumped(s, d);
    if t1[d as int] == s1[d as int] {
        forest_pass(t1, s1, d + 1, b.children, 0)
    } else {
        (t1, s1)
    }
}

/// One driver step: a full pass from the routine's top level, then the
/// advance of the target.
pub open spec fn forest_step(t: Seq<u32>, f: Seq<Block>) -> Seq<u32> {
    let r = forest_pass(t, Seq::empty(), 0, f, 0);
    advanced(r.0, r.1)
}

/// The target after `p` completed passes of a traversal of `f`, starting
/// from a fresh tracker.
pub open spec fn forest_target_after(p: nat, f: Seq<Block>) -> Seq<u32>
    decreases p,
{
    if p == 0 {
        Seq::empty()
    } else {
        forest_step(forest_target_after((p - 1) as nat, f), f)
    }
}

/// Trimming shortens a path, keeps it a prefix, removes only zeros, and
/// never ends on a zero.
proof fn lemma_trimmed_prefix(t: Seq<u32>)
    ensures
        trimmed(t).len() <= t.len(),
        trimmed(t) == t.take(trimmed(t).len() as int),
        forall|l: int| trimmed(t).len() <= l < t.len() ==> t[l] == 0u32,
        trimmed(t).len() > 0 ==> trimmed(t).last() != 0u32,
    decreases t.len(),
{
    if t.len() > 0 && t.last() == 0 {
        lemma_trimmed_prefix(t.drop_last());
        assert(t.drop_last() =~= t.take(t.len() - 1));
        assert(trimmed(t) == trimmed(t.drop_last()));
        assert(trimmed(t) =~= t.take(trimmed(t).len() as int));
        assert forall|l: int| trimmed(t).len() <= l < t.len() implies t[l] == 0u32 by {
            if l < t.len() - 1 {
                assert(t.drop_last()[l] == t[l]);
            } else {
                assert(t[l] == t.last());
            }
        }
    } else if t.len() > 0 {
        assert(trimmed(t) == t);
        assert(trimmed(t) =~= t.take(t.len() as int));
    } else {
        assert(trimmed(t) =~= t.take(0));
    }
}

/// Trimming a concatenation trims within the tail while anything of it is
/// left, and continues into the head only when the tail is all zeros.
proof fn lemma_trimmed_append(x: Seq<u32>, sub: Seq<u32>)
    ensures
        trimmed(x + sub) == (if trimmed(sub).len() > 0 {
            x + trimmed(sub)
        } else {
            trimmed(x)
        }),
    decreases sub.len(),
{
    if sub.len() == 0 {
        assert(x + sub =~= x);
    } else if sub.last() == 0 {
        assert((x + sub).last() == sub.last());
        assert((x + sub).drop_last() =~= x + sub.drop_last());
        lemma_trimmed_append(x, sub.drop_last());
        assert(trimmed(sub) == trimmed(sub.drop_last()));
    } else {
        assert(trimmed(sub) == sub);
        assert((x + sub).last() != 0);
        assert(trimmed(x + sub) == x + sub);
    }
}

/// The advance reads the shape only at the target's levels.
proof fn lemma_advanced_shape_ext(t: Seq<u32>, s1: Seq<u32>, s2: Seq<u32>)
    requires
        forall|l: int| 0 <= l < t.len() ==> s1[l] == s2[l],
    ensures
        advanced(t, s1) == advanced(t, s2),
    decreases t.len(),
{
    if t.len() > 0 {
        let i = t.len() - 1;
        if !(t[i] < s1[i]) {
            lemma_advanced_shape_ext(t.drop_last(), s1, s2);
        }
    }
}

/// Advancing a target split at a level boundary works within the deeper
/// part while it has an unvisited sibling left, and falls back to the
/// shallower part once the deeper part is exhausted.
proof fn lemma_advanced_append(pt: Seq<u32>, ps: Seq<u32>, q: Seq<u32>, qs: Seq<u32>)
    requires
        pt.len() == ps.len(),
        q.len() <= qs.len(),
    ensures
        advanced(pt + q, ps + qs) == (if advanced(q, qs).len() > 0 {
            pt + advanced(q, qs)
        } else {
            advanced(pt, ps)
        }),
    decreases q.len(),
{
    if q.len() == 0 {
        assert(pt + q =~= pt);
        assert(forall|l: int| 0 <= l < pt.len() ==> (ps + qs)[l] == ps[l]);
        lemma_advanced_shape_ext(pt, ps + qs, ps);
    } else {
        let i = pt.len() + q.len() - 1;
        let li = q.len() - 1;
        assert((pt + q)[i] == q[li]);
        assert((ps + qs)[i] == qs[li]);
        if q[li] < qs[li] {
            assert((pt + q).update(i, (q[li] + 1) as u32) =~= pt + q.update(
                li,
                (q[li] + 1) as u32,
            ));
        } else {
            assert((pt + q).drop_last() =~= pt + q.drop_last());
            lemma_advanced_append(pt, ps, q.drop_last(), qs);
            assert(advanced(q, qs) == advanced(q.drop_last(), qs));
        }
    }
}

/// Every block carries at least one leaf.
proof fn lemma_block_leaves_pos(b: Block)
    ensures
        block_leaves(b) >= 1,
    decreases b,
{
    if b.children.len() > 0 {
        lemma_block_leaves_pos(b.children[0]);
        assert(forest_leaves(b.children, 0) == block_leaves(b.children[0]) + forest_leaves(
            b.children,
            1,
        ));
    }
}

/// A forest with a block left carries at least one leaf.
proof fn lemma_forest_leaves_pos(f: Seq<Block>, i: nat)
    requires
        i < f.len(),
    ensures
        forest_leaves(f, i) >= 1,
{
    lemma_block_leaves_pos(f[i as int]);
}

/// A block's first leaf lies along its leftmost chain, so its path within
/// the block is all zeros.
proof fn lemma_block_first_zeros(b: Block)
    ensures
        trimmed(block_nth(b, 0)) == Seq::<u32>::empty(),
    decreases b,
{
    if b.children.len() > 0 {
        lemma_block_leaves_pos(b.children[0]);
        assert(nth_path(b.children, 0, 0) == seq![0u32] + block_nth(b.children[0], 0));
        lemma_block_first_zeros(b.children[0]);
        lemma_trimmed_append(seq![0u32], block_nth(b.children[0], 0));
        assert(trimmed(seq![0u32]) == trimmed(seq![0u32].drop_last()));
        assert(seq![0u32].drop_last() =~= Seq::<u32>::empty());
    }
}

/// The first leaf under block `i` of a forest has the target `[i]` once
/// trimmed: everything below the block is zeros.
proof fn lemma_forest_first_trimmed(f: Seq<Block>, i: nat)
    requires
        i < f.len(),
        i <= u32::MAX,
    ensures
        trimmed(nth_path(f, i, 0)) == trimmed(seq![i as u32]),
{
    lemma_block_leaves_pos(f[i as int]);
    assert(nth_path(f, i, 0) == seq![i as u32] + block_nth(f[i as int], 0));
    lemma_block_first_zeros(f[i as int]);
    lemma_trimmed_append(seq![i as u32], block_nth(f[i as int], 0));
}

/// Every leaf but the first has a nonempty trimmed path: only the leftmost
/// chain is all zeros.
proof fn lemma_nonfirst_trimmed_nonempty(f: Seq<Block>, i: nat, n: nat)
    requires
        forest_bounded(f),
        i < f.len(),
        1 <= i || 1 <= n,
        n < forest_leaves(f, i),
    ensures
        trimmed(nth_path(f, i, n)).len() > 0,
    decreases f, f.len() - i, 1nat,
{
    if n < block_leaves(f[i as int]) {
        let sub = block_nth(f[i as int], n);
        assert(nth_path(f, i, n) == seq![i as u32] + sub);
        lemma_trimmed_append(seq![i as u32], sub);
        if trimmed(sub).len() == 0 {
            // the deeper part is all zeros, so the block index remains
            if i >= 1 {
                assert(trimmed(seq![i as u32]) == seq![i as u32]);
            } else {
                // i == 0 and n >= 1: the n-th leaf within the block is not
                // its first, so some deeper level is nonzero
                let b = f[i as int];
                assert(b.children.len() > 0) by {
                    if b.children.len() == 0 {
                        assert(block_leaves(b) == 1);
                    }
                }
                assert(block_bounded(b));
                assert(forest_bounded(b.children));
                lemma_nonfirst_trimmed_nonempty(b.children, 0, n);
                assert(sub == nth_path(b.children, 0, n));
            }
        }
    } else {
        lemma_block_leaves_pos(f[i as int]);
        if i + 1 >= f.len() {
            assert(forest_leaves(f, i + 1) == 0);
        }
        lemma_nonfirst_trimmed_nonempty(f, i + 1, (n - block_leaves(f[i as int])) as nat);
    }
}

/// The leaf's path starts with the index of the block it lies under, at or
/// after the scan position.
proof fn lemma_nth_path_head(f: Seq<Block>, i: nat, n: nat)
    requires
        f.len() <= u32::MAX,
        i < f.len(),
        n < forest_leaves(f, i),
    ensures
        nth_path(f, i, n).len() >= 1,
        i <= nth_path(f, i, n)[0] < f.len(),
    decreases f.len() - i,
{
    if n < block_leaves(f[i as int]) {
        assert(nth_path(f, i, n)[0] == i as u32);
    } else {
        if i + 1 >= f.len() {
            assert(forest_leaves(f, i + 1) == 0);
        }
        lemma_nth_path_head(f, i + 1, (n - block_leaves(f[i as int])) as nat);
    }
}

/// A pass discovers one shape counter per level of the leaf's path.
proof fn lemma_path_shape_len(f: Seq<Block>, i: nat, n: nat)
    requires
        forest_bounded(f),
        i < f.len(),
        n < forest_leaves(f, i),
    ensures
        forest_path_shape(f, nth_path(f, i, n)).len() == nth_path(f, i, n).len(),
    decreases f, f.len() - i,
{
    lemma_nth_path_head(f, i, n);
    let b = f[i as int];
    if n < block_leaves(b) {
        let path = nth_path(f, i, n);
        let sub = block_nth(b, n);
        assert(path.drop_first() =~= sub);
        if b.children.len() > 0 {
            assert(block_bounded(b));
            lemma_path_shape_len(b.children, 0, n);
        }
    } else {
        if i + 1 >= f.len() {
            assert(forest_leaves(f, i + 1) == 0);
        }
        lemma_path_shape_len(f, i + 1, (n - block_leaves(b)) as nat);
    }
}

/// The blocks after the active one only bump the pass's sibling counter at
/// their own level: the target selects an earlier sibling, so none of them
/// runs.
proof fn lemma_pass_suffix(f: Seq<Block>, t: Seq<u32>, s: Seq<u32>, d: nat, i: nat)
    requires
        f.len() <= u32::MAX,
        1 <= i <= f.len(),
        d < t.len(),
        t[d as int] < i,
        d < s.len(),
        s[d as int] == (i - 1) as u32,
    ensures
        forest_pass(t, s, d, f, i) == (t, s.update(d as int, (f.len() - 1) as u32)),
    decreases f.len() - i,
{
    if i >= f.len() {
        assert(s.update(d as int, (f.len() - 1) as u32) =~= s);
    } else {
        let s1 = s.update(d as int, i as u32);
        assert(grown(t, d) == t);
        assert(bumped(s, d) == s1);
        assert(block_pass(t, s, d, f[i as int]) == (t, s1));
        lemma_pass_suffix(f, t, s1, d, i + 1);
        assert(s1.update(d as int, (f.len() - 1) as u32) =~= s.update(
            d as int,
            (f.len() - 1) as u32,
        ));
    }
}

/// The pass of one leaf: starting at block `i` with the trimmed path of
/// leaf `n` appended to the levels above, the blocks before the leaf's
/// block only bump the counter at this level, the leaf's block re-extends
/// the target to the full path and discovers the counters below, and the
/// blocks after it bump the counter up to the sibling total.
proof fn lemma_pass_main(f: Seq<Block>, d: nat, pt: Seq<u32>, s: Seq<u32>, i: nat, n: nat)
    requires
        forest_bounded(f),
        i < f.len(),
        n < forest_leaves(f, i),
        pt.len() == d,
        i == 0 ==> s.len() == d,
        i >= 1 ==> s.len() == d + 1 && s[d as int] == (i - 1) as u32,
    ensures
        forest_pass(pt + trimmed(nth_path(f, i, n)), s, d, f, i) == (
            pt + nth_path(f, i, n),
            (if i == 0 {
                s
            } else {
                s.drop_last()
            }) + forest_path_shape(f, nth_path(f, i, n)),
        ),
    decreases f, f.len() - i,
{
    let b = f[i as int];
    let path = nth_path(f, i, n);
    let t = pt + trimmed(path);
    let s0 = if i == 0 {
        s
    } else {
        s.drop_last()
    };
    let s1 = if i == 0 {
        s.push(0u32)
    } else {
        s.update(d as int, i as u32)
    };
    lemma_nth_path_head(f, i, n);
    lemma_trimmed_prefix(path);
    assert(s1 =~= s0 + seq![i as u32]);
    assert(bumped(s, d) == s1);

    if n < block_leaves(b) {
        let sub = block_nth(b, n);
        assert(path == seq![i as u32] + sub);
        lemma_trimmed_append(seq![i as u32], sub);

        let t1 = (pt + seq![i as u32]) + trimmed(sub);
        if trimmed(sub).len() > 0 {
            assert(trimmed(path) == seq![i as u32] + trimmed(sub));
            assert(t =~= t1);
            assert(t.len() >= d + 2);
            assert(grown(t, d) == t);
        } else {
            assert(trimmed(path) == trimmed(seq![i as u32]));
            if i == 0 {
                assert(seq![0u32].last() == 0u32);
                assert(trimmed(seq![0u32]) == trimmed(seq![0u32].drop_last()));
                assert(seq![0u32].drop_last() =~= Seq::<u32>::empty());
                assert(trimmed(seq![0u32]).len() == 0);
                assert(t =~= pt);
                assert(t.len() == d);
                assert(grown(t, d) == t.push(0u32));
                assert(t.push(0u32) =~= t1);
            } else {
                assert(trimmed(seq![i as u32]) == seq![i as u32]);
                assert(t =~= t1);
                assert(t.len() == d + 1);
                assert(grown(t, d) == t);
            }
        }
        assert(grown(t, d) == t1);
        assert(t1[d as int] == i as u32);
        assert(s1[d as int] == i as u32);

        let t2 = pt + path;
        let s2 = s1 + block_path_shape(b, sub);
        if b.children.len() == 0 {
            assert(block_leaves(b) == 1);
            assert(n == 0);
            assert(sub =~= Seq::<u32>::empty());
            assert(forest_pass(t1, s1, d + 1, b.children, 0) == (t1, s1));
            assert(t1 =~= t2);
            assert(block_path_shape(b, sub) =~= Seq::<u32>::empty());
            assert(s1 =~= s2);
            assert(block_pass(t, s, d, b) == (t2, s2));
        } else {
            assert(block_bounded(b));
            assert(sub == nth_path(b.children, 0, n));
            assert(n < forest_leaves(b.children, 0));
            lemma_pass_main(b.children, d + 1, pt + seq![i as u32], s1, 0, n);
            assert(forest_pass(t1, s1, d + 1, b.children, 0) == (
                (pt + seq![i as u32]) + sub,
                s1 + forest_path_shape(b.children, sub),
            ));
            assert((pt + seq![i as u32]) + sub =~= t2);
            assert(block_path_shape(b, sub) == forest_path_shape(b.children, sub));
            assert(block_pass(t, s, d, b) == (t2, s2));
        }

        assert(t2[d as int] == i as u32);
        assert(s2[d as int] == i as u32);
        lemma_pass_suffix(f, t2, s2, d, i + 1);
        assert(forest_pass(t2, s2, d, f, i + 1) == (
            t2,
            s2.update(d as int, (f.len() - 1) as u32),
        ));

        assert(path.drop_first() =~= sub);
        assert(forest_path_shape(f, path) == seq![(f.len() - 1) as u32] + block_path_shape(
            b,
            sub,
        ));
        assert(s2.update(d as int, (f.len() - 1) as u32) =~= s0 + forest_path_shape(f, path));
        assert(forest_pass(t, s, d, f, i) == forest_pass(t2, s2, d, f, i + 1));
    } else {
        let np = (n - block_leaves(b)) as nat;
        assert(path == nth_path(f, i + 1, np));
        if i + 1 >= f.len() {
            assert(forest_leaves(f, i + 1) == 0);
        }
        lemma_nth_path_head(f, i + 1, np);
        assert(trimmed(path).len() > 0) by {
            if trimmed(path).len() == 0 {
                assert(path[0] == 0u32);
            }
        }
        assert(t.len() > d);
        assert(t[d as int] == trimmed(path)[0]);
        assert(trimmed(path)[0] == path[0]);
        assert(grown(t, d) == t);
        assert(t[d as int] != s1[d as int]);
        assert(block_pass(t, s, d, b) == (t, s1));
        lemma_pass_main(f, d, pt, s1, i + 1, np);
        assert(s1.drop_last() =~= s0);
        assert(forest_pass(t, s, d, f, i) == forest_pass(t, s1, d, f, i + 1));
    }
}

/// Advancing from the path of leaf `n`, with the shape its pass
/// discovered, yields the trimmed path of leaf `n + 1`, or the empty
/// target when leaf `n` was the last.
proof fn lemma_forest_advance(f: Seq<Block>, i: nat, n: nat)
    requires
        forest_bounded(f),
        i < f.len(),
        n < forest_leaves(f, i),
    ensures
        advanced(nth_path(f, i, n), forest_path_shape(f, nth_path(f, i, n))) == (if n + 1
            < forest_leaves(f, i) {
            trimmed(nth_path(f, i, n + 1))
        } else {
            Seq::<u32>::empty()
        }),
    decreases f, f.len() - i,
{
    let b = f[i as int];
    let path = nth_path(f, i, n);
    let shape = forest_path_shape(f, path);
    let k = f.len();
    lemma_nth_path_head(f, i, n);
    if i + 1 >= f.len() {
        assert(forest_leaves(f, i + 1) == 0);
    } else {
        lemma_forest_leaves_pos(f, i + 1);
    }
    if n < block_leaves(b) {
        let sub = block_nth(b, n);
        assert(path == seq![i as u32] + sub);
        assert(path.drop_first() =~= sub);
        assert(shape == seq![(k - 1) as u32] + block_path_shape(b, sub));
        if b.children.len() == 0 {
            assert(block_leaves(b) == 1);
            assert(n == 0);
            assert(sub =~= Seq::<u32>::empty());
            assert(block_path_shape(b, sub) =~= Seq::<u32>::empty());
            assert(path =~= seq![i as u32]);
            assert(shape =~= seq![(k - 1) as u32]);
            lemma_advance_one(i, k);
            if i + 1 < f.len() {
                lemma_forest_first_trimmed(f, i + 1);
                assert(trimmed(seq![(i + 1) as u32]) == seq![(i + 1) as u32]);
                assert(nth_path(f, i, n + 1) == nth_path(f, i + 1, 0));
                assert(n + 1 < forest_leaves(f, i));
            } else {
                assert(n + 1 == forest_leaves(f, i));
            }
        } else {
            assert(block_bounded(b));
            assert(sub == nth_path(b.children, 0, n));
            lemma_path_shape_len(b.children, 0, n);
            lemma_advanced_append(
                seq![i as u32],
                seq![(k - 1) as u32],
                sub,
                forest_path_shape(b.children, sub),
            );
            assert(block_path_shape(b, sub) == forest_path_shape(b.children, sub));
            lemma_forest_advance(b.children, 0, n);
            if n + 1 < block_leaves(b) {
                // the next leaf lies under the same block
                let subnext = block_nth(b, n + 1);
                assert(subnext == nth_path(b.children, 0, n + 1));
                lemma_nonfirst_trimmed_nonempty(b.children, 0, n + 1);
                assert(advanced(sub, forest_path_shape(b.children, sub)) == trimmed(subnext));
                assert(advanced(path, shape) == seq![i as u32] + trimmed(subnext));
                assert(nth_path(f, i, n + 1) == seq![i as u32] + subnext);
                lemma_trimmed_append(seq![i as u32], subnext);
                assert(n + 1 < forest_leaves(f, i));
            } else {
                // the block is exhausted: fall back to the sibling level
                assert(advanced(sub, forest_path_shape(b.children, sub))
                    == Seq::<u32>::empty());
                assert(advanced(path, shape) == advanced(seq![i as u32], seq![(k - 1) as u32]));
                lemma_advance_one(i, k);
                assert(n + 1 == block_leaves(b));
                if i + 1 < f.len() {
                    lemma_forest_first_trimmed(f, i + 1);
                    assert(trimmed(seq![(i + 1) as u32]) == seq![(i + 1) as u32]);
                    assert(nth_path(f, i, n + 1) == nth_path(f, i + 1, 0));
                    assert(n + 1 < forest_leaves(f, i));
                } else {
                    assert(n + 1 == forest_leaves(f, i));
                }
            }
        }
    } else {
        let np = (n - block_leaves(b)) as nat;
        assert(path == nth_path(f, i + 1, np));
        lemma_forest_advance(f, i + 1, np);
        assert(nth_path(f, i, n + 1) == nth_path(f, i + 1, np + 1));
    }
}

/// Advancing from a path that ends at sibling `i` of `k` moves to sibling
/// `i + 1`, or empties the target when `i` was the last sibling; the next
/// leaf then is the first under sibling `i + 1`, whose trimmed path is just
/// `[i + 1]`.
proof fn lemma_advance_one(i: nat, k: nat)
    requires
        i < k,
        k <= u32::MAX,
    ensures
        advanced(seq![i as u32], seq![(k - 1) as u32]) == (if i + 1 < k {
            seq![(i + 1) as u32]
        } else {
            Seq::<u32>::empty()
        }),
{
    if i + 1 < k {
        assert(advanced(seq![i as u32], seq![(k - 1) as u32]) =~= seq![(i + 1) as u32]);
    } else {
        assert(seq![i as u32].drop_last() =~= Seq::<u32>::empty());
        assert(advanced(Seq::<u32>::empty(), seq![(k - 1) as u32]) == Seq::<u32>::empty());
    }
}

/// Law, targets of a traversal with arbitrary nesting: from a fresh
/// tracker, pass `p` of a routine whose unconditional subcase blocks form
/// the forest `f` begins with the trimmed path of leaf `p`, so the passes
/// visit the leaves in depth-first order, each selected exactly once.
pub proof fn lemma_forest_traversal_targets(f: Seq<Block>, p: nat)
    requires
        forest_bounded(f),
        f.len() >= 1,
        p < forest_leaves(f, 0),
    ensures
        forest_target_after(p, f) == trimmed(nth_path(f, 0, p)),
    decreases p,
{
    if p == 0 {
        lemma_forest_first_trimmed(f, 0);
        assert(seq![0u32].last() == 0u32);
        assert(trimmed(seq![0u32]) == trimmed(seq![0u32].drop_last()));
        assert(seq![0u32].drop_last() =~= Seq::<u32>::empty());
        assert(forest_target_after(0, f) == Seq::<u32>::empty());
    } else {
        lemma_forest_traversal_targets(f, (p - 1) as nat);
        assert(forest_target_after(p, f) == forest_step(
            forest_target_after((p - 1) as nat, f),
            f,
        ));
        let prev = nth_path(f, 0, (p - 1) as nat);
        lemma_pass_main(f, 0, Seq::empty(), Seq::empty(), 0, (p - 1) as nat);
        assert(Seq::<u32>::empty() + trimmed(prev) =~= trimmed(prev));
        assert(Seq::<u32>::empty() + prev =~= prev);
        assert(Seq::<u32>::empty() + forest_path_shape(f, prev) =~= forest_path_shape(f, prev));
        assert(forest_pass(trimmed(prev), Seq::empty(), 0, f, 0) == (
            prev,
            forest_path_shape(f, prev),
        ));
        lemma_forest_advance(f, 0, (p - 1) as nat);
    }
}

/// Law, passes equal leaves: the traversal of the forest `f` is complete —
/// its target empty — after exactly `forest_leaves(f, 0)` passes, and on
/// no earlier pass; a routine without subcase blocks runs exactly once,
/// its first advance finding the target still empty.
pub proof fn lemma_forest_traversal_done(f: Seq<Block>)
    requires
        forest_bounded(f),
    ensures
        f.len() >= 1 ==> forest_target_after(forest_leaves(f, 0), f) == Seq::<u32>::empty(),
        forall|p: nat|
            1 <= p < forest_leaves(f, 0) ==> (#[trigger] forest_target_after(p, f)).len() > 0,
        f.len() == 0 ==> forest_target_after(1, f) == Seq::<u32>::empty(),
{
    if f.len() == 0 {
        assert(forest_target_after(1, f) == forest_step(forest_target_after(0, f), f));
        assert(forest_pass(Seq::<u32>::empty(), Seq::<u32>::empty(), 0, f, 0) == (
            Seq::<u32>::empty(),
            Seq::<u32>::empty(),
        ));
        assert(advanced(Seq::<u32>::empty(), Seq::<u32>::empty()) == Seq::<u32>::empty());
    } else {
        let l = forest_leaves(f, 0);
        lemma_forest_leaves_pos(f, 0);
        lemma_forest_traversal_targets(f, (l - 1) as nat);
        assert(forest_target_after(l, f) == forest_step(
            forest_target_after((l - 1) as nat, f),
            f,
        ));
        let prev = nth_path(f, 0, (l - 1) as nat);
        lemma_pass_main(f, 0, Seq::empty(), Seq::empty(), 0, (l - 1) as nat);
        assert(Seq::<u32>::empty() + trimmed(prev) =~= trimmed(prev));
        assert(Seq::<u32>::empty() + prev =~= prev);
        assert(Seq::<u32>::empty() + forest_path_shape(f, prev) =~= forest_path_shape(f, prev));
        assert(forest_pass(trimmed(prev), Seq::empty(), 0, f, 0) == (
            prev,
            forest_path_shape(f, prev),
        ));
        lemma_forest_advance(f, 0, (l - 1) as nat);
        assert forall|p: nat| 1 <= p < l implies (#[trigger] forest_target_after(p, f)).len()
            > 0 by {
            lemma_forest_traversal_targets(f, p);
            lemma_nonfirst_trimmed_nonempty(f, 0, p);
        }
    }
}

/// Law, one leaf per pass: pass `p` of the traversal re-extends its target
/// to the full path of leaf `p` and discovers the sibling counters along
/// it — the pass runs that leaf's chain of blocks and no other.
pub proof fn lemma_forest_pass_visits(f: Seq<Block>, p: nat)
    requires
        forest_bounded(f),
        f.len() >= 1,
        p < forest_leaves(f, 0),
    ensures
        forest_pass(forest_target_after(p, f), Seq::empty(), 0, f, 0) == (
            nth_path(f, 0, p),
            forest_path_shape(f, nth_path(f, 0, p)),
        ),
{
    lemma_forest_traversal_targets(f, p);
    let path = nth_path(f, 0, p);
    lemma_pass_main(f, 0, Seq::empty(), Seq::empty(), 0, p);
    assert(Seq::<u32>::empty() + trimmed(path) =~= trimmed(path));
    assert(Seq::<u32>::empty() + path =~= path);
    assert(Seq::<u32>::empty() + forest_path_shape(f, path) =~= forest_path_shape(f, path));
}

/// Law, round trip with arbitrary nesting: distinct leaves have distinct
/// paths, so with distinct labels the traversal produces every leaf's
/// label path exactly once — none twice, none skipped.
pub proof fn lemma_nth_path_injective(f: Seq<Block>, i: nat, n: nat, m: nat)
    requires
        forest_bounded(f),
        i < f.len(),
        n < forest_leaves(f, i),
        m < forest_leaves(f, i),
        n != m,
    ensures
        nth_path(f, i, n) != nth_path(f, i, m),
    decreases f, f.len() - i,
{
    let b = f[i as int];
    let bl = block_leaves(b);
    if n < bl && m < bl {
        assert(b.children.len() > 0) by {
            if b.children.len() == 0 {
                assert(bl == 1);
            }
        }
        assert(block_bounded(b));
        lemma_nth_path_injective(b.children, 0, n, m);
        if nth_path(f, i, n) == nth_path(f, i, m) {
            assert((seq![i as u32] + block_nth(b, n)).drop_first() =~= block_nth(b, n));
            assert((seq![i as u32] + block_nth(b, m)).drop_first() =~= block_nth(b, m));
            assert(false);
        }
    } else if n < bl {
        if i + 1 >= f.len() {
            assert(forest_leaves(f, i + 1) == 0);
        }
        lemma_nth_path_head(f, i + 1, (m - bl) as nat);
        assert(nth_path(f, i, n)[0] == i as u32);
    } else if m < bl {
        if i + 1 >= f.len() {
            assert(forest_leaves(f, i + 1) == 0);
        }
        lemma_nth_path_head(f, i + 1, (n - bl) as nat);
        assert(nth_path(f, i, m)[0] == i as u32);
    } else {
        if i + 1 >= f.len() {
            assert(forest_leaves(f, i + 1) == 0);
        }
        lemma_nth_path_injective(f, i + 1, (n - bl) as nat, (m - bl) as nat);
    }
}

} // verus!
