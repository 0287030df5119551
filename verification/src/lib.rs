//! Replay-based enumeration of nested test subcases.
//!
//! A test routine may contain guarded "subcase" blocks, possibly nested.
//! Running the routine once executes exactly one combination of blocks — one
//! leaf of the tree the blocks describe.  A driver re-invokes the routine
//! against one tracker value until every leaf combination has executed
//! exactly once, so that setup and teardown code written once in the routine
//! body is shared by all combinations.
//!
//! The tracker keeps two sequences of counters indexed by nesting level: the
//! *shape*, rebuilt on every pass, counts the sibling blocks seen so far at
//! each level, and the *target*, kept across passes, selects the sibling to
//! execute at each level.  After a pass the target is advanced to the next
//! leaf in depth-first order; the traversal is over when it empties.
//!
//! Three interchangeable trackers are provided: [`tracker::State`] keeps
//! growable paths and records labels for failure reports, [`bounded::State`]
//! keeps both paths in fixed-capacity stacks, and [`cursor::SubcasesState`]
//! lets the caller own the persistent target path.  The transition functions
//! their contracts share live in [`model`]; the laws of the traversal are
//! proved in [`laws`] for flat and one-parent routines, with activation
//! flags, and in [`forest`] for arbitrary nesting: the traversal takes
//! exactly one pass per leaf, in depth-first order.

pub mod model;
pub mod fixed_vec;
pub mod bounded;
pub mod render;
pub mod tracker;
pub mod cursor;
pub mod err_testable;
pub mod laws;
pub mod forest;
