//! The generic node interface of the fallback graph explorer.
//!
//! Where the edge stream cannot be produced in reverse-topological order, a
//! worklist-driven fixpoint over a mutable node graph takes the place of the
//! single streaming pass.  A node of that graph exposes its identity, its
//! parents, a priority that orders exploration, and a pure update rule; the
//! driver revisits nodes until the monotone update converges.  The update
//! rule itself is what [`crate::loggraph`] states and verifies on plain
//! data; a driver built on this trait lives with the caller, outside the
//! verified core.

use vstd::prelude::*;

verus! {

/// A node of a lazily explored graph.
pub trait Node: Sized {
    /// The node's identity.
    type Id: Copy;

    /// The priority that orders exploration, newest first.
    type Priority: Copy;

    /// This node's identity.
    fn id(&self) -> Self::Id;

    /// This node's parents, fetched at most once.
    fn parents(&mut self) -> Vec<Self>;

    /// This node's exploration priority.
    fn priority(&self) -> Self::Priority;

    /// The node recomputed from its known children and parents;
    /// `fully_explored` tells it whether every parent is known.
    fn update(&self, children: &Vec<Self>, parents: &Vec<Self>, fully_explored: bool) -> Self;

    /// Whether exploring past this node can still change the outcome.
    fn want_explore(&self) -> bool;
}

} // verus!
