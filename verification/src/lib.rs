//! Selects, from a commit history graph, the minimal subset of commits worth
//! displaying, and expresses it as a compact include/exclude description for a
//! generic history-printing routine.
//!
//! The core is the visibility propagation engine ([`engine::Engine`]): a
//! single-pass streaming algorithm that consumes a reverse-topologically
//! ordered edge stream together with a set of base commits, classifies every
//! streamed commit as inside or outside the visible window, and emits the
//! minimal boundary description of that window.  Memory is bounded by the
//! width of the active frontier via an arena with slot reuse ([`arena`]).
//!
//! What the emitted boundary means for the graph that the stream encodes —
//! reachability equivalence, minimality of the boundary sets, determinism,
//! and the memory bound — is stated and proved in [`reachability`].
//!
//! Supporting pieces: the wire format for edge records ([`record`]), the
//! hexadecimal commit-id codec ([`git_id`]), selection of interesting branches
//! ([`branches`]), and an earlier whole-graph classification of the same idea
//! that also discovers the merge bases itself ([`loggraph`], [`dag`]).

pub mod arena;
pub mod branches;
pub mod dag;
pub mod engine;
pub mod git_id;
pub mod loggraph;
pub mod reachability;
pub mod record;
