//! A dataflow graph that carries values forward through a chain of nodes and
//! derivative-like values back through a mirrored graph, with one
//! breadth-first traversal for both passes.
//!
//! * [`var`]: the edges, each a single value shared by its two ends.
//! * [`arrow`]: one direction of a node, and what a step of it does.
//! * [`func`]: a node, the pair of a forward and a backward arrow.
//! * [`graph`]: the owner of nodes and edges; wiring and the two passes.
//! * [`sound`]: conditions on a graph under which a pass cannot go wrong.
//! * [`determinacy`]: a pass has one outcome if the functions have one answer.
//! * [`relay`], [`pipeline`]: what the passes compute on the smallest graphs.

pub mod arrow;
pub mod determinacy;
pub mod func;
pub mod graph;
pub mod pipeline;
pub mod relay;
pub mod sound;
pub mod types;
pub mod var;
