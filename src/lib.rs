//! A reverse-mode automatic-differentiation engine over an arena of nodes.
//!
//! Nodes are stored in a `Tape`, each one referring to its operands by index.
//! The backward pass counts, for a chosen root, how many operand slots point at
//! each reachable node, then propagates from the root and releases a node only
//! when every one of those slots has delivered its contribution. The result is
//! a plan of transfers, each naming the local derivative to apply symbolically.
pub mod graph;
pub mod backward;
pub mod laws;
