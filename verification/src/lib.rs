//! Extension inference and validation for hierarchical graphs, and a pass that
//! fixes the order of the nodes of their dataflow regions.
//!
//! A graph ([hugr]) is a tree of nodes with edges between them. Each node adds a
//! set of extensions ([extension_set]) to those at its input, which it may leave
//! open. Inference ([infer]) finds the open sets, validation ([validate])
//! compares the declared ones along edges and regions, and [force_order] adds
//! order edges between the children of dataflow parents. [dump] says where
//! serialized extensions are written to.

pub mod dump;
pub mod extension_set;
pub mod force_order;
pub mod graphs;
pub mod hugr;
pub mod infer;
pub mod locations;
pub mod validate;
