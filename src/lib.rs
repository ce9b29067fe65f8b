//! A structured record addressed by paths: a map from field name to a tree
//! of values, read, written and pruned through paths of fields, indices and
//! groups of alternatives.

pub mod path;
pub mod size;
pub mod value;
pub mod tree;
pub mod event;
pub mod flatten;
pub mod laws;
pub mod order;
