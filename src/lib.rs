//! Schema drift detection over declarations handed in by a source parser.

pub mod model;
pub mod text;
pub mod fingerprint;
pub mod graph;
pub mod rpc;
pub mod visitor;
pub mod report;
