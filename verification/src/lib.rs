//! An in-memory engine for large, sparse, labelled graphs: a compact immutable
//! edge store, random-walk sampling and connectivity primitives, each stated
//! over mathematical models and proved against them.

pub mod types;
pub mod errors;
pub mod vocabulary;
pub mod text;
pub mod vocabulary_vec;
pub mod graph;
pub mod getters;
pub mod modifiers;
pub mod metrics;
pub mod stats;
pub mod builder;
pub mod records;
pub mod constructors;
pub mod edge_file_writer;
pub mod harness;
pub mod test_utilities;
pub mod random;
pub mod encoding;
pub mod sorting;
pub mod partition;
pub mod classes;
pub mod paths;
pub mod walks_parameters;
pub mod walks;
pub mod trees;
pub mod preprocessing;
pub mod laws;
pub mod round_trip;
pub mod read_back;
pub mod components;
