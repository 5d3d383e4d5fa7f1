//! A verified model of the dataflow core of an analytical database:
//! columnar chunks moving through pipelines of stages, and the pipeline
//! shape compiler for the MERGE (upsert) operation, which assembles a
//! deadlock-free graph of splitter, column-fill, serialization and
//! row-identity stages for every merge variant and distribution mode.

pub mod builder;
pub mod chunk;
pub mod clusters;
pub mod flow;
pub mod pipeline;
pub mod sources;
pub mod stages;
