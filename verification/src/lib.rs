//! Ingestion-and-reconstruction pipeline for an issue-tracking health board:
//! a historical store of entity snapshots, the pagination protocol of the
//! remote data source, the collection cycle that feeds the store, and the
//! time-series reconstruction and chart rendering that read it back.

pub mod models;
pub mod ordering;
pub mod database;
pub mod pagination;
pub mod collector;
pub mod svg_doc;
pub mod renderer;
pub mod time_graph;
