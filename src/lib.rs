//! Incremental revision pipeline for package-set snapshots: finds the
//! revisions published since each channel's watermark, turns a revision's
//! package set into table rows or output-keyed groups, and decides what is
//! written where.
pub mod text;
pub mod revisions;
pub mod outputs;
pub mod tabular;
pub mod relational;
pub mod markers;
pub mod evaluation;
