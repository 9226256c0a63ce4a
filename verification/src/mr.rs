//! The coordinator, the worker runtime and the built-in applications.

pub mod clock;
pub mod coordinator;
pub mod function;
pub mod job;
pub mod pattern;
pub mod pipeline_laws;
pub mod records;
pub mod records_laws;
pub mod sorting;
pub mod text;
pub mod wal;
pub mod wal_laws;
pub mod worker;
