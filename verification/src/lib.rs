//! A single-master MapReduce engine: the coordinator's task-assignment state
//! machine with its lease protocol, and the pure parts of the worker runtime.

pub mod mr;
