//! The map and reduce functions of the built-in applications.

pub mod wc;
