//! Finds the installed packages that nothing needs.
//!
//! A package is needed when it was installed explicitly, or when a needed
//! package requires it, by a hard or an optional dependency. Every other
//! package can be removed.

pub mod common;
pub mod graph;
pub mod model;
mod fx;
mod providers;
pub mod dep_analyzer;
pub mod dep_matrix;
