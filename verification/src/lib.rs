//! Keeps a Templates directory, a derived Reports directory and a generated
//! navigation page in step with one another.
//!
//! The library holds the decision logic: classifying paths, computing mirror
//! actions for filesystem events, planning the startup reconciliation, and
//! regenerating the navigation page's link blocks.  All of it is pure: paths
//! and documents come in as strings, and the actions to perform on disk go
//! back out as plain values.

pub mod cli;
pub mod events;
pub mod homepage;
pub mod mirror;
pub mod order;
pub mod paths;
pub mod startup;
pub mod text;
