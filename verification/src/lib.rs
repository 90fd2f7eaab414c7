//! A framework for hooking custom analyses into a compiler's build pipeline.
//!
//! The crate verifies the decision logic of the framework: which build
//! invocation should run the custom analysis (the driver's decision), how the
//! coordinator selects compilation targets and prepares the environment for
//! the build orchestrator, how plugin arguments survive the process boundary
//! (an exact round-tripping codec), and a recursion-breaking memoization
//! cache used by analysis utilities.

pub mod args;
pub mod cache;
pub mod cli;
pub mod driver;
pub mod mutability;
pub mod paths;
pub mod plugin;
pub mod range;
pub mod span;
pub mod strutil;
pub mod test_utils;
