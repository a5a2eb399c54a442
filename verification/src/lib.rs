//! Makes BitBake recipe fragments and a list of licenses for a Cargo package, from the output of
//! `cargo metadata` and from the lock file.
pub mod closure;
pub mod collect;
pub mod command;
pub mod error;
pub mod git;
pub mod laws;
pub mod license;
pub mod lock;
pub mod model;
pub mod order;
pub mod output;
pub mod plan;
pub mod recipe;
pub mod root;
pub mod sorted;
pub mod text;
