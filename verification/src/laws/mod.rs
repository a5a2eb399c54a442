//! Laws: what the operations of the library are for, in terms of what goes in and what comes out.
pub mod collect;
pub mod command;
pub mod lock;
pub mod model;
pub mod plan;
pub mod recipe;
pub mod text;
