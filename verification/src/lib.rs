use vstd::prelude::*;

pub mod text;
pub mod collections;
pub mod assemble;
pub mod tokens;
pub mod console;
pub mod auth;
pub mod config;
pub mod control;
pub mod nl_control;
pub mod bindings;
pub mod derive;
pub mod journal;
pub mod clock;
pub mod datasets;
pub mod manifest;
pub mod catalog;
pub mod rail;
pub mod consolidate;
pub mod active_model;

verus! {
} // verus!
