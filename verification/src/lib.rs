//! Core logic of a small self-hosted blog: content storage with its
//! consistency invariants, tag normalization, pagination, authentication
//! decisions and the route-level decision functions, all verified.

use vstd::prelude::*;

pub mod auth;
pub mod config;
pub mod content;
pub mod error;
pub mod handlers;
pub mod models;
pub mod store;
pub mod tags;
pub mod time;
pub mod text;
pub mod utils;

verus! {

} // verus!
