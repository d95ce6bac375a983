use vstd::prelude::*;

pub mod text;
pub mod observe;
pub mod json;
pub mod calls;
pub mod activity;
pub mod metrics;
pub mod strset;
pub mod disable;
pub mod config;
pub mod about;
pub mod gateway;
pub mod auth;
pub mod history;
pub mod api;
pub mod downstream;
pub mod retrieval;
pub mod startup;
pub mod discovery;
pub mod caching;

verus! {

} // verus!
