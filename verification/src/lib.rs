//! Domain availability checks.
//!
//! The modules follow the way of a lookup: [`cli`] expands the arguments into pairs
//! of a name and a top-level domain, [`bootstrap`] knows the servers, [`schedule`]
//! says which requests to make, [`engine`] what comes of their ends, [`resolvers`]
//! what the answers mean, and [`output`] shows the results.

pub mod bootstrap;
pub mod cli;
pub mod dns;
pub mod engine;
pub mod json;
pub mod models;
pub mod output;
pub mod resolvers;
pub mod schedule;
pub mod text;
pub mod unique;
