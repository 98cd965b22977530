//! Keeps per-locale JSON translation catalogs in step with a source catalog:
//! a path-addressable tree mutator, a flatten/diff engine over string leaves,
//! a placeholder scanner, and the decision logic of a retrying, usage-counting
//! translation client.

pub mod cli;
pub mod config;
pub mod diff;
pub mod document;
pub mod errors;
pub mod json_utils;
pub mod laws;
pub mod openai_client;
pub mod placeholders;
pub mod usage;
