//! The logic of a desktop manager for Codex accounts: where its files are,
//! which account a Codex session belongs to, and how much of each rate-limit
//! window is left, read from session logs or from the usage service.
//! Reading files, the clock and the network is left to the caller, which
//! hands the results to these functions.

pub mod text;
pub mod bindings;
pub mod json;
pub mod timestamps;
pub mod paths;
pub mod auth;
pub mod usage;
pub mod rate_limits;
pub mod service;
