//! minsec: log sources, filters, failure tracking, ban policy and the multiplayer
//! wire protocol, as functions with proved contracts.

pub mod backend;
pub mod builtin;
pub mod config;
pub mod control;
pub mod daemon;
pub mod duration;
pub mod engine;
pub mod events;
pub mod filter;
pub mod foreign;
pub mod inspection;
pub mod ip;
pub mod json;
pub mod paths;
pub mod proto;
pub mod scan;
pub mod sorted;
pub mod source;
pub mod sync;
pub mod text;
pub mod tracker;
