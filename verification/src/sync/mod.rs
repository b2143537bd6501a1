//! The multiplayer client: what it reports, what it pulls, and what it remembers.

pub mod client;
pub mod config;
pub mod enroll;
pub mod events;
pub mod nft;
pub mod pull;
pub mod report;
pub mod state;
pub mod status;
