//! A client library core for a trade-offer web API: item-class metadata
//! resolution across memory, disk and remote tiers, and the trade-offer
//! polling engine that diffs, trims and commits per-account state.
pub mod types;
pub mod util;
pub mod time;
pub mod error;
pub mod classinfo_map;
pub mod classinfo_cache;
pub mod resolver;
pub mod disk_cache;
pub mod offers;
pub mod poll_data;
pub mod poller;
pub mod supervisor;
pub mod manager;
pub mod api;
pub mod items;
