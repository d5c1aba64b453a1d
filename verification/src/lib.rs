//! Verified core of a cluster validator.

pub mod base58;
pub mod blockstore_processor;
pub mod byte_map;
pub mod clock;
mod collections;
pub mod gossip_service;
pub mod hash;
pub mod net;
pub mod pubkey;
pub mod pubkey_set;
mod random;
pub mod rent;
pub mod retransmit_stage;
pub mod signature;
pub mod slot_history;
pub mod snapshot_utils;
pub mod status_cache;
pub mod text;
pub mod toml_config;
pub mod validator;
