//! Decisions on starting a validator.

pub mod genesis;
pub mod rpc_bootstrap;
pub mod rpc_node;
pub mod settings;
pub mod vote_account;
