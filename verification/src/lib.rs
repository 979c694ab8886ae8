//! Keeps shell secrets in the OS keyring and turns them into shell code.

pub mod bytes_order;
pub mod cli;
pub mod codec;
pub mod commands;
pub mod config;
pub mod hook;
pub mod secret;
pub mod secrets;
pub mod store;
pub mod text;
pub mod utf8_facts;
