//! The rules of an ACME DNS server and of its client hook.

pub mod api;
pub mod auth;
pub mod cli;
pub mod client;
pub mod clock;
pub mod config;
pub mod db;
pub mod dns;
pub mod limit;
pub mod net;
pub mod schema;
pub mod server;
pub mod tables;
pub mod text;
