//! Control plane of a single-host reverse proxy and container orchestrator:
//! routing, manifest diffing, secret unsealing and the decisions around them.

pub mod matching;
pub mod net;
pub mod config;
pub mod manifest;
pub mod backends;
pub mod registry;
pub mod text;
pub mod segments;
pub mod secrets;
pub mod common;
pub mod engine;
pub mod proxy;
pub mod args;
pub mod tls;
pub mod health;
pub mod ipc;
pub mod server;
pub mod reconcile;
