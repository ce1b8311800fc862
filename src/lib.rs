//! Keeps a reverse-proxy configuration, a local hostname map and per-domain
//! TLS material in step with the set of running, opt-in labelled containers.
//!
//! Everything here is pure: the container runtime, the file system and the
//! certificate crate are reached through plain values handed in and out.
pub mod text;
pub mod port_mapping;
pub mod hosts;
pub mod hosts_laws;
pub mod container_info;
pub mod engine;
pub mod reconcile;
pub mod paths;
pub mod certs;
pub mod cert_material;
pub mod proxy_config;
pub mod proxy_container;
pub mod connection;
