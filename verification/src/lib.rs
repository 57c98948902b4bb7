//! A minimal first-come, first-served domain-name registry.
//!
//! An identity claims ownership of a domain (`"toto.fr"`); the first claim is
//! permanent. The verified owner of a domain may then bind host records
//! (`"www.toto.fr"` -> IPv4 address) whose governing parent domain is derived
//! by a fixed two-label suffix rule. Both tables, their authorization rule,
//! and the IPv4 text format are specified and verified here; the host
//! environment supplies the caller identity and drives the calls.

pub mod ipv4;
pub mod laws;
pub mod registry;
pub mod table;
pub mod text;

pub use registry::DomainName;
pub use registry::RegistryError;
