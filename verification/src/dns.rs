//! DNS-related configuration parsing.
pub mod resolv;
