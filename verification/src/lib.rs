//! Core logic of a small dynamic-DNS updater.
//!
//! The crate verifies the two components that carry the tool's policy:
//! discovery of the caller's public IP address across a prioritised list of
//! echo providers, and a typed client for a zone/record DNS management API
//! (name resolution, envelope validation, and conditional update planning).
//! Network traffic and JSON decoding stay outside the crate; callers hand
//! decoded replies in as plain values and receive plain values back.

pub mod addr;
pub mod api;
pub mod ip;
pub mod text;
