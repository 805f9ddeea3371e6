//! Verified core of a market-data price router: a CRLF-delimited line
//! protocol for quote and keepalive messages, a registry of downstream
//! connections with snapshot broadcast, and an upstream adapter that
//! normalizes feed events through an instrument mapping table.
pub mod adapter;
pub mod contract;
pub mod datetime;
pub mod mapping;
pub mod number;
pub mod registry;
pub mod router;
pub mod serializer;
pub mod settings;
pub mod text;
