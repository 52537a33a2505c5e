//! SIP message parsing, request policy, response serialisation and
//! per-connection framing, with machine-checked contracts.

pub mod bytes;
pub mod connection;
pub mod decimal;
pub mod headers;
pub mod listener;
pub mod policy;
pub mod response;
pub mod roundtrip;
pub mod sip_parser;
pub mod wire;
