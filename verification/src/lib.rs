//! A small, embeddable HTTP/1.1 server engine, verified with Verus.
//!
//! The crate covers three subsystems: an incremental HTTP codec (streaming
//! request parser and response encoder with size-limit enforcement), a path
//! router (segment-based matcher with literal, named-parameter and wildcard
//! segments), and a static-asset cache (checksum-addressed, with pluggable
//! change-detection and eviction policies).  Listening sockets, worker pools
//! and file reads live outside the library; it works on plain values that the
//! surrounding program feeds in.

pub mod strutil;
pub mod error;
pub mod body;
pub mod params;
pub mod cache;
pub mod router;
pub mod request;
pub mod response;
pub mod codec;
pub mod server;
