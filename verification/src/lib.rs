//! Core of a short-link redirect service: a routing-table store with stable
//! short-code assignment and write-then-swap persistence, a crash-safe
//! timestamped snapshot format, redirect-URL composition, and the state
//! machines that drive connection acceptance, graceful shutdown and live TLS
//! certificate rotation.
pub mod bytes;
pub mod bytemap;
pub mod codec;
pub mod timestamp;
pub mod urlq;
pub mod state;
pub mod admission;
pub mod server;
pub mod certs;
