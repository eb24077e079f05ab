//! DNSCrypt v2 forwarding server: the verified core.
//!
//! The wire formats, the cryptographic framing, certificate publication and
//! rotation, admission control and the per-query decisions live here; the
//! sockets and the task runtime live in the application around it.

mod bytes;
mod crypto;

pub mod admission;
pub mod certs;
pub mod dns;
pub mod dnscrypt;
pub mod errors;
pub mod pipeline;
pub mod state;
