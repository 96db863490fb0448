//! Verified core of a small socket load balancer built on `sk_lookup`.
//!
//! The library holds the decisions of the kernel-side programs (which
//! socket slot a connection goes to, and which verdict the lookup returns),
//! the parsing of the command lines of the loader and the demo server, and
//! the bytes that the demo server answers with.
pub mod decimal;
pub mod family;
pub mod http;
pub mod lb;
pub mod loader;
pub mod proc_fd;
pub mod server;
pub mod sk_lookup;
