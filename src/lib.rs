//! A small forwarding HTTP proxy library: it finds the destination host of a
//! request, decides what to send upstream, and rewrites relayed response bytes.
pub mod request;
pub mod substitute;
pub mod relay;
pub mod port;
