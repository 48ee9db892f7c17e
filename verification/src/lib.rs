//! Transparent TCP proxy core with client-fingerprint impersonation.
//!
//! The crate holds the protocol logic of the proxy: the TLS ClientHello
//! parser and synthesizer, the HTTP/2 frame codec with its connection state
//! machine, flow-control ledger and priority tree, the SOCKS5 and
//! HTTP-CONNECT client handshake byte formats, first-bytes classification and
//! HTTP/1 request rewriting, the challenge and redirect tracker, the
//! connection registry with graceful shutdown, the session-ticket cache,
//! retry backoff scheduling, and the natural-timing engine. All of it is
//! verified; sockets, clocks and configuration files stay outside.

pub mod challenge;
pub mod config;
pub mod clock;
pub mod graceful;
pub mod http2;
pub mod http2_advanced;
pub mod proxy;
pub mod socks5;
pub mod packet;
pub mod state;
pub mod tcp_advanced;
pub mod timing;
pub mod tls;
pub mod util;
pub mod zerocopy;

use vstd::prelude::*;

verus! {

} // verus!
