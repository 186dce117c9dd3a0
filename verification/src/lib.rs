//! A wire-format codec for BGP-4 (RFC 4271, with the RFC 2918 route-refresh
//! message and the multiprotocol extensions): typed messages are encoded to
//! the exact byte layout peers expect, and incoming bytes are decoded into
//! validated messages or rejected with the error the protocol prescribes.
//!
//! Every encoder and decoder works through [`io::Buffer`], a byte cursor that
//! checks availability before every read, so no input can make the codec
//! read out of bounds or panic.

pub mod bgp_error;
pub mod error;
pub mod header;
pub mod io;
pub mod opt_params;
pub mod packet;
pub mod path_attr;
pub mod prefix;
