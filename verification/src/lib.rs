//! The logic of a proxy that sends each connection from another address of an
//! IPv6 block.
//!
//! Clients reach it as a SOCKS5 proxy ([`socks5`]), or by DNS ([`dns`]): names
//! that a rule picks ([`domain`]) are answered with the address of the listener,
//! where a proxy reads the server name of the TLS connection ([`tls`]) and
//! connects to the real server ([`route`]) from the block ([`prefix`]). A
//! whitelist ([`whitelist`]) says who may connect.
//!
//! Nothing here reads or writes a socket or a file. What a connection does next
//! is computed from the bytes that were read.
pub mod accept;
pub mod bytes;
pub mod config;
pub mod dns;
pub mod domain;
pub mod error;
pub mod net;
pub mod prefix;
pub mod route;
pub mod socks5;
pub mod text;
pub mod tls;
pub mod whitelist;
