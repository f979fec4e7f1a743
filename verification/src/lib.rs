//! Longest-prefix-match routing tables for IPv4 and IPv6.
//!
//! [`RouteMap`] maps network prefixes to values. Looking up an address gives the value of
//! the most specific prefix that covers it: of `0.0.0.0/0`, `192.168.0.0/16` and
//! `192.168.1.0/24`, the last one answers for `192.168.1.57`.
//!
//! Contracts speak of a table as a map from network bits to values; [`model`] says what a
//! longest match and an iteration are on such a map, and [`laws`] what follows.
pub mod address;
pub mod arena;
pub mod bits;
pub mod laws;
pub mod model;
pub mod node;
pub mod prefix;
pub mod table;
pub mod treebitmap;

pub use address::{IpAddress, Ipv4Addr, Ipv6Addr};
pub use prefix::{InvalidPrefixLen, IpPrefix};
pub use treebitmap::iter::Iter;
pub use treebitmap::RouteMap;
