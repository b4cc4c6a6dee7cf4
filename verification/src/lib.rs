//! Verified core of an IPv4 network-discovery pipeline.
//!
//! The crate models addresses as `u32` values and covers the logic of the
//! pipeline: computing a subnet from an address and a prefix length,
//! enumerating the usable host addresses of a CIDR block, merging network
//! inventories from two scan sources, the sweep protocol that probes every
//! host of a subnet and resolves the responders, and the text forms
//! (dotted quad, CIDR, inventory lines) used at the edges.
//!
//! Everything that performs I/O — running scanners, pinging hosts, reading
//! the hardware-address table, files and prompts — lives outside this crate
//! and talks to it through plain values.

pub mod hosts;
pub mod inventory;
pub mod lines;
pub mod subnet;
pub mod sweep;
pub mod text;
