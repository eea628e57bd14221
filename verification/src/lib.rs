//! Inspection and rewriting of the addresses in DNS responses.
//!
//! - `address`: IP addresses as integers and their big-endian byte encoding.
//! - `dns`: reading the address records of a DNS message, and rewriting them in place.
//! - `dns_proofs`: what a rewrite does to what the message is read as.
//! - `text`: lines of text and the notation of IP addresses and prefix lengths.
//! - `blocklist`: the set of blocked addresses.
//! - `networks`: CIDR networks, and the search for an unblocked neighbour in one.
//! - `policy`: the rewrite policy applied to each response.
pub mod address;
pub mod dns;
pub mod dns_proofs;
pub mod text;
pub mod blocklist;
pub mod networks;
pub mod policy;
