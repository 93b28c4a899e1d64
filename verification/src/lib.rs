//! The network interfaces of a machine, read out of the text that `ifconfig`
//! prints.
//!
//! The library does no input or output: the caller captures the text and hands
//! it over. [`get_networks`] cuts it into one block for each interface and
//! parses each block into a [`Network`]; [`find_network`], [`get_wlan`] and
//! [`get_ethernet`] pick among those records. What each function returns is
//! stated over the characters of the text, in its contract.

pub mod network;
pub mod parse;
pub mod query;
pub mod text;

pub use network::{Network, NetworkView};
pub use parse::{parse_network, split_blocks};
pub use query::{find_network, get_ethernet, get_networks, get_wlan};
