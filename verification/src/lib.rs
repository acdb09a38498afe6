//! A model of a small, closed IPv4 network: devices and routers joined by
//! point-to-point links, with subnet arithmetic, breadth-first reachability
//! and DHCP-style address leasing.

pub mod text;
pub mod ip;
pub mod mac;
pub mod nic;
pub mod dhcp;
pub mod device;
pub mod router;
pub mod topology;
pub mod model;
pub mod wellformed;
pub mod graph;
pub mod commands;
pub mod load;
