//! A node's local view of a peer-to-peer mesh network, and the gossip
//! production algorithm that renders that view into a disclosure-bounded
//! message for one target peer.
#![verifier::loop_isolation(false)]

pub mod key;
pub mod node_record;
pub mod neighborhood_database;
pub mod gossip;
pub mod gossip_producer;
