//! Peer-addressed state replication: peer identity and handshake, length-prefixed framing with
//! partial-read recovery, targeted routing over a loopback peer and remote peers, spawn
//! reconciliation, and ownership-gated attribute synchronization.

pub mod ids;
pub mod framing;
pub mod table;
pub mod error;
pub mod network_entity;
pub mod message;
pub mod handshake;
pub mod connection_manager;
pub mod spawnable;
pub mod component_sync;
pub mod settings;
pub mod communication;
pub mod game;
