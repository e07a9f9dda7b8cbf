//! A peer-to-peer chat node: address parsing, the node identity, a routing
//! table fed by discovery notifications, topic-based flooding with
//! deduplication, and a registry that moves clients between providers,
//! with the wire format of its control messages.
pub mod address;
pub mod chat;
pub mod config;
pub mod control;
pub mod discovery;
pub mod identity;
pub mod ids;
pub mod pairs;
pub mod pubsub;
pub mod registry;
