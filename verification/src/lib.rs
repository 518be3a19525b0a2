//! A decentralized, topic-based broadcast messaging core for peer-to-peer
//! networks: peers discover each other on a local network, join a shared
//! topic, and flood text messages to every known subscriber without a
//! central broker.
//!
//! The crate holds the protocol logic only: the partial view of reachable
//! peers, the discovery state machine, the flooding broadcast service, the
//! behaviour composer that routes discovery events into membership changes,
//! and the application-loop step function. Transport, sockets and local
//! input live outside and feed the loop with plain events.

pub mod behaviour;
pub mod broadcast;
pub mod discovery;
pub mod node;
pub mod peer;
pub mod view;
