//! Core of a BitTorrent client: the peer wire protocol and the engine that
//! decides which piece to request from which peer.
//!
//! Every function in this crate carries a contract that Verus proves. Calls
//! into other crates stand behind small wrappers whose contracts are assumed;
//! each of them says in its documentation what is taken on trust.

pub mod commands;
pub mod config;
pub mod digest;
pub mod encoding;
pub mod net;
pub mod piece;
pub mod progress;
pub mod rarity;
pub mod scheduler;
pub mod scheduler_lemmas;
pub mod torrent;
