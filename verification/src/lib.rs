//! A deterministic, in-memory emulator of a network address translator and
//! stateful firewall, with the behaviours catalogued by RFC 4787.
//!
//! The emulator sees packet headers only: addresses, ports and a timestamp
//! that the caller supplies. For each packet it decides whether the packet is
//! dropped, sent on to the external network with a rewritten source, or
//! turned back to the internal network.
//!
//! `router` holds the translator that draws its random numbers from a
//! source of the caller's choice, `simple` the one with a seeded generator
//! of its own. Both are specified by the state machine in `model` and by
//! what the numbers drawn decide, in `chance`. The laws of the state
//! machine are proved in `laws`, and `history` shows what holds in every
//! state that a translator can reach.

pub mod flags;
pub mod predefines;
pub mod rng;
pub mod source;
pub mod search;
pub mod binding;
pub mod draws;
pub mod model;
pub mod chance;
pub mod engine;
pub mod router;
pub mod simple;
pub mod facts;
pub mod steps;
pub mod laws;
pub mod history;
