//! Block-authoring provisioner for a sharded relay chain.
//!
//! On request from a block author, the provisioner assembles the inherent
//! data needed to build a relay-chain block on top of a given parent:
//! a selected set of signed availability bitfields, a selected set of
//! backed parachain candidates targeted at scheduling cores, and a
//! bounded, novelty-preferring selection of dispute statement sets.
//!
//! The selection algorithms and the per-parent readiness protocol live
//! here with machine-checked contracts; the event loop that feeds them
//! (signals, timers, subsystem channels) is ordinary async plumbing kept
//! outside the library.

pub mod bitfields;
pub mod candidates;
pub mod disputes;
pub mod error;
pub mod primitives;
pub mod state;
