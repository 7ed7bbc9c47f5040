//! A durable upload queue for content-addressed build artifacts.
//!
//! The library holds the decisions of the queue: the per-artifact work
//! state, the compare-and-swap guarded work store, the filter that turns a
//! root's closure into upload work, boot-time recovery, and the steps of the
//! upload worker and dispatcher. Talking to the local artifact store, the
//! remote cache and the disk is left to the caller.
use vstd::prelude::*;

pub mod recovery;
pub mod resolve;
pub mod state;
pub mod store;
pub mod worker;

verus! {

} // verus!
