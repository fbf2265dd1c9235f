//! Cluster membership, failure detection and gossip dissemination in the
//! SWIM style, together with the sampling-based binary consensus that runs
//! on top of the membership view.
//!
//! Everything in this crate is a decision procedure on plain values: the
//! caller performs network and timer work and feeds the outcomes back in.

pub mod cache;
pub mod constants;
pub mod deque;
pub mod digraph;
pub mod dissemination;
pub mod membership;
pub mod message;
pub mod order;
pub mod protocol;
pub mod random;
pub mod skiplist;
pub mod swim;
pub mod wire;
