//! Tracking of blocked network peers: which peers are blocked, why and since
//! when, and when a block has lasted long enough to be lifted.

pub mod peer;
pub mod block_list;
pub mod clock;
pub mod blocking;
pub mod laws;
