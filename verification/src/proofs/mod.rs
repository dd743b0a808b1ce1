//! Inclusion proofs: for one leaf, for several leaves, and what they show.

pub mod cover;
pub mod multi;
pub mod resolve;
pub mod single;
pub mod soundness;
pub mod verify_result;
