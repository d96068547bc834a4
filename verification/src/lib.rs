//! A per-participant vote tower for leader-based fork choice.
//!
//! Each participant keeps a bounded stack of prior votes, every vote carrying
//! an exponentially growing lockout during which the participant is committed
//! to descendants of the vote's branch.  A proposed vote is accepted only when
//! it respects the active lockouts and when the network has converged deeply
//! enough on its fork.

pub mod ancestry;
pub mod laws;
pub mod locktower;
