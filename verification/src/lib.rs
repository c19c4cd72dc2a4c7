//! Reverse-and-add search for the 196 Lychrel problem.
//!
//! Numbers are held as digit arrays with the least significant digit first.
//! The arithmetic model, the three reverse-and-add kernels and the pieces of
//! bookkeeping around a long search are verified here.

pub mod number;
pub mod kernels;
pub mod swar;
pub mod par;
pub mod digits;
pub mod text;
pub mod milestones;
pub mod search;
pub mod checkpoint;
