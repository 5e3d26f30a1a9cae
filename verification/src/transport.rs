//! What SCPI links carry: raw responses and HiSLIP messages.
//!
//! The modules here decide and compute; reading from and writing to a
//! connection is left to the caller.

pub mod block;
pub mod hislip;
