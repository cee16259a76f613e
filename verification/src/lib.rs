//! Fiat–Shamir transform discipline over a duplex transcript.
//!
//! A [`Decree`] enforces that every declared input is absorbed under its
//! label, in canonical order, before any challenge is emitted, and that
//! challenges come out exactly in their declared order.  The [`inscribe`]
//! module canonicalizes structured values into fixed-length digests so
//! that they can enter a transcript deterministically.

pub mod decree;
pub mod duplex;
pub mod error;
pub mod inscribe;
pub mod labels;

pub use crate::decree::Decree;
pub use crate::inscribe::Inscribe;
