//! Minimum segment cover of a DNA query against a reference.
//!
//! Given a reference string and a query string over the alphabet
//! `{A, T, C, G}`, the library finds an ordered, minimal tiling of the
//! query by contiguous segments, each of which carries a rolling hash
//! that matches the hash of some reference substring, read forward or
//! as its reverse complement.
//!
//! Hash equality is deliberately trusted as a proxy for substring
//! equality: an index hit is never re-checked character by character.
//! This is a probabilistic space/time trade-off, not an error path.
//! The contracts state exactly what holds unconditionally (coverage of
//! the query by spans, minimality against literal matches, hash-level
//! agreement of every segment with its span, determinism), and state
//! character-level agreement under the explicit premise that the
//! segment and its span did not collide.

use vstd::prelude::*;

pub mod dna;
pub mod hashing;
pub mod index;
pub mod solver;
pub mod cover;
pub mod laws;

verus! {

/// The two failure conditions: an input character outside the
/// four-symbol alphabet, or a query that cannot be tiled at all.
#[derive(Clone, Copy, PartialEq, Eq, Structural, Debug)]
pub enum MatchError {
    InvalidSymbol,
    NoCoverFound,
}

} // verus!
