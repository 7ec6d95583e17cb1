//! The failure kinds that every public generation operation can surface.

use vstd::prelude::*;
use rand::Error as RandError;

verus! {

/// Why a generation request failed.
#[derive(Debug)]
pub enum Error {
    /// The operating system's entropy source could not provide randomness.
    OsRngInitialization(RandError),
    /// The requested bit length is below the 512-bit minimum; carries the
    /// rejected request.
    BitLength(usize),
    /// The candidate search hit its defensive iteration ceiling without an
    /// accepted candidate — vanishingly unlikely at any valid bit length,
    /// but surfaced as an error rather than looping forever.
    SearchExhausted,
}

} // verus!
