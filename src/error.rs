use vstd::prelude::*;

verus! {

/// Why an archive operation was refused.
#[derive(Clone, Copy, Debug, PartialEq, Eq, Structural)]
pub enum KpdbError {
    /// The bytes do not hold a well-formed archive part.
    Format,
    /// A record index outside the directory.
    Range,
    /// A write on a reading archive, or a read on a writing one.
    Mode,
    /// A step of the write protocol taken out of order.
    Usage,
    /// Stored tags that the record's data no longer matches.
    Mismatch,
    /// An offset or size that no longer fits in 64 bits.
    Overflow,
}

} // verus!
