//! The errors of the library.

use vstd::prelude::*;

verus! {

/// What can go wrong while building, reading or multiplying matrices, or
/// while distributing a product.
#[derive(Debug, Clone, Copy, PartialEq, Eq, Structural)]
pub enum MatrixError {
    /// A file could not be opened, read, created or written.
    IoError,
    /// A token of this line, counted from one, is not a number.
    ParseError { line: usize },
    /// Rows of differing lengths, or a buffer whose length does not match the
    /// requested dimensions.
    InconsistentShape,
    /// No data rows remain once blank lines are skipped.
    EmptyInput,
    /// A coordinate or a range lies outside the matrix.
    IndexOutOfBounds,
    /// The operands' shapes do not allow the product.
    DimensionMismatch,
    /// The process group has no member besides the coordinator.
    NoWorkers,
    /// A worker received a message that its state does not expect.
    ProtocolViolation,
}

} // verus!
