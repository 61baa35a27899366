//! The ways in which an operation of this crate fails.

use vstd::prelude::*;

verus! {

/// A structural error. None of them is transient: the caller has to correct the
/// declared widths, or the pairing of the streams.
#[derive(Debug, Clone, Copy, PartialEq, Eq, Structural)]
pub enum TydiError {
    /// A buffer's declared bit length exceeds what its bytes hold, or an offset
    /// lies behind the end of a buffer.
    InvalidLength,
    /// A payload's binary form does not have the width declared for its field.
    PayloadWidthMismatch,
    /// A child stream ends before the group of a parent is closed, or holds an
    /// empty marker inside a group.
    MisalignedStream,
    /// A group of code units is not the UTF-8 form of a text.
    InvalidText,
}

} // verus!
