use crate::priv_util::SliceWriteError;
use vstd::prelude::*;

verus! {

/// What can go wrong while a device tree is assembled or rewritten.
#[derive(Debug, Copy, Clone, PartialEq, Eq)]
pub enum DevTreeError {
    /// The filter answered with a directive the token cannot take.
    InvalidParameter(&'static str),
    /// A block of the source tree lies where the layout does not allow it.
    InvalidOffset,
    /// A token of the source tree cannot be put on the wire.
    ParseError,
    /// A write did not fit into the destination buffer.
    Write(SliceWriteError),
    /// The rewritten image outgrew what 32-bit header fields can describe.
    ImageTooLarge,
}

/// What is said of a new size for a token that is no property.
pub const RESIZE_OF_NON_PROP: &'static str = "Cannot return ModifySize from a non-Prop token!";

/// The error of a write that did not fit.
pub open spec fn out_of_room() -> DevTreeError {
    DevTreeError::Write(SliceWriteError::UnexpectedEndOfInput)
}

} // verus!
