//! Rewriting a tree while it is written out.
//!
//! - [`modtoken`]: the token that the filter is shown, and its answers.
//! - [`serializer`]: the writer and its pass over a tree.
//! - [`trace`]: the steps of a pass, and the tokens that they leave.
//! - [`pass`]: how a pass ends, given its steps.
//! - [`image`]: the bytes of a rewritten tree.
//! - [`turn`]: one turn of the pass, byte by byte.

pub mod image;
pub mod modtoken;
pub mod pass;
pub mod serializer;
pub mod trace;
pub mod turn;
