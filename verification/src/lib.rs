//! Rewriting of flattened device tree blobs.
//!
//! A parsed tree is written into a fresh buffer one structural token at a
//! time. A caller-supplied filter sees every token right after it was
//! written and decides whether it stays, goes, or (for a property) changes
//! its size. The strings block follows the new structure block, and the
//! header is set to what the new image holds.
//!
//! - [`priv_util`]: bounds-checked reads and writes of big-endian numbers,
//!   slices and NUL-terminated strings.
//! - [`layout`]: the wire format of the structure block.
//! - [`base`]: the parsed tree that a rewrite starts from.
//! - [`modify`]: the filter's vocabulary, the writer, and what a pass over a
//!   tree amounts to.
//! - [`error`]: what can go wrong.

pub mod base;
pub mod error;
pub mod layout;
pub mod modify;
pub mod priv_util;
