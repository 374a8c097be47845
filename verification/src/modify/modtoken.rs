//! What the writer and the caller's filter say to each other: the token that
//! was just written, and what is to become of it.

use crate::base::{ParsedBeginNode, ParsedProp};
use crate::layout::Token;
use vstd::prelude::*;

verus! {

/// The filter's answer: what the writer is to do with the token.
#[derive(Debug, Copy, Clone, PartialEq, Eq)]
pub enum ModifyTokenResponse {
    /// Keep the token as it was written.
    Pass,
    /// Take the token out of the tree.
    Drop,
    /// Give the property's value this many bytes.
    ModifySize(usize),
}

/// The token that the filter is shown.
pub enum ModifyParsedTok<'a> {
    /// The opening of a node. It can stay or go; its size is fixed.
    BeginNode(ParsedBeginNode<'a>),
    /// The end of a node. Its size is fixed too.
    EndNode,
    /// A property, and the destination buffer from the first byte of the
    /// property's value to its end. The filter may write as much as it
    /// needs; what it leaves there is the value, in the length that it
    /// answers with `ModifySize`.
    Prop(ParsedProp<'a>, &'a mut [u8]),
    /// A filler token.
    Nop,
}

impl<'a> ModifyParsedTok<'a> {
    /// The token of the source tree that is shown.
    pub open spec fn source(&self) -> Token {
        match self {
            ModifyParsedTok::BeginNode(node) => Token::BeginNode { name: node.name@ },
            ModifyParsedTok::EndNode => Token::EndNode,
            ModifyParsedTok::Prop(prop, _) => Token::Prop {
                name_offset: prop.name_offset as int,
                value: prop.prop_buf@,
            },
            ModifyParsedTok::Nop => Token::Nop,
        }
    }

    /// The bytes that the filter finds in its window; nothing where the
    /// token is no property.
    pub open spec fn window(&self) -> Seq<u8> {
        match self {
            ModifyParsedTok::Prop(_, window) => window@,
            _ => Seq::empty(),
        }
    }
}

} // verus!
