//! A parsed device tree: the header, the memory reservations, the tokens of
//! the structure block and the blob they were read from.

use crate::error::DevTreeError;
use crate::layout::{
    nul_free, token_wf, tokens_wf, Token, FDT_HEADER_LEN, FDT_MAGIC, FDT_RESERVE_ENTRY_LEN,
};
use vstd::prelude::*;
use vstd::slice::slice_subrange;

verus! {

/// The token that opens a node.
#[derive(Debug, Copy, Clone)]
pub struct ParsedBeginNode<'a> {
    pub name: &'a [u8],
}

/// A property: its value and the place of its name in the strings block.
#[derive(Debug, Copy, Clone)]
pub struct ParsedProp<'a> {
    pub prop_buf: &'a [u8],
    pub name_offset: usize,
}

/// A token of the structure block.
#[derive(Debug, Copy, Clone)]
pub enum ParsedTok<'a> {
    BeginNode(ParsedBeginNode<'a>),
    EndNode,
    Prop(ParsedProp<'a>),
    Nop,
}

impl<'a> View for ParsedTok<'a> {
    type V = Token;

    open spec fn view(&self) -> Token {
        match *self {
            ParsedTok::BeginNode(node) => Token::BeginNode { name: node.name@ },
            ParsedTok::EndNode => Token::EndNode,
            ParsedTok::Prop(prop) => Token::Prop {
                name_offset: prop.name_offset as int,
                value: prop.prop_buf@,
            },
            ParsedTok::Nop => Token::Nop,
        }
    }
}

impl<'a> ParsedTok<'a> {
    /// The size that a filter is told: the length of a node's name or of a
    /// property's value, and nothing for the other tokens.
    pub open spec fn spec_payload_len(&self) -> usize {
        match *self {
            ParsedTok::BeginNode(node) => node.name@.len() as usize,
            ParsedTok::Prop(prop) => prop.prop_buf@.len() as usize,
            _ => 0,
        }
    }

    /// The size that a filter is told: the length of a node's name or of a
    /// property's value, and nothing for the other tokens.
    #[verifier::when_used_as_spec(spec_payload_len)]
    pub fn payload_len(&self) -> (n: usize)
        ensures
            n == self.spec_payload_len(),
    {
        match self {
            ParsedTok::BeginNode(node) => node.name.len(),
            ParsedTok::Prop(prop) => prop.prop_buf.len(),
            _ => 0,
        }
    }
}

/// The tokens of a parsed sequence, as mathematical values.
pub open spec fn token_views(tokens: Seq<ParsedTok<'_>>) -> Seq<Token> {
    Seq::new(tokens.len(), |i: int| tokens[i]@)
}

/// One entry of the memory reservation block.
#[derive(Debug, Copy, Clone, PartialEq, Eq)]
pub struct ReserveEntry {
    pub address: u64,
    pub size: u64,
}

/// The fields of the header, but for the magic number.
#[derive(Debug, Copy, Clone, PartialEq, Eq)]
pub struct Header {
    pub totalsize: u32,
    pub off_dt_struct: u32,
    pub off_dt_strings: u32,
    pub off_mem_rsvmap: u32,
    pub version: u32,
    pub last_comp_version: u32,
    pub boot_cpuid_phys: u32,
    pub size_dt_strings: u32,
    pub size_dt_struct: u32,
}

/// A parsed tree as a mathematical value.
pub struct TreeModel {
    pub header: Header,
    pub reserved: Seq<ReserveEntry>,
    pub tokens: Seq<Token>,
    pub strings: Seq<u8>,
}

/// The blocks lie where a rewrite can keep them apart: the reservation block
/// behind the header, the structure block behind the reservations and at a
/// multiple of four, the strings block inside the blob.
pub open spec fn layout_ok(header: Header, reserved: nat, blob: nat) -> bool {
    &&& FDT_HEADER_LEN <= header.off_mem_rsvmap
    &&& header.off_mem_rsvmap + FDT_RESERVE_ENTRY_LEN * reserved <= header.off_dt_struct
    &&& header.off_dt_struct % 4 == 0
    &&& header.off_dt_strings + header.size_dt_strings <= blob
}

impl TreeModel {
    /// The tree is one that a rewrite accepts.
    pub open spec fn wf(self) -> bool {
        &&& layout_ok(
            self.header,
            self.reserved.len(),
            (self.header.off_dt_strings + self.strings.len()) as nat,
        )
        &&& self.strings.len() == self.header.size_dt_strings
        &&& tokens_wf(self.tokens)
    }
}

/// A parsed tree. Its layout and its tokens were checked when it was made.
pub struct DevTree<'a> {
    buf: &'a [u8],
    header: Header,
    reserved: Vec<ReserveEntry>,
    tokens: Vec<ParsedTok<'a>>,
}

impl<'a> View for DevTree<'a> {
    type V = TreeModel;

    closed spec fn view(&self) -> TreeModel {
        TreeModel {
            header: self.header,
            reserved: self.reserved@,
            tokens: token_views(self.tokens@),
            strings: self.buf@.subrange(
                self.header.off_dt_strings as int,
                self.header.off_dt_strings + self.header.size_dt_strings,
            ),
        }
    }
}

/// Whether no byte of `name` is zero.
pub fn is_nul_free(name: &[u8]) -> (r: bool)
    ensures
        r == nul_free(name@),
{
    let mut i: usize = 0;
    while i < name.len()
        invariant
            i <= name@.len(),
            forall|j: int| 0 <= j < i ==> name@[j] != 0,
        decreases name@.len() - i,
    {
        if name[i] == 0 {
            return false;
        }
        i += 1;
    }
    true
}

/// Whether the token can be laid down and read back.
pub fn is_token_wf(token: &ParsedTok<'_>) -> (r: bool)
    ensures
        r == token_wf(token@),
{
    match token {
        ParsedTok::BeginNode(node) => is_nul_free(node.name),
        ParsedTok::Prop(prop) => prop.prop_buf.len() <= u32::MAX as usize && prop.name_offset
            <= u32::MAX as usize,
        _ => true,
    }
}

impl<'a> DevTree<'a> {
    #[verifier::type_invariant]
    spec fn inv(self) -> bool {
        &&& layout_ok(self.header, self.reserved@.len(), self.buf@.len())
        &&& tokens_wf(token_views(self.tokens@))
    }

    /// Puts a tree together from its parts and checks it: first the layout,
    /// then the tokens.
    pub fn new(
        buf: &'a [u8],
        header: Header,
        reserved: Vec<ReserveEntry>,
        tokens: Vec<ParsedTok<'a>>,
    ) -> (r: Result<DevTree<'a>, DevTreeError>)
        ensures
            !layout_ok(header, reserved@.len(), buf@.len()) ==> r == Err::<
                DevTree<'a>,
                DevTreeError,
            >(DevTreeError::InvalidOffset),
            layout_ok(header, reserved@.len(), buf@.len()) && !tokens_wf(token_views(tokens@))
                ==> r == Err::<DevTree<'a>, DevTreeError>(DevTreeError::ParseError),
            layout_ok(header, reserved@.len(), buf@.len()) && tokens_wf(token_views(tokens@))
                ==> (r matches Ok(tree) && tree@.wf() && tree@ == (TreeModel {
                header,
                reserved: reserved@,
                tokens: token_views(tokens@),
                strings: buf@.subrange(
                    header.off_dt_strings as int,
                    header.off_dt_strings + header.size_dt_strings,
                ),
            })),
    {
        if header.off_mem_rsvmap < FDT_HEADER_LEN as u32 || header.off_dt_struct
            < header.off_mem_rsvmap || header.off_dt_struct % 4 != 0 {
            return Err(DevTreeError::InvalidOffset);
        }
        let room = (header.off_dt_struct - header.off_mem_rsvmap) as usize;
        if reserved.len() > room / FDT_RESERVE_ENTRY_LEN {
            return Err(DevTreeError::InvalidOffset);
        }
        if header.off_dt_strings as u64 + header.size_dt_strings as u64 > buf.len() as u64 {
            return Err(DevTreeError::InvalidOffset);
        }
        let mut i: usize = 0;
        while i < tokens.len()
            invariant
                i <= tokens@.len(),
                layout_ok(header, reserved@.len(), buf@.len()),
                forall|j: int| 0 <= j < i ==> token_wf(#[trigger] token_views(tokens@)[j]),
            decreases tokens@.len() - i,
        {
            if !is_token_wf(&tokens[i]) {
                assert(!token_wf(token_views(tokens@)[i as int]));
                return Err(DevTreeError::ParseError);
            }
            i += 1;
        }
        Ok(DevTree { buf, header, reserved, tokens })
    }

    /// The magic number of every tree.
    pub fn magic(&self) -> (r: u32)
        ensures
            r == FDT_MAGIC,
    {
        FDT_MAGIC
    }

    /// The size of the blob, as its header gives it.
    pub fn totalsize(&self) -> (r: usize)
        ensures
            r == self@.header.totalsize,
    {
        self.header.totalsize as usize
    }

    /// Where the structure block starts.
    pub fn off_dt_struct(&self) -> (r: usize)
        ensures
            r == self@.header.off_dt_struct,
    {
        self.header.off_dt_struct as usize
    }

    /// Where the strings block starts.
    pub fn off_dt_strings(&self) -> (r: usize)
        ensures
            r == self@.header.off_dt_strings,
    {
        self.header.off_dt_strings as usize
    }

    /// Where the memory reservation block starts.
    pub fn off_mem_rsvmap(&self) -> (r: usize)
        ensures
            r == self@.header.off_mem_rsvmap,
    {
        self.header.off_mem_rsvmap as usize
    }

    /// The version of the format.
    pub fn version(&self) -> (r: u32)
        ensures
            r == self@.header.version,
    {
        self.header.version
    }

    /// The oldest version that this one can be read as.
    pub fn last_comp_version(&self) -> (r: u32)
        ensures
            r == self@.header.last_comp_version,
    {
        self.header.last_comp_version
    }

    /// The physical id of the boot CPU.
    pub fn boot_cpuid_phys(&self) -> (r: u32)
        ensures
            r == self@.header.boot_cpuid_phys,
    {
        self.header.boot_cpuid_phys
    }

    /// The size of the strings block.
    pub fn size_dt_strings(&self) -> (r: u32)
        ensures
            r == self@.header.size_dt_strings,
    {
        self.header.size_dt_strings
    }

    /// The size of the structure block.
    pub fn size_dt_struct(&self) -> (r: u32)
        ensures
            r == self@.header.size_dt_struct,
    {
        self.header.size_dt_struct
    }

    /// The blob that the tree was read from.
    pub fn buf(&self) -> (r: &'a [u8])
        ensures
            self@.wf(),
            self@.header.off_dt_strings + self@.header.size_dt_strings <= r@.len(),
            self@.strings == r@.subrange(
                self@.header.off_dt_strings as int,
                self@.header.off_dt_strings + self@.header.size_dt_strings,
            ),
    {
        proof {
            use_type_invariant(self);
        }
        self.buf
    }

    /// The strings block of the tree.
    pub fn strings(&self) -> (r: &'a [u8])
        ensures
            r@ == self@.strings,
    {
        proof {
            use_type_invariant(self);
            vstd::slice::axiom_spec_len(self.buf);
        }
        let from = self.header.off_dt_strings as usize;
        slice_subrange(self.buf, from, from + self.header.size_dt_strings as usize)
    }

    /// The entries of the memory reservation block.
    pub fn reserved_entries(&self) -> (r: &[ReserveEntry])
        ensures
            r@ == self@.reserved,
    {
        self.reserved.as_slice()
    }

    /// The tokens of the structure block.
    pub fn tokens(&self) -> (r: &[ParsedTok<'a>])
        ensures
            self@.wf(),
            token_views(r@) == self@.tokens,
    {
        proof {
            use_type_invariant(self);
        }
        self.tokens.as_slice()
    }
}

} // verus!
