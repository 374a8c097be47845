//! The wire format of the structure block: how a token is laid down as
//! bytes, and what it means for a byte image to hold a sequence of tokens.

use crate::priv_util::{be32, holds_at, lemma_be32_round_trip};
use vstd::prelude::*;

verus! {

/// The number that opens every device tree blob.
pub const FDT_MAGIC: u32 = 0xd00d_feed;

/// Tag of a token that opens a node.
pub const FDT_BEGIN_NODE: u32 = 1;

/// Tag of a token that closes a node.
pub const FDT_END_NODE: u32 = 2;

/// Tag of a property.
pub const FDT_PROP: u32 = 3;

/// Tag of a filler token.
pub const FDT_NOP: u32 = 4;

/// Tag that closes the structure block.
pub const FDT_END: u32 = 9;

/// Bytes taken by the header.
pub const FDT_HEADER_LEN: usize = 40;

/// Bytes taken by one entry of the memory reservation block.
pub const FDT_RESERVE_ENTRY_LEN: usize = 16;

/// A structural token, as a mathematical value.
pub enum Token {
    BeginNode { name: Seq<u8> },
    EndNode,
    Prop { name_offset: int, value: Seq<u8> },
    Nop,
}

/// `n` rounded up to the next multiple of four.
pub open spec fn align4(n: int) -> int {
    if n % 4 == 0 {
        n
    } else {
        n + 4 - n % 4
    }
}

/// No byte of `name` is zero.
pub open spec fn nul_free(name: Seq<u8>) -> bool {
    forall|i: int| 0 <= i < name.len() ==> name[i] != 0
}

/// The token can be laid down and read back: the name of a node holds no
/// zero byte, and the numbers of a property fit their 32-bit fields.
pub open spec fn token_wf(t: Token) -> bool {
    match t {
        Token::BeginNode { name } => nul_free(name),
        Token::Prop { name_offset, value } => 0 <= name_offset <= u32::MAX && value.len()
            <= u32::MAX,
        _ => true,
    }
}

/// Every token of the sequence is well formed.
pub open spec fn tokens_wf(ts: Seq<Token>) -> bool {
    forall|i: int| 0 <= i < ts.len() ==> token_wf(#[trigger] ts[i])
}

/// The bytes of a token, without the padding behind it. A node without a
/// name is closed by a whole zero word.
pub open spec fn encoding(t: Token) -> Seq<u8> {
    match t {
        Token::BeginNode { name } => be32(FDT_BEGIN_NODE) + (if name.len() == 0 {
            be32(0)
        } else {
            name.push(0u8)
        }),
        Token::EndNode => be32(FDT_END_NODE),
        Token::Prop { name_offset, value } => be32(FDT_PROP) + be32(value.len() as u32) + be32(
            name_offset as u32,
        ) + value,
        Token::Nop => be32(FDT_NOP),
    }
}

/// The bytes a token takes in the structure block, padding included.
pub open spec fn token_len(t: Token) -> int {
    align4(encoding(t).len() as int)
}

/// The bytes a sequence of tokens takes, padding included.
pub open spec fn tokens_len(ts: Seq<Token>) -> int
    decreases ts.len(),
{
    if ts.len() == 0 {
        0
    } else {
        tokens_len(ts.drop_last()) + token_len(ts.last())
    }
}

/// The image `s` holds the tokens `ts` from `start` on, one behind the other,
/// each padded to a multiple of four. Padding bytes may hold anything.
pub open spec fn tokens_at(s: Seq<u8>, start: int, ts: Seq<Token>) -> bool
    decreases ts.len(),
{
    ts.len() == 0 || (tokens_at(s, start, ts.drop_last()) && holds_at(
        s,
        start + tokens_len(ts.drop_last()),
        encoding(ts.last()),
    ))
}

/// The image `s` holds a whole structure block at `start`: the tokens `ts`
/// and, behind them, the closing tag.
pub open spec fn structure_at(s: Seq<u8>, start: int, ts: Seq<Token>) -> bool {
    &&& tokens_at(s, start, ts)
    &&& holds_at(s, start + tokens_len(ts), be32(FDT_END))
}

/// Offset of the token with index `i`, counted from the start of the block.
pub open spec fn token_offset(ts: Seq<Token>, i: int) -> int {
    tokens_len(ts.take(i))
}

pub proof fn lemma_align4(n: int)
    requires
        0 <= n,
    ensures
        n <= align4(n) < n + 4,
        align4(n) % 4 == 0,
        n % 4 == 0 ==> align4(n) == n,
{
}

/// Rounding up from a multiple of four on is rounding up what was added.
pub proof fn lemma_align_shift(base: int, more: int)
    requires
        base % 4 == 0,
        0 <= more,
    ensures
        align4(base + more) == base + align4(more),
        align4(base) == base,
{
}

/// The bytes that the encoding of a token takes.
pub proof fn lemma_encoding_len(t: Token)
    ensures
        encoding(t).len() == match t {
            Token::BeginNode { name } => if name.len() == 0 {
                8
            } else {
                5 + name.len()
            },
            Token::Prop { value, .. } => 12 + value.len(),
            _ => 4,
        },
{
}

/// A token takes at least its tag and always a multiple of four bytes.
pub proof fn lemma_token_len(t: Token)
    ensures
        4 <= encoding(t).len() <= token_len(t) < encoding(t).len() + 4,
        token_len(t) % 4 == 0,
        encoding(t).subrange(0, 4) == be32(
            match t {
                Token::BeginNode { .. } => FDT_BEGIN_NODE,
                Token::EndNode => FDT_END_NODE,
                Token::Prop { .. } => FDT_PROP,
                Token::Nop => FDT_NOP,
            },
        ),
{
    lemma_align4(encoding(t).len() as int);
    match t {
        Token::BeginNode { name } => {
            assert(encoding(t).subrange(0, 4) =~= be32(FDT_BEGIN_NODE));
        },
        Token::EndNode => {
            assert(encoding(t).subrange(0, 4) =~= be32(FDT_END_NODE));
        },
        Token::Prop { name_offset, value } => {
            assert(encoding(t).subrange(0, 4) =~= be32(FDT_PROP));
        },
        Token::Nop => {
            assert(encoding(t).subrange(0, 4) =~= be32(FDT_NOP));
        },
    }
}

/// A sequence of tokens takes a multiple of four bytes.
pub proof fn lemma_tokens_len(ts: Seq<Token>)
    ensures
        0 <= tokens_len(ts),
        tokens_len(ts) % 4 == 0,
        4 * ts.len() <= tokens_len(ts),
    decreases ts.len(),
{
    if ts.len() > 0 {
        lemma_tokens_len(ts.drop_last());
        lemma_token_len(ts.last());
    }
}

/// One more token at the end adds its own length.
pub proof fn lemma_tokens_len_push(ts: Seq<Token>, t: Token)
    ensures
        tokens_len(ts.push(t)) == tokens_len(ts) + token_len(t),
{
    assert(ts.push(t).drop_last() =~= ts);
}

/// The length of a sequence is that of its first token and of the rest.
pub proof fn lemma_tokens_len_front(ts: Seq<Token>)
    requires
        ts.len() > 0,
    ensures
        tokens_len(ts) == token_len(ts[0]) + tokens_len(ts.skip(1)),
    decreases ts.len(),
{
    if ts.len() == 1 {
        assert(ts.drop_last() =~= Seq::<Token>::empty());
        assert(ts.skip(1) =~= Seq::<Token>::empty());
    } else {
        lemma_tokens_len_front(ts.drop_last());
        assert(ts.drop_last().skip(1) =~= ts.skip(1).drop_last());
        assert(ts.skip(1).last() == ts.last());
        assert(ts.drop_last()[0] == ts[0]);
    }
}

/// Offsets do not exceed the length of the whole sequence.
pub proof fn lemma_token_offset_grows(ts: Seq<Token>, i: int)
    requires
        0 <= i <= ts.len(),
    ensures
        token_offset(ts, i) <= tokens_len(ts),
        i < ts.len() ==> token_offset(ts, i) + token_len(ts[i]) <= tokens_len(ts),
    decreases ts.len(),
{
    if i == ts.len() {
        assert(ts.take(i) =~= ts);
    } else {
        lemma_token_offset_grows(ts.drop_last(), i);
        assert(ts.drop_last().take(i) =~= ts.take(i));
        lemma_token_len(ts.last());
        if i == ts.len() - 1 {
            assert(ts.take(i) =~= ts.drop_last());
        } else {
            assert(ts.drop_last()[i] == ts[i]);
        }
    }
}

/// A block holds each of its tokens at that token's offset, and where the
/// block starts at a multiple of four, so does every token in it.
pub proof fn lemma_tokens_at_index(s: Seq<u8>, start: int, ts: Seq<Token>, i: int)
    requires
        tokens_at(s, start, ts),
        0 <= i < ts.len(),
    ensures
        holds_at(s, start + token_offset(ts, i), encoding(ts[i])),
        0 <= token_offset(ts, i) <= tokens_len(ts),
        start % 4 == 0 ==> (start + token_offset(ts, i)) % 4 == 0,
    decreases ts.len(),
{
    lemma_tokens_len(ts.take(i));
    lemma_token_offset_grows(ts, i);
    if i == ts.len() - 1 {
        assert(ts.take(i) =~= ts.drop_last());
    } else {
        lemma_tokens_at_index(s, start, ts.drop_last(), i);
        assert(ts.drop_last().take(i) =~= ts.take(i));
    }
}

/// Two images that agree where the tokens lie hold the same tokens.
pub proof fn lemma_tokens_at_frame(s1: Seq<u8>, s2: Seq<u8>, start: int, ts: Seq<Token>)
    requires
        tokens_at(s1, start, ts),
        0 <= start,
        s1.len() == s2.len(),
        forall|i: int| start <= i < start + tokens_len(ts) && i < s1.len() ==> s1[i] == s2[i],
    ensures
        tokens_at(s2, start, ts),
    decreases ts.len(),
{
    if ts.len() > 0 {
        let rest = ts.drop_last();
        lemma_tokens_len(rest);
        lemma_token_len(ts.last());
        lemma_tokens_at_frame(s1, s2, start, rest);
        let at = start + tokens_len(rest);
        let enc = encoding(ts.last());
        assert(s2.subrange(at, at + enc.len()) =~= s1.subrange(at, at + enc.len()));
    }
}

/// A block that holds some tokens holds the first of them at its start and
/// the others behind that one.
pub proof fn lemma_tokens_at_front(s: Seq<u8>, start: int, ts: Seq<Token>)
    requires
        tokens_at(s, start, ts),
        ts.len() > 0,
    ensures
        holds_at(s, start, encoding(ts[0])),
        tokens_at(s, start + token_len(ts[0]), ts.skip(1)),
    decreases ts.len(),
{
    if ts.len() == 1 {
        assert(ts.drop_last() =~= Seq::<Token>::empty());
        assert(ts.skip(1) =~= Seq::<Token>::empty());
    } else {
        let rest = ts.drop_last();
        lemma_tokens_at_front(s, start, rest);
        assert(rest[0] == ts[0]);
        assert(rest.skip(1) =~= ts.skip(1).drop_last());
        assert(ts.skip(1).last() == ts.last());
        lemma_tokens_len_front(rest);
    }
}

/// Part of what an image holds at a place, it holds at the place of that part.
pub proof fn lemma_holds_part(s: Seq<u8>, at: int, bytes: Seq<u8>, i: int, j: int)
    requires
        holds_at(s, at, bytes),
        0 <= i <= j <= bytes.len(),
    ensures
        holds_at(s, at + i, bytes.subrange(i, j)),
{
    assert(s.subrange(at + i, at + j) =~= s.subrange(at, at + bytes.len()).subrange(i, j));
}

/// The tag that opens the encoding of a token.
pub open spec fn token_tag(t: Token) -> u32 {
    match t {
        Token::BeginNode { .. } => FDT_BEGIN_NODE,
        Token::EndNode => FDT_END_NODE,
        Token::Prop { .. } => FDT_PROP,
        Token::Nop => FDT_NOP,
    }
}

/// The bytes at one place are the encoding of at most one well-formed token.
#[verifier::rlimit(30)]
pub proof fn lemma_token_unique(s: Seq<u8>, at: int, x: Token, y: Token)
    requires
        holds_at(s, at, encoding(x)),
        holds_at(s, at, encoding(y)),
        token_wf(x),
        token_wf(y),
    ensures
        x == y,
{
    lemma_token_len(x);
    lemma_token_len(y);
    lemma_holds_part(s, at, encoding(x), 0, 4);
    lemma_holds_part(s, at, encoding(y), 0, 4);
    lemma_be32_round_trip(token_tag(x));
    lemma_be32_round_trip(token_tag(y));
    assert(token_tag(x) == token_tag(y));
    assert(be32(0)[0] == 0u8) by {
        assert((0u32 >> 24) & 0xff == 0) by (bit_vector);
    }
    match (x, y) {
        (Token::BeginNode { name: nx }, Token::BeginNode { name: ny }) => {
            let ex = encoding(x);
            let ey = encoding(y);
            assert forall|j: int| 0 <= j < nx.len() implies s[at + 4 + j] == nx[j] by {
                assert(s.subrange(at, at + ex.len())[4 + j] == ex[4 + j]);
            }
            assert forall|j: int| 0 <= j < ny.len() implies s[at + 4 + j] == ny[j] by {
                assert(s.subrange(at, at + ey.len())[4 + j] == ey[4 + j]);
            }
            assert(s[at + 4 + nx.len()] == 0) by {
                let end = 4 + nx.len() as int;
                assert(s.subrange(at, at + ex.len())[end] == ex[end]);
            }
            assert(s[at + 4 + ny.len()] == 0) by {
                let end = 4 + ny.len() as int;
                assert(s.subrange(at, at + ey.len())[end] == ey[end]);
            }
            if nx.len() < ny.len() {
                assert(ny[nx.len() as int] != 0);
                assert(false);
            }
            if ny.len() < nx.len() {
                assert(nx[ny.len() as int] != 0);
                assert(false);
            }
            assert(nx =~= ny);
        },
        (
            Token::Prop { name_offset: ox, value: vx },
            Token::Prop { name_offset: oy, value: vy },
        ) => {
            let ex = encoding(x);
            let ey = encoding(y);
            lemma_holds_part(s, at, ex, 4, 8);
            lemma_holds_part(s, at, ey, 4, 8);
            assert(ex.subrange(4, 8) =~= be32(vx.len() as u32));
            assert(ey.subrange(4, 8) =~= be32(vy.len() as u32));
            lemma_be32_round_trip(vx.len() as u32);
            lemma_be32_round_trip(vy.len() as u32);
            assert(vx.len() == vy.len());
            lemma_holds_part(s, at, ex, 8, 12);
            lemma_holds_part(s, at, ey, 8, 12);
            assert(ex.subrange(8, 12) =~= be32(ox as u32));
            assert(ey.subrange(8, 12) =~= be32(oy as u32));
            lemma_be32_round_trip(ox as u32);
            lemma_be32_round_trip(oy as u32);
            assert(ox == oy);
            lemma_holds_part(s, at, ex, 12, ex.len() as int);
            lemma_holds_part(s, at, ey, 12, ey.len() as int);
            assert(ex.subrange(12, ex.len() as int) =~= vx);
            assert(ey.subrange(12, ey.len() as int) =~= vy);
        },
        _ => {},
    }
}

/// What a structure block holds is decided by its bytes: whoever reads the
/// block back finds the tokens that were laid down, and no others.
#[verifier::rlimit(30)]
pub proof fn lemma_structure_unique(s: Seq<u8>, start: int, a: Seq<Token>, b: Seq<Token>)
    requires
        structure_at(s, start, a),
        structure_at(s, start, b),
        tokens_wf(a),
        tokens_wf(b),
    ensures
        a == b,
    decreases a.len(),
{
    lemma_be32_round_trip(FDT_END);
    if a.len() == 0 || b.len() == 0 {
        if a.len() > 0 {
            lemma_tokens_at_front(s, start, a);
            lemma_token_len(a[0]);
            lemma_holds_part(s, start, encoding(a[0]), 0, 4);
            lemma_be32_round_trip(token_tag(a[0]));
            assert(false);
        }
        if b.len() > 0 {
            lemma_tokens_at_front(s, start, b);
            lemma_token_len(b[0]);
            lemma_holds_part(s, start, encoding(b[0]), 0, 4);
            lemma_be32_round_trip(token_tag(b[0]));
            assert(false);
        }
        assert(a =~= b);
    } else {
        lemma_tokens_at_front(s, start, a);
        lemma_tokens_at_front(s, start, b);
        lemma_token_unique(s, start, a[0], b[0]);
        lemma_tokens_len_front(a);
        lemma_tokens_len_front(b);
        lemma_structure_unique(s, start + token_len(a[0]), a.skip(1), b.skip(1));
        assert(a =~= seq![a[0]] + a.skip(1));
        assert(b =~= seq![b[0]] + b.skip(1));
    }
}

} // verus!
