//! One turn of the pass in terms of bytes: what the buffer holds once a
//! token was written, shown to the filter and kept, dropped or resized.

use crate::layout::{
    encoding, lemma_holds_part, lemma_tokens_at_frame, lemma_tokens_len,
    lemma_tokens_len_push, token_len, token_wf, tokens_at, tokens_len, Token, FDT_PROP,
};
use crate::modify::modtoken::ModifyTokenResponse;
use crate::modify::pass::response_result;
use crate::modify::trace::{directive_valid, grown, outcome, step_fits, Step};
use crate::priv_util::{
    be32, holds_at, lemma_holds_append, lemma_holds_frame, lemma_splice, lemma_splice_keeps,
    splice,
};
use vstd::prelude::*;

verus! {

/// The buffer once an answer was followed: with the length field of the
/// property set anew for `ModifySize`, unchanged else.
pub open spec fn response_image(
    before: Seq<u8>,
    token: Token,
    node_offset: usize,
    response: ModifyTokenResponse,
) -> Seq<u8> {
    match (response, token) {
        (ModifyTokenResponse::ModifySize(n), Token::Prop { name_offset, .. }) => splice(
            splice(before, node_offset + 4, be32(n as u32)),
            node_offset + 8,
            be32(name_offset as u32),
        ),
        _ => before,
    }
}

/// What showing a token leaves: `written` is the buffer with the token at
/// `node`, `answered` the buffer once the filter has seen the token, and the
/// step holds what the filter's window held before and after.
pub open spec fn shown(
    before: Seq<u8>,
    written: Seq<u8>,
    answered: Seq<u8>,
    src: Token,
    node: usize,
    step: Step,
) -> bool {
    &&& written.len() == before.len()
    &&& answered.len() == before.len()
    &&& holds_at(written, node as int, encoding(src))
    &&& forall|i: int| 0 <= i < node ==> written[i] == before[i]
    &&& src is Prop ==> forall|i: int| 0 <= i < node + 12 ==> answered[i] == written[i]
    &&& !(src is Prop) ==> answered == written
    &&& step.before == if src is Prop {
        written.skip(node + 12)
    } else {
        Seq::empty()
    }
    &&& step.after == if src is Prop {
        answered.skip(node + 12)
    } else {
        Seq::empty()
    }
}

/// What was written and shown is what `shown` says, and the step is one that
/// can be taken on the token.
#[verifier::rlimit(30)]
pub proof fn lemma_shown(
    before: Seq<u8>,
    written: Seq<u8>,
    answered: Seq<u8>,
    src: Token,
    node: usize,
    step: Step,
)
    requires
        node + encoding(src).len() <= before.len(),
        written == splice(before, node as int, encoding(src)),
        answered.len() == written.len(),
        src is Prop ==> answered.take(node + 12) == written.take(node + 12),
        !(src is Prop) ==> answered == written,
        step.before == if src is Prop {
            written.skip(node + 12)
        } else {
            Seq::empty()
        },
        step.after == if src is Prop {
            answered.skip(node + 12)
        } else {
            Seq::empty()
        },
    ensures
        shown(before, written, answered, src, node, step),
        step_fits(src, step),
{
    lemma_splice(before, node as int, encoding(src));
    if src is Prop {
        lemma_prop_fields(written, node as int, src->name_offset, src->value);
        assert(step.before.take(src->value.len() as int) =~= src->value);
        assert forall|i: int| 0 <= i < node + 12 implies answered[i] == written[i] by {
            assert(answered.take(node + 12)[i] == answered[i]);
            assert(written.take(node + 12)[i] == written[i]);
        }
    }
}

/// A token that was written behind the tokens of a block is one more token
/// of the block, whatever happened to the bytes behind the block meanwhile.
pub proof fn lemma_token_kept(
    before: Seq<u8>,
    after: Seq<u8>,
    start: int,
    tokens: Seq<Token>,
    token: Token,
)
    requires
        0 <= start,
        before.len() == after.len(),
        tokens_at(before, start, tokens),
        forall|i: int| start <= i < start + tokens_len(tokens) && i < before.len() ==> before[i]
            == after[i],
        holds_at(after, start + tokens_len(tokens), encoding(token)),
    ensures
        tokens_at(after, start, tokens.push(token)),
        tokens_len(tokens.push(token)) == tokens_len(tokens) + token_len(token),
{
    lemma_tokens_at_frame(before, after, start, tokens);
    lemma_tokens_len_push(tokens, token);
    assert(tokens.push(token).drop_last() =~= tokens);
}

/// A tag, a length, the place of a name and as many bytes behind them as
/// the length says are a property.
pub proof fn lemma_prop_held(image: Seq<u8>, node: int, name_offset: int, n: int)
    requires
        0 <= n,
        node + 12 + n <= image.len(),
        holds_at(image, node, be32(FDT_PROP)),
        holds_at(image, node + 4, be32(n as u32)),
        holds_at(image, node + 8, be32(name_offset as u32)),
    ensures
        holds_at(
            image,
            node,
            encoding(
                Token::Prop { name_offset, value: image.subrange(node + 12, node + 12 + n) },
            ),
        ),
{
    let value = image.subrange(node + 12, node + 12 + n);
    lemma_holds_append(image, node, be32(FDT_PROP), be32(n as u32));
    lemma_holds_append(
        image,
        node,
        be32(FDT_PROP) + be32(n as u32),
        be32(name_offset as u32),
    );
    assert(holds_at(image, node + 12, value));
    lemma_holds_append(
        image,
        node,
        be32(FDT_PROP) + be32(n as u32) + be32(name_offset as u32),
        value,
    );
}

/// Where a property was written its tag, its length and the place of its
/// name lie one behind the other.
pub proof fn lemma_prop_fields(image: Seq<u8>, node: int, name_offset: int, value: Seq<u8>)
    requires
        holds_at(image, node, encoding(Token::Prop { name_offset, value })),
    ensures
        holds_at(image, node, be32(FDT_PROP)),
        holds_at(image, node + 4, be32(value.len() as u32)),
        holds_at(image, node + 8, be32(name_offset as u32)),
        holds_at(image, node + 12, value),
        node + 12 + value.len() <= image.len(),
{
    let enc = encoding(Token::Prop { name_offset, value });
    lemma_holds_part(image, node, enc, 0, 4);
    lemma_holds_part(image, node, enc, 4, 8);
    lemma_holds_part(image, node, enc, 8, 12);
    lemma_holds_part(image, node, enc, 12, enc.len() as int);
    assert(enc.subrange(0, 4) =~= be32(FDT_PROP));
    assert(enc.subrange(4, 8) =~= be32(value.len() as u32));
    assert(enc.subrange(8, 12) =~= be32(name_offset as u32));
    assert(enc.subrange(12, enc.len() as int) =~= value);
}

/// A property that the filter saw is a property still: with the value that
/// the filter left in the window, in the old length where the answer was
/// `Pass`, in the new one where the length field was set anew.
#[verifier::rlimit(30)]
pub proof fn lemma_prop_answered(
    written: Seq<u8>,
    answered: Seq<u8>,
    after: Seq<u8>,
    at: int,
    name_offset: int,
    value: Seq<u8>,
    n: int,
    resized: bool,
)
    requires
        0 <= at,
        0 <= n <= u32::MAX,
        at + 12 + n <= written.len(),
        answered.len() == written.len(),
        holds_at(written, at, encoding(Token::Prop { name_offset, value })),
        forall|i: int| 0 <= i < at + 12 ==> answered[i] == written[i],
        resized ==> after == splice(
            splice(answered, at + 4, be32(n as u32)),
            at + 8,
            be32(name_offset as u32),
        ),
        !resized ==> after == answered && n == value.len(),
    ensures
        after.len() == answered.len(),
        forall|i: int| 0 <= i < at ==> after[i] == answered[i],
        holds_at(
            after,
            at,
            encoding(
                Token::Prop { name_offset, value: answered.subrange(at + 12, at + 12 + n) },
            ),
        ),
{
    lemma_prop_fields(written, at, name_offset, value);
    lemma_holds_frame(written, answered, at, be32(FDT_PROP));
    lemma_holds_frame(written, answered, at + 4, be32(value.len() as u32));
    lemma_holds_frame(written, answered, at + 8, be32(name_offset as u32));
    if resized {
        let first = splice(answered, at + 4, be32(n as u32));
        lemma_splice(answered, at + 4, be32(n as u32));
        lemma_splice(first, at + 8, be32(name_offset as u32));
        lemma_splice_keeps(first, at + 8, be32(name_offset as u32), at + 4, be32(n as u32));
        lemma_holds_frame(answered, after, at, be32(FDT_PROP));
        assert(after.subrange(at + 12, at + 12 + n) =~= answered.subrange(at + 12, at + 12 + n));
    }
    lemma_prop_held(after, at, name_offset, n);
}

/// One turn of the pass. A token was written behind the tokens that the
/// block holds, the filter saw it and answered, and the answer was followed:
/// the block then holds what the step makes of the token.
#[verifier::rlimit(30)]
pub proof fn lemma_turn(
    before: Seq<u8>,
    written: Seq<u8>,
    answered: Seq<u8>,
    after: Seq<u8>,
    start: int,
    kept: Seq<Token>,
    src: Token,
    step: Step,
    node: usize,
)
    requires
        0 <= start,
        start % 4 == 0,
        token_wf(src),
        tokens_at(before, start, kept),
        node == start + tokens_len(kept),
        shown(before, written, answered, src, node, step),
        response_result(src, node, step.response, before.len()) is Ok,
        after == response_image(answered, src, node, step.response),
    ensures
        directive_valid(src, step),
        tokens_at(after, start, grown(kept, outcome(src, step))),
        tokens_len(grown(kept, outcome(src, step))) == tokens_len(kept) + tokens_len(
            grown(Seq::empty(), outcome(src, step)),
        ),
        after.len() == before.len(),
        forall|i: int| 0 <= i < node ==> after[i] == before[i],
{
    if step.response is Drop {
        lemma_turn_drop(before, after, start, kept, node);
    } else if src is Prop {
        lemma_turn_prop(before, written, answered, after, start, kept, src, step, node);
        lemma_tokens_len_push(Seq::empty(), outcome(src, step)->Some_0);
    } else {
        lemma_token_kept(before, after, start, kept, src);
        lemma_tokens_len_push(Seq::empty(), src);
    }
}

/// The turn of a token that goes.
pub proof fn lemma_turn_drop(
    before: Seq<u8>,
    after: Seq<u8>,
    start: int,
    kept: Seq<Token>,
    node: usize,
)
    requires
        0 <= start,
        tokens_at(before, start, kept),
        node == start + tokens_len(kept),
        after.len() == before.len(),
        forall|i: int| 0 <= i < node ==> after[i] == before[i],
    ensures
        tokens_at(after, start, kept),
{
    lemma_tokens_at_frame(before, after, start, kept);
}

/// The turn of a property that stays.
#[verifier::rlimit(30)]
pub proof fn lemma_turn_prop(
    before: Seq<u8>,
    written: Seq<u8>,
    answered: Seq<u8>,
    after: Seq<u8>,
    start: int,
    kept: Seq<Token>,
    src: Token,
    step: Step,
    node: usize,
)
    requires
        0 <= start,
        start % 4 == 0,
        src is Prop,
        token_wf(src),
        !(step.response is Drop),
        tokens_at(before, start, kept),
        node == start + tokens_len(kept),
        written.len() == before.len(),
        holds_at(written, node as int, encoding(src)),
        forall|i: int| 0 <= i < node ==> written[i] == before[i],
        answered.len() == written.len(),
        forall|i: int| 0 <= i < node + 12 ==> answered[i] == written[i],
        step.before == written.skip(node + 12),
        step.after == answered.skip(node + 12),
        response_result(src, node, step.response, before.len()) is Ok,
        after == response_image(answered, src, node, step.response),
    ensures
        step_fits(src, step),
        directive_valid(src, step),
        outcome(src, step) is Some,
        tokens_at(after, start, kept.push(outcome(src, step)->Some_0)),
        encoding(outcome(src, step)->Some_0).len() == match step.response {
            ModifyTokenResponse::ModifySize(n) => 12 + n,
            _ => encoding(src).len() as int,
        },
        tokens_len(kept.push(outcome(src, step)->Some_0)) == tokens_len(kept) + token_len(
            outcome(src, step)->Some_0,
        ),
        after.len() == before.len(),
        forall|i: int| 0 <= i < node ==> after[i] == before[i],
{
    let at = node as int;
    let name_offset = src->name_offset;
    let value = src->value;
    lemma_tokens_len(kept);
    lemma_prop_fields(written, at, name_offset, value);
    assert(step.before.take(value.len() as int) =~= value);
    let resized = step.response is ModifySize;
    let n = match step.response {
        ModifyTokenResponse::ModifySize(size) => size as int,
        _ => value.len() as int,
    };
    let new = Token::Prop { name_offset, value: answered.subrange(at + 12, at + 12 + n) };
    lemma_prop_answered(written, answered, after, at, name_offset, value, n, resized);
    assert(step.after.take(n) =~= answered.subrange(at + 12, at + 12 + n));
    assert(outcome(src, step) == Some(new));
    lemma_token_kept(before, after, start, kept, new);
}

} // verus!
