//! What a pass over the tokens amounts to: for every token of the source one
//! step, the filter's answer and the bytes it left, and from the steps the
//! tokens that the rewritten tree holds.

use crate::layout::{token_wf, tokens_wf, Token};
use crate::modify::modtoken::ModifyTokenResponse;
use vstd::prelude::*;

verus! {

/// One call of the filter: its answer, and what its window held before the
/// call and after it. For a token that is no property the window is empty.
pub struct Step {
    pub response: ModifyTokenResponse,
    pub before: Seq<u8>,
    pub after: Seq<u8>,
}

/// The size that the filter is told with a token: the length of a node's
/// name or of a property's value, and nothing for the other tokens.
pub open spec fn payload_size(src: Token) -> usize {
    match src {
        Token::BeginNode { name } => name.len() as usize,
        Token::Prop { value, .. } => value.len() as usize,
        _ => 0,
    }
}

/// The step is one that can be taken on `src`: the window of a property
/// starts with the property's value and keeps its length, and another token
/// has no window.
pub open spec fn step_fits(src: Token, step: Step) -> bool {
    match src {
        Token::Prop { value, .. } => {
            &&& step.before.len() == step.after.len()
            &&& value.len() <= step.before.len()
            &&& step.before.take(value.len() as int) == value
        },
        _ => step.before == Seq::<u8>::empty() && step.after == Seq::<u8>::empty(),
    }
}

/// The answer is one that the writer follows: a new size is given to a
/// property only, fits a 32-bit field and lies inside the window.
pub open spec fn directive_valid(src: Token, step: Step) -> bool {
    match step.response {
        ModifyTokenResponse::ModifySize(n) => src is Prop && n <= u32::MAX && n
            <= step.after.len(),
        _ => true,
    }
}

/// The filter answered `Pass` and left its window as it found it.
pub open spec fn untouched(step: Step) -> bool {
    step.response is Pass && step.after == step.before
}

/// What becomes of `src` in a step: nothing where it is dropped, else the
/// token that stays. A property that stays has the value that the filter
/// left in its window, in the old length or in the one it answered.
pub open spec fn outcome(src: Token, step: Step) -> Option<Token> {
    match step.response {
        ModifyTokenResponse::Pass => Some(
            match src {
                Token::Prop { name_offset, value } => Token::Prop {
                    name_offset,
                    value: step.after.take(value.len() as int),
                },
                _ => src,
            },
        ),
        ModifyTokenResponse::Drop => None,
        ModifyTokenResponse::ModifySize(n) => Some(
            match src {
                Token::Prop { name_offset, .. } => Token::Prop {
                    name_offset,
                    value: step.after.take(n as int),
                },
                _ => src,
            },
        ),
    }
}

/// The tokens of a block and what became of one more.
pub open spec fn grown(kept: Seq<Token>, more: Option<Token>) -> Seq<Token> {
    match more {
        Some(token) => kept.push(token),
        None => kept,
    }
}

/// The tokens that stay when the steps are taken on the tokens `srcs`, one
/// step for each token, in their order.
pub open spec fn emitted(srcs: Seq<Token>, steps: Seq<Step>) -> Seq<Token>
    decreases srcs.len(),
{
    if srcs.len() == 0 || steps.len() == 0 {
        Seq::empty()
    } else {
        let rest = emitted(srcs.drop_last(), steps.drop_last());
        match outcome(srcs.last(), steps.last()) {
            Some(token) => rest.push(token),
            None => rest,
        }
    }
}

/// A pass in which the filter answers `Pass` every time and changes nothing
/// keeps every token: the rewritten tree holds the tokens of the source, in
/// their order.
pub proof fn lemma_pass_keeps_all(srcs: Seq<Token>, steps: Seq<Step>)
    requires
        steps.len() == srcs.len(),
        forall|i: int|
            0 <= i < srcs.len() ==> step_fits(srcs[i], #[trigger] steps[i]) && untouched(steps[i]),
    ensures
        emitted(srcs, steps) == srcs,
    decreases srcs.len(),
{
    if srcs.len() > 0 {
        lemma_pass_keeps_all(srcs.drop_last(), steps.drop_last());
        assert(untouched(steps[steps.len() - 1]));
        assert(srcs =~= srcs.drop_last().push(srcs.last()));
    } else {
        assert(srcs =~= Seq::<Token>::empty());
    }
}

/// A pass that drops the one token with index `k` and passes every other
/// token without a change takes exactly that token out.
pub proof fn lemma_drop_removes_one(srcs: Seq<Token>, steps: Seq<Step>, k: int)
    requires
        steps.len() == srcs.len(),
        0 <= k < srcs.len(),
        steps[k].response is Drop,
        forall|i: int|
            0 <= i < srcs.len() && i != k ==> step_fits(srcs[i], #[trigger] steps[i])
                && untouched(steps[i]),
    ensures
        emitted(srcs, steps) == srcs.remove(k),
    decreases srcs.len(),
{
    let last = srcs.len() - 1;
    if k == last {
        lemma_pass_keeps_all(srcs.drop_last(), steps.drop_last());
        assert(srcs.remove(k) =~= srcs.drop_last());
    } else {
        lemma_drop_removes_one(srcs.drop_last(), steps.drop_last(), k);
        assert(untouched(steps[last]));
        assert(srcs.remove(k) =~= srcs.drop_last().remove(k).push(srcs.last()));
    }
}

/// A pass that gives the one property with index `k` a new size and passes
/// every other token without a change replaces exactly that property's
/// value: by the first bytes of what the filter left in its window, as many
/// as it answered.
pub proof fn lemma_resize_replaces_value(srcs: Seq<Token>, steps: Seq<Step>, k: int, n: usize)
    requires
        steps.len() == srcs.len(),
        0 <= k < srcs.len(),
        srcs[k] is Prop,
        steps[k].response == ModifyTokenResponse::ModifySize(n),
        forall|i: int|
            0 <= i < srcs.len() && i != k ==> step_fits(srcs[i], #[trigger] steps[i])
                && untouched(steps[i]),
    ensures
        emitted(srcs, steps) == srcs.update(
            k,
            Token::Prop { name_offset: srcs[k]->name_offset, value: steps[k].after.take(n as int) },
        ),
    decreases srcs.len(),
{
    let last = srcs.len() - 1;
    let new = Token::Prop {
        name_offset: srcs[k]->name_offset,
        value: steps[k].after.take(n as int),
    };
    if k == last {
        lemma_pass_keeps_all(srcs.drop_last(), steps.drop_last());
        assert(srcs.update(k, new) =~= srcs.drop_last().push(new));
    } else {
        lemma_resize_replaces_value(srcs.drop_last(), steps.drop_last(), k, n);
        assert(untouched(steps[last]));
        assert(srcs.update(k, new) =~= srcs.drop_last().update(k, new).push(srcs.last()));
    }
}

/// Well-formed tokens stay well formed under steps that the writer follows.
pub proof fn lemma_emitted_wf(srcs: Seq<Token>, steps: Seq<Step>)
    requires
        steps.len() == srcs.len(),
        tokens_wf(srcs),
        forall|i: int|
            0 <= i < srcs.len() ==> step_fits(srcs[i], #[trigger] steps[i]) && directive_valid(
                srcs[i],
                steps[i],
            ),
    ensures
        tokens_wf(emitted(srcs, steps)),
        emitted(srcs, steps).len() <= srcs.len(),
    decreases srcs.len(),
{
    if srcs.len() > 0 {
        let last = srcs.len() - 1;
        lemma_emitted_wf(srcs.drop_last(), steps.drop_last());
        assert(token_wf(srcs[last]));
        assert(step_fits(srcs[last], steps[last]) && directive_valid(srcs[last], steps[last]));
    }
}

/// One more token and one more step add what becomes of that token.
pub proof fn lemma_emitted_push(srcs: Seq<Token>, steps: Seq<Step>, src: Token, step: Step)
    requires
        steps.len() == srcs.len(),
    ensures
        emitted(srcs.push(src), steps.push(step)) == match outcome(src, step) {
            Some(token) => emitted(srcs, steps).push(token),
            None => emitted(srcs, steps),
        },
{
    assert(srcs.push(src).drop_last() =~= srcs);
    assert(steps.push(step).drop_last() =~= steps);
}

} // verus!
