//! How a pass ends. The filter's answers decide it, so it is stated over the
//! steps that were taken: given the steps, the result of the pass is fixed.

use crate::base::TreeModel;
use crate::error::{out_of_room, DevTreeError, RESIZE_OF_NON_PROP};
use crate::layout::{
    align4, encoding, lemma_align4, lemma_align_shift, lemma_encoding_len, lemma_token_len,
    lemma_token_offset_grows, lemma_tokens_len, lemma_tokens_len_push, token_wf, tokens_len,
    tokens_wf, Token, FDT_HEADER_LEN,
};
use crate::modify::image::{image_len, lemma_reserve_bytes_len, strings_offset};
use crate::modify::modtoken::ModifyTokenResponse;
use crate::modify::trace::{
    directive_valid, emitted, grown, lemma_emitted_push, lemma_pass_keeps_all, outcome,
    step_fits, untouched, Step,
};
use vstd::prelude::*;

verus! {

/// How following an answer ends for a token at `node_offset` in a buffer
/// of `len` bytes: a new size is for a property alone, and the new value has
/// to lie inside the buffer and to fit a 32-bit length field.
pub open spec fn response_result(
    token: Token,
    node_offset: usize,
    response: ModifyTokenResponse,
    len: nat,
) -> Result<(), DevTreeError> {
    match response {
        ModifyTokenResponse::ModifySize(n) => match token {
            Token::Prop { name_offset, .. } => if node_offset + 12 + n > len {
                Err(out_of_room())
            } else if n > u32::MAX {
                Err(DevTreeError::ImageTooLarge)
            } else if name_offset > u32::MAX {
                Err(DevTreeError::ParseError)
            } else {
                Ok(())
            },
            _ => Err(DevTreeError::InvalidParameter(RESIZE_OF_NON_PROP)),
        },
        _ => Ok(()),
    }
}

/// The cursor once an answer was followed: where it stood for `Pass`, at
/// the token for `Drop`, behind the new value for `ModifySize`.
pub open spec fn response_cursor(
    cursor: usize,
    node_offset: usize,
    response: ModifyTokenResponse,
) -> int {
    match response {
        ModifyTokenResponse::Pass => cursor as int,
        ModifyTokenResponse::Drop => node_offset as int,
        ModifyTokenResponse::ModifySize(n) => node_offset + 12 + n,
    }
}

/// The token can be written at `cursor` into a buffer of `len` bytes, and
/// the cursor can be moved behind it, up to a multiple of four.
pub open spec fn token_fits(cursor: usize, src: Token, len: nat) -> bool {
    &&& cursor + encoding(src).len() <= len
    &&& align4(cursor + encoding(src).len()) <= usize::MAX
}

/// Where the cursor stands once the answer to the token at `node` was
/// followed, or the error that the answer ends the pass with.
pub open spec fn answer_result(
    src: Token,
    node: usize,
    response: ModifyTokenResponse,
    len: nat,
) -> Result<usize, DevTreeError> {
    match response_result(src, node, response, len) {
        Err(e) => Err(e),
        Ok(_) => {
            let cursor = align4(
                response_cursor(align4(node + encoding(src).len()) as usize, node, response),
            );
            if cursor <= usize::MAX {
                Ok(cursor as usize)
            } else {
                Err(out_of_room())
            }
        },
    }
}

/// Where the cursor stands once the steps were taken on the first tokens,
/// one step for each, or the error that ended the pass on the way.
#[verifier::opaque]
pub open spec fn replay(tokens: Seq<Token>, steps: Seq<Step>, start: usize, len: nat) -> Result<
    usize,
    DevTreeError,
>
    decreases steps.len(),
{
    if steps.len() == 0 {
        Ok(start)
    } else {
        match replay(tokens, steps.drop_last(), start, len) {
            Err(e) => Err(e),
            Ok(cursor) => if token_fits(cursor, tokens[steps.len() - 1], len) {
                answer_result(tokens[steps.len() - 1], cursor, steps.last().response, len)
            } else {
                Err(out_of_room())
            },
        }
    }
}

/// The steps of a pass and, where there is one, the step of one more turn.
pub open spec fn grown_steps(steps: Seq<Step>, more: Option<Step>) -> Seq<Step> {
    match more {
        Some(step) => steps.push(step),
        None => steps,
    }
}

/// The window that the filter had for the token with index `i` reached from
/// the first byte of the property's value to the end of the buffer.
pub open spec fn window_reaches(
    tokens: Seq<Token>,
    steps: Seq<Step>,
    start: usize,
    len: nat,
    i: int,
) -> bool {
    replay(tokens, steps.take(i), start, len) matches Ok(node) && node + 12
        + steps[i].before.len() == len
}

/// Every property that was shown had a window up to the end of the buffer.
pub open spec fn windows_reach(
    tokens: Seq<Token>,
    steps: Seq<Step>,
    start: usize,
    len: nat,
) -> bool {
    forall|i: int|
        0 <= i < steps.len() && tokens[i] is Prop ==> window_reaches(tokens, steps, start, len, i)
}

/// The steps are those of a pass over the tokens that went as far as it
/// could: each token that the filter saw had been written, and where a token
/// is left over there was no room to write it.
pub open spec fn structure_stops(
    tokens: Seq<Token>,
    steps: Seq<Step>,
    start: usize,
    len: nat,
) -> bool {
    &&& steps.len() <= tokens.len()
    &&& steps.len() > 0 ==> (replay(tokens, steps.drop_last(), start, len) matches Ok(cursor)
        && token_fits(cursor, tokens[steps.len() - 1], len))
    &&& steps.len() < tokens.len() ==> (replay(tokens, steps, start, len) matches Ok(cursor)
        ==> !token_fits(cursor, tokens[steps.len() as int], len))
}

/// How writing the structure block ends once the steps were taken: with the
/// size of the block, where every token had its step and the closing tag
/// fits behind the last.
pub open spec fn structure_result(
    tokens: Seq<Token>,
    steps: Seq<Step>,
    start: usize,
    len: nat,
) -> Result<usize, DevTreeError> {
    match replay(tokens, steps, start, len) {
        Err(e) => Err(e),
        Ok(cursor) => if steps.len() < tokens.len() || cursor + 4 > len {
            Err(out_of_room())
        } else {
            Ok((cursor + 4 - start) as usize)
        },
    }
}

/// The header and the memory reservation block of the tree fit into a
/// buffer of `len` bytes.
pub open spec fn blocks_fit(tree: TreeModel, len: nat) -> bool {
    &&& FDT_HEADER_LEN <= len
    &&& tree.reserved.len() == 0 || tree.header.off_mem_rsvmap + 16 * tree.reserved.len() <= len
}

/// How a pass ends behind a structure block of `size` bytes: with the size
/// of the tree, where the strings block fits behind the structure block and
/// 32-bit header fields can hold the offsets.
pub open spec fn closing_result(tree: TreeModel, size: usize, len: nat) -> Result<
    usize,
    DevTreeError,
> {
    let strings_at = tree.header.off_dt_struct + size;
    let total = align4(strings_at + tree.strings.len());
    if strings_at > u32::MAX {
        Err(DevTreeError::ImageTooLarge)
    } else if total > len {
        Err(out_of_room())
    } else if total > u32::MAX {
        Err(DevTreeError::ImageTooLarge)
    } else {
        Ok(total as usize)
    }
}

/// The steps are those of a pass over the tree that went as far as it
/// could. Where header or reservations do not fit, no step is taken.
pub open spec fn pass_stops(tree: TreeModel, steps: Seq<Step>, len: nat) -> bool {
    if blocks_fit(tree, len) {
        structure_stops(tree.tokens, steps, tree.header.off_dt_struct as usize, len)
    } else {
        steps.len() == 0
    }
}

/// How a pass over the tree ends once the steps were taken.
pub open spec fn pass_result(tree: TreeModel, steps: Seq<Step>, len: nat) -> Result<
    usize,
    DevTreeError,
> {
    if !blocks_fit(tree, len) {
        Err(out_of_room())
    } else {
        match structure_result(tree.tokens, steps, tree.header.off_dt_struct as usize, len) {
            Err(e) => Err(e),
            Ok(size) => closing_result(tree, size, len),
        }
    }
}

/// Before the first step the cursor stands at the start.
pub proof fn lemma_replay_none(tokens: Seq<Token>, start: usize, len: nat)
    ensures
        replay(tokens, Seq::empty(), start, len) == Ok::<usize, DevTreeError>(start),
{
    reveal_with_fuel(replay, 1);
}

/// The replay of some steps is that of all but the last, and then the last.
pub proof fn lemma_replay_last(tokens: Seq<Token>, steps: Seq<Step>, start: usize, len: nat)
    ensures
        steps.len() == 0 ==> replay(tokens, steps, start, len) == Ok::<usize, DevTreeError>(
            start,
        ),
        steps.len() > 0 ==> replay(tokens, steps, start, len) == match replay(
            tokens,
            steps.drop_last(),
            start,
            len,
        ) {
            Err(e) => Err(e),
            Ok(cursor) => if token_fits(cursor, tokens[steps.len() - 1], len) {
                answer_result(tokens[steps.len() - 1], cursor, steps.last().response, len)
            } else {
                Err(out_of_room())
            },
        },
{
    reveal_with_fuel(replay, 1);
}

/// The cursor of a replay never stands before the start.
pub proof fn lemma_replay_grows(tokens: Seq<Token>, steps: Seq<Step>, start: usize, len: nat)
    ensures
        replay(tokens, steps, start, len) matches Ok(cursor) ==> start <= cursor,
    decreases steps.len(),
{
    lemma_replay_last(tokens, steps, start, len);
    if steps.len() > 0 {
        lemma_replay_grows(tokens, steps.drop_last(), start, len);
        match replay(tokens, steps.drop_last(), start, len) {
            Ok(cursor) => {
                let src = tokens[steps.len() - 1];
                lemma_align4(cursor + encoding(src).len());
                lemma_align4(cursor as int);
                lemma_align4(
                    response_cursor(
                        align4(cursor + encoding(src).len()) as usize,
                        cursor,
                        steps.last().response,
                    ),
                );
            },
            Err(_) => {},
        }
    }
}

/// One more step is replayed behind the others.
pub proof fn lemma_replay_push(
    tokens: Seq<Token>,
    steps: Seq<Step>,
    step: Step,
    start: usize,
    len: nat,
)
    ensures
        replay(tokens, steps.push(step), start, len) == match replay(tokens, steps, start, len) {
            Err(e) => Err(e),
            Ok(cursor) => if token_fits(cursor, tokens[steps.len() as int], len) {
                answer_result(tokens[steps.len() as int], cursor, step.response, len)
            } else {
                Err(out_of_room())
            },
        },
{
    reveal_with_fuel(replay, 1);
    assert(steps.push(step).drop_last() =~= steps);
}

/// An answer that was followed took the cursor behind what stays of the
/// token.
#[verifier::rlimit(30)]
pub proof fn lemma_answer_cursor(src: Token, step: Step, cursor: usize, len: nat)
    requires
        cursor % 4 == 0,
        token_wf(src),
        step_fits(src, step),
        directive_valid(src, step),
        token_fits(cursor, src, len),
        answer_result(src, cursor, step.response, len) is Ok,
    ensures
        answer_result(src, cursor, step.response, len)->Ok_0 == cursor + tokens_len(
            grown(Seq::empty(), outcome(src, step)),
        ),
{
    let none = Seq::<Token>::empty();
    lemma_token_len(src);
    lemma_align_shift(cursor as int, encoding(src).len() as int);
    match outcome(src, step) {
        Some(new) => {
            lemma_tokens_len_push(none, new);
            lemma_token_len(new);
            lemma_encoding_len(new);
            lemma_encoding_len(src);
            lemma_align_shift(cursor as int, encoding(new).len() as int);
            match step.response {
                ModifyTokenResponse::Pass => {
                    assert(encoding(new).len() == encoding(src).len());
                },
                ModifyTokenResponse::ModifySize(n) => {
                    assert(src is Prop);
                    assert(new->value.len() == n);
                    assert(encoding(new).len() == 12 + n);
                },
                ModifyTokenResponse::Drop => {},
            }
        },
        None => {},
    }
}

/// A replay that went well took the cursor behind the tokens that stayed.
#[verifier::rlimit(30)]
pub proof fn lemma_replay_cursor(tokens: Seq<Token>, steps: Seq<Step>, start: usize, len: nat)
    requires
        start % 4 == 0,
        steps.len() <= tokens.len(),
        tokens_wf(tokens),
        forall|i: int|
            0 <= i < steps.len() ==> step_fits(tokens[i], #[trigger] steps[i]) && directive_valid(
                tokens[i],
                steps[i],
            ),
        replay(tokens, steps, start, len) is Ok,
    ensures
        replay(tokens, steps, start, len) == Ok::<usize, DevTreeError>(
            (start + tokens_len(emitted(tokens.take(steps.len() as int), steps))) as usize,
        ),
        start + tokens_len(emitted(tokens.take(steps.len() as int), steps)) <= usize::MAX,
    decreases steps.len(),
{
    let j = steps.len() as int;
    lemma_replay_last(tokens, steps, start, len);
    if j == 0 {
        assert(emitted(tokens.take(0), steps) =~= Seq::<Token>::empty());
    } else {
        let rest = steps.drop_last();
        let src = tokens[j - 1];
        let step = steps.last();
        assert(replay(tokens, rest, start, len) is Ok);
        assert forall|i: int| 0 <= i < rest.len() implies step_fits(tokens[i], #[trigger] rest[i])
            && directive_valid(tokens[i], rest[i]) by {
            assert(rest[i] == steps[i]);
        }
        lemma_replay_cursor(tokens, rest, start, len);
        let kept = emitted(tokens.take(j - 1), rest);
        let cursor = (start + tokens_len(kept)) as usize;
        lemma_tokens_len(kept);
        assert(token_wf(src));
        assert(step_fits(src, steps[j - 1]) && directive_valid(src, steps[j - 1]));
        lemma_answer_cursor(src, step, cursor, len);
        assert(tokens.take(j).drop_last() =~= tokens.take(j - 1));
        assert(tokens.take(j).last() == src);
        assert(emitted(tokens.take(j), steps) == grown(kept, outcome(src, step)));
        match outcome(src, step) {
            Some(new) => {
                lemma_tokens_len_push(kept, new);
                lemma_tokens_len_push(Seq::empty(), new);
            },
            None => {},
        }
    }
}

/// A pass that ends well took a step for every token and gives the size of
/// the image that holds the tokens that stayed.
pub proof fn lemma_pass_result_ok(tree: TreeModel, steps: Seq<Step>, len: nat)
    requires
        tree.wf(),
        pass_stops(tree, steps, len),
        forall|i: int|
            0 <= i < steps.len() ==> step_fits(tree.tokens[i], #[trigger] steps[i])
                && directive_valid(tree.tokens[i], steps[i]),
        pass_result(tree, steps, len) is Ok,
    ensures
        steps.len() == tree.tokens.len(),
        pass_result(tree, steps, len) == Ok::<usize, DevTreeError>(
            image_len(tree, emitted(tree.tokens, steps)) as usize,
        ),
        image_len(tree, emitted(tree.tokens, steps)) <= len,
        image_len(tree, emitted(tree.tokens, steps)) <= u32::MAX,
{
    let start = tree.header.off_dt_struct as usize;
    lemma_replay_cursor(tree.tokens, steps, start, len);
    assert(tree.tokens.take(steps.len() as int) =~= tree.tokens);
    lemma_tokens_len(emitted(tree.tokens, steps));
}

/// A turn that went well: the replay goes on behind it, and what stays of
/// the token is one more of the tokens that stay.
pub proof fn lemma_pass_goes_on(
    tokens: Seq<Token>,
    steps: Seq<Step>,
    step: Step,
    start: usize,
    len: nat,
    cursor: usize,
    next: usize,
)
    requires
        steps.len() < tokens.len(),
        replay(tokens, steps, start, len) == Ok::<usize, DevTreeError>(cursor),
        token_fits(cursor, tokens[steps.len() as int], len),
        answer_result(tokens[steps.len() as int], cursor, step.response, len) == Ok::<
            usize,
            DevTreeError,
        >(next),
    ensures
        replay(tokens, steps.push(step), start, len) == Ok::<usize, DevTreeError>(next),
        replay(tokens, steps.push(step).drop_last(), start, len) == Ok::<usize, DevTreeError>(
            cursor,
        ),
        emitted(tokens.take(steps.len() as int + 1), steps.push(step)) == grown(
            emitted(tokens.take(steps.len() as int), steps),
            outcome(tokens[steps.len() as int], step),
        ),
{
    let k = steps.len() as int;
    lemma_replay_push(tokens, steps, step, start, len);
    assert(steps.push(step).drop_last() =~= steps);
    lemma_emitted_push(tokens.take(k), steps, tokens[k], step);
    assert(tokens.take(k + 1) =~= tokens.take(k).push(tokens[k]));
}

/// A turn that went wrong: the pass stops there, with the error of the
/// turn. `taken` is the step of the turn, if the token could be shown.
pub proof fn lemma_pass_breaks_off(
    tokens: Seq<Token>,
    steps: Seq<Step>,
    taken: Option<Step>,
    start: usize,
    len: nat,
    cursor: usize,
    e: DevTreeError,
)
    requires
        steps.len() < tokens.len(),
        replay(tokens, steps, start, len) == Ok::<usize, DevTreeError>(cursor),
        steps.len() > 0 ==> (replay(tokens, steps.drop_last(), start, len) matches Ok(before)
            && token_fits(before, tokens[steps.len() - 1], len)),
        taken is None ==> !token_fits(cursor, tokens[steps.len() as int], len) && e
            == out_of_room(),
        taken matches Some(step) ==> token_fits(cursor, tokens[steps.len() as int], len)
            && answer_result(tokens[steps.len() as int], cursor, step.response, len) == Err::<
            usize,
            DevTreeError,
        >(e),
    ensures
        structure_stops(tokens, grown_steps(steps, taken), start, len),
        structure_result(tokens, grown_steps(steps, taken), start, len) == Err::<
            usize,
            DevTreeError,
        >(e),
{
    match taken {
        Some(step) => {
            lemma_replay_push(tokens, steps, step, start, len);
            assert(steps.push(step).drop_last() =~= steps);
        },
        None => {},
    }
}

/// A pass that took a step for every token stops rightly, and the closing
/// tag decides how the structure block ends.
pub proof fn lemma_pass_through(
    tokens: Seq<Token>,
    steps: Seq<Step>,
    start: usize,
    len: nat,
    cursor: usize,
)
    requires
        steps.len() == tokens.len(),
        replay(tokens, steps, start, len) == Ok::<usize, DevTreeError>(cursor),
        steps.len() > 0 ==> (replay(tokens, steps.drop_last(), start, len) matches Ok(before)
            && token_fits(before, tokens[steps.len() - 1], len)),
    ensures
        structure_stops(tokens, steps, start, len),
        structure_result(tokens, steps, start, len) == if cursor + 4 > len {
            Err::<usize, DevTreeError>(out_of_room())
        } else {
            Ok::<usize, DevTreeError>((cursor + 4 - start) as usize)
        },
{
}

/// How a replay that stopped rightly ends: well, or with the error of its
/// last step.
pub proof fn lemma_replay_ends(tokens: Seq<Token>, steps: Seq<Step>, start: usize, len: nat)
    requires
        structure_stops(tokens, steps, start, len),
    ensures
        steps.len() == 0 ==> replay(tokens, steps, start, len) == Ok::<usize, DevTreeError>(
            start,
        ),
        steps.len() > 0 ==> replay(tokens, steps.drop_last(), start, len) is Ok && replay(
            tokens,
            steps,
            start,
            len,
        ) == answer_result(
            tokens[steps.len() - 1],
            replay(tokens, steps.drop_last(), start, len)->Ok_0,
            steps.last().response,
            len,
        ),
{
    reveal_with_fuel(replay, 1);
}

/// A pass ends with no other errors than these: a write that did not fit, an
/// image too large for its header, or a new size for a token that is no
/// property. The last comes with that answer, given to the last token that
/// was shown; an image too large needs a buffer beyond what 32 bits count.
#[verifier::rlimit(30)]
pub proof fn lemma_pass_errors(tree: TreeModel, steps: Seq<Step>, len: nat)
    requires
        tree.wf(),
        pass_stops(tree, steps, len),
    ensures
        pass_result(tree, steps, len) matches Err(e) ==> e == out_of_room() || e
            == DevTreeError::ImageTooLarge || e == DevTreeError::InvalidParameter(
            RESIZE_OF_NON_PROP,
        ),
        pass_result(tree, steps, len) == Err::<usize, DevTreeError>(DevTreeError::ImageTooLarge)
            ==> len > u32::MAX,
        pass_result(tree, steps, len) == Err::<usize, DevTreeError>(
            DevTreeError::InvalidParameter(RESIZE_OF_NON_PROP),
        ) ==> steps.len() > 0 && steps.last().response is ModifySize && !(tree.tokens[steps.len()
            - 1] is Prop),
{
    let start = tree.header.off_dt_struct as usize;
    if blocks_fit(tree, len) {
        lemma_replay_ends(tree.tokens, steps, start, len);
        lemma_replay_grows(tree.tokens, steps, start, len);
        if steps.len() > 0 {
            assert(token_wf(tree.tokens[steps.len() - 1]));
        }
        match structure_result(tree.tokens, steps, start, len) {
            Ok(size) => {
                lemma_align4(tree.header.off_dt_struct + size + tree.strings.len());
            },
            Err(_) => {},
        }
    }
}

/// A buffer that cannot even hold the tree without its tokens fails the
/// pass, and a tree without tokens passes exactly where the buffer holds it
/// and 32 bits count its size.
#[verifier::rlimit(30)]
pub proof fn lemma_pass_needs_room(tree: TreeModel, steps: Seq<Step>, len: nat)
    requires
        tree.wf(),
        pass_stops(tree, steps, len),
        forall|i: int|
            0 <= i < steps.len() ==> step_fits(tree.tokens[i], #[trigger] steps[i])
                && directive_valid(tree.tokens[i], steps[i]),
    ensures
        len < image_len(tree, Seq::empty()) ==> pass_result(tree, steps, len) is Err,
        tree.tokens.len() == 0 ==> (pass_result(tree, steps, len) is Ok <==> image_len(
            tree,
            Seq::empty(),
        ) <= len && image_len(tree, Seq::empty()) <= u32::MAX),
{
    let start = tree.header.off_dt_struct as usize;
    let none = Seq::<Token>::empty();
    lemma_tokens_len(none);
    lemma_align4(strings_offset(tree, none) + tree.strings.len());
    if pass_result(tree, steps, len) is Ok {
        lemma_pass_result_ok(tree, steps, len);
        let kept = emitted(tree.tokens, steps);
        lemma_tokens_len(kept);
        lemma_align4(strings_offset(tree, kept) + tree.strings.len());
    }
    if tree.tokens.len() == 0 && blocks_fit(tree, len) {
        lemma_replay_none(tree.tokens, start, len);
        assert(steps =~= Seq::<Step>::empty());
    }
}

/// Steps that change nothing keep the replay behind the tokens of the
/// source.
#[verifier::rlimit(30)]
pub proof fn lemma_untouched_replay(tokens: Seq<Token>, steps: Seq<Step>, start: usize, len: nat)
    requires
        start % 4 == 0,
        tokens_wf(tokens),
        structure_stops(tokens, steps, start, len),
        forall|i: int|
            0 <= i < steps.len() ==> step_fits(tokens[i], #[trigger] steps[i]) && untouched(
                steps[i],
            ),
    ensures
        replay(tokens, steps, start, len) == Ok::<usize, DevTreeError>(
            (start + tokens_len(tokens.take(steps.len() as int))) as usize,
        ),
        start + tokens_len(tokens.take(steps.len() as int)) <= usize::MAX,
        emitted(tokens.take(steps.len() as int), steps) == tokens.take(steps.len() as int),
{
    let j = steps.len() as int;
    lemma_replay_ends(tokens, steps, start, len);
    lemma_pass_keeps_all(tokens.take(j), steps);
    if j > 0 {
        let src = tokens[j - 1];
        let step = steps[j - 1];
        let rest = steps.drop_last();
        let cursor = replay(tokens, rest, start, len)->Ok_0;
        assert forall|i: int| 0 <= i < rest.len() implies step_fits(tokens[i], #[trigger] rest[i])
            && directive_valid(tokens[i], rest[i]) by {
            assert(rest[i] == steps[i]);
        }
        lemma_replay_cursor(tokens, rest, start, len);
        lemma_pass_keeps_all(tokens.take(j - 1), rest);
        lemma_tokens_len(tokens.take(j - 1));
        lemma_token_len(src);
        lemma_align_shift(cursor as int, encoding(src).len() as int);
        assert(tokens.take(j).drop_last() =~= tokens.take(j - 1));
        lemma_tokens_len_push(tokens.take(j - 1), src);
        assert(tokens.take(j) =~= tokens.take(j - 1).push(src));
    }
}

/// A pass in which the filter answers `Pass` every time and changes nothing
/// ends well exactly where the buffer holds the image of the source's own
/// tokens and 32 bits count its size. It then gives that size, and every
/// token stays.
#[verifier::rlimit(30)]
pub proof fn lemma_untouched_pass(tree: TreeModel, steps: Seq<Step>, len: nat)
    requires
        tree.wf(),
        pass_stops(tree, steps, len),
        forall|i: int|
            0 <= i < steps.len() ==> step_fits(tree.tokens[i], #[trigger] steps[i])
                && untouched(steps[i]),
    ensures
        pass_result(tree, steps, len) is Ok <==> image_len(tree, tree.tokens) <= len
            && image_len(tree, tree.tokens) <= u32::MAX,
        pass_result(tree, steps, len) is Ok ==> pass_result(tree, steps, len) == Ok::<
            usize,
            DevTreeError,
        >(image_len(tree, tree.tokens) as usize) && emitted(tree.tokens, steps) == tree.tokens,
{
    let start = tree.header.off_dt_struct as usize;
    let j = steps.len() as int;
    lemma_tokens_len(tree.tokens);
    lemma_reserve_bytes_len(tree.reserved);
    lemma_align4(strings_offset(tree, tree.tokens) + tree.strings.len());
    if blocks_fit(tree, len) {
        lemma_untouched_replay(tree.tokens, steps, start, len);
        if j < tree.tokens.len() {
            lemma_token_offset_grows(tree.tokens, j);
            lemma_token_len(tree.tokens[j]);
            lemma_tokens_len(tree.tokens.take(j));
            lemma_align_shift(
                start + tokens_len(tree.tokens.take(j)),
                encoding(tree.tokens[j]).len() as int,
            );
        } else {
            assert(tree.tokens.take(j) =~= tree.tokens);
        }
    }
}

/// A new size for a token that is no property ends the pass: with the error
/// of an invalid parameter, whatever the buffer has room for behind it.
pub proof fn lemma_resize_of_non_prop_refused(tree: TreeModel, steps: Seq<Step>, len: nat)
    requires
        tree.wf(),
        pass_stops(tree, steps, len),
        steps.len() > 0,
        steps.last().response is ModifySize,
        !(tree.tokens[steps.len() - 1] is Prop),
    ensures
        pass_result(tree, steps, len) == Err::<usize, DevTreeError>(
            DevTreeError::InvalidParameter(RESIZE_OF_NON_PROP),
        ),
{
    lemma_replay_ends(tree.tokens, steps, tree.header.off_dt_struct as usize, len);
}

/// One more step keeps what holds of the windows, where its own window
/// reaches to the end of the buffer.
pub proof fn lemma_windows_reach_push(
    tokens: Seq<Token>,
    steps: Seq<Step>,
    step: Step,
    start: usize,
    len: nat,
    cursor: usize,
)
    requires
        windows_reach(tokens, steps, start, len),
        replay(tokens, steps, start, len) == Ok::<usize, DevTreeError>(cursor),
        tokens[steps.len() as int] is Prop ==> cursor + 12 + step.before.len() == len,
    ensures
        windows_reach(tokens, steps.push(step), start, len),
{
    let ended = steps.push(step);
    assert forall|i: int| 0 <= i < ended.len() && tokens[i] is Prop implies window_reaches(
        tokens,
        ended,
        start,
        len,
        i,
    ) by {
        if i < steps.len() {
            assert(ended.take(i) =~= steps.take(i));
            assert(window_reaches(tokens, steps, start, len, i));
        } else {
            assert(ended.take(i) =~= steps);
        }
    }
}

} // verus!
