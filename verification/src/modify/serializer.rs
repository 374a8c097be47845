//! The writer: one cursor into the destination buffer, and the pass that
//! lays a tree down token by token.

use crate::base::{token_views, DevTree, ParsedTok};
use crate::error::{out_of_room, DevTreeError, RESIZE_OF_NON_PROP};
use crate::layout::{
    align4, encoding, lemma_align4, lemma_align_shift, lemma_encoding_len, lemma_token_len,
    lemma_tokens_at_frame,
    lemma_tokens_len, structure_at, token_wf, tokens_at, tokens_len, tokens_wf, Token,
    FDT_BEGIN_NODE, FDT_END, FDT_END_NODE, FDT_HEADER_LEN, FDT_MAGIC, FDT_NOP, FDT_PROP,
};
use crate::modify::image::{
    header_bytes, image_holds, image_len, lemma_image_assembled, lemma_reserve_bytes_len,
    reserve_bytes, strings_offset, structure_len,
};
use crate::modify::modtoken::{ModifyParsedTok, ModifyTokenResponse};
use crate::modify::pass::{
    answer_result, blocks_fit, grown_steps, lemma_answer_cursor, lemma_pass_breaks_off,
    lemma_pass_errors, lemma_pass_goes_on, lemma_pass_needs_room, lemma_pass_result_ok,
    lemma_pass_through, lemma_replay_none, lemma_untouched_pass, lemma_windows_reach_push,
    pass_result, pass_stops, replay, response_cursor, response_result, structure_result,
    structure_stops, token_fits, windows_reach,
};
use crate::modify::trace::{
    directive_valid, emitted, grown, outcome, payload_size, step_fits, untouched, Step,
};
use crate::modify::turn::{lemma_shown, lemma_turn, response_image, shown};
use crate::priv_util::{
    be32, be64, lemma_splice, lemma_splice_append, splice, write_be_u32, write_be_u64,
    write_bstring0, write_slice, SliceWriteError,
};
use vstd::prelude::*;

verus! {

/// Writes a tree into a buffer and lets a filter change it on the way.
pub struct Serializer {
    offset: usize,
}

impl Default for Serializer {
    fn default() -> (r: Self)
        ensures
            r.cursor() == 0,
    {
        Serializer { offset: 0 }
    }
}

impl Serializer {
    /// Where the next write goes.
    pub closed spec fn cursor(&self) -> usize {
        self.offset
    }

    /// Where the next write goes.
    #[verifier::when_used_as_spec(cursor)]
    pub fn get_offset(&self) -> (r: usize)
        ensures
            r == self.cursor(),
    {
        self.offset
    }

    /// Moves the cursor.
    pub fn set_offset(&mut self, new_offset: usize)
        ensures
            final(self).cursor() == new_offset,
    {
        self.offset = new_offset;
    }

    /// Moves the cursor up to the next multiple of four, unless that lies
    /// beyond what an offset can be.
    pub fn align_offset(&mut self) -> (r: Result<(), SliceWriteError>)
        ensures
            r is Ok <==> align4(old(self).cursor() as int) <= usize::MAX,
            r is Ok ==> final(self).cursor() == align4(old(self).cursor() as int),
            r is Err ==> final(self).cursor() == old(self).cursor(),
    {
        let misalignment = self.offset % 4;
        if misalignment != 0 {
            let step = 4 - misalignment;
            if self.offset > usize::MAX - step {
                return Err(SliceWriteError::UnexpectedEndOfInput);
            }
            self.offset += step;
        }
        Ok(())
    }

    /// Writes `val` at the cursor and moves the cursor behind it.
    pub fn serialize_u32(&mut self, buf: &mut [u8], val: u32) -> (r: Result<(), SliceWriteError>)
        ensures
            r is Ok <==> old(self).cursor() + 4 <= old(buf)@.len(),
            r is Ok ==> final(self).cursor() == old(self).cursor() + 4 && final(buf)@ == splice(
                old(buf)@,
                old(self).cursor() as int,
                be32(val),
            ),
            r is Err ==> final(self).cursor() == old(self).cursor() && final(buf)@ == old(buf)@,
    {
        let result = write_be_u32(buf, self.offset, val);
        if result.is_ok() {
            proof {
                vstd::slice::axiom_spec_len(buf);
            }
            self.offset += 4;
        }
        result
    }

    /// Writes `val` at the cursor and moves the cursor behind it.
    pub fn serialize_u64(&mut self, buf: &mut [u8], val: u64) -> (r: Result<(), SliceWriteError>)
        ensures
            r is Ok <==> old(self).cursor() + 8 <= old(buf)@.len(),
            r is Ok ==> final(self).cursor() == old(self).cursor() + 8 && final(buf)@ == splice(
                old(buf)@,
                old(self).cursor() as int,
                be64(val),
            ),
            r is Err ==> final(self).cursor() == old(self).cursor() && final(buf)@ == old(buf)@,
    {
        let result = write_be_u64(buf, self.offset, val);
        if result.is_ok() {
            proof {
                vstd::slice::axiom_spec_len(buf);
            }
            self.offset += 8;
        }
        result
    }

    /// Copies `val` to the cursor and moves the cursor behind it. Where the
    /// bytes do not all fit, those that do are stored and the cursor stays.
    pub fn serialize_slice(&mut self, buf: &mut [u8], val: &[u8]) -> (r: Result<
        (),
        SliceWriteError,
    >)
        ensures
            r is Ok <==> val@.len() == 0 || old(self).cursor() + val@.len() <= old(buf)@.len(),
            final(buf)@ == splice(old(buf)@, old(self).cursor() as int, val@),
            r is Ok ==> final(self).cursor() == old(self).cursor() + val@.len(),
            r is Err ==> final(self).cursor() == old(self).cursor(),
    {
        let result = write_slice(buf, self.offset, val);
        if result.is_ok() {
            proof {
                vstd::slice::axiom_spec_len(buf);
            }
            self.offset += val.len();
        }
        result
    }

    /// Copies `val` to the cursor, puts a zero byte behind it and moves the
    /// cursor behind that. Where the bytes do not all fit, those that do are
    /// stored and the cursor stays.
    pub fn serialize_string(&mut self, buf: &mut [u8], val: &[u8]) -> (r: Result<
        (),
        SliceWriteError,
    >)
        ensures
            r is Ok <==> old(self).cursor() + val@.len() + 1 <= old(buf)@.len(),
            final(buf)@ == splice(old(buf)@, old(self).cursor() as int, val@.push(0u8)),
            r is Ok ==> final(self).cursor() == old(self).cursor() + val@.len() + 1,
            r is Err ==> final(self).cursor() == old(self).cursor(),
    {
        let result = write_bstring0(buf, self.offset, val);
        if result.is_ok() {
            proof {
                vstd::slice::axiom_spec_len(buf);
            }
            self.offset += val.len() + 1;
        }
        result
    }
}

/// The numbers of the token fit the 32-bit fields that carry them.
pub open spec fn fits_fields(t: Token) -> bool {
    match t {
        Token::Prop { name_offset, value } => 0 <= name_offset <= u32::MAX && value.len()
            <= u32::MAX,
        _ => true,
    }
}

impl Serializer {
    /// Writes one more word behind what was written from `start` on.
    fn extend_u32(
        &mut self,
        output: &mut [u8],
        val: u32,
        Ghost(base): Ghost<Seq<u8>>,
        Ghost(start): Ghost<int>,
        Ghost(acc): Ghost<Seq<u8>>,
    ) -> (r: Result<(), DevTreeError>)
        requires
            0 <= start,
            old(self).cursor() == start + acc.len(),
            old(output)@ == splice(base, start, acc),
        ensures
            r is Ok <==> old(self).cursor() + 4 <= old(output)@.len(),
            r is Ok ==> final(self).cursor() == old(self).cursor() + 4 && final(output)@ == splice(
                base,
                start,
                acc + be32(val),
            ),
            r is Err ==> r == Err::<(), DevTreeError>(out_of_room()),
            r is Err ==> final(self).cursor() == old(self).cursor(),
            r is Err ==> final(output)@ == old(output)@,
    {
        proof {
            lemma_splice_append(base, start, acc, be32(val));
        }
        match self.serialize_u32(output, val) {
            Ok(()) => Ok(()),
            Err(e) => Err(DevTreeError::Write(e)),
        }
    }

    /// Writes the header of the source tree at the start of the buffer.
    /// Three of its fields are set anew once the tree is written.
    #[verifier::rlimit(30)]
    pub fn serialize_header(&mut self, devtree: &DevTree, output: &mut [u8]) -> (r: Result<
        (),
        DevTreeError,
    >)
        ensures
            final(output)@.len() == old(output)@.len(),
            r is Ok <==> FDT_HEADER_LEN <= old(output)@.len(),
            r is Ok ==> final(self).cursor() == FDT_HEADER_LEN && final(output)@ == splice(
                old(output)@,
                0,
                header_bytes(devtree@.header),
            ),
            r is Err ==> r == Err::<(), DevTreeError>(out_of_room()),
    {
        self.set_offset(0);
        let ghost base = output@;
        let ghost h = devtree@.header;
        assert(output@ =~= splice(base, 0, Seq::empty()));
        let ghost acc = Seq::<u8>::empty();
        self.extend_u32(output, FDT_MAGIC, Ghost(base), Ghost(0), Ghost(acc))?;
        proof {
            assert(acc + be32(FDT_MAGIC) =~= be32(FDT_MAGIC));
            acc = be32(FDT_MAGIC);
        }
        let totalsize = devtree.totalsize() as u32;
        self.extend_u32(output, totalsize, Ghost(base), Ghost(0), Ghost(acc))?;
        proof {
            acc = acc + be32(h.totalsize);
        }
        let off_dt_struct = devtree.off_dt_struct() as u32;
        self.extend_u32(output, off_dt_struct, Ghost(base), Ghost(0), Ghost(acc))?;
        proof {
            acc = acc + be32(h.off_dt_struct);
        }
        let off_dt_strings = devtree.off_dt_strings() as u32;
        self.extend_u32(output, off_dt_strings, Ghost(base), Ghost(0), Ghost(acc))?;
        proof {
            acc = acc + be32(h.off_dt_strings);
        }
        let off_mem_rsvmap = devtree.off_mem_rsvmap() as u32;
        self.extend_u32(output, off_mem_rsvmap, Ghost(base), Ghost(0), Ghost(acc))?;
        proof {
            acc = acc + be32(h.off_mem_rsvmap);
        }
        self.extend_u32(output, devtree.version(), Ghost(base), Ghost(0), Ghost(acc))?;
        proof {
            acc = acc + be32(h.version);
        }
        self.extend_u32(output, devtree.last_comp_version(), Ghost(base), Ghost(0), Ghost(acc))?;
        proof {
            acc = acc + be32(h.last_comp_version);
        }
        self.extend_u32(output, devtree.boot_cpuid_phys(), Ghost(base), Ghost(0), Ghost(acc))?;
        proof {
            acc = acc + be32(h.boot_cpuid_phys);
        }
        self.extend_u32(output, devtree.size_dt_strings(), Ghost(base), Ghost(0), Ghost(acc))?;
        proof {
            acc = acc + be32(h.size_dt_strings);
        }
        self.extend_u32(output, devtree.size_dt_struct(), Ghost(base), Ghost(0), Ghost(acc))?;
        Ok(())
    }

    /// Writes the memory reservation block where the header says it lies.
    #[verifier::rlimit(30)]
    pub fn serialize_memory_reservation_block(
        &mut self,
        devtree: &DevTree,
        output: &mut [u8],
    ) -> (r: Result<(), DevTreeError>)
        ensures
            final(output)@.len() == old(output)@.len(),
            r is Ok <==> devtree@.reserved.len() == 0 || devtree@.header.off_mem_rsvmap + 16
                * devtree@.reserved.len() <= old(output)@.len(),
            r is Ok ==> final(self).cursor() == devtree@.header.off_mem_rsvmap + 16
                * devtree@.reserved.len() && final(output)@ == splice(
                old(output)@,
                devtree@.header.off_mem_rsvmap as int,
                reserve_bytes(devtree@.reserved),
            ),
            r is Err ==> r == Err::<(), DevTreeError>(out_of_room()),
    {
        let start = devtree.off_mem_rsvmap();
        self.set_offset(start);
        let entries = devtree.reserved_entries();
        let ghost base = output@;
        assert(output@ =~= splice(base, start as int, Seq::empty()));
        let mut i: usize = 0;
        while i < entries.len()
            invariant
                i <= entries@.len(),
                entries@ == devtree@.reserved,
                start == devtree@.header.off_mem_rsvmap,
                base == old(output)@,
                output@.len() == base.len(),
                output@ == splice(base, start as int, reserve_bytes(entries@.take(i as int))),
                self.cursor() == start + 16 * i,
                i == 0 || start + 16 * i <= base.len(),
            decreases entries@.len() - i,
        {
            let entry = entries[i];
            let ghost done = reserve_bytes(entries@.take(i as int));
            proof {
                lemma_reserve_bytes_len(entries@.take(i as int));
                lemma_splice_append(base, start as int, done, be64(entry.address));
                lemma_splice_append(
                    base,
                    start as int,
                    done + be64(entry.address),
                    be64(entry.size),
                );
                assert(entries@.take(i + 1).drop_last() =~= entries@.take(i as int));
            }
            if let Err(e) = self.serialize_u64(output, entry.address) {
                return Err(DevTreeError::Write(e));
            }
            if let Err(e) = self.serialize_u64(output, entry.size) {
                return Err(DevTreeError::Write(e));
            }
            i += 1;
        }
        assert(entries@.take(i as int) =~= entries@);
        Ok(())
    }

    /// Sets the header's field for the size of the structure block.
    pub fn set_structure_block_size(
        &mut self,
        output: &mut [u8],
        structure_block_size: usize,
    ) -> (r: Result<(), DevTreeError>)
        ensures
            patched(
                old(output)@,
                36,
                structure_block_size,
                r,
                final(output)@,
                final(self).cursor(),
            ),
    {
        self.patch_header(output, 36, structure_block_size)
    }

    /// Sets the header's field for the place of the strings block.
    pub fn set_strings_block_offset(
        &mut self,
        output: &mut [u8],
        strings_block_offset: usize,
    ) -> (r: Result<(), DevTreeError>)
        ensures
            patched(
                old(output)@,
                12,
                strings_block_offset,
                r,
                final(output)@,
                final(self).cursor(),
            ),
    {
        self.patch_header(output, 12, strings_block_offset)
    }

    /// Sets the header's field for the size of the whole tree.
    pub fn set_total_size(&mut self, output: &mut [u8], total_size: usize) -> (r: Result<
        (),
        DevTreeError,
    >)
        ensures
            patched(old(output)@, 4, total_size, r, final(output)@, final(self).cursor()),
    {
        self.patch_header(output, 4, total_size)
    }

    /// Sets one field of the header.
    fn patch_header(&mut self, output: &mut [u8], at: usize, value: usize) -> (r: Result<
        (),
        DevTreeError,
    >)
        requires
            at <= 36,
        ensures
            patched(old(output)@, at, value, r, final(output)@, final(self).cursor()),
    {
        if value > u32::MAX as usize {
            return Err(DevTreeError::ImageTooLarge);
        }
        self.set_offset(at);
        match self.serialize_u32(output, value as u32) {
            Ok(()) => Ok(()),
            Err(e) => Err(DevTreeError::Write(e)),
        }
    }

    /// Copies the strings block of the source tree to `offset` and moves the
    /// cursor behind it, up to a multiple of four.
    pub fn serialize_strings_block(
        &mut self,
        devtree: &DevTree,
        output: &mut [u8],
        offset: usize,
    ) -> (r: Result<(), DevTreeError>)
        ensures
            final(output)@ == splice(old(output)@, offset as int, devtree@.strings),
            r is Ok <==> (devtree@.strings.len() == 0 || offset + devtree@.strings.len()
                <= old(output)@.len()) && align4(offset + devtree@.strings.len()) <= usize::MAX,
            r is Ok ==> final(self).cursor() == align4(offset + devtree@.strings.len()),
            r is Err ==> r == Err::<(), DevTreeError>(out_of_room()),
    {
        self.set_offset(offset);
        if let Err(e) = self.serialize_slice(output, devtree.strings()) {
            return Err(DevTreeError::Write(e));
        }
        match self.align_offset() {
            Ok(()) => Ok(()),
            Err(e) => Err(DevTreeError::Write(e)),
        }
    }

    /// Writes one token at the cursor, without the padding behind it, and
    /// moves the cursor behind what was written.
    #[verifier::rlimit(30)]
    pub fn serialize_token(&mut self, output: &mut [u8], token: &ParsedTok<'_>) -> (r: Result<
        (),
        DevTreeError,
    >)
        ensures
            final(output)@.len() == old(output)@.len(),
            !fits_fields(token@) ==> r == Err::<(), DevTreeError>(DevTreeError::ParseError)
                && final(output)@ == old(output)@ && final(self).cursor() == old(self).cursor(),
            fits_fields(token@) ==> (r is Ok <==> old(self).cursor() + encoding(token@).len()
                <= old(output)@.len()),
            r is Ok ==> final(self).cursor() == old(self).cursor() + encoding(token@).len()
                && final(output)@ == splice(
                old(output)@,
                old(self).cursor() as int,
                encoding(token@),
            ),
            fits_fields(token@) && r is Err ==> r == Err::<(), DevTreeError>(out_of_room()),
    {
        let ghost base = output@;
        let ghost start = self.cursor() as int;
        assert(output@ =~= splice(base, start, Seq::empty()));
        let ghost acc = Seq::<u8>::empty();
        match token {
            ParsedTok::BeginNode(node) => {
                self.extend_u32(output, FDT_BEGIN_NODE, Ghost(base), Ghost(start), Ghost(acc))?;
                proof {
                    assert(acc + be32(FDT_BEGIN_NODE) =~= be32(FDT_BEGIN_NODE));
                    acc = be32(FDT_BEGIN_NODE);
                }
                if node.name.is_empty() {
                    self.extend_u32(output, 0, Ghost(base), Ghost(start), Ghost(acc))?;
                } else {
                    proof {
                        lemma_splice_append(base, start, acc, node.name@.push(0u8));
                    }
                    if let Err(e) = self.serialize_string(output, node.name) {
                        return Err(DevTreeError::Write(e));
                    }
                }
            },
            ParsedTok::Prop(prop) => {
                if prop.prop_buf.len() > u32::MAX as usize || prop.name_offset > u32::MAX as usize {
                    return Err(DevTreeError::ParseError);
                }
                self.extend_u32(output, FDT_PROP, Ghost(base), Ghost(start), Ghost(acc))?;
                proof {
                    assert(acc + be32(FDT_PROP) =~= be32(FDT_PROP));
                    acc = be32(FDT_PROP);
                }
                self.extend_u32(
                    output,
                    prop.prop_buf.len() as u32,
                    Ghost(base),
                    Ghost(start),
                    Ghost(acc),
                )?;
                proof {
                    acc = acc + be32(prop.prop_buf@.len() as u32);
                }
                self.extend_u32(
                    output,
                    prop.name_offset as u32,
                    Ghost(base),
                    Ghost(start),
                    Ghost(acc),
                )?;
                proof {
                    acc = acc + be32(prop.name_offset as u32);
                    lemma_splice_append(base, start, acc, prop.prop_buf@);
                }
                if let Err(e) = self.serialize_slice(output, prop.prop_buf) {
                    return Err(DevTreeError::Write(e));
                }
            },
            ParsedTok::EndNode => {
                self.extend_u32(output, FDT_END_NODE, Ghost(base), Ghost(start), Ghost(acc))?;
                proof {
                    assert(acc + be32(FDT_END_NODE) =~= be32(FDT_END_NODE));
                }
            },
            ParsedTok::Nop => {
                self.extend_u32(output, FDT_NOP, Ghost(base), Ghost(start), Ghost(acc))?;
                proof {
                    assert(acc + be32(FDT_NOP) =~= be32(FDT_NOP));
                }
            },
        }
        Ok(())
    }

    /// Does to the token that was written at `node_offset` what the filter
    /// answered. `Pass` changes nothing. `Drop` moves the cursor back to the
    /// token's start, so that the next write covers the token. `ModifySize`
    /// is for a property alone: it sets the property's length field and
    /// moves the cursor behind a value of the new size.
    #[verifier::rlimit(30)]
    pub fn apply_response(
        &mut self,
        output: &mut [u8],
        token: &ParsedTok<'_>,
        node_offset: usize,
        response: ModifyTokenResponse,
    ) -> (r: Result<(), DevTreeError>)
        ensures
            final(output)@.len() == old(output)@.len(),
            r == response_result(token@, node_offset, response, old(output)@.len()),
            r is Err ==> final(output)@ == old(output)@,
            r is Ok ==> final(output)@ == response_image(
                old(output)@,
                token@,
                node_offset,
                response,
            ) && final(self).cursor() == response_cursor(
                old(self).cursor(),
                node_offset,
                response,
            ),
    {
        match response {
            ModifyTokenResponse::Pass => Ok(()),
            ModifyTokenResponse::Drop => {
                self.set_offset(node_offset);
                Ok(())
            },
            ModifyTokenResponse::ModifySize(new_size) => {
                if let ParsedTok::Prop(prop) = token {
                    let len = output.len();
                    if node_offset > len || len - node_offset < 12 || len - node_offset - 12
                        < new_size {
                        return Err(DevTreeError::Write(SliceWriteError::UnexpectedEndOfInput));
                    }
                    if new_size > u32::MAX as usize {
                        return Err(DevTreeError::ImageTooLarge);
                    }
                    if prop.name_offset > u32::MAX as usize {
                        return Err(DevTreeError::ParseError);
                    }
                    self.set_offset(node_offset + 4);
                    let _ = self.serialize_u32(output, new_size as u32);
                    let _ = self.serialize_u32(output, prop.name_offset as u32);
                    self.set_offset(self.get_offset() + new_size);
                    Ok(())
                } else {
                    Err(DevTreeError::InvalidParameter(RESIZE_OF_NON_PROP))
                }
            },
        }
    }
}

/// What setting a header field does: nothing where the value does not fit a
/// 32-bit field or the field lies outside the buffer, else the store.
pub open spec fn patched(
    before: Seq<u8>,
    at: usize,
    value: usize,
    r: Result<(), DevTreeError>,
    after: Seq<u8>,
    cursor: usize,
) -> bool {
    if value > u32::MAX {
        r == Err::<(), DevTreeError>(DevTreeError::ImageTooLarge) && after == before
    } else if at + 4 > before.len() {
        r == Err::<(), DevTreeError>(out_of_room()) && after == before
    } else {
        r is Ok && after == splice(before, at as int, be32(value as u32)) && cursor == at + 4
    }
}

/// The part of `out` from `at` on, to write to: `IndexMut::index_mut` of a
/// slice by a `RangeFrom`, which is not verified here. Its contract is taken
/// on trust. It claims that the window starts out with the bytes of `out`
/// from `at` on; that the window, being a slice, ends with as many bytes as
/// it started with; and that once the window is given back `out` has its old
/// length, its old bytes before `at`, and from `at` on the bytes that the
/// window ended with. An `at` behind the end of `out`, where the indexing
/// panics, is left out.
#[verifier::external_body]
fn window_mut(out: &mut [u8], at: usize) -> (window: &mut [u8])
    requires
        at <= old(out)@.len(),
    ensures
        window@ == old(out)@.skip(at as int),
        final(window)@.len() == window@.len(),
        final(out)@.len() == old(out)@.len(),
        final(out)@.take(at as int) == old(out)@.take(at as int),
        final(out)@.skip(at as int) == final(window)@,
{
    &mut out[at..]
}

impl Serializer {
    /// Writes `token` at the cursor, moves the cursor up to a multiple of
    /// four and shows the token to the filter. Gives the filter's answer,
    /// and with it the step and the buffer as it was written.
    #[verifier::rlimit(30)]
    fn show_token<F>(
        &mut self,
        output: &mut [u8],
        token: &ParsedTok<'_>,
        filter_map: &mut F,
    ) -> (r: (Result<ModifyTokenResponse, DevTreeError>, Ghost<Step>, Ghost<Seq<u8>>)) where
        F: FnMut(&mut ModifyParsedTok<'_>, usize) -> ModifyTokenResponse,

        requires
            forall|t: &mut ModifyParsedTok<'_>, n: usize| call_requires(*old(filter_map), (t, n)),
            token_wf(token@),
            old(output)@.len() <= usize::MAX,
        ensures
            final(output)@.len() == old(output)@.len(),
            *final(filter_map) == *old(filter_map),
            r.0 is Ok <==> token_fits(old(self).cursor(), token@, old(output)@.len()),
            r.0 is Err ==> r.0 == Err::<ModifyTokenResponse, DevTreeError>(out_of_room()),
            r.0 matches Ok(response) ==> {
                &&& r.1@.response == response
                &&& final(self).cursor() == align4(old(self).cursor() + encoding(token@).len())
                &&& shown(old(output)@, r.2@, final(output)@, token@, old(self).cursor(), r.1@)
                &&& step_fits(token@, r.1@)
                &&& exists|t: &mut ModifyParsedTok<'_>|
                    {
                        &&& #[trigger] call_ensures(
                            *old(filter_map),
                            (t, payload_size(token@)),
                            r.1@.response,
                        )
                        &&& t.source() == token@
                        &&& t.window() == r.1@.before
                        &&& (*t matches ModifyParsedTok::Prop(_, w) ==> final(w)@ == r.1@.after)
                        &&& (*final(t) matches ModifyParsedTok::Prop(_, w) ==> final(w)@ == w@)
                    }
            },
    {
        let ghost src = token@;
        let ghost before = output@;
        let node_offset = self.get_offset();
        let ghost nothing = Step {
            response: ModifyTokenResponse::Pass,
            before: Seq::empty(),
            after: Seq::empty(),
        };
        proof {
            lemma_encoding_len(src);
            lemma_align4(node_offset + encoding(src).len());
        }
        if let Err(e) = self.serialize_token(output, token) {
            return (Err(e), Ghost(nothing), Ghost(before));
        }
        let payload = token.payload_len();
        if let Err(e) = self.align_offset() {
            return (Err(DevTreeError::Write(e)), Ghost(nothing), Ghost(before));
        }
        let ghost written = output@;
        let response = match *token {
            ParsedTok::BeginNode(node) => {
                let mut shown = ModifyParsedTok::BeginNode(node);
                filter_map(&mut shown, payload)
            },
            ParsedTok::EndNode => {
                let mut shown = ModifyParsedTok::EndNode;
                filter_map(&mut shown, payload)
            },
            ParsedTok::Prop(prop) => {
                let window = window_mut(output, node_offset + 12);
                let mut shown = ModifyParsedTok::Prop(prop, window);
                filter_map(&mut shown, payload)
            },
            ParsedTok::Nop => {
                let mut shown = ModifyParsedTok::Nop;
                filter_map(&mut shown, payload)
            },
        };
        let ghost answered = output@;
        let ghost step = Step {
            response,
            before: if src is Prop {
                written.skip(node_offset + 12)
            } else {
                Seq::empty()
            },
            after: if src is Prop {
                answered.skip(node_offset + 12)
            } else {
                Seq::empty()
            },
        };
        proof {
            assert(payload_size(src) == payload);
            lemma_shown(before, written, answered, src, node_offset, step);
        }
        (Ok(response), Ghost(step), Ghost(written))
    }

    /// One turn of the pass: writes `token` at the cursor, shows it to the
    /// filter, follows the answer and moves the cursor up to a multiple of
    /// four. `kept` are the tokens that the block holds from `start` on.
    /// Gives, beside the result, the step that was taken, if the token could
    /// be written and shown.
    #[verifier::rlimit(30)]
    fn rewrite_token<F>(
        &mut self,
        output: &mut [u8],
        token: &ParsedTok<'_>,
        filter_map: &mut F,
        Ghost(start): Ghost<int>,
        Ghost(kept): Ghost<Seq<Token>>,
    ) -> (r: (Result<(), DevTreeError>, Ghost<Option<Step>>)) where
        F: FnMut(&mut ModifyParsedTok<'_>, usize) -> ModifyTokenResponse,

        requires
            forall|t: &mut ModifyParsedTok<'_>, n: usize| call_requires(*old(filter_map), (t, n)),
            token_wf(token@),
            0 <= start,
            start % 4 == 0,
            old(output)@.len() <= usize::MAX,
            tokens_at(old(output)@, start, kept),
            old(self).cursor() == start + tokens_len(kept),
        ensures
            final(output)@.len() == old(output)@.len(),
            *final(filter_map) == *old(filter_map),
            r.0 is Ok ==> forall|j: int|
                0 <= j < start && j < old(output)@.len() ==> final(output)@[j] == old(output)@[j],
            !token_fits(old(self).cursor(), token@, old(output)@.len()) ==> r.1@ is None && r.0
                == Err::<(), DevTreeError>(out_of_room()),
            token_fits(old(self).cursor(), token@, old(output)@.len()) ==> (r.1@ matches Some(
                step,
            ) && {
                &&& step_fits(token@, step)
                &&& exists|t: &mut ModifyParsedTok<'_>|
                    {
                        &&& #[trigger] call_ensures(
                            *old(filter_map),
                            (t, payload_size(token@)),
                            step.response,
                        )
                        &&& t.source() == token@
                        &&& t.window() == step.before
                        &&& (*t matches ModifyParsedTok::Prop(_, w) ==> final(w)@ == step.after)
                        &&& (*final(t) matches ModifyParsedTok::Prop(_, w) ==> final(w)@ == w@)
                    }
                &&& token@ is Prop ==> old(self).cursor() + 12 + step.before.len()
                    == old(output)@.len()
                &&& r.0 == match answer_result(
                    token@,
                    old(self).cursor(),
                    step.response,
                    old(output)@.len(),
                ) {
                    Ok(_) => Ok::<(), DevTreeError>(()),
                    Err(e) => Err::<(), DevTreeError>(e),
                }
            }),
            r.0 is Ok ==> (r.1@ matches Some(step) && {
                &&& directive_valid(token@, step)
                &&& tokens_at(final(output)@, start, grown(kept, outcome(token@, step)))
                &&& final(self).cursor() == start + tokens_len(grown(kept, outcome(token@, step)))
                &&& answer_result(token@, old(self).cursor(), step.response, old(output)@.len())
                    == Ok::<usize, DevTreeError>(final(self).cursor())
            }),
    {
        let ghost src = token@;
        let ghost before = output@;
        let node_offset = self.get_offset();
        let (answer, Ghost(step), Ghost(written)) = self.show_token(output, token, filter_map);
        let response = match answer {
            Ok(response) => response,
            Err(e) => {
                return (Err(e), Ghost(None));
            },
        };
        let ghost answered = output@;
        proof {
            lemma_tokens_len(kept);
            lemma_token_len(src);
            lemma_encoding_len(src);
            lemma_align_shift(node_offset as int, encoding(src).len() as int);
        }
        if let Err(e) = self.apply_response(output, token, node_offset, response) {
            return (Err(e), Ghost(Some(step)));
        }
        proof {
            lemma_turn(
                before,
                written,
                answered,
                output@,
                start,
                kept,
                src,
                step,
                node_offset,
            );
        }
        if let Err(e) = self.align_offset() {
            return (Err(DevTreeError::Write(e)), Ghost(Some(step)));
        }
        proof {
            lemma_answer_cursor(src, step, node_offset, before.len());
        }
        (Ok(()), Ghost(Some(step)))
    }

    /// Writes the structure block where the header says it lies: every token
    /// of the source in its turn, each shown to the filter right after it
    /// was written and then kept, dropped or resized as the filter answers,
    /// and the closing tag behind the last. Gives the size of the block.
    #[verifier::rlimit(30)]
    pub fn serialize_structure_block<F>(
        &mut self,
        devtree: &DevTree,
        output: &mut [u8],
        filter_map: &mut F,
    ) -> (r: Result<usize, DevTreeError>) where
        F: FnMut(&mut ModifyParsedTok<'_>, usize) -> ModifyTokenResponse,

        requires
            forall|t: &mut ModifyParsedTok<'_>, n: usize| call_requires(*old(filter_map), (t, n)),
        ensures
            final(output)@.len() == old(output)@.len(),
            *final(filter_map) == *old(filter_map),
            devtree@.wf(),
            r is Ok ==> forall|j: int|
                0 <= j < devtree@.header.off_dt_struct && j < old(output)@.len()
                    ==> final(output)@[j] == old(output)@[j],
            exists|steps: Seq<Step>|
                {
                    &&& #[trigger] structure_stops(
                        devtree@.tokens,
                        steps,
                        devtree@.header.off_dt_struct as usize,
                        old(output)@.len(),
                    )
                    &&& windows_reach(
                        devtree@.tokens,
                        steps,
                        devtree@.header.off_dt_struct as usize,
                        old(output)@.len(),
                    )
                    &&& forall|i: int|
                        #![trigger steps[i]]
                        0 <= i < steps.len() ==> {
                            &&& step_fits(devtree@.tokens[i], steps[i])
                            &&& exists|t: &mut ModifyParsedTok<'_>|
                                {
                                    &&& #[trigger] call_ensures(
                                        *old(filter_map),
                                        (t, payload_size(devtree@.tokens[i])),
                                        steps[i].response,
                                    )
                                    &&& t.source() == devtree@.tokens[i]
                                    &&& t.window() == steps[i].before
                                    &&& (*t matches ModifyParsedTok::Prop(_, w) ==> final(w)@
                                        == steps[i].after)
                                    &&& (*final(t) matches ModifyParsedTok::Prop(_, w) ==> final(w)@
                                        == w@)
                                }
                        }
                    &&& r == structure_result(
                        devtree@.tokens,
                        steps,
                        devtree@.header.off_dt_struct as usize,
                        old(output)@.len(),
                    )
                    &&& r matches Ok(size) ==> {
                        &&& forall|i: int|
                            0 <= i < steps.len() ==> directive_valid(
                                devtree@.tokens[i],
                                #[trigger] steps[i],
                            )
                        &&& size == structure_len(emitted(devtree@.tokens, steps))
                        &&& structure_at(
                            final(output)@,
                            devtree@.header.off_dt_struct as int,
                            emitted(devtree@.tokens, steps),
                        )
                        &&& final(self).cursor() == devtree@.header.off_dt_struct + size
                    }
                },
    {
        let start = devtree.off_dt_struct();
        self.set_offset(start);
        let tokens = devtree.tokens();
        let ghost srcs = devtree@.tokens;
        let ghost len = output@.len();
        let ghost mut steps: Seq<Step> = Seq::empty();
        let mut k: usize = 0;
        proof {
            vstd::slice::axiom_spec_len(output);
            assert(srcs.take(0) =~= Seq::<Token>::empty());
            lemma_replay_none(srcs, start, len);
        }
        while k < tokens.len()
            invariant
                k <= tokens@.len(),
                devtree@.wf(),
                srcs == devtree@.tokens,
                srcs == token_views(tokens@),
                tokens_wf(srcs),
                start == devtree@.header.off_dt_struct,
                start % 4 == 0,
                len == old(output)@.len(),
                output@.len() == len,
                output@.len() <= usize::MAX,
                *filter_map == *old(filter_map),
                forall|t: &mut ModifyParsedTok<'_>, n: usize| call_requires(*filter_map, (t, n)),
                forall|j: int|
                    0 <= j < start && j < output@.len() ==> output@[j] == old(output)@[j],
                steps.len() == k,
                forall|i: int| 0 <= i < k ==> directive_valid(srcs[i], #[trigger] steps[i]),
                forall|i: int|
                    #![trigger steps[i]]
                    0 <= i < k ==> {
                        &&& step_fits(srcs[i], steps[i])
                        &&& exists|t: &mut ModifyParsedTok<'_>|
                            {
                                &&& #[trigger] call_ensures(
                                    *old(filter_map),
                                    (t, payload_size(srcs[i])),
                                    steps[i].response,
                                )
                                &&& t.source() == srcs[i]
                                &&& t.window() == steps[i].before
                                &&& (*t matches ModifyParsedTok::Prop(_, w) ==> final(w)@
                                    == steps[i].after)
                                &&& (*final(t) matches ModifyParsedTok::Prop(_, w) ==> final(w)@
                                    == w@)
                            }
                    },
                windows_reach(srcs, steps, start, len),
                replay(srcs, steps, start, len) == Ok::<usize, DevTreeError>(self.cursor()),
                k > 0 ==> (replay(srcs, steps.drop_last(), start, len) matches Ok(cursor)
                    && token_fits(cursor, srcs[k - 1], len)),
                self.cursor() == start + tokens_len(emitted(srcs.take(k as int), steps)),
                tokens_at(output@, start as int, emitted(srcs.take(k as int), steps)),
            decreases tokens@.len() - k,
        {
            let ghost src = srcs[k as int];
            let ghost kept = emitted(srcs.take(k as int), steps);
            let ghost here = self.cursor();
            proof {
                assert(tokens@[k as int]@ == src);
                assert(token_wf(src));
            }
            let (result, Ghost(taken)) = self.rewrite_token(
                output,
                &tokens[k],
                filter_map,
                Ghost(start as int),
                Ghost(kept),
            );
            let ghost ended = grown_steps(steps, taken);
            proof {
                if let Some(step) = taken {
                    lemma_windows_reach_push(srcs, steps, step, start, len, here);
                }
                assert forall|i: int| #![trigger ended[i]] 0 <= i < ended.len() implies {
                    &&& step_fits(srcs[i], ended[i])
                    &&& exists|t: &mut ModifyParsedTok<'_>|
                        {
                            &&& #[trigger] call_ensures(
                                *old(filter_map),
                                (t, payload_size(srcs[i])),
                                ended[i].response,
                            )
                            &&& t.source() == srcs[i]
                            &&& t.window() == ended[i].before
                            &&& (*t matches ModifyParsedTok::Prop(_, w) ==> final(w)@
                                == ended[i].after)
                            &&& (*final(t) matches ModifyParsedTok::Prop(_, w) ==> final(w)@ == w@)
                        }
                } by {
                    if i < k {
                        assert(ended[i] == steps[i]);
                    }
                }
            }
            if let Err(e) = result {
                proof {
                    lemma_pass_breaks_off(srcs, steps, taken, start, len, here, e);
                    assert(structure_stops(
                        devtree@.tokens,
                        ended,
                        devtree@.header.off_dt_struct as usize,
                        old(output)@.len(),
                    ));
                }
                return Err(e);
            }
            proof {
                let step = taken->Some_0;
                lemma_pass_goes_on(srcs, steps, step, start, len, here, self.cursor());
                assert forall|i: int| 0 <= i < ended.len() implies directive_valid(
                    srcs[i],
                    #[trigger] ended[i],
                ) by {
                    if i < k {
                        assert(ended[i] == steps[i]);
                    }
                }
                steps = ended;
            }
            k += 1;
        }
        let ghost kept = emitted(srcs, steps);
        let ghost before = output@;
        proof {
            assert(srcs.take(k as int) =~= srcs);
            lemma_tokens_len(kept);
            lemma_splice(before, self.cursor() as int, be32(FDT_END));
            lemma_pass_through(srcs, steps, start, len, self.cursor());
            assert(structure_stops(
                devtree@.tokens,
                steps,
                devtree@.header.off_dt_struct as usize,
                old(output)@.len(),
            ));
        }
        if let Err(e) = self.serialize_u32(output, FDT_END) {
            return Err(DevTreeError::Write(e));
        }
        proof {
            lemma_tokens_at_frame(before, output@, start as int, kept);
        }
        Ok(self.get_offset() - start)
    }

    /// Writes `devtree` into `output` and shows every token of its structure
    /// block to `filter_map`, which may keep, drop or resize it. Gives the
    /// size of the rewritten tree. The strings block is placed right behind
    /// the new structure block, and the header is set to match.
    ///
    /// The filter decides what comes out, so the contract speaks of the
    /// steps of the pass: one for each call of the filter, with the answer
    /// and with what the filter's window held before and after. For some
    /// such steps, the pass went as far as they go, its result is the one
    /// that `pass_result` gives for them, and where that is `Ok` the buffer
    /// holds the image of the tree with the tokens that the steps leave.
    /// The clauses behind that one say what follows for a filter that
    /// passes every token as it is, for a buffer that is too short, for a
    /// tree without tokens, and for each error.
    #[verifier::rlimit(40)]
    pub fn modify<F>(
        &mut self,
        devtree: &DevTree,
        output: &mut [u8],
        filter_map: &mut F,
    ) -> (r: Result<usize, DevTreeError>) where
        F: FnMut(&mut ModifyParsedTok<'_>, usize) -> ModifyTokenResponse,

        requires
            forall|t: &mut ModifyParsedTok<'_>, n: usize| call_requires(*old(filter_map), (t, n)),
        ensures
            final(output)@.len() == old(output)@.len(),
            *final(filter_map) == *old(filter_map),
            devtree@.wf(),
            exists|steps: Seq<Step>|
                {
                    &&& #[trigger] pass_stops(devtree@, steps, old(output)@.len())
                    &&& windows_reach(
                        devtree@.tokens,
                        steps,
                        devtree@.header.off_dt_struct as usize,
                        old(output)@.len(),
                    )
                    &&& forall|i: int|
                        #![trigger steps[i]]
                        0 <= i < steps.len() ==> {
                            &&& step_fits(devtree@.tokens[i], steps[i])
                            &&& exists|t: &mut ModifyParsedTok<'_>|
                                {
                                    &&& #[trigger] call_ensures(
                                        *old(filter_map),
                                        (t, payload_size(devtree@.tokens[i])),
                                        steps[i].response,
                                    )
                                    &&& t.source() == devtree@.tokens[i]
                                    &&& t.window() == steps[i].before
                                    &&& (*t matches ModifyParsedTok::Prop(_, w) ==> final(w)@
                                        == steps[i].after)
                                    &&& (*final(t) matches ModifyParsedTok::Prop(_, w) ==> final(w)@
                                        == w@)
                                }
                        }
                    &&& r == pass_result(devtree@, steps, old(output)@.len())
                    &&& r matches Ok(total) ==> {
                        &&& forall|i: int|
                            0 <= i < steps.len() ==> directive_valid(
                                devtree@.tokens[i],
                                #[trigger] steps[i],
                            )
                        &&& total == image_len(devtree@, emitted(devtree@.tokens, steps))
                        &&& image_holds(final(output)@, devtree@, emitted(devtree@.tokens, steps))
                    }
                },
            (forall|t: &mut ModifyParsedTok<'_>, n: usize, resp: ModifyTokenResponse|
                #[trigger] call_ensures(*old(filter_map), (t, n), resp) ==> resp is Pass
                    && *final(t) == *t) ==> {
                &&& r is Ok <==> image_len(devtree@, devtree@.tokens) <= old(output)@.len()
                    && image_len(devtree@, devtree@.tokens) <= u32::MAX
                &&& r matches Ok(total) ==> total == image_len(devtree@, devtree@.tokens)
                    && image_holds(final(output)@, devtree@, devtree@.tokens)
            },
            old(output)@.len() < image_len(devtree@, Seq::empty()) ==> r is Err,
            devtree@.tokens.len() == 0 ==> (r is Ok <==> image_len(devtree@, Seq::empty())
                <= old(output)@.len() && image_len(devtree@, Seq::empty()) <= u32::MAX),
            r matches Err(e) ==> e == out_of_room() || e == DevTreeError::ImageTooLarge || e
                == DevTreeError::InvalidParameter(RESIZE_OF_NON_PROP),
            r == Err::<usize, DevTreeError>(DevTreeError::ImageTooLarge) ==> old(output)@.len()
                > u32::MAX,
            r == Err::<usize, DevTreeError>(DevTreeError::InvalidParameter(RESIZE_OF_NON_PROP))
                ==> exists|i: int, t: &mut ModifyParsedTok<'_>, n: usize|
                {
                    &&& 0 <= i < devtree@.tokens.len()
                    &&& !(devtree@.tokens[i] is Prop)
                    &&& t.source() == devtree@.tokens[i]
                    &&& #[trigger] call_ensures(
                        *old(filter_map),
                        (t, payload_size(devtree@.tokens[i])),
                        ModifyTokenResponse::ModifySize(n),
                    )
                },
    {
        let _ = devtree.tokens();
        let ghost tree = devtree@;
        let ghost blank = output@;
        let ghost len = output@.len();
        let ghost none = Seq::<Step>::empty();
        proof {
            vstd::slice::axiom_spec_len(output);
            lemma_reserve_bytes_len(tree.reserved);
            if !blocks_fit(tree, len) {
                assert(pass_stops(tree, none, len));
                lemma_pass_errors(tree, none, len);
                lemma_pass_needs_room(tree, none, len);
                lemma_untouched_pass(tree, none, len);
            }
        }
        if let Err(e) = self.serialize_header(devtree, output) {
            return Err(e);
        }
        if let Err(e) = self.serialize_memory_reservation_block(devtree, output) {
            return Err(e);
        }
        let written = self.serialize_structure_block(devtree, output, filter_map);
        let ghost structured = output@;
        let ghost steps = choose|steps: Seq<Step>|
            {
                &&& #[trigger] structure_stops(
                    tree.tokens,
                    steps,
                    tree.header.off_dt_struct as usize,
                    len,
                )
                &&& windows_reach(tree.tokens, steps, tree.header.off_dt_struct as usize, len)
                &&& forall|i: int|
                    #![trigger steps[i]]
                    0 <= i < steps.len() ==> {
                        &&& step_fits(tree.tokens[i], steps[i])
                        &&& exists|t: &mut ModifyParsedTok<'_>|
                            {
                                &&& #[trigger] call_ensures(
                                    *old(filter_map),
                                    (t, payload_size(tree.tokens[i])),
                                    steps[i].response,
                                )
                                &&& t.source() == tree.tokens[i]
                                &&& t.window() == steps[i].before
                                &&& (*t matches ModifyParsedTok::Prop(_, w) ==> final(w)@
                                    == steps[i].after)
                                &&& (*final(t) matches ModifyParsedTok::Prop(_, w) ==> final(w)@
                                    == w@)
                            }
                    }
                &&& written == structure_result(
                    tree.tokens,
                    steps,
                    tree.header.off_dt_struct as usize,
                    len,
                )
                &&& written matches Ok(size) ==> {
                    &&& forall|i: int|
                        0 <= i < steps.len() ==> directive_valid(
                            tree.tokens[i],
                            #[trigger] steps[i],
                        )
                    &&& size == structure_len(emitted(tree.tokens, steps))
                    &&& structure_at(
                        structured,
                        tree.header.off_dt_struct as int,
                        emitted(tree.tokens, steps),
                    )
                    &&& self.cursor() == tree.header.off_dt_struct + size
                }
            };
        let ghost kept = emitted(tree.tokens, steps);
        proof {
            assert(pass_stops(tree, steps, len));
            lemma_pass_errors(tree, steps, len);
            if pass_result(tree, steps, len) is Ok {
                lemma_pass_needs_room(tree, steps, len);
                lemma_pass_result_ok(tree, steps, len);
            } else if tree.tokens.len() == 0 {
                assert(steps =~= none);
                lemma_pass_needs_room(tree, steps, len);
            }
            if (forall|t: &mut ModifyParsedTok<'_>, n: usize, resp: ModifyTokenResponse|
                #[trigger] call_ensures(*old(filter_map), (t, n), resp) ==> resp is Pass
                    && *final(t) == *t) {
                assert forall|i: int| 0 <= i < steps.len() implies untouched(
                    #[trigger] steps[i],
                ) by {
                    assert(step_fits(tree.tokens[i], steps[i]));
                }
                lemma_untouched_pass(tree, steps, len);
            }
            lemma_tokens_len(kept);
            lemma_align4(strings_offset(tree, kept) + tree.strings.len());
        }
        let size = match written {
            Ok(size) => size,
            Err(e) => {
                return Err(e);
            },
        };
        let strings_block_offset = self.get_offset();
        self.set_structure_block_size(output, size)?;
        self.set_strings_block_offset(output, strings_block_offset)?;
        self.serialize_strings_block(devtree, output, strings_block_offset)?;
        let total_size = self.get_offset();
        if total_size > output.len() {
            return Err(DevTreeError::Write(SliceWriteError::UnexpectedEndOfInput));
        }
        self.set_total_size(output, total_size)?;
        proof {
            lemma_image_assembled(tree, kept, blank, structured, output@);
        }
        Ok(total_size)
    }
}

} // verus!
