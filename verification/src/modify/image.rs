//! The byte image of a rewritten tree: what the header says, and where the
//! blocks lie.

use crate::base::{Header, ReserveEntry, TreeModel};
use crate::layout::{
    align4, lemma_align4, lemma_holds_part, lemma_tokens_at_frame, lemma_tokens_len,
    structure_at, tokens_len, Token, FDT_END, FDT_MAGIC,
};
use crate::priv_util::{
    be32, be64, from_be32, holds_at, lemma_be32_round_trip, lemma_splice, splice,
};
use vstd::prelude::*;

verus! {

/// The forty bytes of a header.
pub open spec fn header_bytes(h: Header) -> Seq<u8> {
    be32(FDT_MAGIC) + be32(h.totalsize) + be32(h.off_dt_struct) + be32(h.off_dt_strings) + be32(
        h.off_mem_rsvmap,
    ) + be32(h.version) + be32(h.last_comp_version) + be32(h.boot_cpuid_phys) + be32(
        h.size_dt_strings,
    ) + be32(h.size_dt_struct)
}

/// The image starts with the header `h`, field by field.
pub open spec fn header_at(s: Seq<u8>, h: Header) -> bool {
    &&& holds_at(s, 0, be32(FDT_MAGIC))
    &&& holds_at(s, 4, be32(h.totalsize))
    &&& holds_at(s, 8, be32(h.off_dt_struct))
    &&& holds_at(s, 12, be32(h.off_dt_strings))
    &&& holds_at(s, 16, be32(h.off_mem_rsvmap))
    &&& holds_at(s, 20, be32(h.version))
    &&& holds_at(s, 24, be32(h.last_comp_version))
    &&& holds_at(s, 28, be32(h.boot_cpuid_phys))
    &&& holds_at(s, 32, be32(h.size_dt_strings))
    &&& holds_at(s, 36, be32(h.size_dt_struct))
}

/// The bytes of a memory reservation block: address and size of each entry,
/// eight bytes each.
pub open spec fn reserve_bytes(entries: Seq<ReserveEntry>) -> Seq<u8>
    decreases entries.len(),
{
    if entries.len() == 0 {
        Seq::empty()
    } else {
        reserve_bytes(entries.drop_last()) + be64(entries.last().address) + be64(
            entries.last().size,
        )
    }
}

/// The size of the structure block that holds `tokens`: the tokens and the
/// closing tag.
pub open spec fn structure_len(tokens: Seq<Token>) -> int {
    tokens_len(tokens) + 4
}

/// Where the strings block of the rewritten tree starts: right behind its
/// structure block.
pub open spec fn strings_offset(tree: TreeModel, tokens: Seq<Token>) -> int {
    tree.header.off_dt_struct + structure_len(tokens)
}

/// The size of the rewritten tree: up to the end of its strings block,
/// rounded up to a multiple of four.
pub open spec fn image_len(tree: TreeModel, tokens: Seq<Token>) -> int {
    align4(strings_offset(tree, tokens) + tree.strings.len())
}

/// The header of the rewritten tree: that of the source, with the size of
/// the structure block, the place of the strings block and the total size
/// set to what the image holds.
pub open spec fn rewritten_header(tree: TreeModel, tokens: Seq<Token>) -> Header {
    Header {
        totalsize: image_len(tree, tokens) as u32,
        off_dt_strings: strings_offset(tree, tokens) as u32,
        size_dt_struct: structure_len(tokens) as u32,
        ..tree.header
    }
}

/// The image `s` is the tree `tree` with `tokens` as its structure block:
/// header, reservations, structure block and strings block, each in its
/// place, none reaching into another.
pub open spec fn image_holds(s: Seq<u8>, tree: TreeModel, tokens: Seq<Token>) -> bool {
    &&& image_len(tree, tokens) <= s.len()
    &&& image_len(tree, tokens) <= u32::MAX
    &&& header_at(s, rewritten_header(tree, tokens))
    &&& holds_at(s, tree.header.off_mem_rsvmap as int, reserve_bytes(tree.reserved))
    &&& structure_at(s, tree.header.off_dt_struct as int, tokens)
    &&& holds_at(s, strings_offset(tree, tokens), tree.strings)
}

/// A memory reservation block takes sixteen bytes for each entry.
pub proof fn lemma_reserve_bytes_len(entries: Seq<ReserveEntry>)
    ensures
        reserve_bytes(entries).len() == 16 * entries.len(),
    decreases entries.len(),
{
    if entries.len() > 0 {
        lemma_reserve_bytes_len(entries.drop_last());
    }
}

/// An image that starts with the bytes of a header starts with its fields.
pub proof fn lemma_header_fields(s: Seq<u8>, h: Header)
    requires
        holds_at(s, 0, header_bytes(h)),
    ensures
        header_at(s, h),
{
    let b = header_bytes(h);
    lemma_holds_part(s, 0, b, 0, 4);
    lemma_holds_part(s, 0, b, 4, 8);
    lemma_holds_part(s, 0, b, 8, 12);
    lemma_holds_part(s, 0, b, 12, 16);
    lemma_holds_part(s, 0, b, 16, 20);
    lemma_holds_part(s, 0, b, 20, 24);
    lemma_holds_part(s, 0, b, 24, 28);
    lemma_holds_part(s, 0, b, 28, 32);
    lemma_holds_part(s, 0, b, 32, 36);
    lemma_holds_part(s, 0, b, 36, 40);
    assert(b.subrange(0, 4) =~= be32(FDT_MAGIC));
    assert(b.subrange(4, 8) =~= be32(h.totalsize));
    assert(b.subrange(8, 12) =~= be32(h.off_dt_struct));
    assert(b.subrange(12, 16) =~= be32(h.off_dt_strings));
    assert(b.subrange(16, 20) =~= be32(h.off_mem_rsvmap));
    assert(b.subrange(20, 24) =~= be32(h.version));
    assert(b.subrange(24, 28) =~= be32(h.last_comp_version));
    assert(b.subrange(28, 32) =~= be32(h.boot_cpuid_phys));
    assert(b.subrange(32, 36) =~= be32(h.size_dt_strings));
    assert(b.subrange(36, 40) =~= be32(h.size_dt_struct));
}

/// The header of a rewritten tree, read back from the image, agrees with
/// what the image holds: the structure block has the size of its tokens and
/// the closing tag, the strings block starts where the structure block
/// ends, and the total size is the end of the strings block, rounded up to
/// a multiple of four. All other fields are those of the source.
#[verifier::rlimit(30)]
pub proof fn lemma_header_consistent(s: Seq<u8>, tree: TreeModel, tokens: Seq<Token>)
    requires
        tree.wf(),
        image_holds(s, tree, tokens),
    ensures
        s.len() >= 40,
        from_be32(s.subrange(0, 4)) == FDT_MAGIC,
        from_be32(s.subrange(8, 12)) == tree.header.off_dt_struct,
        from_be32(s.subrange(16, 20)) == tree.header.off_mem_rsvmap,
        from_be32(s.subrange(20, 24)) == tree.header.version,
        from_be32(s.subrange(24, 28)) == tree.header.last_comp_version,
        from_be32(s.subrange(28, 32)) == tree.header.boot_cpuid_phys,
        from_be32(s.subrange(32, 36)) == tree.strings.len(),
        from_be32(s.subrange(36, 40)) == tokens_len(tokens) + 4,
        from_be32(s.subrange(36, 40)) % 4 == 0,
        from_be32(s.subrange(12, 16)) == from_be32(s.subrange(8, 12)) + from_be32(
            s.subrange(36, 40),
        ),
        from_be32(s.subrange(4, 8)) == align4(
            from_be32(s.subrange(12, 16)) + from_be32(s.subrange(32, 36)),
        ),
        from_be32(s.subrange(4, 8)) <= s.len(),
{
    let h = rewritten_header(tree, tokens);
    lemma_tokens_len(tokens);
    lemma_be32_round_trip(FDT_MAGIC);
    lemma_be32_round_trip(h.totalsize);
    lemma_be32_round_trip(h.off_dt_struct);
    lemma_be32_round_trip(h.off_dt_strings);
    lemma_be32_round_trip(h.off_mem_rsvmap);
    lemma_be32_round_trip(h.version);
    lemma_be32_round_trip(h.last_comp_version);
    lemma_be32_round_trip(h.boot_cpuid_phys);
    lemma_be32_round_trip(h.size_dt_strings);
    lemma_be32_round_trip(h.size_dt_struct);
}

/// The two images have one length and differ inside `[lo, hi)` at most.
pub open spec fn same_outside(a: Seq<u8>, b: Seq<u8>, lo: int, hi: int) -> bool {
    &&& a.len() == b.len()
    &&& forall|i: int| 0 <= i < a.len() && !(lo <= i < hi) ==> a[i] == b[i]
}

/// A store changes nothing outside the range that it covers.
pub proof fn lemma_splice_outside(s: Seq<u8>, pos: int, bytes: Seq<u8>)
    requires
        0 <= pos,
    ensures
        same_outside(s, splice(s, pos, bytes), pos, pos + bytes.len()),
{
}

/// Bytes outside the range of a change stay.
pub proof fn lemma_holds_outside(
    a: Seq<u8>,
    b: Seq<u8>,
    lo: int,
    hi: int,
    at: int,
    bytes: Seq<u8>,
)
    requires
        same_outside(a, b, lo, hi),
        holds_at(a, at, bytes),
        at + bytes.len() <= lo || hi <= at,
    ensures
        holds_at(b, at, bytes),
{
    assert(b.subrange(at, at + bytes.len()) =~= a.subrange(at, at + bytes.len()));
}

/// A structure block outside the range of a change stays.
pub proof fn lemma_structure_outside(
    a: Seq<u8>,
    b: Seq<u8>,
    lo: int,
    hi: int,
    start: int,
    tokens: Seq<Token>,
)
    requires
        same_outside(a, b, lo, hi),
        structure_at(a, start, tokens),
        0 <= start,
        start + structure_len(tokens) <= lo || hi <= start,
    ensures
        structure_at(b, start, tokens),
{
    lemma_tokens_len(tokens);
    lemma_tokens_at_frame(a, b, start, tokens);
    lemma_holds_outside(a, b, lo, hi, start + tokens_len(tokens), be32(FDT_END));
}

/// A header stays where nothing changes in the first forty bytes.
pub proof fn lemma_header_outside(a: Seq<u8>, b: Seq<u8>, lo: int, hi: int, h: Header)
    requires
        same_outside(a, b, lo, hi),
        header_at(a, h),
        40 <= lo,
    ensures
        header_at(b, h),
{
    lemma_holds_outside(a, b, lo, hi, 0, be32(FDT_MAGIC));
    lemma_holds_outside(a, b, lo, hi, 4, be32(h.totalsize));
    lemma_holds_outside(a, b, lo, hi, 8, be32(h.off_dt_struct));
    lemma_holds_outside(a, b, lo, hi, 12, be32(h.off_dt_strings));
    lemma_holds_outside(a, b, lo, hi, 16, be32(h.off_mem_rsvmap));
    lemma_holds_outside(a, b, lo, hi, 20, be32(h.version));
    lemma_holds_outside(a, b, lo, hi, 24, be32(h.last_comp_version));
    lemma_holds_outside(a, b, lo, hi, 28, be32(h.boot_cpuid_phys));
    lemma_holds_outside(a, b, lo, hi, 32, be32(h.size_dt_strings));
    lemma_holds_outside(a, b, lo, hi, 36, be32(h.size_dt_struct));
}

/// Setting the three fields that a rewrite changes gives the header with
/// those fields changed.
#[verifier::rlimit(30)]
pub proof fn lemma_header_patched(
    s: Seq<u8>,
    h: Header,
    size_dt_struct: u32,
    off_dt_strings: u32,
    totalsize: u32,
)
    requires
        header_at(s, h),
    ensures
        header_at(
            splice(s, 36, be32(size_dt_struct)),
            (Header { size_dt_struct, ..h }),
        ),
        header_at(
            splice(s, 12, be32(off_dt_strings)),
            (Header { off_dt_strings, ..h }),
        ),
        header_at(splice(s, 4, be32(totalsize)), (Header { totalsize, ..h })),
{
    let a = splice(s, 36, be32(size_dt_struct));
    lemma_splice(s, 36, be32(size_dt_struct));
    lemma_splice_outside(s, 36, be32(size_dt_struct));
    lemma_holds_outside(s, a, 36, 40, 0, be32(FDT_MAGIC));
    lemma_holds_outside(s, a, 36, 40, 4, be32(h.totalsize));
    lemma_holds_outside(s, a, 36, 40, 8, be32(h.off_dt_struct));
    lemma_holds_outside(s, a, 36, 40, 12, be32(h.off_dt_strings));
    lemma_holds_outside(s, a, 36, 40, 16, be32(h.off_mem_rsvmap));
    lemma_holds_outside(s, a, 36, 40, 20, be32(h.version));
    lemma_holds_outside(s, a, 36, 40, 24, be32(h.last_comp_version));
    lemma_holds_outside(s, a, 36, 40, 28, be32(h.boot_cpuid_phys));
    lemma_holds_outside(s, a, 36, 40, 32, be32(h.size_dt_strings));
    let b = splice(s, 12, be32(off_dt_strings));
    lemma_splice(s, 12, be32(off_dt_strings));
    lemma_splice_outside(s, 12, be32(off_dt_strings));
    lemma_holds_outside(s, b, 12, 16, 0, be32(FDT_MAGIC));
    lemma_holds_outside(s, b, 12, 16, 4, be32(h.totalsize));
    lemma_holds_outside(s, b, 12, 16, 8, be32(h.off_dt_struct));
    lemma_holds_outside(s, b, 12, 16, 16, be32(h.off_mem_rsvmap));
    lemma_holds_outside(s, b, 12, 16, 20, be32(h.version));
    lemma_holds_outside(s, b, 12, 16, 24, be32(h.last_comp_version));
    lemma_holds_outside(s, b, 12, 16, 28, be32(h.boot_cpuid_phys));
    lemma_holds_outside(s, b, 12, 16, 32, be32(h.size_dt_strings));
    lemma_holds_outside(s, b, 12, 16, 36, be32(h.size_dt_struct));
    let c = splice(s, 4, be32(totalsize));
    lemma_splice(s, 4, be32(totalsize));
    lemma_splice_outside(s, 4, be32(totalsize));
    lemma_holds_outside(s, c, 4, 8, 0, be32(FDT_MAGIC));
    lemma_holds_outside(s, c, 4, 8, 8, be32(h.off_dt_struct));
    lemma_holds_outside(s, c, 4, 8, 12, be32(h.off_dt_strings));
    lemma_holds_outside(s, c, 4, 8, 16, be32(h.off_mem_rsvmap));
    lemma_holds_outside(s, c, 4, 8, 20, be32(h.version));
    lemma_holds_outside(s, c, 4, 8, 24, be32(h.last_comp_version));
    lemma_holds_outside(s, c, 4, 8, 28, be32(h.boot_cpuid_phys));
    lemma_holds_outside(s, c, 4, 8, 32, be32(h.size_dt_strings));
    lemma_holds_outside(s, c, 4, 8, 36, be32(h.size_dt_struct));
}

/// The writes of a pass, one after the other, leave the image of the
/// rewritten tree.
#[verifier::rlimit(30)]
pub proof fn lemma_image_assembled(
    tree: TreeModel,
    tokens: Seq<Token>,
    blank: Seq<u8>,
    structured: Seq<u8>,
    done: Seq<u8>,
)
    requires
        tree.wf(),
        image_len(tree, tokens) <= blank.len(),
        image_len(tree, tokens) <= u32::MAX,
        same_outside(
            splice(
                splice(blank, 0, header_bytes(tree.header)),
                tree.header.off_mem_rsvmap as int,
                reserve_bytes(tree.reserved),
            ),
            structured,
            tree.header.off_dt_struct as int,
            blank.len() as int,
        ),
        structure_at(structured, tree.header.off_dt_struct as int, tokens),
        done == splice(
            splice(
                splice(
                    splice(structured, 36, be32(structure_len(tokens) as u32)),
                    12,
                    be32(strings_offset(tree, tokens) as u32),
                ),
                strings_offset(tree, tokens),
                tree.strings,
            ),
            4,
            be32(image_len(tree, tokens) as u32),
        ),
    ensures
        image_holds(done, tree, tokens),
{
    let h = tree.header;
    let start = h.off_dt_struct as int;
    let rsv = h.off_mem_rsvmap as int;
    let len = blank.len() as int;
    let strings_at = strings_offset(tree, tokens);
    lemma_tokens_len(tokens);
    lemma_reserve_bytes_len(tree.reserved);
    lemma_align4(strings_at + tree.strings.len());
    // header and reservations
    let s1 = splice(blank, 0, header_bytes(h));
    lemma_splice(blank, 0, header_bytes(h));
    lemma_header_fields(s1, h);
    let s2 = splice(s1, rsv, reserve_bytes(tree.reserved));
    lemma_splice(s1, rsv, reserve_bytes(tree.reserved));
    lemma_splice_outside(s1, rsv, reserve_bytes(tree.reserved));
    lemma_header_outside(s1, s2, rsv, rsv + reserve_bytes(tree.reserved).len(), h);
    // structure block
    lemma_header_outside(s2, structured, start, len, h);
    lemma_holds_outside(s2, structured, start, len, rsv, reserve_bytes(tree.reserved));
    // size of the structure block
    let h4 = Header { size_dt_struct: structure_len(tokens) as u32, ..h };
    let s4 = splice(structured, 36, be32(structure_len(tokens) as u32));
    lemma_header_patched(structured, h, structure_len(tokens) as u32, 0, 0);
    lemma_splice_outside(structured, 36, be32(structure_len(tokens) as u32));
    lemma_holds_outside(structured, s4, 36, 40, rsv, reserve_bytes(tree.reserved));
    lemma_structure_outside(structured, s4, 36, 40, start, tokens);
    // place of the strings block
    let h5 = Header { off_dt_strings: strings_at as u32, ..h4 };
    let s5 = splice(s4, 12, be32(strings_at as u32));
    lemma_header_patched(s4, h4, 0, strings_at as u32, 0);
    lemma_splice_outside(s4, 12, be32(strings_at as u32));
    lemma_holds_outside(s4, s5, 12, 16, rsv, reserve_bytes(tree.reserved));
    lemma_structure_outside(s4, s5, 12, 16, start, tokens);
    // strings block
    let s6 = splice(s5, strings_at, tree.strings);
    lemma_splice(s5, strings_at, tree.strings);
    lemma_splice_outside(s5, strings_at, tree.strings);
    lemma_header_outside(s5, s6, strings_at, strings_at + tree.strings.len(), h5);
    lemma_holds_outside(
        s5,
        s6,
        strings_at,
        strings_at + tree.strings.len(),
        rsv,
        reserve_bytes(tree.reserved),
    );
    lemma_structure_outside(s5, s6, strings_at, strings_at + tree.strings.len(), start, tokens);
    // total size
    let total = image_len(tree, tokens) as u32;
    lemma_header_patched(s6, h5, 0, 0, total);
    lemma_splice_outside(s6, 4, be32(total));
    lemma_holds_outside(s6, done, 4, 8, rsv, reserve_bytes(tree.reserved));
    lemma_structure_outside(s6, done, 4, 8, start, tokens);
    lemma_holds_outside(s6, done, 4, 8, strings_at, tree.strings);
    assert((Header { totalsize: total, ..h5 }) == rewritten_header(tree, tokens));
}

} // verus!
