//! Bounds-checked access to a byte buffer: big-endian integers, raw slices
//! and NUL-terminated byte strings at an explicit offset.

use vstd::prelude::*;
use vstd::slice::slice_subrange;

verus! {

#[derive(Debug, Copy, Clone, PartialEq, Eq)]
pub enum SliceReadError {
    /// The offset and the width that did not fit.
    InvalidOffset(usize, usize),
    UnexpectedEndOfInput,
}

#[derive(Debug, Copy, Clone, PartialEq, Eq)]
pub enum SliceWriteError {
    UnexpectedEndOfInput,
}

/// The four bytes of `v`, most significant first.
pub open spec fn be32(v: u32) -> Seq<u8> {
    seq![
        ((v >> 24) & 0xff) as u8,
        ((v >> 16) & 0xff) as u8,
        ((v >> 8) & 0xff) as u8,
        (v & 0xff) as u8,
    ]
}

/// The eight bytes of `v`, most significant first.
pub open spec fn be64(v: u64) -> Seq<u8> {
    be32(((v >> 32) & 0xffff_ffff) as u32) + be32((v & 0xffff_ffff) as u32)
}

/// The number whose big-endian bytes are the first four of `s`.
pub open spec fn from_be32(s: Seq<u8>) -> u32 {
    (s[0] as u32) << 24 | (s[1] as u32) << 16 | (s[2] as u32) << 8 | (s[3] as u32)
}

/// The number whose big-endian bytes are the first eight of `s`.
pub open spec fn from_be64(s: Seq<u8>) -> u64 {
    (from_be32(s.subrange(0, 4)) as u64) << 32 | (from_be32(s.subrange(4, 8)) as u64)
}

/// `s` carries `bytes` from position `pos` on.
pub open spec fn holds_at(s: Seq<u8>, pos: int, bytes: Seq<u8>) -> bool {
    &&& 0 <= pos
    &&& pos + bytes.len() <= s.len()
    &&& s.subrange(pos, pos + bytes.len()) == bytes
}

/// `s` after `bytes` were stored from position `pos` on. What would fall
/// behind the end of `s` is cut off: the length never changes.
pub open spec fn splice(s: Seq<u8>, pos: int, bytes: Seq<u8>) -> Seq<u8> {
    Seq::new(
        s.len(),
        |i: int|
            if pos <= i < pos + bytes.len() {
                bytes[i - pos]
            } else {
                s[i]
            },
    )
}

/// The position of the first zero byte of `s` in `[pos, end)`, or `end`.
pub open spec fn nul_from(s: Seq<u8>, pos: int, end: int) -> int
    decreases end - pos,
{
    if pos >= end {
        end
    } else if s[pos] == 0 {
        pos
    } else {
        nul_from(s, pos + 1, end)
    }
}

/// Reading back what `be32` laid down gives the number again.
pub proof fn lemma_be32_round_trip(v: u32)
    ensures
        be32(v).len() == 4,
        from_be32(be32(v)) == v,
{
    let b0 = ((v >> 24) & 0xff) as u8;
    let b1 = ((v >> 16) & 0xff) as u8;
    let b2 = ((v >> 8) & 0xff) as u8;
    let b3 = (v & 0xff) as u8;
    assert(((((v >> 24) & 0xff) as u8) as u32) << 24 | ((((v >> 16) & 0xff) as u8) as u32) << 16
        | ((((v >> 8) & 0xff) as u8) as u32) << 8 | (((v & 0xff) as u8) as u32) == v)
        by (bit_vector);
    assert(be32(v)[0] == b0 && be32(v)[1] == b1 && be32(v)[2] == b2 && be32(v)[3] == b3);
}

/// Reading back what `be64` laid down gives the number again.
pub proof fn lemma_be64_round_trip(v: u64)
    ensures
        be64(v).len() == 8,
        from_be64(be64(v)) == v,
{
    let hi = ((v >> 32) & 0xffff_ffff) as u32;
    let lo = (v & 0xffff_ffff) as u32;
    lemma_be32_round_trip(hi);
    lemma_be32_round_trip(lo);
    assert(be64(v).subrange(0, 4) =~= be32(hi));
    assert(be64(v).subrange(4, 8) =~= be32(lo));
    assert(((((v >> 32) & 0xffff_ffff) as u32) as u64) << 32 | (((v & 0xffff_ffff) as u32) as u64)
        == v) by (bit_vector);
}

/// What a splice leaves in the sequence: the stored bytes where they fit,
/// the old bytes everywhere else.
pub proof fn lemma_splice(s: Seq<u8>, pos: int, bytes: Seq<u8>)
    requires
        0 <= pos,
    ensures
        splice(s, pos, bytes).len() == s.len(),
        pos + bytes.len() <= s.len() ==> holds_at(splice(s, pos, bytes), pos, bytes),
        forall|i: int|
            0 <= i < s.len() && !(pos <= i < pos + bytes.len()) ==> #[trigger] splice(
                s,
                pos,
                bytes,
            )[i] == s[i],
{
    if pos + bytes.len() <= s.len() {
        assert(splice(s, pos, bytes).subrange(pos, pos + bytes.len()) =~= bytes);
    }
}

/// Bytes that a splice does not reach stay where they were.
pub proof fn lemma_splice_keeps(s: Seq<u8>, pos: int, bytes: Seq<u8>, at: int, kept: Seq<u8>)
    requires
        0 <= pos,
        holds_at(s, at, kept),
        at + kept.len() <= pos || pos + bytes.len() <= at,
    ensures
        holds_at(splice(s, pos, bytes), at, kept),
{
    assert(splice(s, pos, bytes).subrange(at, at + kept.len()) =~= s.subrange(
        at,
        at + kept.len(),
    ));
}

/// Stores `value` at `pos`, most significant byte first.
pub fn write_be_u32(buf: &mut [u8], pos: usize, value: u32) -> (r: Result<(), SliceWriteError>)
    ensures
        r is Ok <==> pos + 4 <= old(buf)@.len(),
        r is Ok ==> final(buf)@ == splice(old(buf)@, pos as int, be32(value)),
        r is Err ==> final(buf)@ == old(buf)@,
{
    let len = buf.len();
    if pos > len || len - pos < 4 {
        return Err(SliceWriteError::UnexpectedEndOfInput);
    }
    assert(((value >> 24) & 0xff) < 256 && ((value >> 16) & 0xff) < 256 && ((value >> 8) & 0xff)
        < 256 && (value & 0xff) < 256) by (bit_vector);
    buf[pos] = ((value >> 24) & 0xff) as u8;
    buf[pos + 1] = ((value >> 16) & 0xff) as u8;
    buf[pos + 2] = ((value >> 8) & 0xff) as u8;
    buf[pos + 3] = (value & 0xff) as u8;
    assert(buf@ =~= splice(old(buf)@, pos as int, be32(value)));
    Ok(())
}

/// Stores `value` at `pos`, most significant byte first.
pub fn write_be_u64(buf: &mut [u8], pos: usize, value: u64) -> (r: Result<(), SliceWriteError>)
    ensures
        r is Ok <==> pos + 8 <= old(buf)@.len(),
        r is Ok ==> final(buf)@ == splice(old(buf)@, pos as int, be64(value)),
        r is Err ==> final(buf)@ == old(buf)@,
{
    let len = buf.len();
    if pos > len || len - pos < 8 {
        return Err(SliceWriteError::UnexpectedEndOfInput);
    }
    assert(((value >> 32) & 0xffff_ffff) < 0x1_0000_0000 && (value & 0xffff_ffff) < 0x1_0000_0000)
        by (bit_vector);
    let hi = ((value >> 32) & 0xffff_ffff) as u32;
    let lo = (value & 0xffff_ffff) as u32;
    let _ = write_be_u32(buf, pos, hi);
    let _ = write_be_u32(buf, pos + 4, lo);
    assert(buf@ =~= splice(old(buf)@, pos as int, be64(value)));
    Ok(())
}

/// Copies `slice` to `pos`, byte by byte, and stops at the end of `buf`:
/// the bytes that fit are stored even where the call fails.
pub fn write_slice(buf: &mut [u8], pos: usize, slice: &[u8]) -> (r: Result<(), SliceWriteError>)
    ensures
        r is Ok <==> slice@.len() == 0 || pos + slice@.len() <= old(buf)@.len(),
        final(buf)@ == splice(old(buf)@, pos as int, slice@),
{
    let len = buf.len();
    let mut i: usize = 0;
    while i < slice.len()
        invariant
            len == buf@.len() == old(buf)@.len(),
            i <= slice@.len(),
            i == 0 || pos + i <= len,
            buf@ == splice(old(buf)@, pos as int, slice@.take(i as int)),
        decreases slice@.len() - i,
    {
        if pos >= len || len - pos <= i {
            assert(buf@ =~= splice(old(buf)@, pos as int, slice@));
            return Err(SliceWriteError::UnexpectedEndOfInput);
        }
        buf[pos + i] = slice[i];
        i += 1;
        assert(buf@ =~= splice(old(buf)@, pos as int, slice@.take(i as int)));
    }
    assert(slice@.take(i as int) =~= slice@);
    Ok(())
}

/// Copies `string` to `pos` and puts one zero byte behind it. As with
/// `write_slice`, the bytes that fit are stored even where the call fails.
pub fn write_bstring0(buf: &mut [u8], pos: usize, string: &[u8]) -> (r: Result<
    (),
    SliceWriteError,
>)
    ensures
        r is Ok <==> pos + string@.len() + 1 <= old(buf)@.len(),
        final(buf)@ == splice(old(buf)@, pos as int, string@.push(0u8)),
{
    let len = buf.len();
    if write_slice(buf, pos, string).is_err() {
        assert(buf@ =~= splice(old(buf)@, pos as int, string@.push(0u8)));
        return Err(SliceWriteError::UnexpectedEndOfInput);
    }
    if pos >= len || len - pos <= string.len() {
        assert(buf@ =~= splice(old(buf)@, pos as int, string@.push(0u8)));
        return Err(SliceWriteError::UnexpectedEndOfInput);
    }
    buf[pos + string.len()] = 0u8;
    assert(buf@ =~= splice(old(buf)@, pos as int, string@.push(0u8)));
    Ok(())
}

/// The first zero byte of a range is the position that has a zero byte and
/// none before it.
pub proof fn lemma_nul_from_is(s: Seq<u8>, pos: int, end: int, at: int)
    requires
        0 <= pos <= at <= end <= s.len(),
        at < end ==> s[at] == 0,
        forall|j: int| pos <= j < at ==> s[j] != 0,
    ensures
        nul_from(s, pos, end) == at,
    decreases end - pos,
{
    if pos < at {
        lemma_nul_from_is(s, pos + 1, end, at);
    }
}

/// Reads the big-endian number at `pos`.
pub fn read_be_u32(buf: &[u8], pos: usize) -> (r: Result<u32, SliceReadError>)
    ensures
        pos + 4 <= buf@.len() ==> r == Ok::<u32, SliceReadError>(
            from_be32(buf@.subrange(pos as int, pos + 4)),
        ),
        pos + 4 > buf@.len() ==> r == Err::<u32, SliceReadError>(
            SliceReadError::UnexpectedEndOfInput,
        ),
{
    let len = buf.len();
    if pos > len || len - pos < 4 {
        return Err(SliceReadError::UnexpectedEndOfInput);
    }
    let b0 = buf[pos] as u32;
    let b1 = buf[pos + 1] as u32;
    let b2 = buf[pos + 2] as u32;
    let b3 = buf[pos + 3] as u32;
    Ok(b0 << 24 | b1 << 16 | b2 << 8 | b3)
}

/// Reads the big-endian number at `pos`.
pub fn read_be_u64(buf: &[u8], pos: usize) -> (r: Result<u64, SliceReadError>)
    ensures
        pos + 8 <= buf@.len() ==> r == Ok::<u64, SliceReadError>(
            from_be64(buf@.subrange(pos as int, pos + 8)),
        ),
        pos + 8 > buf@.len() ==> r == Err::<u64, SliceReadError>(
            SliceReadError::UnexpectedEndOfInput,
        ),
{
    let len = buf.len();
    if pos > len || len - pos < 8 {
        return Err(SliceReadError::UnexpectedEndOfInput);
    }
    let ghost whole = buf@.subrange(pos as int, pos + 8);
    assert(whole.subrange(0, 4) =~= buf@.subrange(pos as int, pos + 4));
    assert(whole.subrange(4, 8) =~= buf@.subrange(pos + 4, pos + 8));
    let hi = match read_be_u32(buf, pos) {
        Ok(v) => v,
        Err(e) => return Err(e),
    };
    let lo = match read_be_u32(buf, pos + 4) {
        Ok(v) => v,
        Err(e) => return Err(e),
    };
    Ok((hi as u64) << 32 | (lo as u64))
}

/// Reads the big-endian number at `pos`, and names the offset and the width
/// where they do not fit.
pub fn read_be_u32_at(buf: &[u8], pos: usize) -> (r: Result<u32, SliceReadError>)
    ensures
        pos + 4 <= buf@.len() ==> r == Ok::<u32, SliceReadError>(
            from_be32(buf@.subrange(pos as int, pos + 4)),
        ),
        pos + 4 > buf@.len() ==> r == Err::<u32, SliceReadError>(
            SliceReadError::InvalidOffset(pos, 4),
        ),
{
    match read_be_u32(buf, pos) {
        Ok(v) => Ok(v),
        Err(_) => Err(SliceReadError::InvalidOffset(pos, 4)),
    }
}

/// Reads the big-endian number at `pos`, and names the offset and the width
/// where they do not fit.
pub fn read_be_u64_at(buf: &[u8], pos: usize) -> (r: Result<u64, SliceReadError>)
    ensures
        pos + 8 <= buf@.len() ==> r == Ok::<u64, SliceReadError>(
            from_be64(buf@.subrange(pos as int, pos + 8)),
        ),
        pos + 8 > buf@.len() ==> r == Err::<u64, SliceReadError>(
            SliceReadError::InvalidOffset(pos, 8),
        ),
{
    match read_be_u64(buf, pos) {
        Ok(v) => Ok(v),
        Err(_) => Err(SliceReadError::InvalidOffset(pos, 8)),
    }
}

/// The byte string that starts at `pos` and ends before the first zero byte.
pub fn read_bstring0<'a>(buf: &'a [u8], pos: usize) -> (r: Result<&'a [u8], SliceReadError>)
    ensures
        ({
            let end = nul_from(buf@, pos as int, buf@.len() as int);
            if pos <= end < buf@.len() {
                r matches Ok(found) && found@ == buf@.subrange(pos as int, end)
            } else {
                r == Err::<&[u8], SliceReadError>(SliceReadError::UnexpectedEndOfInput)
            }
        }),
{
    nread_bstring0(buf, pos, buf.len())
}

/// The byte string that starts at `pos` and ends before the first zero byte,
/// where that byte is among the `len` bytes from `pos` on.
pub fn nread_bstring0<'a>(buf: &'a [u8], pos: usize, len: usize) -> (r: Result<
    &'a [u8],
    SliceReadError,
>)
    ensures
        ({
            let limit = if pos + len < buf@.len() {
                pos + len
            } else {
                buf@.len() as int
            };
            let end = nul_from(buf@, pos as int, limit);
            if pos <= end < limit {
                r matches Ok(found) && found@ == buf@.subrange(pos as int, end)
            } else {
                r == Err::<&[u8], SliceReadError>(SliceReadError::UnexpectedEndOfInput)
            }
        }),
{
    let size = buf.len();
    if pos >= size {
        return Err(SliceReadError::UnexpectedEndOfInput);
    }
    let limit: usize = if len < size - pos {
        pos + len
    } else {
        size
    };
    let mut i: usize = pos;
    while i < limit
        invariant
            pos <= i <= limit <= size == buf@.len(),
            limit == if pos + len < size { pos + len } else { size as int },
            forall|j: int| pos <= j < i ==> buf@[j] != 0,
        decreases limit - i,
    {
        if buf[i] == 0 {
            proof {
                lemma_nul_from_is(buf@, pos as int, limit as int, i as int);
            }
            return Ok(slice_subrange(buf, pos, i));
        }
        i += 1;
    }
    proof {
        lemma_nul_from_is(buf@, pos as int, limit as int, limit as int);
    }
    Err(SliceReadError::UnexpectedEndOfInput)
}

/// Two stores, one right behind the other, are one store of both.
pub proof fn lemma_splice_append(s: Seq<u8>, pos: int, a: Seq<u8>, b: Seq<u8>)
    requires
        0 <= pos,
    ensures
        splice(splice(s, pos, a), pos + a.len(), b) == splice(s, pos, a + b),
{
    assert(splice(splice(s, pos, a), pos + a.len(), b) =~= splice(s, pos, a + b));
}

/// What lies at a place with something right behind it lies there as one.
pub proof fn lemma_holds_append(s: Seq<u8>, at: int, a: Seq<u8>, b: Seq<u8>)
    requires
        holds_at(s, at, a),
        holds_at(s, at + a.len(), b),
    ensures
        holds_at(s, at, a + b),
{
    assert(s.subrange(at, at + (a + b).len()) =~= s.subrange(at, at + a.len()) + s.subrange(
        at + a.len(),
        at + a.len() + b.len(),
    ));
}

/// Two images that agree on a range hold the same bytes there.
pub proof fn lemma_holds_frame(s1: Seq<u8>, s2: Seq<u8>, at: int, bytes: Seq<u8>)
    requires
        holds_at(s1, at, bytes),
        s1.len() == s2.len(),
        forall|i: int| at <= i < at + bytes.len() ==> s1[i] == s2[i],
    ensures
        holds_at(s2, at, bytes),
{
    assert(s2.subrange(at, at + bytes.len()) =~= s1.subrange(at, at + bytes.len()));
}

} // verus!
