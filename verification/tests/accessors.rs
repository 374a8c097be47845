use fdt_rs::priv_util::{
    nread_bstring0, read_be_u32, read_be_u32_at, read_be_u64, read_be_u64_at, read_bstring0,
    write_be_u32, write_be_u64, write_bstring0, write_slice, SliceReadError, SliceWriteError,
};

#[test]
fn write_be_u32_stores_most_significant_byte_first() {
    let mut buf = [0xffu8; 8];
    assert_eq!(write_be_u32(&mut buf, 2, 0xd00d_feed), Ok(()));
    assert_eq!(buf, [0xff, 0xff, 0xd0, 0x0d, 0xfe, 0xed, 0xff, 0xff]);
}

#[test]
fn write_be_u32_needs_no_alignment() {
    let mut buf = [0u8; 7];
    assert_eq!(write_be_u32(&mut buf, 3, 0x0102_0304), Ok(()));
    assert_eq!(buf, [0, 0, 0, 1, 2, 3, 4]);
}

#[test]
fn write_be_u32_fails_at_the_end_and_leaves_the_buffer() {
    let mut buf = [7u8; 6];
    assert_eq!(write_be_u32(&mut buf, 3, 1), Err(SliceWriteError::UnexpectedEndOfInput));
    assert_eq!(write_be_u32(&mut buf, 6, 1), Err(SliceWriteError::UnexpectedEndOfInput));
    assert_eq!(write_be_u32(&mut buf, usize::MAX, 1), Err(SliceWriteError::UnexpectedEndOfInput));
    assert_eq!(buf, [7u8; 6]);
    assert_eq!(write_be_u32(&mut buf, 2, 1), Ok(()));
    assert_eq!(buf, [7, 7, 0, 0, 0, 1]);
}

#[test]
fn write_be_u64_stores_most_significant_byte_first() {
    let mut buf = [0u8; 10];
    assert_eq!(write_be_u64(&mut buf, 1, 0x0102_0304_0506_0708), Ok(()));
    assert_eq!(buf, [0, 1, 2, 3, 4, 5, 6, 7, 8, 0]);
}

#[test]
fn write_be_u64_fails_at_the_end_and_leaves_the_buffer() {
    let mut buf = [9u8; 10];
    assert_eq!(write_be_u64(&mut buf, 3, 1), Err(SliceWriteError::UnexpectedEndOfInput));
    assert_eq!(buf, [9u8; 10]);
    assert_eq!(write_be_u64(&mut buf, 2, 1), Ok(()));
    assert_eq!(buf, [9, 9, 0, 0, 0, 0, 0, 0, 0, 1]);
}

#[test]
fn write_slice_copies_the_bytes() {
    let mut buf = [0u8; 6];
    assert_eq!(write_slice(&mut buf, 2, &[1, 2, 3]), Ok(()));
    assert_eq!(buf, [0, 0, 1, 2, 3, 0]);
}

#[test]
fn write_slice_stores_what_fits_before_it_fails() {
    let mut buf = [0u8; 4];
    assert_eq!(
        write_slice(&mut buf, 2, &[1, 2, 3]),
        Err(SliceWriteError::UnexpectedEndOfInput)
    );
    assert_eq!(buf, [0, 0, 1, 2]);
}

#[test]
fn write_slice_of_nothing_succeeds_anywhere() {
    let mut buf = [5u8; 2];
    assert_eq!(write_slice(&mut buf, 2, &[]), Ok(()));
    assert_eq!(write_slice(&mut buf, 100, &[]), Ok(()));
    assert_eq!(buf, [5, 5]);
    assert_eq!(write_slice(&mut buf, 2, &[1]), Err(SliceWriteError::UnexpectedEndOfInput));
    assert_eq!(buf, [5, 5]);
}

#[test]
fn write_bstring0_appends_one_zero_byte() {
    let mut buf = [0xffu8; 6];
    assert_eq!(write_bstring0(&mut buf, 1, b"abc"), Ok(()));
    assert_eq!(buf, [0xff, b'a', b'b', b'c', 0, 0xff]);
}

#[test]
fn write_bstring0_needs_room_for_the_zero_byte() {
    let mut buf = [0xffu8; 4];
    assert_eq!(
        write_bstring0(&mut buf, 1, b"abc"),
        Err(SliceWriteError::UnexpectedEndOfInput)
    );
    assert_eq!(buf, [0xff, b'a', b'b', b'c']);
    let mut empty = [0xffu8; 1];
    assert_eq!(write_bstring0(&mut empty, 0, b""), Ok(()));
    assert_eq!(empty, [0]);
    assert_eq!(write_bstring0(&mut empty, 1, b""), Err(SliceWriteError::UnexpectedEndOfInput));
}

#[test]
fn read_be_u32_reads_most_significant_byte_first() {
    let buf = [0xaa, 0xd0, 0x0d, 0xfe, 0xed, 0xbb];
    assert_eq!(read_be_u32(&buf, 1), Ok(0xd00d_feed));
    assert_eq!(read_be_u32(&buf, 2), Ok(0x0dfe_edbb));
}

#[test]
fn read_be_u32_fails_at_the_end() {
    let buf = [0u8; 6];
    assert_eq!(read_be_u32(&buf, 3), Err(SliceReadError::UnexpectedEndOfInput));
    assert_eq!(read_be_u32(&buf, 6), Err(SliceReadError::UnexpectedEndOfInput));
    assert_eq!(read_be_u32(&buf, usize::MAX), Err(SliceReadError::UnexpectedEndOfInput));
}

#[test]
fn read_be_u64_reads_most_significant_byte_first() {
    let buf = [0, 1, 2, 3, 4, 5, 6, 7, 8];
    assert_eq!(read_be_u64(&buf, 1), Ok(0x0102_0304_0506_0708));
    assert_eq!(read_be_u64(&buf, 0), Ok(0x0001_0203_0405_0607));
    assert_eq!(read_be_u64(&buf, 2), Err(SliceReadError::UnexpectedEndOfInput));
}

#[test]
fn reads_that_name_the_offset_say_what_did_not_fit() {
    let buf = [0, 0, 0, 5, 0, 0, 0, 6];
    assert_eq!(read_be_u32_at(&buf, 0), Ok(5));
    assert_eq!(read_be_u32_at(&buf, 5), Err(SliceReadError::InvalidOffset(5, 4)));
    assert_eq!(read_be_u64_at(&buf, 0), Ok(0x0000_0005_0000_0006));
    assert_eq!(read_be_u64_at(&buf, 1), Err(SliceReadError::InvalidOffset(1, 8)));
}

#[test]
fn written_numbers_read_back() {
    let mut buf = [0u8; 16];
    for value in [0u32, 1, 0x7fff_ffff, 0x8000_0000, 0xdead_beef, u32::MAX] {
        assert_eq!(write_be_u32(&mut buf, 5, value), Ok(()));
        assert_eq!(read_be_u32(&buf, 5), Ok(value));
    }
    for value in [0u64, 1, 0x0123_4567_89ab_cdef, u64::MAX] {
        assert_eq!(write_be_u64(&mut buf, 3, value), Ok(()));
        assert_eq!(read_be_u64(&buf, 3), Ok(value));
    }
}

#[test]
fn read_bstring0_stops_before_the_first_zero_byte() {
    let buf = *b"ab\0cde\0";
    assert_eq!(read_bstring0(&buf, 0), Ok(&b"ab"[..]));
    assert_eq!(read_bstring0(&buf, 1), Ok(&b"b"[..]));
    assert_eq!(read_bstring0(&buf, 2), Ok(&b""[..]));
    assert_eq!(read_bstring0(&buf, 3), Ok(&b"cde"[..]));
}

#[test]
fn read_bstring0_fails_without_a_zero_byte() {
    let buf = *b"ab\0cde";
    assert_eq!(read_bstring0(&buf, 3), Err(SliceReadError::UnexpectedEndOfInput));
    assert_eq!(read_bstring0(&buf, 6), Err(SliceReadError::UnexpectedEndOfInput));
    assert_eq!(read_bstring0(&buf, 60), Err(SliceReadError::UnexpectedEndOfInput));
}

#[test]
fn nread_bstring0_looks_at_no_more_than_len_bytes() {
    let buf = *b"abcd\0ef\0";
    assert_eq!(nread_bstring0(&buf, 0, 5), Ok(&b"abcd"[..]));
    assert_eq!(nread_bstring0(&buf, 0, 4), Err(SliceReadError::UnexpectedEndOfInput));
    assert_eq!(nread_bstring0(&buf, 0, 0), Err(SliceReadError::UnexpectedEndOfInput));
    assert_eq!(nread_bstring0(&buf, 5, 3), Ok(&b"ef"[..]));
    assert_eq!(nread_bstring0(&buf, 5, 2), Err(SliceReadError::UnexpectedEndOfInput));
    assert_eq!(nread_bstring0(&buf, 5, usize::MAX), Ok(&b"ef"[..]));
    assert_eq!(nread_bstring0(&buf, 8, 4), Err(SliceReadError::UnexpectedEndOfInput));
}
