use fdt_rs::base::{DevTree, Header, ParsedBeginNode, ParsedProp, ParsedTok, ReserveEntry};
use fdt_rs::error::{DevTreeError, RESIZE_OF_NON_PROP};
use fdt_rs::modify::modtoken::ModifyTokenResponse;
use fdt_rs::modify::serializer::Serializer;
use fdt_rs::priv_util::SliceWriteError;

const NO_ROOM: DevTreeError = DevTreeError::Write(SliceWriteError::UnexpectedEndOfInput);

fn header() -> Header {
    Header {
        totalsize: 0x1111,
        off_dt_struct: 72,
        off_dt_strings: 2,
        off_mem_rsvmap: 40,
        version: 17,
        last_comp_version: 16,
        boot_cpuid_phys: 3,
        size_dt_strings: 5,
        size_dt_struct: 0x2222,
    }
}

fn at(offset: usize) -> Serializer {
    let mut serializer = Serializer::default();
    serializer.set_offset(offset);
    serializer
}

#[test]
fn a_new_serializer_starts_at_zero() {
    let serializer = Serializer::default();
    assert_eq!(serializer.get_offset(), 0);
}

#[test]
fn set_offset_moves_the_cursor() {
    let mut serializer = Serializer::default();
    serializer.set_offset(1234);
    assert_eq!(serializer.get_offset(), 1234);
}

#[test]
fn align_offset_rounds_up_to_a_multiple_of_four() {
    for (from, to) in [(0, 0), (1, 4), (2, 4), (3, 4), (4, 4), (5, 8), (72, 72), (77, 80)] {
        let mut serializer = at(from);
        assert_eq!(serializer.align_offset(), Ok(()));
        assert_eq!(serializer.get_offset(), to);
    }
}

#[test]
fn align_offset_fails_where_no_offset_is_left() {
    let mut serializer = at(usize::MAX);
    assert_eq!(serializer.align_offset(), Err(SliceWriteError::UnexpectedEndOfInput));
    assert_eq!(serializer.get_offset(), usize::MAX);
    let mut last = at(usize::MAX - 3);
    assert_eq!(last.align_offset(), Ok(()));
    assert_eq!(last.get_offset(), usize::MAX - 3);
}

#[test]
fn serialize_u32_writes_and_advances() {
    let mut buf = [0xffu8; 8];
    let mut serializer = at(1);
    assert_eq!(serializer.serialize_u32(&mut buf, 0x0102_0304), Ok(()));
    assert_eq!(serializer.get_offset(), 5);
    assert_eq!(buf, [0xff, 1, 2, 3, 4, 0xff, 0xff, 0xff]);
    assert_eq!(
        serializer.serialize_u32(&mut buf, 9),
        Err(SliceWriteError::UnexpectedEndOfInput)
    );
    assert_eq!(serializer.get_offset(), 5);
    assert_eq!(buf, [0xff, 1, 2, 3, 4, 0xff, 0xff, 0xff]);
}

#[test]
fn serialize_u64_writes_and_advances() {
    let mut buf = [0xffu8; 10];
    let mut serializer = at(2);
    assert_eq!(serializer.serialize_u64(&mut buf, 0x0102_0304_0506_0708), Ok(()));
    assert_eq!(serializer.get_offset(), 10);
    assert_eq!(buf, [0xff, 0xff, 1, 2, 3, 4, 5, 6, 7, 8]);
    assert_eq!(
        serializer.serialize_u64(&mut buf, 9),
        Err(SliceWriteError::UnexpectedEndOfInput)
    );
    assert_eq!(serializer.get_offset(), 10);
}

#[test]
fn serialize_slice_writes_and_advances() {
    let mut buf = [0u8; 6];
    let mut serializer = at(1);
    assert_eq!(serializer.serialize_slice(&mut buf, &[7, 8, 9]), Ok(()));
    assert_eq!(serializer.get_offset(), 4);
    assert_eq!(buf, [0, 7, 8, 9, 0, 0]);
    assert_eq!(
        serializer.serialize_slice(&mut buf, &[1, 2, 3]),
        Err(SliceWriteError::UnexpectedEndOfInput)
    );
    assert_eq!(serializer.get_offset(), 4);
    assert_eq!(buf, [0, 7, 8, 9, 1, 2]);
}

#[test]
fn serialize_string_writes_the_zero_byte_and_advances() {
    let mut buf = [0xffu8; 6];
    let mut serializer = at(1);
    assert_eq!(serializer.serialize_string(&mut buf, b"soc"), Ok(()));
    assert_eq!(serializer.get_offset(), 5);
    assert_eq!(buf, [0xff, b's', b'o', b'c', 0, 0xff]);
    assert_eq!(
        serializer.serialize_string(&mut buf, b"x"),
        Err(SliceWriteError::UnexpectedEndOfInput)
    );
    assert_eq!(serializer.get_offset(), 5);
}

#[test]
fn serialize_header_writes_the_ten_fields() {
    let blob = [0u8; 8];
    let tree = DevTree::new(&blob, header(), vec![], vec![]).unwrap();
    let mut buf = [0xffu8; 44];
    let mut serializer = at(9);
    assert_eq!(serializer.serialize_header(&tree, &mut buf), Ok(()));
    assert_eq!(serializer.get_offset(), 40);
    let expected: [u8; 44] = [
        0xd0, 0x0d, 0xfe, 0xed, 0, 0, 0x11, 0x11, 0, 0, 0, 72, 0, 0, 0, 2, 0, 0, 0, 40, 0, 0, 0,
        17, 0, 0, 0, 16, 0, 0, 0, 3, 0, 0, 0, 5, 0, 0, 0x22, 0x22, 0xff, 0xff, 0xff, 0xff,
    ];
    assert_eq!(buf, expected);
}

#[test]
fn serialize_header_needs_forty_bytes() {
    let blob = [0u8; 8];
    let tree = DevTree::new(&blob, header(), vec![], vec![]).unwrap();
    let mut buf = [0u8; 39];
    let mut serializer = Serializer::default();
    assert_eq!(serializer.serialize_header(&tree, &mut buf), Err(NO_ROOM));
    let mut enough = [0u8; 40];
    assert_eq!(serializer.serialize_header(&tree, &mut enough), Ok(()));
}

#[test]
fn serialize_memory_reservation_block_writes_each_entry() {
    let blob = [0u8; 8];
    let reserved = vec![
        ReserveEntry { address: 0x0102_0304_0506_0708, size: 0x10 },
        ReserveEntry { address: 0x8000_0000, size: 0x0a0b_0c0d_0e0f_1011 },
    ];
    let tree = DevTree::new(&blob, header(), reserved, vec![]).unwrap();
    let mut buf = [0xffu8; 76];
    let mut serializer = Serializer::default();
    assert_eq!(serializer.serialize_memory_reservation_block(&tree, &mut buf), Ok(()));
    assert_eq!(serializer.get_offset(), 72);
    assert_eq!(&buf[..40], &[0xffu8; 40][..]);
    assert_eq!(&buf[40..56], &[1, 2, 3, 4, 5, 6, 7, 8, 0, 0, 0, 0, 0, 0, 0, 0x10][..]);
    assert_eq!(
        &buf[56..72],
        &[0, 0, 0, 0, 0x80, 0, 0, 0, 0x0a, 0x0b, 0x0c, 0x0d, 0x0e, 0x0f, 0x10, 0x11][..]
    );
    assert_eq!(&buf[72..], &[0xffu8; 4][..]);
}

#[test]
fn serialize_memory_reservation_block_needs_room_for_every_entry() {
    let blob = [0u8; 8];
    let reserved = vec![ReserveEntry { address: 1, size: 2 }; 2];
    let tree = DevTree::new(&blob, header(), reserved, vec![]).unwrap();
    let mut serializer = Serializer::default();
    let mut buf = [0u8; 71];
    assert_eq!(serializer.serialize_memory_reservation_block(&tree, &mut buf), Err(NO_ROOM));
    let none = DevTree::new(&blob, header(), vec![], vec![]).unwrap();
    let mut tiny = [0u8; 3];
    assert_eq!(serializer.serialize_memory_reservation_block(&none, &mut tiny), Ok(()));
    assert_eq!(serializer.get_offset(), 40);
    assert_eq!(tiny, [0, 0, 0]);
}

#[test]
fn header_fields_are_set_in_their_places() {
    let mut buf = [0xffu8; 40];
    let mut serializer = Serializer::default();
    assert_eq!(serializer.set_structure_block_size(&mut buf, 0x0102_0304), Ok(()));
    assert_eq!(serializer.get_offset(), 40);
    assert_eq!(serializer.set_strings_block_offset(&mut buf, 0x0506_0708), Ok(()));
    assert_eq!(serializer.get_offset(), 16);
    assert_eq!(serializer.set_total_size(&mut buf, 0x090a_0b0c), Ok(()));
    assert_eq!(serializer.get_offset(), 8);
    let mut expected = [0xffu8; 40];
    expected[36..40].copy_from_slice(&[1, 2, 3, 4]);
    expected[12..16].copy_from_slice(&[5, 6, 7, 8]);
    expected[4..8].copy_from_slice(&[9, 10, 11, 12]);
    assert_eq!(buf, expected);
}

#[test]
fn header_fields_need_their_place_in_the_buffer() {
    let mut buf = [0xffu8; 39];
    let mut serializer = Serializer::default();
    assert_eq!(serializer.set_structure_block_size(&mut buf, 1), Err(NO_ROOM));
    assert_eq!(serializer.set_strings_block_offset(&mut buf, 1), Ok(()));
    assert_eq!(serializer.set_total_size(&mut buf[..7], 1), Err(NO_ROOM));
}

#[test]
fn header_fields_hold_thirty_two_bits() {
    if usize::BITS > 32 {
        let big = (u32::MAX as usize) + 1;
        let mut buf = [0xffu8; 40];
        let mut serializer = Serializer::default();
        assert_eq!(
            serializer.set_structure_block_size(&mut buf, big),
            Err(DevTreeError::ImageTooLarge)
        );
        assert_eq!(
            serializer.set_strings_block_offset(&mut buf, big),
            Err(DevTreeError::ImageTooLarge)
        );
        assert_eq!(serializer.set_total_size(&mut buf, big), Err(DevTreeError::ImageTooLarge));
        assert_eq!(buf, [0xffu8; 40]);
        assert_eq!(serializer.set_total_size(&mut buf, u32::MAX as usize), Ok(()));
        assert_eq!(&buf[4..8], &[0xff, 0xff, 0xff, 0xff][..]);
    }
}

#[test]
fn serialize_strings_block_copies_and_aligns() {
    let blob = *b"..abcde.";
    let tree = DevTree::new(&blob, header(), vec![], vec![]).unwrap();
    let mut buf = [0xffu8; 16];
    let mut serializer = Serializer::default();
    assert_eq!(serializer.serialize_strings_block(&tree, &mut buf, 4), Ok(()));
    assert_eq!(serializer.get_offset(), 12);
    assert_eq!(&buf[..4], &[0xffu8; 4][..]);
    assert_eq!(&buf[4..9], b"abcde");
    assert_eq!(&buf[9..], &[0xffu8; 7][..]);
}

#[test]
fn serialize_strings_block_needs_room_for_the_strings() {
    let blob = *b"..abcde.";
    let tree = DevTree::new(&blob, header(), vec![], vec![]).unwrap();
    let mut buf = [0xffu8; 8];
    let mut serializer = Serializer::default();
    assert_eq!(serializer.serialize_strings_block(&tree, &mut buf, 4), Err(NO_ROOM));
    assert_eq!(&buf[4..], b"abcd");
    assert_eq!(serializer.serialize_strings_block(&tree, &mut buf, 3), Ok(()));
    assert_eq!(serializer.get_offset(), 8);
}

#[test]
fn serialize_token_writes_a_named_node() {
    let mut buf = [0xffu8; 16];
    let mut serializer = at(4);
    let token = ParsedTok::BeginNode(ParsedBeginNode { name: b"cpus" });
    assert_eq!(serializer.serialize_token(&mut buf, &token), Ok(()));
    assert_eq!(serializer.get_offset(), 13);
    assert_eq!(
        buf,
        [0xff, 0xff, 0xff, 0xff, 0, 0, 0, 1, b'c', b'p', b'u', b's', 0, 0xff, 0xff, 0xff]
    );
}

#[test]
fn serialize_token_closes_an_empty_name_with_a_zero_word() {
    let mut buf = [0xffu8; 12];
    let mut serializer = at(0);
    let token = ParsedTok::BeginNode(ParsedBeginNode { name: b"" });
    assert_eq!(serializer.serialize_token(&mut buf, &token), Ok(()));
    assert_eq!(serializer.get_offset(), 8);
    assert_eq!(buf, [0, 0, 0, 1, 0, 0, 0, 0, 0xff, 0xff, 0xff, 0xff]);
}

#[test]
fn serialize_token_writes_a_property() {
    let mut buf = [0xffu8; 20];
    let mut serializer = at(0);
    let token = ParsedTok::Prop(ParsedProp { prop_buf: &[9, 8, 7, 6, 5], name_offset: 0x0102 });
    assert_eq!(serializer.serialize_token(&mut buf, &token), Ok(()));
    assert_eq!(serializer.get_offset(), 17);
    assert_eq!(
        buf,
        [0, 0, 0, 3, 0, 0, 0, 5, 0, 0, 1, 2, 9, 8, 7, 6, 5, 0xff, 0xff, 0xff]
    );
}

#[test]
fn serialize_token_writes_the_tokens_without_payload() {
    let mut buf = [0xffu8; 8];
    let mut serializer = at(0);
    assert_eq!(serializer.serialize_token(&mut buf, &ParsedTok::EndNode), Ok(()));
    assert_eq!(serializer.serialize_token(&mut buf, &ParsedTok::Nop), Ok(()));
    assert_eq!(serializer.get_offset(), 8);
    assert_eq!(buf, [0, 0, 0, 2, 0, 0, 0, 4]);
}

#[test]
fn serialize_token_needs_room_for_the_whole_token() {
    let token = ParsedTok::Prop(ParsedProp { prop_buf: &[9, 8, 7, 6, 5], name_offset: 1 });
    let mut short = [0u8; 16];
    assert_eq!(at(0).serialize_token(&mut short, &token), Err(NO_ROOM));
    let mut exact = [0u8; 17];
    assert_eq!(at(0).serialize_token(&mut exact, &token), Ok(()));
    let node = ParsedTok::BeginNode(ParsedBeginNode { name: b"abc" });
    assert_eq!(at(0).serialize_token(&mut [0u8; 7], &node), Err(NO_ROOM));
    assert_eq!(at(0).serialize_token(&mut [0u8; 8], &node), Ok(()));
    assert_eq!(at(1).serialize_token(&mut [0u8; 4], &ParsedTok::Nop), Err(NO_ROOM));
    assert_eq!(at(1).serialize_token(&mut [0u8; 5], &ParsedTok::Nop), Ok(()));
}

#[test]
fn serialize_token_refuses_numbers_beyond_thirty_two_bits() {
    if usize::BITS > 32 {
        let token = ParsedTok::Prop(ParsedProp {
            prop_buf: &[1],
            name_offset: (u32::MAX as usize) + 1,
        });
        let mut buf = [0xffu8; 16];
        let mut serializer = at(0);
        assert_eq!(serializer.serialize_token(&mut buf, &token), Err(DevTreeError::ParseError));
        assert_eq!(serializer.get_offset(), 0);
        assert_eq!(buf, [0xffu8; 16]);
    }
}

#[test]
fn pass_changes_nothing() {
    let mut buf = [0xffu8; 16];
    let mut serializer = at(12);
    let token = ParsedTok::Nop;
    assert_eq!(
        serializer.apply_response(&mut buf, &token, 8, ModifyTokenResponse::Pass),
        Ok(())
    );
    assert_eq!(serializer.get_offset(), 12);
    assert_eq!(buf, [0xffu8; 16]);
}

#[test]
fn drop_moves_the_cursor_back_to_the_token() {
    let mut buf = [0xffu8; 16];
    let mut serializer = at(12);
    let token = ParsedTok::BeginNode(ParsedBeginNode { name: b"soc" });
    assert_eq!(
        serializer.apply_response(&mut buf, &token, 4, ModifyTokenResponse::Drop),
        Ok(())
    );
    assert_eq!(serializer.get_offset(), 4);
    assert_eq!(buf, [0xffu8; 16]);
}

#[test]
fn modify_size_sets_the_length_and_moves_behind_the_value() {
    let mut buf = [0xffu8; 24];
    let mut serializer = at(20);
    let token = ParsedTok::Prop(ParsedProp { prop_buf: &[1, 2, 3, 4, 5], name_offset: 0x77 });
    assert_eq!(
        serializer.apply_response(&mut buf, &token, 4, ModifyTokenResponse::ModifySize(7)),
        Ok(())
    );
    assert_eq!(serializer.get_offset(), 23);
    let mut expected = [0xffu8; 24];
    expected[8..12].copy_from_slice(&[0, 0, 0, 7]);
    expected[12..16].copy_from_slice(&[0, 0, 0, 0x77]);
    assert_eq!(buf, expected);
    assert_eq!(
        serializer.apply_response(&mut buf, &token, 4, ModifyTokenResponse::ModifySize(0)),
        Ok(())
    );
    assert_eq!(serializer.get_offset(), 16);
    assert_eq!(&buf[8..12], &[0, 0, 0, 0][..]);
}

#[test]
fn modify_size_needs_the_new_value_inside_the_buffer() {
    let mut buf = [0xffu8; 24];
    let mut serializer = at(20);
    let token = ParsedTok::Prop(ParsedProp { prop_buf: &[1, 2, 3, 4, 5], name_offset: 0x77 });
    assert_eq!(
        serializer.apply_response(&mut buf, &token, 4, ModifyTokenResponse::ModifySize(8)),
        Ok(())
    );
    assert_eq!(serializer.get_offset(), 24);
    assert_eq!(
        serializer.apply_response(&mut buf, &token, 4, ModifyTokenResponse::ModifySize(9)),
        Err(NO_ROOM)
    );
    assert_eq!(
        serializer.apply_response(&mut buf, &token, 4, ModifyTokenResponse::ModifySize(usize::MAX)),
        Err(NO_ROOM)
    );
    assert_eq!(
        serializer.apply_response(&mut buf, &token, 13, ModifyTokenResponse::ModifySize(0)),
        Err(NO_ROOM)
    );
    assert_eq!(
        serializer.apply_response(&mut buf, &token, usize::MAX, ModifyTokenResponse::ModifySize(0)),
        Err(NO_ROOM)
    );
    assert_eq!(serializer.get_offset(), 24);
}

#[test]
fn modify_size_is_for_properties_alone() {
    let mut buf = [0xffu8; 24];
    let mut serializer = at(20);
    let others = [
        ParsedTok::BeginNode(ParsedBeginNode { name: b"soc" }),
        ParsedTok::EndNode,
        ParsedTok::Nop,
    ];
    for token in others {
        assert_eq!(
            serializer.apply_response(&mut buf, &token, 4, ModifyTokenResponse::ModifySize(4)),
            Err(DevTreeError::InvalidParameter(RESIZE_OF_NON_PROP))
        );
        assert_eq!(
            serializer.apply_response(&mut buf, &token, 400, ModifyTokenResponse::ModifySize(4)),
            Err(DevTreeError::InvalidParameter(
                "Cannot return ModifySize from a non-Prop token!"
            ))
        );
    }
    assert_eq!(serializer.get_offset(), 20);
    assert_eq!(buf, [0xffu8; 24]);
}

#[test]
fn modify_size_refuses_a_name_offset_beyond_thirty_two_bits() {
    if usize::BITS > 32 {
        let mut buf = [0xffu8; 24];
        let mut serializer = at(20);
        let token = ParsedTok::Prop(ParsedProp {
            prop_buf: &[1, 2],
            name_offset: (u32::MAX as usize) + 1,
        });
        assert_eq!(
            serializer.apply_response(&mut buf, &token, 4, ModifyTokenResponse::ModifySize(1)),
            Err(DevTreeError::ParseError)
        );
        assert_eq!(
            serializer.apply_response(&mut buf, &token, 4, ModifyTokenResponse::ModifySize(9)),
            Err(NO_ROOM)
        );
        assert_eq!(
            serializer.apply_response(&mut buf, &token, 4, ModifyTokenResponse::Pass),
            Ok(())
        );
        assert_eq!(serializer.get_offset(), 20);
        assert_eq!(buf, [0xffu8; 24]);
    }
}
