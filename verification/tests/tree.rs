use fdt_rs::base::{
    is_nul_free, is_token_wf, DevTree, Header, ParsedBeginNode, ParsedProp, ParsedTok,
    ReserveEntry,
};
use fdt_rs::error::DevTreeError;
use fdt_rs::layout::FDT_MAGIC;

fn header() -> Header {
    Header {
        totalsize: 200,
        off_dt_struct: 72,
        off_dt_strings: 4,
        off_mem_rsvmap: 40,
        version: 17,
        last_comp_version: 16,
        boot_cpuid_phys: 3,
        size_dt_strings: 6,
        size_dt_struct: 100,
    }
}

fn error_of(r: Result<DevTree<'_>, DevTreeError>) -> Option<DevTreeError> {
    match r {
        Ok(_) => None,
        Err(e) => Some(e),
    }
}

#[test]
fn tree_gives_back_its_parts() {
    let blob = *b"....model\0..";
    let reserved = vec![ReserveEntry { address: 0x1000, size: 0x20 }];
    let tokens = vec![
        ParsedTok::BeginNode(ParsedBeginNode { name: b"" }),
        ParsedTok::Prop(ParsedProp { prop_buf: &[1, 2, 3], name_offset: 0 }),
        ParsedTok::Nop,
        ParsedTok::EndNode,
    ];
    let tree = DevTree::new(&blob, header(), reserved, tokens).unwrap();
    assert_eq!(tree.magic(), FDT_MAGIC);
    assert_eq!(tree.magic(), 0xd00d_feed);
    assert_eq!(tree.totalsize(), 200);
    assert_eq!(tree.off_dt_struct(), 72);
    assert_eq!(tree.off_dt_strings(), 4);
    assert_eq!(tree.off_mem_rsvmap(), 40);
    assert_eq!(tree.version(), 17);
    assert_eq!(tree.last_comp_version(), 16);
    assert_eq!(tree.boot_cpuid_phys(), 3);
    assert_eq!(tree.size_dt_strings(), 6);
    assert_eq!(tree.size_dt_struct(), 100);
    assert_eq!(tree.buf(), &blob[..]);
    assert_eq!(tree.strings(), b"model\0");
    assert_eq!(tree.reserved_entries(), &[ReserveEntry { address: 0x1000, size: 0x20 }][..]);
    assert_eq!(tree.tokens().len(), 4);
    assert!(matches!(tree.tokens()[0], ParsedTok::BeginNode(node) if node.name.is_empty()));
    assert!(matches!(
        tree.tokens()[1],
        ParsedTok::Prop(prop) if prop.prop_buf == [1, 2, 3] && prop.name_offset == 0
    ));
    assert!(matches!(tree.tokens()[2], ParsedTok::Nop));
    assert!(matches!(tree.tokens()[3], ParsedTok::EndNode));
}

#[test]
fn tree_needs_the_reservations_behind_the_header() {
    let blob = [0u8; 16];
    let mut h = header();
    h.off_mem_rsvmap = 36;
    assert_eq!(
        error_of(DevTree::new(&blob, h, vec![], vec![])),
        Some(DevTreeError::InvalidOffset)
    );
    h.off_mem_rsvmap = 40;
    assert_eq!(error_of(DevTree::new(&blob, h, vec![], vec![])), None);
}

#[test]
fn tree_needs_room_for_its_reservations() {
    let blob = [0u8; 16];
    let entry = ReserveEntry { address: 1, size: 2 };
    let h = header();
    assert_eq!(error_of(DevTree::new(&blob, h, vec![entry; 2], vec![])), None);
    assert_eq!(
        error_of(DevTree::new(&blob, h, vec![entry; 3], vec![])),
        Some(DevTreeError::InvalidOffset)
    );
    let mut back = header();
    back.off_dt_struct = 36;
    assert_eq!(
        error_of(DevTree::new(&blob, back, vec![], vec![])),
        Some(DevTreeError::InvalidOffset)
    );
}

#[test]
fn tree_needs_its_structure_block_at_a_multiple_of_four() {
    let blob = [0u8; 16];
    let mut h = header();
    for off in [73, 74, 75] {
        h.off_dt_struct = off;
        assert_eq!(
            error_of(DevTree::new(&blob, h, vec![], vec![])),
            Some(DevTreeError::InvalidOffset)
        );
    }
    h.off_dt_struct = 76;
    assert_eq!(error_of(DevTree::new(&blob, h, vec![], vec![])), None);
}

#[test]
fn tree_needs_its_strings_inside_the_blob() {
    let blob = [0u8; 10];
    let h = header();
    assert_eq!(error_of(DevTree::new(&blob, h, vec![], vec![])), None);
    assert_eq!(
        error_of(DevTree::new(&blob[..9], h, vec![], vec![])),
        Some(DevTreeError::InvalidOffset)
    );
    let mut far = header();
    far.off_dt_strings = u32::MAX;
    far.size_dt_strings = u32::MAX;
    assert_eq!(
        error_of(DevTree::new(&blob, far, vec![], vec![])),
        Some(DevTreeError::InvalidOffset)
    );
}

#[test]
fn tree_refuses_a_name_with_a_zero_byte() {
    let blob = [0u8; 16];
    let tokens = vec![
        ParsedTok::BeginNode(ParsedBeginNode { name: b"ok" }),
        ParsedTok::BeginNode(ParsedBeginNode { name: b"a\0b" }),
    ];
    assert_eq!(
        error_of(DevTree::new(&blob, header(), vec![], tokens)),
        Some(DevTreeError::ParseError)
    );
}

#[test]
fn tree_checks_the_layout_before_the_tokens() {
    let blob = [0u8; 16];
    let mut h = header();
    h.off_dt_struct = 74;
    let tokens = vec![ParsedTok::BeginNode(ParsedBeginNode { name: b"\0" })];
    assert_eq!(
        error_of(DevTree::new(&blob, h, vec![], tokens)),
        Some(DevTreeError::InvalidOffset)
    );
}

#[test]
fn tokens_are_checked_for_what_the_wire_can_carry() {
    assert!(is_nul_free(b""));
    assert!(is_nul_free(b"cpus"));
    assert!(!is_nul_free(b"cpus\0"));
    assert!(!is_nul_free(b"\0cpus"));
    assert!(is_token_wf(&ParsedTok::Nop));
    assert!(is_token_wf(&ParsedTok::EndNode));
    assert!(is_token_wf(&ParsedTok::BeginNode(ParsedBeginNode { name: b"soc" })));
    assert!(!is_token_wf(&ParsedTok::BeginNode(ParsedBeginNode { name: b"s\0c" })));
    assert!(is_token_wf(&ParsedTok::Prop(ParsedProp {
        prop_buf: &[0, 0],
        name_offset: u32::MAX as usize
    })));
}

#[test]
fn payload_len_is_what_the_filter_is_told() {
    assert_eq!(ParsedTok::Nop.payload_len(), 0);
    assert_eq!(ParsedTok::EndNode.payload_len(), 0);
    assert_eq!(ParsedTok::BeginNode(ParsedBeginNode { name: b"cpus" }).payload_len(), 4);
    assert_eq!(ParsedTok::BeginNode(ParsedBeginNode { name: b"" }).payload_len(), 0);
    assert_eq!(
        ParsedTok::Prop(ParsedProp { prop_buf: &[1, 2, 3, 4, 5], name_offset: 9 }).payload_len(),
        5
    );
}
