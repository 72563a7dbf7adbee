use blockfs::utils::bp_tree::bp_tree_node::NodeHeader;
use blockfs::utils::bp_tree::bp_tree_node::NodeParseError;
use blockfs::utils::bp_tree::bp_tree_node::NodeView;
use blockfs::utils::bp_tree::bp_tree_node::NodeViewMut;
use blockfs::utils::bp_tree::bp_tree_node::HEADER_SIZE;
use blockfs::utils::bp_tree::bp_tree_node::NO_BLOCK;

#[test]
fn header_has_no_sibling_at_first() {
    let leaf = NodeHeader::new(true, 3);
    assert_eq!(leaf, NodeHeader { is_leaf: 1, num_keys: 3, next: u64::MAX });
    let inner = NodeHeader::new(false, 0);
    assert_eq!(inner, NodeHeader { is_leaf: 0, num_keys: 0, next: NO_BLOCK });
    assert_eq!(HEADER_SIZE, 24);
}

#[test]
fn view_reads_little_endian_words_at_fixed_places() {
    let m = 3u64;
    let mut bytes = vec![0u8; 24 + 8 * 3 + 8 * 4];
    bytes[0] = 1;
    bytes[8..16].copy_from_slice(&2u64.to_le_bytes());
    bytes[16..24].copy_from_slice(&0x0102030405060708u64.to_le_bytes());
    bytes[24..32].copy_from_slice(&10u64.to_le_bytes());
    bytes[32..40].copy_from_slice(&0xdead_beef_0000_0001u64.to_le_bytes());
    bytes[48..56].copy_from_slice(&100u64.to_le_bytes());
    bytes[56..64].copy_from_slice(&200u64.to_le_bytes());
    bytes[72..80].copy_from_slice(&400u64.to_le_bytes());
    let node = NodeView::get_from_bytes(&bytes, m).unwrap();
    let header = node.header();
    assert_eq!(header.is_leaf, 1);
    assert_eq!(header.num_keys, 2);
    assert_eq!(header.next, 0x0102030405060708);
    assert_eq!(node.key(0), 10);
    assert_eq!(node.key(1), 0xdead_beef_0000_0001);
    assert_eq!(node.key(2), 0);
    assert_eq!(node.val(0), 100);
    assert_eq!(node.val(1), 200);
    assert_eq!(node.val(3), 400);
    assert_eq!(node.slot(4), 200);
}

#[test]
fn view_writes_little_endian_words_at_fixed_places() {
    let m = 3u64;
    let mut bytes = vec![0xffu8; 80];
    {
        let mut node = NodeViewMut::get_from_bytes(&mut bytes, m).unwrap();
        node.set_header(NodeHeader::new(false, 1));
        node.set_key(0, 0x1122334455667788);
        node.set_val(0, 5);
        node.set_val(3, 6);
        node.set_next(9);
        assert_eq!(node.key(0), 0x1122334455667788);
        assert_eq!(node.val(3), 6);
        assert_eq!(node.header(), NodeHeader { is_leaf: 0, num_keys: 1, next: 9 });
    }
    assert_eq!(&bytes[0..8], &[0u8; 8]);
    assert_eq!(&bytes[8..16], &1u64.to_le_bytes());
    assert_eq!(&bytes[16..24], &9u64.to_le_bytes());
    assert_eq!(&bytes[24..32], &[0x88, 0x77, 0x66, 0x55, 0x44, 0x33, 0x22, 0x11]);
    assert_eq!(&bytes[32..48], &[0xffu8; 16]);
    assert_eq!(&bytes[48..56], &5u64.to_le_bytes());
    assert_eq!(&bytes[56..72], &[0xffu8; 16]);
    assert_eq!(&bytes[72..80], &6u64.to_le_bytes());
}

#[test]
fn view_moves_words() {
    let m = 3u64;
    let mut bytes = vec![0u8; 80];
    let mut node = NodeViewMut::get_from_bytes(&mut bytes, m).unwrap();
    for w in 0..7 {
        node.set_slot(w, 10 + w);
    }
    node.shift_up(1, 3);
    let words: Vec<u64> = (0..7).map(|w| node.slot(w)).collect();
    assert_eq!(words, vec![10, 11, 11, 12, 14, 15, 16]);
    node.move_down(0, 2, 3);
    let words: Vec<u64> = (0..7).map(|w| node.slot(w)).collect();
    assert_eq!(words, vec![11, 12, 14, 12, 14, 15, 16]);
}

#[test]
fn view_refuses_blocks_of_the_wrong_size() {
    let short = vec![0u8; 23];
    assert!(matches!(NodeView::get_from_bytes(&short, 1), Err(NodeParseError::HeaderSize)));
    let ragged = vec![0u8; 24 + 8 * 3 + 5];
    assert!(matches!(NodeView::get_from_bytes(&ragged, 1), Err(NodeParseError::HeaderSize)));
    let small = vec![0u8; 24 + 8 * 6];
    assert!(matches!(NodeView::get_from_bytes(&small, 3), Err(NodeParseError::KvsSize)));
    let bare = vec![0u8; 24];
    assert!(matches!(NodeView::get_from_bytes(&bare, 0), Err(NodeParseError::KvsSize)));
    let exact = vec![0u8; 24 + 8 * 7];
    assert!(NodeView::get_from_bytes(&exact, 3).is_ok());
    let mut short = vec![0u8; 23];
    assert!(matches!(NodeViewMut::get_from_bytes(&mut short, 1), Err(NodeParseError::HeaderSize)));
    let mut small = vec![0u8; 24 + 8 * 6];
    assert!(matches!(NodeViewMut::get_from_bytes(&mut small, 3), Err(NodeParseError::KvsSize)));
}
