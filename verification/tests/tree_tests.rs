use zlib_decoder::bitreader::BitReader;
use zlib_decoder::inflate::TreeNode;
use zlib_decoder::zlib_errors::InflateError;

#[test]
fn start_insert_assigns_leftmost_codes() {
    let mut tree = TreeNode::Branch(None, None);
    // Depth-two slots are handed out left to right; bit i of the code is
    // the direction taken at depth i.
    assert_eq!(tree.start_insert(7, 2).unwrap(), 0b00);
    assert_eq!(tree.start_insert(8, 2).unwrap(), 0b10);
    assert_eq!(tree.start_insert(9, 2).unwrap(), 0b01);
    assert_eq!(tree.start_insert(10, 2).unwrap(), 0b11);
    assert!(matches!(
        tree.start_insert(11, 2),
        Err(InflateError::OversubscribedCode)
    ));
}

#[test]
fn start_insert_of_length_zero_is_skipped() {
    let mut tree = TreeNode::Branch(None, None);
    assert_eq!(tree.start_insert(5, 0).unwrap(), 0);
    // Both depth-one slots are still free.
    assert_eq!(tree.start_insert(1, 1).unwrap(), 0);
    assert_eq!(tree.start_insert(2, 1).unwrap(), 1);
}

#[test]
fn build_then_decode_returns_each_symbol() {
    // Lengths [2, 2, 2] give the canonical codes 00, 01, 10.
    let pairs: Vec<(u16, u8)> = vec![(65, 2), (66, 2), (67, 2)];
    let tree = TreeNode::new(&pairs).unwrap();
    // Codes are read MSB-first from the stream: 00 01 10 packed LSB-first
    // per byte is bits 0,0,0,1,1,0,...
    let mut br = BitReader::from_data(vec![0b0011000]);
    assert_eq!(tree.get_value(&mut br).unwrap(), 65);
    assert_eq!(tree.get_value(&mut br).unwrap(), 66);
    assert_eq!(tree.get_value(&mut br).unwrap(), 67);
}

#[test]
fn build_sorts_by_length_then_symbol() {
    // Symbol 9 has the shorter length, so it takes the leftmost slot even
    // though it appears last.
    let pairs: Vec<(u16, u8)> = vec![(3, 2), (5, 2), (9, 1)];
    let tree = TreeNode::new(&pairs).unwrap();
    // 9 -> 0, 3 -> 10, 5 -> 11; the stream 0,1,0,1,1 packs to 26.
    let mut br = BitReader::from_data(vec![26]);
    assert_eq!(tree.get_value(&mut br).unwrap(), 9);
    assert_eq!(tree.get_value(&mut br).unwrap(), 3);
    assert_eq!(tree.get_value(&mut br).unwrap(), 5);
}

#[test]
fn oversubscribed_lengths_are_refused() {
    let pairs: Vec<(u16, u8)> = vec![(1, 1), (2, 1), (3, 1)];
    assert!(matches!(
        TreeNode::new(&pairs),
        Err(InflateError::OversubscribedCode)
    ));
}

#[test]
fn undecodable_pattern_is_an_error() {
    // Only one length-two code: the pattern 11 reaches a missing child.
    let pairs: Vec<(u16, u8)> = vec![(1, 2)];
    let tree = TreeNode::new(&pairs).unwrap();
    let mut br = BitReader::from_data(vec![0b11]);
    assert!(matches!(
        tree.get_value(&mut br),
        Err(InflateError::InvalidHuffmanCode)
    ));
}

#[test]
fn decode_past_end_of_input_fails() {
    let pairs: Vec<(u16, u8)> = vec![(1, 2)];
    let tree = TreeNode::new(&pairs).unwrap();
    let mut br = BitReader::from_data(Vec::new());
    assert!(matches!(
        tree.get_value(&mut br),
        Err(InflateError::UnexpectedEof)
    ));
}
