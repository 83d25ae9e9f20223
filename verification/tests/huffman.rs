use jpeg_encoder::bitstream::BitStream;
use jpeg_encoder::huffman::{
    _encode_to_bistream, _perform_huffman, construct_huff_table, create_leaf, generate_freq_leafs,
    insert_sorted_huffman, prepare_jpeg_encoding, HuffmanTree,
};

#[test]
fn test_create_leaf() {
    assert!(matches!(
        create_leaf(8, 11),
        HuffmanTree { zero: None, one: None, isleaf: true, freq: 11, val: 8, stream: None, weight: 1 }
    ))
}

#[test]
fn test_generate_leaf() {
    let leafs = generate_freq_leafs(&vec![2, 2, 3, 1, 1, 3, 2, 3, 3]);
    assert_eq!(leafs[2].val, 1);
    assert_eq!(leafs[2].freq, 2);
    assert_eq!(leafs[1].val, 2);
    assert_eq!(leafs[0].val, 3);
    assert_eq!(leafs[0].freq, 4);
}

#[test]
fn insert_sort() {
    let mut leafs = generate_freq_leafs(&vec![2, 2, 3, 1, 1, 3, 2, 3, 3]);
    insert_sorted_huffman(
        &mut leafs,
        HuffmanTree { zero: None, one: None, isleaf: true, val: 5, freq: 10, stream: None, weight: 1 },
    );
    assert_eq!(leafs[0].val, 5);
    insert_sorted_huffman(
        &mut leafs,
        HuffmanTree { zero: None, one: None, isleaf: true, val: 6, freq: 0, stream: None, weight: 1 },
    );
    assert_eq!(leafs[4].val, 6);
}

#[test]
fn create_table() {
    let leafs = generate_freq_leafs(&vec![2, 2, 3, 1, 1, 3, 2, 3, 3]);
    let head = construct_huff_table(leafs).unwrap();
    assert!(!head.isleaf);
    let leaf0 = head.zero.unwrap();
    assert!(leaf0.isleaf);
    assert_eq!(leaf0.val, 3);
    let node1 = head.one.unwrap();
    assert!(!node1.isleaf);
    let leaf10 = node1.zero.unwrap();
    assert_eq!(leaf10.val, 2);
    let node11 = node1.one.unwrap();
    let leaf110 = node11.zero.unwrap();
    assert_eq!(leaf110.val, 1);
    let leaf_bad = node11.one.unwrap();
    assert_eq!(leaf_bad.freq, 0);
}

#[test]
fn streams() {
    let leafs = generate_freq_leafs(&vec![2, 2, 3, 1, 1, 3, 2, 3, 3]);
    let mut head = construct_huff_table(leafs).unwrap();
    let mut jpeg_symbol: [Vec<u8>; 16] = Default::default();
    let mut sleaf: [Vec<HuffmanTree>; 16] = Default::default();
    prepare_jpeg_encoding(&mut head, 0, &mut sleaf, &mut [0; 16], &mut jpeg_symbol);
    let leaf3 = head.zero.unwrap().stream.unwrap();
    assert_eq!(leaf3.stream.iter().count(), 1);
    assert!(!leaf3.stream[0]);
    let node1 = head.one.unwrap();
    let leaf10 = node1.zero.unwrap().stream.unwrap();
    assert_eq!(leaf10.stream.iter().count(), 2);
    assert!(leaf10.stream[0]);
    assert!(!leaf10.stream[1]);
    let node11 = node1.one.unwrap();
    let leaf110 = node11.zero.unwrap().stream.unwrap();
    assert_eq!(leaf110.stream.iter().count(), 3);
    assert!(leaf110.stream[0]);
    assert!(leaf110.stream[1]);
    assert!(!leaf110.stream[2]);
}

#[test]
fn streams_leaf() {
    let leafs = generate_freq_leafs(&vec![2, 2, 3, 1, 1, 3, 2, 3, 3]);
    let mut head = construct_huff_table(leafs).unwrap();
    let mut sleaf: [Vec<HuffmanTree>; 16] = Default::default();
    let mut jpeg_symbol: [Vec<u8>; 16] = Default::default();
    prepare_jpeg_encoding(&mut head, 0, &mut sleaf, &mut [0; 16], &mut jpeg_symbol);
    if let Some(leaf3) = &sleaf[1][0].stream {
        assert_eq!(leaf3.stream.iter().count(), 1);
        assert!(!leaf3.stream[0]);
    } else {
        assert!(false);
    }
    if let Some(leaf1) = &sleaf[2][0].stream {
        assert_eq!(leaf1.stream.iter().count(), 2);
        assert!(leaf1.stream[0]);
        assert!(!leaf1.stream[1]);
    } else {
        assert!(false);
    }
    if let Some(leaf2) = &sleaf[3][0].stream {
        assert_eq!(leaf2.stream.iter().count(), 3);
        assert!(leaf2.stream[0]);
        assert!(leaf2.stream[1]);
        assert!(!leaf2.stream[2]);
    } else {
        assert!(false);
    }
}

#[test]
fn jpeg_info() {
    let leafs = generate_freq_leafs(&vec![2, 2, 3, 1, 1, 3, 2, 3, 3]);
    let mut head = construct_huff_table(leafs).unwrap();
    let mut jpeg_symbol: [Vec<u8>; 16] = Default::default();
    let mut jpeg_deep = [0; 16];
    let mut sleaf: [Vec<HuffmanTree>; 16] = Default::default();
    prepare_jpeg_encoding(&mut head, 0, &mut sleaf, &mut jpeg_deep, &mut jpeg_symbol);
    assert_eq!(jpeg_deep[0], 1);
    assert_eq!(jpeg_deep[1], 1);
    assert_eq!(jpeg_deep[2], 1);
    assert_eq!(jpeg_symbol[0][0], 3);
    assert_eq!(jpeg_symbol[1][0], 2);
    assert_eq!(jpeg_symbol[2][0], 1);
}

#[test]
fn encoding() {
    let leafs = generate_freq_leafs(&vec![2, 2, 3, 1, 1, 3, 2, 3, 3]);
    let mut head = construct_huff_table(leafs).unwrap();
    let mut sleaf: [Vec<HuffmanTree>; 16] = Default::default();
    let mut jpeg_symbol: [Vec<u8>; 16] = Default::default();
    prepare_jpeg_encoding(&mut head, 0, &mut sleaf, &mut [0; 16], &mut jpeg_symbol);
    let res: Vec<BitStream> = _encode_to_bistream(vec![1, 3, 3], sleaf.into_iter().flatten().collect());
    assert_eq!(res[0].stream.iter().count(), 3);
    assert!(res[0].stream[0]);
    assert!(res[0].stream[1]);
    assert!(!res[0].stream[2]);
    assert_eq!(res[1].stream.iter().count(), 1);
    assert!(!res[1].stream[0]);
    assert_eq!(res[2].stream.iter().count(), 1);
    assert!(!res[2].stream[0]);
}

#[test]
fn total() {
    let (stream, deep, symbol) = _perform_huffman(&vec![2, 2, 3, 1, 1, 3, 2, 3, 3]).unwrap();
    assert_eq!(stream[0].stream.iter().count(), 2);
    assert!(stream[0].stream[0]);
    assert!(!stream[0].stream[1]);
    assert_eq!(deep[0], 1);
    assert_eq!(deep[1], 1);
    assert_eq!(deep[2], 1);
    assert_eq!(symbol[0][0], 3);
    assert_eq!(symbol[1][0], 2);
    assert_eq!(symbol[2][0], 1);
}
