use jpeg_encoder::bitstream::BitStream;
use jpeg_encoder::bloc::{check_grid, parse_bloc_line, parse_quant, Bloc};
use jpeg_encoder::cmd::{check_args, parse_args, parse_format, CmdArgs, ImageFormat};
use jpeg_encoder::encoding::{
    check_mcus, encode_data, entropy_code, huffman_separation, magnitude_code, mcu_encoding,
    single_mcu_encoding,
};
use jpeg_encoder::file_reader::{check_file, parse_file, parse_pixmap, FileReader};
use jpeg_encoder::huffman::{
    _perform_huffman, check_huffman, construct_huff_table, create_leaf, encode_single,
    generate_bitstreams, generate_freq_leafs, insert_sorted_huffman, perform_huffman_no_encoding,
    HuffmanTree,
};
use jpeg_encoder::jpeg_format::JpegFormat;
use jpeg_encoder::JpegError;

fn bits(s: &str) -> Vec<bool> {
    s.chars().map(|c| c == '1').collect()
}

fn stream(s: &str) -> BitStream {
    BitStream { stream: bits(s) }
}

fn args(list: &[&str]) -> Vec<String> {
    list.iter().map(|s| s.to_string()).collect()
}

fn read_pixmap_bytes(bytes: &[u8]) -> Result<(JpegFormat, Vec<u8>), JpegError> {
    let mut reader = FileReader::new(bytes.to_vec());
    assert!(check_file(ImageFormat::PixMap, &reader));
    parse_pixmap(&mut reader)
}

// Bit streams

#[test]
fn bitstream_new_is_msb_first() {
    assert_eq!(BitStream::new(5, 4).stream, bits("0101"));
    assert_eq!(BitStream::new(0, 3).stream, bits("000"));
    assert_eq!(BitStream::new(0xFF, 3).stream, bits("111"));
    assert_eq!(BitStream::new(1, 0).stream, bits(""));
}

#[test]
fn bitstream_appends() {
    let mut s = stream("1");
    s.push_single(false);
    s.add_stream(&stream("11"));
    assert_eq!(s.stream, bits("1011"));
    s._add(6);
    assert_eq!(s.stream, bits("1011011"));
    s._add(0);
    assert_eq!(s.stream, bits("1011011"));
}

#[test]
fn to_byte_pads_last_byte_with_zeros() {
    assert_eq!(stream("101").to_byte(false), vec![0xA0]);
    assert_eq!(stream("0000000111").to_byte(false), vec![0x01, 0xC0]);
    assert_eq!(stream("").to_byte(true), Vec::<u8>::new());
}

#[test]
fn to_byte_stuffs_after_ff() {
    let s = stream("111111111");
    assert_eq!(s.to_byte(false), vec![0xFF, 0x80]);
    assert_eq!(s.to_byte(true), vec![0xFF, 0x00, 0x80]);
    // A last byte that is not full is never stuffed.
    assert_eq!(stream("1111111").to_byte(true), vec![0xFE]);
}

#[test]
fn law_pack_round_trip_example() {
    let b = bits("1100101011110");
    let packed = stream("1100101011110").to_byte(false);
    assert_eq!(packed.len(), (b.len() + 7) / 8);
    let mut unpacked = Vec::new();
    for byte in &packed {
        for k in 0..8 {
            unpacked.push(byte & (0x80 >> k) != 0);
        }
    }
    assert_eq!(&unpacked[..b.len()], &b[..]);
    assert!(unpacked[b.len()..].iter().all(|x| !x));
}

#[test]
fn law_unstuff_example() {
    let s = stream("11111111111111110101");
    let stuffed = s.to_byte(true);
    assert_eq!(stuffed, vec![0xFF, 0x00, 0xFF, 0x00, 0x50]);
    let mut unstuffed = Vec::new();
    let mut i = 0;
    while i < stuffed.len() {
        unstuffed.push(stuffed[i]);
        if stuffed[i] == 0xFF && i + 1 < stuffed.len() && stuffed[i + 1] == 0 {
            i += 1;
        }
        i += 1;
    }
    assert_eq!(unstuffed, s.to_byte(false));
}

// Magnitude coding

#[test]
fn magnitude_code_positive_and_negative() {
    let (t, s) = magnitude_code(5, 1023).unwrap();
    assert_eq!(t, 3);
    assert_eq!(s.stream, bits("101"));
    let (t, s) = magnitude_code(-5, 1023).unwrap();
    assert_eq!(t, 3);
    assert_eq!(s.stream, bits("010"));
    let (t, s) = magnitude_code(0, 2047).unwrap();
    assert_eq!(t, 0);
    assert!(s.stream.is_empty());
    let (t, s) = magnitude_code(-1023, 1023).unwrap();
    assert_eq!(t, 10);
    assert_eq!(s.stream, bits("0000000000"));
    let (t, s) = magnitude_code(2047, 2047).unwrap();
    assert_eq!(t, 11);
    assert_eq!(s.stream, bits("11111111111"));
}

#[test]
fn magnitude_code_large_bound() {
    let (t, s) = magnitude_code(5, 30000).unwrap();
    assert_eq!(t, 3);
    assert_eq!(s.stream, bits("101"));
}

#[test]
fn magnitude_code_out_of_range() {
    assert!(matches!(magnitude_code(1024, 1023), Err(JpegError::OutOfRange)));
    assert!(matches!(magnitude_code(-1024, 1023), Err(JpegError::OutOfRange)));
    assert!(matches!(magnitude_code(3000, 2047), Err(JpegError::OutOfRange)));
}

#[test]
fn law_magnitude_round_trip_example() {
    for nb in -300i16..=300 {
        let (t, s) = magnitude_code(nb, 1023).unwrap();
        assert_eq!(s.stream.len(), t as usize);
        let mut v: i32 = 0;
        for b in &s.stream {
            v = 2 * v + (*b as i32);
        }
        let back = if t == 0 {
            0
        } else if v >= 1 << (t - 1) {
            v
        } else {
            v - (1 << t) + 1
        };
        assert_eq!(back, nb as i32);
    }
}

// Blocks

#[test]
fn single_mcu_encoding_runs_and_end_of_block() {
    let out = single_mcu_encoding(&vec![10, 0, 0, 3], 4).unwrap();
    assert_eq!(out.len(), 3);
    assert_eq!(out[0].0, 3);
    assert_eq!(out[0].1.stream, bits("110"));
    assert_eq!(out[1].0, 0x22);
    assert_eq!(out[1].1.stream, bits("11"));
    assert_eq!(out[2].0, 0x00);
    assert!(out[2].1.stream.is_empty());
}

#[test]
fn single_mcu_encoding_sixteen_zeros() {
    let mut mcu = vec![0i16; 17];
    mcu.push(-1);
    let out = single_mcu_encoding(&mcu, 0).unwrap();
    let symbols: Vec<u8> = out.iter().map(|p| p.0).collect();
    assert_eq!(symbols, vec![0x00, 0xF0, 0x01, 0x00]);
    assert_eq!(out[2].1.stream, bits("0"));
}

#[test]
fn single_mcu_encoding_full_block_has_no_end_of_block() {
    let mut mcu = vec![1i16; 64];
    mcu[0] = 0;
    let out = single_mcu_encoding(&mcu, 0).unwrap();
    assert_eq!(out.len(), 64);
    assert_eq!(out[63].0, 0x01);
}

fn decode_symbols(out: &[(u8, BitStream)], last_dc: i16) -> Vec<i32> {
    fn value(t: u8, bits: &[bool]) -> i32 {
        let mut v: i32 = 0;
        for b in bits {
            v = 2 * v + (*b as i32);
        }
        if t == 0 {
            0
        } else if v >= 1 << (t - 1) {
            v
        } else {
            v - (1 << t) + 1
        }
    }
    let mut res = vec![value(out[0].0, &out[0].1.stream) + last_dc as i32];
    for (rs, bits) in &out[1..] {
        if *rs == 0 {
            break;
        }
        for _ in 0..(rs / 16) {
            res.push(0);
        }
        res.push(value(rs % 16, &bits.stream));
    }
    res
}

#[test]
fn law_block_round_trip_example() {
    let mut blocks: Vec<Vec<i16>> = vec![vec![10, 0, 0, 3], vec![-7], vec![5, 0, 0, 0]];
    let mut long = vec![0i16; 40];
    long[0] = 100;
    long[20] = -1023;
    long[38] = 1;
    blocks.push(long);
    let mut full = vec![0i16; 64];
    full[0] = -2000;
    full[63] = 9;
    blocks.push(full);
    for mcu in blocks {
        let out = single_mcu_encoding(&mcu, 3).unwrap();
        let back = decode_symbols(&out, 3);
        assert!(back.len() <= mcu.len());
        for i in 0..mcu.len() {
            let expected = mcu[i] as i32;
            let got = if i < back.len() { back[i] } else { 0 };
            assert_eq!(got, expected);
        }
    }
}

#[test]
fn single_mcu_encoding_out_of_range() {
    assert!(matches!(single_mcu_encoding(&vec![0, 2000], 0), Err(JpegError::OutOfRange)));
    assert!(matches!(single_mcu_encoding(&vec![2047], -1), Err(JpegError::OutOfRange)));
}

#[test]
fn mcu_encoding_codes_dc_differences_per_component() {
    let f = JpegFormat::new(8, 16, 1, 1, 1);
    let out = mcu_encoding(vec![vec![5], vec![8]], &f).unwrap();
    assert_eq!(out.len(), 2);
    assert_eq!(out[0][0].0, 3);
    assert_eq!(out[0][0].1.stream, bits("101"));
    assert_eq!(out[1][0].0, 2);
    assert_eq!(out[1][0].1.stream, bits("11"));

    let f3 = JpegFormat::new(8, 8, 3, 1, 1);
    let data = vec![vec![5], vec![7], vec![9], vec![6], vec![7], vec![9]];
    let out = mcu_encoding(data, &f3).unwrap();
    assert_eq!(out[3][0].0, 1);
    assert_eq!(out[3][0].1.stream, bits("1"));
    assert_eq!(out[4][0].0, 0);
    assert_eq!(out[5][0].0, 0);
}

#[test]
fn check_mcus_cases() {
    assert!(check_mcus(&vec![vec![5], vec![8, 0, 1]], 1));
    assert!(check_mcus(&Vec::new(), 0));
    assert!(!check_mcus(&vec![vec![5]], 0));
    assert!(!check_mcus(&vec![vec![5], vec![]], 1));
    // A DC difference that leaves 16 bits after blocks in range.
    let mut climb: Vec<Vec<i16>> = (1..=16).map(|k| vec![2000 * k]).collect();
    assert!(check_mcus(&climb, 1));
    climb.push(vec![-32000]);
    assert!(!check_mcus(&climb, 1));
    // A first block out of range stops the coding before any overflow.
    assert!(check_mcus(&vec![vec![-30000], vec![30000]], 1));
    // After a block out of range nothing more is looked at.
    assert!(check_mcus(&vec![vec![5000], vec![]], 1));
    // Only three components have a DC predictor.
    assert!(check_mcus(&vec![vec![1], vec![2], vec![3]], 4));
    assert!(!check_mcus(&vec![vec![1], vec![2], vec![3], vec![4]], 4));
}

#[test]
fn mcu_encoding_out_of_range() {
    let f = JpegFormat::new(8, 8, 1, 1, 1);
    assert!(matches!(mcu_encoding(vec![vec![5, 1500]], &f), Err(JpegError::OutOfRange)));
}

#[test]
fn huffman_separation_by_component() {
    let f = JpegFormat::new(8, 16, 1, 1, 1);
    let datas = mcu_encoding(vec![vec![5], vec![8, 0, 1]], &f).unwrap();
    let (dc, ac) = huffman_separation(&datas, &f);
    assert_eq!(dc[0], vec![3, 2]);
    assert_eq!(ac[0], vec![0x00, 0x11, 0x00]);
    assert!(dc[1].is_empty() && dc[2].is_empty());
    assert!(ac[1].is_empty() && ac[2].is_empty());
}

#[test]
fn encode_data_concatenates_codes_and_bits() {
    let f = JpegFormat::new(8, 16, 1, 1, 1);
    let datas = mcu_encoding(vec![vec![5], vec![8]], &f).unwrap();
    let (dc, ac) = huffman_separation(&datas, &f);
    let (dc_leaves, dc_deep, dc_symbols) = perform_huffman_no_encoding(&dc[0]).unwrap();
    let (ac_leaves, ac_deep, _) = perform_huffman_no_encoding(&ac[0]).unwrap();
    assert_eq!(dc_deep[0], 1);
    assert_eq!(dc_deep[1], 1);
    assert_eq!(dc_symbols[0], vec![2]);
    assert_eq!(dc_symbols[1], vec![3]);
    assert_eq!(ac_deep[0], 1);
    let huff_dc: [Vec<HuffmanTree>; 3] = [dc_leaves, Vec::new(), Vec::new()];
    let huff_ac: [Vec<HuffmanTree>; 3] = [ac_leaves, Vec::new(), Vec::new()];
    let coded = encode_data(&datas, huff_dc, huff_ac, &f).unwrap();
    assert_eq!(coded.stream, bits("1010100110"));
}

#[test]
fn entropy_code_builds_tables_and_data() {
    let f = JpegFormat::new(8, 16, 1, 1, 1);
    let datas = mcu_encoding(vec![vec![5], vec![8]], &f).unwrap();
    let coding = entropy_code(&datas, &f).unwrap();
    assert_eq!(coding.dc[0], vec![3, 2]);
    assert_eq!(coding.ac[0], vec![0, 0]);
    assert_eq!(coding.deep_dc[0][0], 1);
    assert_eq!(coding.deep_dc[0][1], 1);
    assert_eq!(coding.symbol_dc[0][0], vec![2]);
    assert_eq!(coding.symbol_dc[0][1], vec![3]);
    assert_eq!(coding.deep_ac[0][0], 1);
    assert!(coding.huff_dc[1].is_empty() && coding.huff_ac[2].is_empty());
    assert_eq!(coding.deep_dc[1], [0u8; 16]);
    assert_eq!(coding.data.stream, bits("1010100110"));
}

#[test]
fn entropy_code_three_components() {
    let f = JpegFormat::new(8, 8, 3, 1, 1);
    let datas = mcu_encoding(vec![vec![5], vec![7, 1], vec![9], vec![6], vec![7], vec![9]], &f).unwrap();
    let coding = entropy_code(&datas, &f).unwrap();
    assert_eq!(coding.dc[0], vec![3, 1]);
    assert_eq!(coding.dc[1], vec![3, 0]);
    assert_eq!(coding.ac[1], vec![0x01, 0x00, 0x00]);
    for k in 0..3 {
        assert!(!coding.huff_dc[k].is_empty());
        assert!(!coding.huff_ac[k].is_empty());
    }
}

#[test]
fn entropy_code_refuses_long_codes() {
    let f = JpegFormat::new(8, 8, 1, 1, 1);
    let mut datas = Vec::new();
    let (mut a, mut b) = (1usize, 1usize);
    for v in 0..20u8 {
        for _ in 0..a {
            datas.push(vec![(v, BitStream { stream: Vec::new() })]);
        }
        let c = a + b;
        a = b;
        b = c;
    }
    assert!(entropy_code(&datas, &f).is_none());
}

#[test]
fn encode_single_errors() {
    let leafs = vec![create_leaf(4, 2)];
    assert!(matches!(encode_single(4, &leafs), Err(JpegError::HuffmanError)));
    assert!(matches!(encode_single(7, &leafs), Err(JpegError::HuffmanError)));
    let mut coded = create_leaf(4, 2);
    coded.stream = Some(stream("10"));
    let leafs = vec![create_leaf(1, 1), coded];
    assert_eq!(encode_single(4, &leafs).unwrap().stream, bits("10"));
}

#[test]
fn construct_huff_table_needs_a_node() {
    assert!(matches!(construct_huff_table(Vec::new()), Err(JpegError::HuffmanError)));
}

#[test]
fn law_huffman_root_count_example() {
    let values = vec![1, 1, 1, 2, 2, 7, 9, 9, 9, 9];
    let head = construct_huff_table(generate_freq_leafs(&values)).unwrap();
    assert_eq!(head.freq, values.len() as u64);
}

fn check_node_sums(t: &HuffmanTree) -> usize {
    match (&t.zero, &t.one) {
        (Some(l), Some(r)) => {
            assert_eq!(t.freq, l.freq + r.freq);
            assert_eq!(t.weight, l.weight + r.weight);
            1 + check_node_sums(l) + check_node_sums(r)
        }
        (None, None) => 0,
        _ => panic!("an inner node with one child"),
    }
}

#[test]
fn law_huffman_node_sums_example() {
    let values = vec![1, 1, 1, 2, 2, 7, 9, 9, 9, 9];
    let head = construct_huff_table(generate_freq_leafs(&values)).unwrap();
    // Four leaves and the filler leaf are joined by four inner nodes.
    assert_eq!(check_node_sums(&head), 4);
    assert_eq!(head.weight, 4 + 257);
}

#[test]
fn law_freq_leaves_example() {
    let values = vec![4, 1, 4, 9, 1, 4, 200];
    let leafs = generate_freq_leafs(&values);
    let pairs: Vec<(u8, u64)> = leafs.iter().map(|l| (l.val, l.freq)).collect();
    assert_eq!(pairs, vec![(4, 3), (1, 2), (9, 1), (200, 1), (0, 0)]);
    assert_eq!(leafs[4].weight, 257);
    for w in leafs.windows(2) {
        assert!(w[0].freq >= w[1].freq);
    }
}

#[test]
fn law_canonical_prefix_free_example() {
    let values = vec![0, 0, 0, 0, 1, 1, 1, 2, 2, 3, 4, 5, 5, 5, 6];
    let (leaves, deep, _) = perform_huffman_no_encoding(&values).unwrap();
    let codes: Vec<Vec<bool>> =
        leaves.iter().map(|l| l.stream.clone().unwrap().stream).collect();
    let total: usize = deep.iter().map(|d| *d as usize).sum();
    assert_eq!(codes.len(), total);
    for i in 0..codes.len() {
        for j in 0..codes.len() {
            if i != j {
                let (a, b) = (&codes[i], &codes[j]);
                assert!(!(a.len() <= b.len() && b[..a.len()] == a[..]));
            }
        }
    }
    for w in codes.windows(2) {
        assert!(w[0].len() <= w[1].len());
    }
}

#[test]
fn law_every_value_coded_example() {
    let values = vec![3, 3, 9, 200, 200, 200, 0, 17, 17, 3, 3, 3];
    assert!(check_huffman(&values));
    let (leaves, _, _) = perform_huffman_no_encoding(&values).unwrap();
    for v in &values {
        assert!(encode_single(*v, &leaves).is_ok());
    }
    assert!(encode_single(4, &leaves).is_err());
}

#[test]
fn law_insert_keeps_sorted_example() {
    let mut nodes = generate_freq_leafs(&vec![5, 5, 5, 6, 6, 7]);
    for f in [2u64, 0, 9, 1, 3] {
        let mut leaf = create_leaf(1, f);
        leaf.weight = 1;
        insert_sorted_huffman(&mut nodes, leaf);
        for w in nodes.windows(2) {
            assert!(w[0].freq >= w[1].freq);
        }
    }
    // A node goes before the nodes of the same frequency.
    let freqs: Vec<u64> = nodes.iter().map(|n| n.freq).collect();
    assert_eq!(freqs, vec![9, 3, 3, 2, 2, 1, 1, 0, 0]);
}

#[test]
fn generate_bitstreams_gives_list_i_codes_of_length_i_plus_one() {
    let mut sleaf: [Vec<HuffmanTree>; 16] = Default::default();
    sleaf[0] = vec![create_leaf(1, 5)];
    sleaf[1] = vec![create_leaf(2, 3)];
    sleaf[2] = vec![create_leaf(3, 1), create_leaf(4, 1)];
    let mut deep = [0u8; 16];
    deep[0] = 1;
    deep[1] = 1;
    deep[2] = 2;
    generate_bitstreams(&mut sleaf, deep);
    assert_eq!(sleaf[0][0].stream.clone().unwrap().stream, bits("0"));
    assert_eq!(sleaf[1][0].stream.clone().unwrap().stream, bits("10"));
    assert_eq!(sleaf[2][0].stream.clone().unwrap().stream, bits("110"));
    assert_eq!(sleaf[2][1].stream.clone().unwrap().stream, bits("111"));
    // A gap in the lengths shifts the running code by the gap.
    let mut sleaf: [Vec<HuffmanTree>; 16] = Default::default();
    sleaf[0] = vec![create_leaf(1, 5)];
    sleaf[9] = vec![create_leaf(2, 1)];
    let mut deep = [0u8; 16];
    deep[0] = 1;
    deep[9] = 1;
    generate_bitstreams(&mut sleaf, deep);
    assert_eq!(sleaf[9][0].stream.clone().unwrap().stream, bits("1000000000"));
}

#[test]
fn long_huffman_codes_are_prefix_free() {
    let freqs = [34usize, 21, 13, 8, 5, 3, 2, 1, 1];
    let mut values = Vec::new();
    for (v, f) in freqs.iter().enumerate() {
        for _ in 0..*f {
            values.push(v as u8);
        }
    }
    assert!(check_huffman(&values));
    let (leaves, deep, _) = perform_huffman_no_encoding(&values).unwrap();
    let codes: Vec<Vec<bool>> = leaves.iter().map(|l| l.stream.clone().unwrap().stream).collect();
    assert_eq!(codes.len(), 9);
    assert!(codes.iter().any(|c| c.len() == 9));
    assert_eq!(deep.iter().map(|d| *d as usize).sum::<usize>(), 9);
    for i in 0..codes.len() {
        for j in 0..codes.len() {
            if i != j {
                let (a, b) = (&codes[i], &codes[j]);
                assert!(!(a.len() <= b.len() && b[..a.len()] == a[..]));
            }
        }
    }
    assert!(codes.iter().all(|c| c.iter().any(|b| !b)));
    let (streams, _, _) = _perform_huffman(&values).unwrap();
    assert_eq!(streams.len(), values.len());
}

#[test]
fn sixteen_bit_huffman_codes() {
    let mut values = Vec::new();
    let (mut a, mut b) = (1usize, 1usize);
    for v in 0..16u8 {
        for _ in 0..a {
            values.push(v);
        }
        let c = a + b;
        a = b;
        b = c;
    }
    assert!(check_huffman(&values));
    let (leaves, deep, symbols) = perform_huffman_no_encoding(&values).unwrap();
    assert_eq!(deep[15], 1);
    assert_eq!(symbols[15].len(), 1);
    let codes: Vec<Vec<bool>> = leaves.iter().map(|l| l.stream.clone().unwrap().stream).collect();
    assert_eq!(codes.len(), 16);
    assert_eq!(codes[15].len(), 16);
    for i in 0..codes.len() {
        assert!(codes[i].iter().any(|b| !b));
        for j in 0..codes.len() {
            if i != j {
                let (x, y) = (&codes[i], &codes[j]);
                assert!(!(x.len() <= y.len() && y[..x.len()] == x[..]));
            }
        }
    }
    let f = JpegFormat::new(8, 8, 1, 1, 1);
    let datas: Vec<Vec<(u8, BitStream)>> =
        values.iter().map(|v| vec![(*v, BitStream { stream: Vec::new() })]).collect();
    let coding = entropy_code(&datas, &f).unwrap();
    assert_eq!(coding.deep_dc[0][15], 1);
}

#[test]
fn perform_huffman_single_value() {
    let (leaves, deep, symbols) = perform_huffman_no_encoding(&vec![7, 7, 7]).unwrap();
    assert_eq!(leaves.len(), 1);
    assert_eq!(leaves[0].val, 7);
    assert_eq!(leaves[0].stream.clone().unwrap().stream, bits("0"));
    assert_eq!(deep[0], 1);
    assert!(deep[1..].iter().all(|d| *d == 0));
    assert_eq!(symbols[0], vec![7]);
}

#[test]
fn check_huffman_refuses_long_codes() {
    assert!(check_huffman(&vec![0, 0, 0, 0, 1, 1, 1, 2, 2, 3, 4, 5, 5, 5, 6]));
    assert!(check_huffman(&Vec::new()));
    // Frequencies that grow like the Fibonacci numbers make a code longer
    // than sixteen bits.
    let mut values = Vec::new();
    let (mut a, mut b) = (1usize, 1usize);
    for v in 0..20u8 {
        for _ in 0..a {
            values.push(v);
        }
        let c = a + b;
        a = b;
        b = c;
    }
    assert!(!check_huffman(&values));
}

// Quantization and zigzag

#[test]
fn do_quant_rounds_toward_zero() {
    let mut b = Bloc { data: [20i16; 64] };
    b.data[1] = -20;
    b.data[2] = 2;
    let q = Bloc { data: [3u8; 64] };
    let r = b.do_quant(&q);
    assert_eq!(r.data[0], 6);
    assert_eq!(r.data[1], -6);
    assert_eq!(r.data[2], 0);
    assert_eq!(b.data[1], -20);
}

#[test]
fn law_quant_by_one_example() {
    let mut b = Bloc { data: [0i16; 64] };
    for k in 0..64 {
        b.data[k] = (k as i16) * 37 - 1000;
    }
    let ones = Bloc { data: [1u8; 64] };
    let r = b.do_quant(&ones);
    assert_eq!(r.data, b.data);
}

#[test]
fn do_zigzag_drops_trailing_zeros() {
    let mut b = Bloc { data: [0i16; 64] };
    b.data[0] = 5;
    b.data[8] = 3;
    assert_eq!(b.do_zigzag(), vec![5, 0, 3]);
    let zero = Bloc { data: [0i16; 64] };
    assert_eq!(zero.do_zigzag(), vec![0]);
    let mut u = Bloc { data: [0u8; 64] };
    u.data[63] = 1;
    let z = u.do_zigzag();
    assert_eq!(z.len(), 64);
    assert_eq!(z[63], 1);
}

#[test]
fn law_zigzag_drops_only_zeros_example() {
    let mut b = Bloc { data: [0i16; 64] };
    b.data[1] = 4;
    b.data[9] = -2;
    b.data[17] = 0;
    let z = b.do_zigzag();
    let order = [
        0, 1, 8, 16, 9, 2, 3, 10, 17, 24, 32, 25, 18, 11, 4, 5, 12, 19, 26, 33, 40, 48, 41, 34, 27,
        20, 13, 6, 7, 14, 21, 28, 35, 42, 49, 56, 57, 50, 43, 36, 29, 22, 15, 23, 30, 37, 44, 51,
        58, 59, 52, 45, 38, 31, 39, 46, 53, 60, 61, 54, 47, 55, 62, 63,
    ];
    let mut seen = [false; 64];
    for p in order {
        assert!(!seen[p]);
        seen[p] = true;
    }
    for i in 0..64 {
        if i < z.len() {
            assert_eq!(z[i], b.data[order[i]]);
        } else {
            assert_eq!(b.data[order[i]], 0);
        }
    }
    assert_eq!(z, vec![0, 4, 0, 0, -2]);
}

#[test]
fn parse_bloc_line_places_samples() {
    let f = JpegFormat::new(2, 2, 1, 1, 1);
    let blocs = parse_bloc_line(vec![1, 2, 3, 4], &f).unwrap();
    assert_eq!(blocs.len(), 1);
    assert_eq!(blocs[0].data[0], 1);
    assert_eq!(blocs[0].data[1], 2);
    assert_eq!(blocs[0].data[8], 3);
    assert_eq!(blocs[0].data[9], 4);
    assert_eq!(blocs[0].data[2], 0);

    let f = JpegFormat::new(9, 1, 3, 1, 1);
    let lines: Vec<u8> = (1..=27).collect();
    let blocs = parse_bloc_line(lines, &f).unwrap();
    assert_eq!(blocs.len(), 6);
    assert_eq!(blocs[0].data[0], 1);
    assert_eq!(blocs[1].data[0], 2);
    assert_eq!(blocs[2].data[7], 24);
    assert_eq!(blocs[3].data[0], 25);
    assert_eq!(blocs[5].data[0], 27);
    assert_eq!(blocs[5].data[1], 0);
}

#[test]
fn check_grid_cases() {
    let f = JpegFormat::new(2, 2, 1, 1, 1);
    assert!(check_grid(&f, &vec![1, 2, 3, 4]));
    assert!(!check_grid(&f, &vec![1, 2, 3]));
    let big = JpegFormat::new(4000, 4000, 3, 1, 1);
    assert!(!check_grid(&big, &Vec::new()));
    let empty = JpegFormat::new(0, 5, 1, 1, 1);
    assert!(check_grid(&empty, &Vec::new()));
}

#[test]
fn parse_quant_reads_eight_rows() {
    let lines: Vec<Vec<u8>> = (0..8).map(|l| format!("{} 2 3 4 5 6 7 8", l + 1).into_bytes()).collect();
    let q = parse_quant(&lines).unwrap();
    assert_eq!(q.data[0], 1);
    assert_eq!(q.data[7], 8);
    assert_eq!(q.data[8], 2);
    assert_eq!(q.data[63], 8);
    let mut long = lines.clone();
    long[0] = b"1 2 3 4 5 6 7 8 9".to_vec();
    assert_eq!(parse_quant(&long).unwrap().data[0], 9);
}

#[test]
fn parse_quant_errors() {
    let lines: Vec<Vec<u8>> = (0..7).map(|_| b"1 1 1 1 1 1 1 1".to_vec()).collect();
    assert!(matches!(parse_quant(&lines), Err(JpegError::ReadError)));
    let mut bad: Vec<Vec<u8>> = (0..8).map(|_| b"1 1 1 1 1 1 1 1".to_vec()).collect();
    bad[3] = b"1 x 1".to_vec();
    assert!(matches!(parse_quant(&bad), Err(JpegError::ReadError)));
    bad[3] = b"1 256".to_vec();
    assert!(matches!(parse_quant(&bad), Err(JpegError::ReadError)));
}

// Command line

#[test]
fn parse_format_by_extension() {
    assert!(matches!(parse_format(&"image.ppm".to_string()), Ok(ImageFormat::PixMap)));
    assert!(matches!(parse_format(&"image.pgm".to_string()), Ok(ImageFormat::PixMap)));
    assert!(matches!(parse_format(&"image.pbm".to_string()), Ok(ImageFormat::PixMap)));
    assert!(matches!(parse_format(&"image.jpg".to_string()), Err(JpegError::FormatError)));
}

#[test]
fn parse_args_reads_options() {
    let (file, cmd) = parse_args(&args(&["prog", "-f", "img.ppm", "-d", "-q", "quant/regular_Y"])).unwrap();
    assert_eq!(file, "img.ppm");
    assert!(cmd.debug);
    assert_eq!(cmd.quant, "quant/regular_Y");
    assert!(matches!(cmd.format, ImageFormat::PixMap));
    let defaults = CmdArgs::new();
    assert!(!defaults.debug);
    assert_eq!(defaults.quant, "quant/one");
    assert_eq!(cmd.chroma, "quant/regular_Y");
    let (_, cmd) = parse_args(&args(&["prog", "-f", "img.pgm"])).unwrap();
    assert!(!cmd.debug);
    assert_eq!(cmd.quant, "quant/one");
    assert_eq!(cmd.chroma, "quant/one");
    let (_, cmd) =
        parse_args(&args(&["prog", "-c", "quant/regular_Cr", "-f", "a.ppm", "-q", "quant/regular_Y"]))
            .unwrap();
    assert_eq!(cmd.quant, "quant/regular_Y");
    assert_eq!(cmd.chroma, "quant/regular_Cr");
    assert_eq!(defaults.chroma, "quant/one");
}

#[test]
fn parse_args_errors() {
    assert!(matches!(parse_args(&args(&[])), Err(JpegError::HelpError)));
    assert!(matches!(parse_args(&args(&["prog"])), Err(JpegError::HelpError)));
    assert!(matches!(parse_args(&args(&["prog", "-f"])), Err(JpegError::HelpError)));
    assert!(matches!(parse_args(&args(&["prog", "-x"])), Err(JpegError::HelpError)));
    assert!(matches!(parse_args(&args(&["prog", "-f", "a.ppm", "-q"])), Err(JpegError::HelpError)));
    assert!(matches!(parse_args(&args(&["prog", "-f", "a.ppm", "-c"])), Err(JpegError::HelpError)));
    assert!(matches!(parse_args(&args(&["prog", "-f", "img.png"])), Err(JpegError::FormatError)));
}

#[test]
fn check_args_refuses_short_names() {
    assert!(check_args(&args(&["prog", "-f", "img.ppm"])));
    assert!(!check_args(&args(&["prog", "-f", "ab"])));
}

// Portable pixmaps

#[test]
fn file_reader_lines_and_words() {
    let mut r = FileReader::new(b"ab cd\nef".to_vec());
    let (w, sep) = r.next_separator_as_str().unwrap();
    assert_eq!(w, b"ab".to_vec());
    assert_eq!(sep, b' ');
    assert_eq!(r.next_line_as_bytes(), b"cd".to_vec());
    assert_eq!(r.remaining_data(), b"ef".to_vec());
    assert_eq!(r.next_line_as_bytes(), Vec::<u8>::new());
    let mut bad = FileReader::new(vec![0xFF, 0x0A]);
    assert!(matches!(bad.next_line_as_str(), Err(JpegError::ParseError)));
}

#[test]
fn law_line_split_example() {
    let data = b"first line\nsecond\n\nlast".to_vec();
    let mut r = FileReader::new(data.clone());
    let mut rebuilt = Vec::new();
    for _ in 0..3 {
        let line = r.next_line_as_bytes();
        assert!(!line.contains(&0x0A));
        rebuilt.extend_from_slice(&line);
        rebuilt.push(0x0A);
    }
    rebuilt.extend_from_slice(&r.remaining_data());
    assert_eq!(rebuilt, data);
}

#[test]
fn parse_pixmap_text_graymap() {
    let (f, data) = read_pixmap_bytes(b"P2\n# a comment\n2 2\n255\n1 2\n3 4\n").unwrap();
    assert_eq!((f.sizex, f.sizey, f.comp), (2, 2, 1));
    assert_eq!((f.bsizex, f.bsizey), (1, 1));
    assert_eq!(data, vec![1, 2, 3, 4]);
}

#[test]
fn parse_pixmap_scales_samples() {
    let (_, data) = read_pixmap_bytes(b"P2\n2 1\n15\n15 0\n").unwrap();
    assert_eq!(data, vec![255, 0]);
    let (f, data) = read_pixmap_bytes(b"P3\n1 1\n255\n1 2 3\n").unwrap();
    assert_eq!(f.comp, 3);
    assert_eq!(data, vec![1, 2, 3]);
}

#[test]
fn parse_pixmap_binary_samples() {
    let (f, data) = read_pixmap_bytes(b"P5\n2 1\n255\n\x0b\x14").unwrap();
    assert_eq!((f.sizex, f.sizey), (2, 1));
    assert_eq!(data, vec![0x0B, 0x14]);
    // Raster bytes are samples, whatever their value.
    let (_, data) = read_pixmap_bytes(b"P5\n2 1\n255\n\x0a\x14").unwrap();
    assert_eq!(data, vec![0x0A, 0x14]);
    let (f, data) = read_pixmap_bytes(b"P5\n2 1\n255\n\x23\x14").unwrap();
    assert_eq!((f.sizex, f.sizey, f.comp), (2, 1, 1));
    assert_eq!(data, vec![0x23, 0x14]);
    let (f, data) = read_pixmap_bytes(b"P6\n1 1\n255\n\x01\x02\x03").unwrap();
    assert_eq!(f.comp, 3);
    assert_eq!(data, vec![1, 2, 3]);
    let (_, data) = read_pixmap_bytes(b"P5\n2 1\n15\n\x0f\x01").unwrap();
    assert_eq!(data, vec![255, 17]);
}

#[test]
fn parse_pixmap_plain_bitmap() {
    // In a bitmap 1 is black and 0 is white; pixels need no blanks between them.
    let (f, data) = read_pixmap_bytes(b"P1\n2 1\n1 0\n").unwrap();
    assert_eq!((f.sizex, f.sizey, f.comp), (2, 1, 1));
    assert_eq!(data, vec![0, 255]);
    let (_, data) = read_pixmap_bytes(b"P1\n# c\n3 2\n010\n1 1  0\n").unwrap();
    assert_eq!(data, vec![255, 0, 255, 0, 0, 255]);
    assert!(matches!(read_pixmap_bytes(b"P1\n2 1\n1 2\n"), Err(JpegError::FormatError)));
}

#[test]
fn parse_pixmap_raw_bitmap() {
    // Eight pixels a byte, most significant bit first; each row starts a new byte.
    let (f, data) = read_pixmap_bytes(b"P4\n10 2\n\xa0\x40\xff\xc0").unwrap();
    assert_eq!((f.sizex, f.sizey, f.comp), (10, 2, 1));
    let mut expected = vec![0, 255, 0, 255, 255, 255, 255, 255, 255, 0];
    expected.extend_from_slice(&[0; 10]);
    assert_eq!(data, expected);
    // A raster that ends early gives the pixels it holds.
    let (_, data) = read_pixmap_bytes(b"P4\n3 2\n\x80").unwrap();
    assert_eq!(data, vec![0, 255, 255]);
}

#[test]
fn parse_pixmap_header_whitespace_runs() {
    let (f, data) = read_pixmap_bytes(b"P2\n2  1\n255\n0  255\n").unwrap();
    assert_eq!((f.sizex, f.sizey, f.comp), (2, 1, 1));
    assert_eq!(data, vec![0, 255]);
    let (f, data) = read_pixmap_bytes(b"P5 \t 2\n\n1   255\n\x07\x08").unwrap();
    assert_eq!((f.sizex, f.sizey), (2, 1));
    assert_eq!(data, vec![7, 8]);
    let (f, _) = read_pixmap_bytes(b"P2\n# c\n  3 # d\n 1\n255\n1 2 3\n").unwrap();
    assert_eq!((f.sizex, f.sizey), (3, 1));
}

#[test]
fn parse_pixmap_large_size() {
    let (f, data) = read_pixmap_bytes(b"P2\n65535 0\n255\n").unwrap();
    assert_eq!((f.sizex, f.sizey), (65535, 0));
    assert_eq!(f.bsizex, 8192);
    assert!(data.is_empty());
}

#[test]
fn parse_pixmap_whitespace_runs() {
    let (f, data) = read_pixmap_bytes(b"P2\n2 1\n255\n0  255\n").unwrap();
    assert_eq!((f.sizex, f.sizey), (2, 1));
    assert_eq!(data, vec![0, 255]);
    let (_, data) = read_pixmap_bytes(b"P2\n3 1\n255\n  1\t\t2 \r\n3   \n").unwrap();
    assert_eq!(data, vec![1, 2, 3]);
}

#[test]
fn parse_pixmap_errors() {
    assert!(matches!(read_pixmap_bytes(b"P7\n1 1\n255\n0\n"), Err(JpegError::FormatError)));
    assert!(matches!(read_pixmap_bytes(b"P2\nab 1\n255\n0\n"), Err(JpegError::ParseError)));
    assert!(matches!(read_pixmap_bytes(b"P2\n1 1\n300\n0\n"), Err(JpegError::ParseError)));
    assert!(matches!(read_pixmap_bytes(b"P2\n1 1\n255\nx\n"), Err(JpegError::FormatError)));
    let mut r = FileReader::new(b"P2\n1 1\n255\n7\n".to_vec());
    assert!(check_file(ImageFormat::PixMap, &r));
    let (_, data) = parse_file(ImageFormat::PixMap, &mut r).unwrap();
    assert_eq!(data, vec![7]);
}

#[test]
fn check_file_refuses_what_would_stop_the_program() {
    // A header that ends before its largest value.
    let r = FileReader::new(b"P2\n\n2 2\n".to_vec());
    assert!(!check_file(ImageFormat::PixMap, &r));
    let r = FileReader::new(b"P2\n1 1\n0\n1\n".to_vec());
    assert!(!check_file(ImageFormat::PixMap, &r));
}

// The JPEG layout

#[test]
fn jpeg_format_new_rounds_block_grid_up() {
    let f = JpegFormat::new(17, 9, 3, 1, 1);
    assert_eq!((f.bsizex, f.bsizey), (3, 2));
    assert!(f.huff_deep_ac.is_empty() && f.quant_table.is_empty());
    assert!(f.data.stream.is_empty());
    let f = JpegFormat::new(16, 8, 1, 1, 1);
    assert_eq!((f.bsizex, f.bsizey), (2, 1));
    let f = JpegFormat::new(65535, 65529, 1, 1, 1);
    assert_eq!((f.sizex, f.sizey), (65535, 65529));
    assert_eq!((f.bsizex, f.bsizey), (8192, 8192));
}

#[test]
fn create_jpeg_bytestream_minimal_file() {
    let mut f = JpegFormat::new(8, 8, 1, 1, 1);
    f.data = stream("101");
    let bytes = f.create_jpeg_bytestream();
    let expected: Vec<u8> = vec![
        0xFF, 0xD8, 0xFF, 0xE0, 0x00, 0x10, 0x4A, 0x46, 0x49, 0x46, 0x00, 0x01, 0x01, 0x01, 0x00,
        0x48, 0x00, 0x48, 0x00, 0x00, 0xFF, 0xC0, 0x00, 0x0B, 0x08, 0x00, 0x08, 0x00, 0x08, 0x01,
        0x00, 0x11, 0x00, 0xFF, 0xDA, 0x00, 0x08, 0x01, 0x00, 0x00, 0x00, 0x3F, 0x00, 0xA0, 0xFF,
        0xD9,
    ];
    assert_eq!(bytes, expected);
}

#[test]
fn create_jpeg_bytestream_tables() {
    let mut f = JpegFormat::new(8, 8, 1, 1, 1);
    f.quant_table.push(vec![1u8; 64]);
    let mut deep = [0u8; 16];
    deep[0] = 1;
    let mut symbols: [Vec<u8>; 16] = Default::default();
    symbols[0] = vec![5];
    f.huff_deep_dc.push(deep);
    f.huff_symbol_dc.push(symbols.clone());
    f.huff_deep_ac.push(deep);
    f.huff_symbol_ac.push(symbols);
    let bytes = f.create_jpeg_bytestream();
    let dqt = 2 + 18 + 13;
    assert_eq!(&bytes[dqt..dqt + 5], &[0xFF, 0xDB, 0x00, 0x43, 0x00]);
    let dht = dqt + 5 + 64;
    assert_eq!(&bytes[dht..dht + 5], &[0xFF, 0xC4, 0x00, 0x14, 0x00]);
    assert_eq!(bytes[dht + 5], 1);
    assert_eq!(bytes[dht + 21], 5);
    assert_eq!(&bytes[dht + 22..dht + 27], &[0xFF, 0xC4, 0x00, 0x14, 0x10]);
    assert_eq!(&bytes[bytes.len() - 2..], &[0xFF, 0xD9]);
}

#[test]
fn check_layout_cases() {
    let mut f = JpegFormat::new(8, 8, 3, 1, 1);
    assert!(f.check_layout());
    f.x_sampling = 16;
    f.y_sampling = 255;
    assert!(f.check_layout());
    f.x_sampling = 1;
    assert!(!f.check_layout());
    let mut g = JpegFormat::new(8, 8, 32, 1, 1);
    assert!(!g.check_layout());
    g.comp = 1;
    g.huff_deep_dc.push([0u8; 16]);
    assert!(!g.check_layout());
    let mut symbols: [Vec<u8>; 16] = Default::default();
    symbols[0] = vec![0u8; 65520];
    g.huff_symbol_dc.push(symbols);
    assert!(!g.check_layout());
    g.huff_symbol_dc[0][0] = vec![0u8; 300];
    assert!(g.check_layout());
}

#[test]
fn sof0_sampling_and_tables() {
    let mut f = JpegFormat::new(8, 8, 3, 2, 1);
    f.quant_table.push(vec![1u8; 64]);
    let bytes = f.create_jpeg_bytestream();
    let sof = 2 + 18;
    assert_eq!(&bytes[sof..sof + 2], &[0xFF, 0xC0]);
    assert_eq!(&bytes[sof + 10..sof + 19], &[0, 0x21, 0, 1, 0x21, 0, 2, 0x21, 0]);
    let mut g = JpegFormat::new(8, 8, 3, 1, 1);
    g.quant_table.push(vec![1u8; 64]);
    g.quant_table.push(vec![2u8; 64]);
    let bytes = g.create_jpeg_bytestream();
    assert_eq!(&bytes[sof + 10..sof + 19], &[0, 0x11, 0, 1, 0x11, 1, 2, 0x11, 1]);
}

#[test]
fn law_jpeg_frame_example() {
    let f = JpegFormat::new(100, 3, 3, 1, 1);
    let bytes = f.create_jpeg_bytestream();
    assert_eq!(&bytes[..2], &[0xFF, 0xD8]);
    assert_eq!(&bytes[bytes.len() - 2..], &[0xFF, 0xD9]);
}

#[test]
fn law_stuffing_example() {
    let mut f = JpegFormat::new(8, 8, 1, 1, 1);
    f.data = stream("1111111111111111");
    let bytes = f.create_jpeg_bytestream();
    let n = bytes.len();
    assert_eq!(&bytes[n - 6..], &[0xFF, 0x00, 0xFF, 0x00, 0xFF, 0xD9]);
}
