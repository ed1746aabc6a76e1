use deflate_parser::cursor::DataStream;
use deflate_parser::data::{HuffmanCode, HuffmanTree, Value};
use deflate_parser::error::{Error, ParseError};
use deflate_parser::huffman::{add_to_huffman_tree, build_huffman_codes, build_huffman_tree, parse_huffman_code};

fn parse_error(pos: usize, msg: &str) -> Error {
    Error::Parse(ParseError { pos, msg: msg.to_owned() })
}

fn lens_at(lens: &[u8], start: usize) -> Vec<Value<u8>> {
    lens.iter().enumerate().map(|(i, &v)| Value { v, start: start + 3 * i, end: start + 3 * i + 3 }).collect()
}

fn summary<T: Copy>(codes: &[HuffmanCode<T>]) -> Vec<(T, u16, u8, &str)> {
    codes.iter().map(|c| (c.symbol, c.code, c.len.v, c.bin.as_str())).collect()
}

fn node<T>(zero: HuffmanTree<T>, one: HuffmanTree<T>) -> HuffmanTree<T> {
    HuffmanTree::Node(Box::new([zero, one]))
}

fn leaf<T>(symbol: T) -> HuffmanTree<T> {
    HuffmanTree::Leaf(Some(symbol))
}

#[test]
fn codes_of_the_standard_example() {
    // The alphabet ABCDEFGH with the code lengths (3, 3, 3, 3, 3, 2, 4, 4).
    let alphabet: Vec<u8> = (0..8).collect();
    let codes = build_huffman_codes(&alphabet, &lens_at(&[3, 3, 3, 3, 3, 2, 4, 4], 0));
    assert_eq!(
        summary(&codes),
        vec![
            (0, 0b010, 3, "010"),
            (1, 0b011, 3, "011"),
            (2, 0b100, 3, "100"),
            (3, 0b101, 3, "101"),
            (4, 0b110, 3, "110"),
            (5, 0b00, 2, "00"),
            (6, 0b1110, 4, "1110"),
            (7, 0b1111, 4, "1111"),
        ]
    );
}

#[test]
fn codes_keep_the_range_of_their_length() {
    let alphabet: Vec<u16> = (0..4).collect();
    let lens = lens_at(&[2, 1, 0, 2], 17);
    let codes = build_huffman_codes(&alphabet, &lens);
    assert_eq!(codes.len(), 3);
    assert_eq!(codes[0].len, Value { v: 2, start: 17, end: 20 });
    assert_eq!(codes[1].len, Value { v: 1, start: 20, end: 23 });
    assert_eq!(codes[2].len, Value { v: 2, start: 26, end: 29 });
    assert_eq!(summary(&codes), vec![(0, 0b10, 2, "10"), (1, 0b0, 1, "0"), (3, 0b11, 2, "11")]);
}

#[test]
fn codes_come_ordered_by_symbol() {
    let alphabet: [u8; 19] = [16, 17, 18, 0, 8, 7, 9, 6, 10, 5, 11, 4, 12, 3, 13, 2, 14, 1, 15];
    let codes = build_huffman_codes(&alphabet, &lens_at(&[2, 3, 3, 0, 2, 2], 0));
    // 16, 8 and 7 have two bits, 17 and 18 three; symbol 0 has length zero.
    assert_eq!(
        summary(&codes),
        vec![(7, 0b00, 2, "00"), (8, 0b01, 2, "01"), (16, 0b10, 2, "10"), (17, 0b110, 3, "110"), (18, 0b111, 3, "111")]
    );
}

#[test]
fn symbols_without_a_length_take_no_code() {
    let alphabet: Vec<u8> = (0..6).collect();
    let codes = build_huffman_codes(&alphabet, &lens_at(&[1, 0, 2], 0));
    assert_eq!(summary(&codes), vec![(0, 0b0, 1, "0"), (2, 0b10, 2, "10")]);
    let codes = build_huffman_codes(&alphabet, &[]);
    assert!(codes.is_empty());
    let none: [u8; 0] = [];
    assert!(build_huffman_codes(&none, &lens_at(&[1, 1], 0)).is_empty());
}

#[test]
fn lengths_beyond_the_alphabet_still_count() {
    // Two symbols, but four lengths of one bit: the codes of two bits start at (0 + 4) * 2.
    let alphabet: [u8; 2] = [0, 1];
    let codes = build_huffman_codes(&alphabet, &lens_at(&[2, 2, 1, 1, 1, 1], 0));
    assert_eq!(summary(&codes), vec![(0, 8, 2, "00"), (1, 9, 2, "01")]);
}

#[test]
fn equal_symbols_keep_their_order() {
    let alphabet: [u8; 3] = [4, 4, 1];
    let codes = build_huffman_codes(&alphabet, &lens_at(&[2, 2, 2], 0));
    assert_eq!(codes[0].symbol, 1);
    assert_eq!((codes[1].symbol, codes[1].len.start), (4, 0));
    assert_eq!((codes[2].symbol, codes[2].len.start), (4, 3));
}

#[test]
fn tree_of_a_code_list() {
    let alphabet: Vec<u8> = (0..3).collect();
    let codes = build_huffman_codes(&alphabet, &lens_at(&[1, 2, 2], 0));
    let mut tree: Option<HuffmanTree<u8>> = None;
    assert_eq!(build_huffman_tree(&mut tree, &codes), Ok(()));
    assert_eq!(tree, Some(node(leaf(0), node(leaf(1), leaf(2)))));
}

#[test]
fn tree_of_no_codes_is_an_empty_leaf() {
    let mut tree: Option<HuffmanTree<u16>> = None;
    assert_eq!(build_huffman_tree(&mut tree, &[]), Ok(()));
    assert_eq!(tree, Some(HuffmanTree::Leaf(None)));
    assert!(HuffmanTree::<u16>::Leaf(None).is_empty_leaf());
    assert!(!leaf(3u16).is_empty_leaf());
    assert_eq!(HuffmanTree::<u8>::new_node(), node(HuffmanTree::Leaf(None), HuffmanTree::Leaf(None)));
    assert!(!HuffmanTree::<u8>::new_node().is_empty_leaf());
}

#[test]
fn tree_keeps_gaps_as_empty_leaves() {
    let alphabet: Vec<u8> = (0..2).collect();
    let codes = build_huffman_codes(&alphabet, &lens_at(&[2, 2], 0));
    let mut tree: Option<HuffmanTree<u8>> = None;
    assert_eq!(build_huffman_tree(&mut tree, &codes), Ok(()));
    assert_eq!(tree, Some(node(node(leaf(0), leaf(1)), HuffmanTree::Leaf(None))));
}

#[test]
fn second_symbol_on_one_place_is_refused() {
    // Three codes of one bit: the third gets the code 2, which ends where the first ended.
    let alphabet: Vec<u8> = (0..3).collect();
    let codes = build_huffman_codes(&alphabet, &lens_at(&[1, 1, 1], 40));
    assert_eq!(summary(&codes), vec![(0, 0, 1, "0"), (1, 1, 1, "1"), (2, 2, 1, "0")]);
    let mut tree: Option<HuffmanTree<u8>> = None;
    assert_eq!(build_huffman_tree(&mut tree, &codes), Err(parse_error(47, "Not an empty leaf (symbol=2)")));
    assert_eq!(tree, Some(node(leaf(0), leaf(1))));
}

#[test]
fn code_behind_a_symbol_is_a_conflict() {
    let mut tree = node(leaf(1u16), HuffmanTree::Leaf(None));
    let before = node(leaf(1u16), HuffmanTree::Leaf(None));
    assert_eq!(add_to_huffman_tree(&mut tree, 100, 0b01, 2, 2u16), Err(parse_error(101, "Conflict (symbol=1 and 2)")));
    assert_eq!(tree, before);
    assert_eq!(add_to_huffman_tree(&mut tree, 100, 0b0, 1, 300u16), Err(parse_error(101, "Not an empty leaf (symbol=300)")));
    assert_eq!(add_to_huffman_tree(&mut tree, 7, 0, 0, 9u16), Err(parse_error(7, "Not an empty leaf (symbol=9)")));
    assert_eq!(tree, before);
    assert_eq!(add_to_huffman_tree(&mut tree, 100, 0b110, 3, 5u16), Ok(()));
    assert_eq!(
        tree,
        node(
            leaf(1),
            node(HuffmanTree::Leaf(None), node(leaf(5), HuffmanTree::Leaf(None))),
        )
    );
}

#[test]
fn symbol_in_an_empty_tree() {
    let mut tree: HuffmanTree<u8> = HuffmanTree::Leaf(None);
    assert_eq!(add_to_huffman_tree(&mut tree, 0, 0, 0, 4u8), Ok(()));
    assert_eq!(tree, leaf(4));
    assert_eq!(add_to_huffman_tree(&mut tree, 0, 1, 1, 5u8), Err(parse_error(0, "Conflict (symbol=4 and 5)")));
}

#[test]
fn decoding_walks_the_tree_bit_by_bit() {
    let tree = node(leaf(0u8), node(leaf(1), leaf(2)));
    // The bits in reading order: 1,1, 0, 1,0, 0.
    let mut data = DataStream::new(vec![0b0000_1011], 0);
    assert_eq!(parse_huffman_code(&mut data, &tree, 0, 0, 0), Ok(Value { v: 2, start: 0, end: 2 }));
    assert_eq!(data.pos, 2);
    assert_eq!(parse_huffman_code(&mut data, &tree, 2, 0, 0), Ok(Value { v: 0, start: 2, end: 3 }));
    assert_eq!(parse_huffman_code(&mut data, &tree, 3, 0, 0), Ok(Value { v: 1, start: 3, end: 5 }));
    assert_eq!(data.pos, 5);
}

#[test]
fn decoding_a_lone_symbol_reads_nothing() {
    let tree = leaf(77u16);
    let mut data = DataStream::new(vec![], 0);
    assert_eq!(parse_huffman_code(&mut data, &tree, 0, 0, 0), Ok(Value { v: 77, start: 0, end: 0 }));
}

#[test]
fn decoding_an_unused_code_names_its_bits() {
    let tree = node(node(leaf(0u8), leaf(1)), node(HuffmanTree::Leaf(None), leaf(3)));
    // The bits in reading order: 1, 0.
    let mut data = DataStream::new(vec![0b01], 0);
    assert_eq!(parse_huffman_code(&mut data, &tree, 0, 0, 0), Err(parse_error(2, "Code=0b10")));
    assert_eq!(data.pos, 2);
    let mut data = DataStream::new(vec![0xff], 3);
    let empty: HuffmanTree<u8> = HuffmanTree::Leaf(None);
    assert_eq!(parse_huffman_code(&mut data, &empty, 3, 0, 0), Err(parse_error(3, "Code=0b")));
}

#[test]
fn decoding_past_the_end_is_eof() {
    let tree = node(leaf(0u8), node(leaf(1), leaf(2)));
    let mut data = DataStream::new(vec![0x80], 7);
    assert_eq!(parse_huffman_code(&mut data, &tree, 7, 0, 0), Err(parse_error(8, "EOF")));
    assert_eq!(data.pos, 8);
}
