use deflate_parser::cursor::DataStream;
use deflate_parser::data::{CompressedStream, DynamicHuffmanTable, HuffmanTree, Value};
use deflate_parser::dht::{alphabet_u16, alphabet_u8, parse_dht, parse_hclens, parse_huffman_code_lengths};
use deflate_parser::error::{Error, ParseError};
use deflate_parser::huffman::{build_huffman_codes, build_huffman_tree};
use deflate_parser::{parse, Settings, Window};

// The code tables of a dynamic block, behind four bits of padding.
const TABLES: [u8; 31] = [
    0xd0, 0x9f, 0x93, 0xe3, 0x80, 0x61, 0x18, 0x06, 0x80, 0xad, 0xb8, 0x82, 0xf4, 0x44, 0x49, 0xd6, 0x65, 0x5d, 0xa4,
    0x2e, 0x8a, 0xd5, 0xc7, 0x93, 0x1a, 0xf2, 0xf4, 0x0f, 0x18, 0xec, 0x07,
];

fn parse_error(pos: usize, msg: &str) -> Error {
    Error::Parse(ParseError { pos, msg: msg.to_owned() })
}

fn repeat_tree() -> HuffmanTree<u8> {
    // Two bits each: 5 is 00, 16 is 01, 17 is 10, 18 is 11.
    let alphabet: [u8; 4] = [16, 17, 18, 5];
    let lens = vec![Value { v: 2u8, start: 0, end: 0 }; 4];
    let codes = build_huffman_codes(&alphabet, &lens);
    let mut tree: Option<HuffmanTree<u8>> = None;
    build_huffman_tree(&mut tree, &codes).expect("tree");
    tree.expect("tree")
}

#[test]
fn alphabets_count_up() {
    assert_eq!(alphabet_u8(4), vec![0, 1, 2, 3]);
    assert_eq!(alphabet_u8(0), Vec::<u8>::new());
    assert_eq!(alphabet_u16(286).len(), 286);
    assert_eq!(alphabet_u16(286)[285], 285);
}

#[test]
fn hclens_are_three_bits_each() {
    // Fields 1, 2, 3, 4, 7 in 15 bits, least significant bit first.
    let bits: u16 = 1 | 2 << 3 | 3 << 6 | 4 << 9 | 7 << 12;
    let mut data = DataStream::new(vec![0xff, bits as u8, (bits >> 8) as u8], 8);
    let mut out: Option<Vec<Value<u8>>> = None;
    assert_eq!(parse_hclens(&mut out, &mut data, 1), Ok(()));
    assert_eq!(
        out,
        Some(vec![
            Value { v: 1, start: 8, end: 11 },
            Value { v: 2, start: 11, end: 14 },
            Value { v: 3, start: 14, end: 17 },
            Value { v: 4, start: 17, end: 20 },
            Value { v: 7, start: 20, end: 23 },
        ])
    );
    assert_eq!(data.pos, 23);
}

#[test]
fn hclens_keep_what_was_read_before_the_end() {
    let mut data = DataStream::new(vec![0b0101_1001], 0);
    let mut out: Option<Vec<Value<u8>>> = None;
    assert_eq!(parse_hclens(&mut out, &mut data, 0), Err(parse_error(6, "EOF")));
    assert_eq!(out, Some(vec![Value { v: 1, start: 0, end: 3 }, Value { v: 3, start: 3, end: 6 }]));
    assert_eq!(data.pos, 6);
}

#[test]
fn code_lengths_with_repeats() {
    // 5; 16 with repeat 1; 17 with repeat 0; 18 with repeat 0.
    let mut data = DataStream::new(vec![0x58, 0x18, 0x00], 0);
    let mut out: Option<Vec<Value<u8>>> = None;
    assert_eq!(parse_huffman_code_lengths(&mut out, &mut data, 19, &repeat_tree()), Ok(()));
    let mut expected = vec![Value { v: 5u8, start: 0, end: 2 }];
    expected.extend(vec![Value { v: 5u8, start: 0, end: 6 }; 4]);
    expected.extend(vec![Value { v: 0u8, start: 6, end: 11 }; 3]);
    expected.extend(vec![Value { v: 0u8, start: 11, end: 20 }; 11]);
    assert_eq!(out, Some(expected));
    assert_eq!(data.pos, 20);
}

#[test]
fn longest_repeats() {
    // 5; 16 with repeat 3; 17 with repeat 7; 18 with repeat 127.
    let bits: u32 = 0b00 | 0b10 << 2 | 3 << 4 | 0b01 << 6 | 7 << 8 | 0b11 << 11 | 127 << 13;
    let mut data = DataStream::new(bits.to_le_bytes().to_vec(), 0);
    let mut out: Option<Vec<Value<u8>>> = None;
    assert_eq!(parse_huffman_code_lengths(&mut out, &mut data, 1 + 6 + 10 + 138, &repeat_tree()), Ok(()));
    let lens = out.expect("lens");
    assert_eq!(lens.len(), 155);
    assert!(lens[..7].iter().all(|v| v.v == 5));
    assert!(lens[7..].iter().all(|v| v.v == 0));
    assert_eq!(lens[154], Value { v: 0, start: 11, end: 20 });
}

#[test]
fn repeat_without_a_length_before_it() {
    let mut data = DataStream::new(vec![0b10], 0);
    let mut out: Option<Vec<Value<u8>>> = None;
    assert_eq!(parse_huffman_code_lengths(&mut out, &mut data, 4, &repeat_tree()), Err(parse_error(2, "Repeat")));
    assert_eq!(out, Some(vec![]));
}

#[test]
fn repeat_past_the_count() {
    let mut data = DataStream::new(vec![0x58, 0x18, 0x00], 0);
    let mut out: Option<Vec<Value<u8>>> = None;
    assert_eq!(
        parse_huffman_code_lengths(&mut out, &mut data, 18, &repeat_tree()),
        Err(parse_error(20, "Code lengths"))
    );
    assert_eq!(out.map(|lens| lens.len()), Some(19));
}

#[test]
fn code_lengths_stop_at_the_count() {
    let mut data = DataStream::new(vec![0x58, 0x18, 0x00], 0);
    let mut out: Option<Vec<Value<u8>>> = None;
    assert_eq!(parse_huffman_code_lengths(&mut out, &mut data, 5, &repeat_tree()), Ok(()));
    assert_eq!(data.pos, 6);
    let mut data = DataStream::new(vec![0x58], 0);
    assert_eq!(parse_huffman_code_lengths(&mut out, &mut data, 0, &repeat_tree()), Ok(()));
    assert_eq!(out, Some(vec![]));
    assert_eq!(data.pos, 0);
}

#[test]
fn code_lengths_end_of_input() {
    let mut data = DataStream::new(vec![0x58], 0);
    let mut out: Option<Vec<Value<u8>>> = None;
    // After 5 and four repeats the 17 is read, and its repeat count is cut off.
    assert_eq!(parse_huffman_code_lengths(&mut out, &mut data, 19, &repeat_tree()), Err(parse_error(8, "EOF")));
    assert_eq!(out.map(|lens| lens.len()), Some(5));
}

#[test]
fn symbol_above_18_is_no_code_length() {
    let tree = HuffmanTree::Node(Box::new([HuffmanTree::Leaf(Some(19u8)), HuffmanTree::Leaf(Some(3u8))]));
    let mut data = DataStream::new(vec![0b01], 0);
    let mut out: Option<Vec<Value<u8>>> = None;
    assert_eq!(parse_huffman_code_lengths(&mut out, &mut data, 2, &tree), Err(parse_error(2, "Code length")));
    assert_eq!(out, Some(vec![Value { v: 3, start: 0, end: 1 }]));
}

#[test]
fn tables_of_a_dynamic_block() {
    let mut dht = DynamicHuffmanTable::default();
    let mut data = DataStream::new(TABLES.to_vec(), 4);
    assert_eq!(parse_dht(&mut dht, &mut data), Ok(()));
    assert_eq!(data.pos, 248);
    assert_eq!(dht.hlit, Some(Value { v: 29, start: 4, end: 9 }));
    assert_eq!(dht.hdist, Some(Value { v: 15, start: 9, end: 14 }));
    assert_eq!(dht.hclen, Some(Value { v: 14, start: 14, end: 18 }));
    assert_eq!(dht.hclens.as_ref().map(|lens| lens.len()), Some(18));
    let hlits = dht.hlits.as_ref().expect("hlits");
    assert_eq!(hlits.len(), 29 + 257 + 15 + 1);
    assert!(hlits[..20].iter().all(|len| len.v == 0));
    assert_eq!(hlits[256].v, 8);
    assert_eq!(hlits.iter().filter(|len| len.v != 0).count(), 38);
    assert!(dht.hdists.is_none());
    let hlits_codes = dht.hlits_codes.as_ref().expect("codes");
    let hdists_codes = dht.hdists_codes.as_ref().expect("codes");
    assert_eq!(hlits_codes.len() + hdists_codes.len(), 38);
    assert!(hlits_codes.iter().all(|code| code.bin.len() == code.len.v as usize));
    assert!(hlits_codes.windows(2).all(|pair| pair[0].symbol < pair[1].symbol));
    assert!(dht.hclens_tree.is_some() && dht.hlits_tree.is_some() && dht.hdists_tree.is_some());
}

#[test]
fn tables_alone_as_a_stream() {
    let mut stream = Some(CompressedStream::Dht(Box::default()));
    let mut window = Window::default();
    let result = parse(&mut stream, TABLES.to_vec(), &mut window, &Settings { bit_offset: 4, data: true });
    assert_eq!(result, Ok(()));
    assert_eq!(window.plain_pos(), 0);
    match stream {
        Some(CompressedStream::Dht(dht)) => {
            assert_eq!(dht.hlits.as_ref().map(|lens| lens.len()), Some(302));
            assert!(dht.hlits_tree.is_some());
        }
        _ => panic!("not code tables"),
    }
}

#[test]
fn more_than_286_literal_codes() {
    // HLIT = 30.
    let mut dht = DynamicHuffmanTable::default();
    let mut data = DataStream::new(vec![30, 0, 0], 0);
    assert_eq!(parse_dht(&mut dht, &mut data), Err(parse_error(5, "HLIT > 29")));
    assert_eq!(dht.hlit, Some(Value { v: 30, start: 0, end: 5 }));
    assert!(dht.hdist.is_none());
}

#[test]
fn tables_cut_off() {
    let mut dht = DynamicHuffmanTable::default();
    let mut data = DataStream::new(TABLES[..30].to_vec(), 4);
    assert_eq!(parse_dht(&mut dht, &mut data), Err(parse_error(240, "EOF")));
    assert!(dht.hclens_tree.is_some());
    assert!(dht.hlits.as_ref().expect("hlits").len() < 302);
    assert!(dht.hlits_codes.is_none());
}
