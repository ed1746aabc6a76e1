use deflate_parser::cursor::DataStream;
use deflate_parser::data::{
    DeflateBlock, DeflateBlockDynamic, DeflateBlockExt, DeflateBlockFixed, DeflateBlockHeader, DeflateBlockStored,
    DeflateStream, HuffmanTree, Token, Value,
};
use deflate_parser::deflate::{
    parse_deflate, parse_deflate_block, parse_deflate_block_dynamic, parse_deflate_block_fixed,
    parse_deflate_block_header, parse_deflate_block_stored,
};
use deflate_parser::error::{Error, ParseError};
use deflate_parser::huffman::{build_huffman_codes, build_huffman_tree};
use deflate_parser::tokens::{parse_copy, parse_tokens};
use deflate_parser::{Settings, Window};

const KEEP: Settings = Settings { bit_offset: 0, data: true };
const DROP: Settings = Settings { bit_offset: 0, data: false };

// A stored block that is not the last, with the bytes "abc", and a last block with fixed codes of "hello\n".
const TWO_BLOCKS: [u8; 16] = [
    0x00, 0x03, 0x00, 0xfc, 0xff, 0x61, 0x62, 0x63, 0xcb, 0x48, 0xcd, 0xc9, 0xc9, 0xe7, 0x02, 0x00,
];

fn parse_error(pos: usize, msg: &str) -> Error {
    Error::Parse(ParseError { pos, msg: msg.to_owned() })
}

fn tree_of<T: deflate_parser::word::Unsigned>(alphabet: &[T], lens: &[u8]) -> HuffmanTree<T> {
    let lens: Vec<Value<u8>> = lens.iter().map(|&v| Value { v, start: 0, end: 0 }).collect();
    let codes = build_huffman_codes(alphabet, &lens);
    let mut tree: Option<HuffmanTree<T>> = None;
    build_huffman_tree(&mut tree, &codes).expect("tree");
    tree.expect("tree")
}

fn pack(bits: &str) -> Vec<u8> {
    let bits: Vec<u8> = bits.bytes().filter(|b| *b == b'0' || *b == b'1').map(|b| b - b'0').collect();
    let mut bytes = vec![0u8; (bits.len() + 7) / 8];
    for (i, bit) in bits.iter().enumerate() {
        bytes[i / 8] |= bit << (i % 8);
    }
    bytes
}

#[test]
fn block_header_fields() {
    let mut data = DataStream::new(vec![0b101], 0);
    let mut header: Option<DeflateBlockHeader> = None;
    assert_eq!(parse_deflate_block_header(&mut header, &mut data), Ok(()));
    assert_eq!(
        header,
        Some(DeflateBlockHeader {
            bfinal: Some(Value { v: 1, start: 0, end: 1 }),
            btype: Some(Value { v: 2, start: 1, end: 3 }),
        })
    );
    assert_eq!(data.pos, 3);
}

#[test]
fn block_header_cut_off() {
    let mut data = DataStream::new(vec![0xff], 6);
    let mut header: Option<DeflateBlockHeader> = None;
    assert_eq!(parse_deflate_block_header(&mut header, &mut data), Err(parse_error(7, "EOF")));
    assert_eq!(header, Some(DeflateBlockHeader { bfinal: Some(Value { v: 1, start: 6, end: 7 }), btype: None }));
    let mut data = DataStream::new(vec![0xff], 8);
    assert_eq!(parse_deflate_block_header(&mut header, &mut data), Err(parse_error(8, "EOF")));
    assert_eq!(header, Some(DeflateBlockHeader { bfinal: None, btype: None }));
}

#[test]
fn stored_block_body() {
    let mut data = DataStream::new(TWO_BLOCKS.to_vec(), 3);
    let mut window = Window::default();
    let mut stored = DeflateBlockStored { len: None, nlen: None, data: None };
    assert_eq!(parse_deflate_block_stored(&mut stored, &mut data, &mut window, &KEEP), Ok(()));
    assert_eq!(
        stored,
        DeflateBlockStored {
            len: Some(Value { v: 3, start: 8, end: 16 }),
            nlen: Some(Value { v: 0xfffc, start: 24, end: 32 }),
            data: Some(Value { v: "616263".to_owned(), start: 40, end: 64 }),
        }
    );
    assert_eq!(data.pos, 64);
    assert_eq!(window.plain_pos(), 3);
    assert_eq!(window.append_match(3, 3), b"abc".to_vec());
}

#[test]
fn stored_block_records_the_second_field_as_it_stands() {
    let mut data = DataStream::new(vec![0x02, 0x00, 0x34, 0x12, 0x41, 0x42], 0);
    let mut window = Window::default();
    let mut stored = DeflateBlockStored { len: None, nlen: None, data: None };
    assert_eq!(parse_deflate_block_stored(&mut stored, &mut data, &mut window, &DROP), Ok(()));
    assert_eq!(stored.len.map(|v| v.v), Some(2));
    assert_eq!(stored.nlen.map(|v| v.v), Some(0x1234));
    assert_eq!(stored.data, None);
    assert_eq!(window.plain_pos(), 2);
}

#[test]
fn stored_block_cut_off() {
    let mut window = Window::default();
    let mut stored = DeflateBlockStored { len: None, nlen: None, data: None };
    let mut data = DataStream::new(vec![0x00, 0x03, 0x00, 0xfc, 0xff, 0x61, 0x62], 3);
    assert_eq!(parse_deflate_block_stored(&mut stored, &mut data, &mut window, &KEEP), Err(parse_error(40, "EOF")));
    assert_eq!(stored.nlen.map(|v| v.v), Some(0xfffc));
    assert_eq!(stored.data, None);
    assert_eq!(window.plain_pos(), 0);
    let mut stored = DeflateBlockStored { len: None, nlen: None, data: None };
    let mut data = DataStream::new(vec![0x00, 0x03, 0x00, 0xfc], 3);
    assert_eq!(parse_deflate_block_stored(&mut stored, &mut data, &mut window, &KEEP), Err(parse_error(24, "EOF")));
    assert_eq!(stored.len.map(|v| v.v), Some(3));
    assert_eq!(stored.nlen, None);
}

#[test]
fn fixed_block_body() {
    let mut data = DataStream::new(TWO_BLOCKS.to_vec(), 67);
    let mut window = Window::default();
    let mut fixed = DeflateBlockFixed { tokens: None };
    assert_eq!(parse_deflate_block_fixed(&mut fixed, &mut data, &mut window, &KEEP), Ok(()));
    let tokens = fixed.tokens.expect("tokens");
    let literals: Vec<u8> = tokens
        .iter()
        .filter_map(|token| match &token.v {
            Token::Literal(t) => Some(t.v),
            _ => None,
        })
        .collect();
    assert_eq!(literals, b"hello\n");
    assert_eq!(tokens.len(), 7);
    assert_eq!((tokens[6].start, tokens[6].end), (115, 122));
    assert_eq!(data.pos, 122);
    assert_eq!(window.plain_pos(), 6);
}

#[test]
fn without_capture_no_tokens_are_kept() {
    let mut data = DataStream::new(TWO_BLOCKS.to_vec(), 67);
    let mut window = Window::default();
    let mut fixed = DeflateBlockFixed { tokens: None };
    assert_eq!(parse_deflate_block_fixed(&mut fixed, &mut data, &mut window, &DROP), Ok(()));
    assert_eq!(fixed.tokens, None);
    assert_eq!(window.plain_pos(), 6);
    assert_eq!(data.pos, 122);
}

#[test]
fn fixed_codes_above_285_are_unused() {
    // Header and the eight bits 1100_0110, which would be the code of symbol 286.
    let mut data = DataStream::new(pack("110 11000110"), 3);
    let mut window = Window::default();
    let mut fixed = DeflateBlockFixed { tokens: None };
    assert_eq!(
        parse_deflate_block_fixed(&mut fixed, &mut data, &mut window, &KEEP),
        Err(parse_error(10, "Code=0b1100011"))
    );
    assert_eq!(fixed.tokens, Some(vec![]));
}

#[test]
fn distance_symbol_of_30_or_more() {
    // Fixed codes: the length symbol 257, then the distance symbol 30.
    let mut data = DataStream::new(pack("110 0000001 11110"), 3);
    let mut window = Window::default();
    window.append_byte(b'a');
    let mut fixed = DeflateBlockFixed { tokens: None };
    assert_eq!(
        parse_deflate_block_fixed(&mut fixed, &mut data, &mut window, &KEEP),
        Err(parse_error(15, "Distance extra bits"))
    );
    assert_eq!(fixed.tokens, Some(vec![]));
    assert_eq!(window.plain_pos(), 1);
}

#[test]
fn copy_with_extra_bits() {
    // Length symbol 266 (base 13, one extra bit), distance symbol 4 (base 5, one extra bit).
    let distances = tree_of(&[4u8, 9u8], &[1, 1]);
    let mut window = Window::default();
    window.append_bytes(b"0123456789");
    // Length extra 1, distance code 0, distance extra 1.
    let mut data = DataStream::new(pack("1 0 1"), 0);
    let length = Value { v: 266u16, start: 100, end: 107 };
    let token = parse_copy(&mut data, &mut window, length, &distances).expect("copy");
    match token {
        Token::Window(t) => {
            assert_eq!(t.plain_pos, 10);
            assert_eq!(t.length, length);
            assert_eq!(t.length_extra, Value { v: 1, start: 0, end: 1 });
            assert_eq!(t.length_value, 14);
            assert_eq!(t.distance, Value { v: 4, start: 1, end: 2 });
            assert_eq!(t.distance_extra, Value { v: 1, start: 2, end: 3 });
            assert_eq!(t.distance_value, 6);
            assert_eq!(t.hex, "3435363738393435363738393435");
        }
        _ => panic!("not a copy"),
    }
    assert_eq!(window.plain_pos(), 24);
    assert_eq!(data.pos, 3);
}

#[test]
fn longest_copy_at_the_largest_distance() {
    // Length symbol 285 (258, no extra bits), distance symbol 29 (base 24577, 13 extra bits, all set).
    let distances = tree_of(&[29u8, 0u8], &[1, 1]);
    let mut window = Window::default();
    window.append_bytes(&vec![7u8; 32768]);
    let mut data = DataStream::new(pack("1 1111111111111"), 0);
    let length = Value { v: 285u16, start: 0, end: 0 };
    match parse_copy(&mut data, &mut window, length, &distances).expect("copy") {
        Token::Window(t) => {
            assert_eq!((t.length_extra.v, t.length_value), (0, 258));
            assert_eq!((t.distance.v, t.distance_extra.v, t.distance_value), (29, 8191, 32768));
            assert_eq!(t.hex, "07".repeat(258));
        }
        _ => panic!("not a copy"),
    }
    assert_eq!(window.plain_pos(), 32768 + 258);
}

#[test]
fn symbol_above_285_is_no_token() {
    let literals = tree_of(&[65u16, 286u16], &[1, 1]);
    let distances = tree_of(&[0u8], &[1]);
    let mut data = DataStream::new(pack("0 1"), 0);
    let mut window = Window::default();
    let mut tokens: Option<Vec<Value<Token>>> = None;
    assert_eq!(
        parse_tokens(&mut tokens, &mut data, &mut window, &literals, &distances, &KEEP),
        Err(parse_error(2, "Literal"))
    );
    assert_eq!(tokens.map(|t| t.len()), Some(1));
    assert_eq!(window.plain_pos(), 1);
}

#[test]
fn tokens_end_with_the_end_of_block() {
    let literals = tree_of(&[65u16, 256u16], &[1, 1]);
    let distances = tree_of(&[0u8], &[1]);
    let mut data = DataStream::new(pack("0 0 1 0"), 0);
    let mut window = Window::default();
    let mut tokens: Option<Vec<Value<Token>>> = None;
    assert_eq!(parse_tokens(&mut tokens, &mut data, &mut window, &literals, &distances, &KEEP), Ok(()));
    let tokens = tokens.expect("tokens");
    assert_eq!(tokens.len(), 3);
    match &tokens[1].v {
        Token::Literal(t) => assert_eq!((t.plain_pos, t.v, t.c, t.hex.as_str()), (1, 65, 'A', "41")),
        _ => panic!("not a literal"),
    }
    match &tokens[2].v {
        Token::Eob(t) => assert_eq!(t.plain_pos, 2),
        _ => panic!("not the end of the block"),
    }
    assert_eq!((tokens[2].start, tokens[2].end), (2, 3));
    assert_eq!(data.pos, 3);
}

#[test]
fn literal_above_127_is_the_character_of_that_number() {
    let literals = tree_of(&[0xe9u16, 256u16], &[1, 1]);
    let distances = tree_of(&[0u8], &[1]);
    let mut data = DataStream::new(pack("0 1"), 0);
    let mut window = Window::default();
    let mut tokens: Option<Vec<Value<Token>>> = None;
    assert_eq!(parse_tokens(&mut tokens, &mut data, &mut window, &literals, &distances, &KEEP), Ok(()));
    match &tokens.expect("tokens")[0].v {
        Token::Literal(t) => assert_eq!((t.v, t.c, t.hex.as_str()), (0xe9, '\u{e9}', "e9")),
        _ => panic!("not a literal"),
    }
}

#[test]
fn block_of_type_three() {
    let mut blocks: Vec<DeflateBlock> = Vec::new();
    let mut data = DataStream::new(vec![0b111], 0);
    let mut window = Window::default();
    assert_eq!(parse_deflate_block(&mut blocks, &mut data, &mut window, &KEEP), Err(parse_error(3, "BTYPE=3")));
    assert_eq!(blocks.len(), 1);
    assert_eq!(blocks[0].header.btype, Some(Value { v: 3, start: 1, end: 3 }));
    assert_eq!((blocks[0].plain_start, blocks[0].plain_end, blocks[0].end), (Some(0), None, None));
    assert!(blocks[0].ext.is_none());
}

#[test]
fn block_without_a_header_is_not_recorded() {
    let mut blocks: Vec<DeflateBlock> = Vec::new();
    let mut data = DataStream::new(vec![0xff], 7);
    let mut window = Window::default();
    assert_eq!(parse_deflate_block(&mut blocks, &mut data, &mut window, &KEEP), Err(parse_error(8, "EOF")));
    assert!(blocks.is_empty());
}

#[test]
fn block_says_whether_more_follow() {
    let mut blocks: Vec<DeflateBlock> = Vec::new();
    let mut data = DataStream::new(TWO_BLOCKS.to_vec(), 0);
    let mut window = Window::default();
    assert_eq!(parse_deflate_block(&mut blocks, &mut data, &mut window, &KEEP), Ok(true));
    assert_eq!(data.pos, 64);
    assert_eq!(parse_deflate_block(&mut blocks, &mut data, &mut window, &KEEP), Ok(false));
    assert_eq!(data.pos, 122);
    assert_eq!(blocks.len(), 2);
    assert_eq!((blocks[0].plain_start, blocks[0].plain_end, blocks[0].end), (Some(0), Some(3), Some(64)));
    assert_eq!((blocks[1].plain_start, blocks[1].plain_end, blocks[1].end), (Some(3), Some(9), Some(122)));
    assert!(matches!(blocks[0].ext, Some(DeflateBlockExt::Stored(_))));
    assert!(matches!(blocks[1].ext, Some(DeflateBlockExt::Fixed(_))));
}

#[test]
fn stream_of_two_blocks_ends_on_a_byte_boundary() {
    let mut deflate = DeflateStream::default();
    let mut data = DataStream::new(TWO_BLOCKS.to_vec(), 0);
    let mut window = Window::default();
    assert_eq!(parse_deflate(&mut deflate, &mut data, &mut window, &KEEP), Ok(()));
    assert_eq!(deflate.blocks.len(), 2);
    assert_eq!(data.pos, 128);
    assert_eq!(window.plain_pos(), 9);
}

#[test]
fn stream_keeps_blocks_read_before_a_failure() {
    let mut deflate = DeflateStream::default();
    let mut data = DataStream::new(TWO_BLOCKS[..10].to_vec(), 0);
    let mut window = Window::default();
    let result = parse_deflate(&mut deflate, &mut data, &mut window, &KEEP);
    assert!(matches!(result, Err(Error::Parse(ParseError { pos: 80, .. }))));
    assert_eq!(deflate.blocks.len(), 2);
    assert_eq!(deflate.blocks[0].plain_end, Some(3));
    assert_eq!(deflate.blocks[1].plain_end, None);
    match &deflate.blocks[1].ext {
        Some(DeflateBlockExt::Fixed(fixed)) => assert_eq!(fixed.tokens.as_ref().map(|t| t.len()), Some(1)),
        _ => panic!("not a fixed block"),
    }
    assert_eq!(window.plain_pos(), 4);
}

#[test]
fn dynamic_block_without_tables_keeps_them_as_far_as_read() {
    let mut dynamic = DeflateBlockDynamic { dht: None, tokens: None };
    let mut data = DataStream::new(vec![0x1d], 0);
    let mut window = Window::default();
    assert_eq!(
        parse_deflate_block_dynamic(&mut dynamic, &mut data, &mut window, &KEEP),
        Err(parse_error(5, "EOF"))
    );
    let dht = dynamic.dht.expect("tables");
    assert_eq!(dht.hlit, Some(Value { v: 29, start: 0, end: 5 }));
    assert!(dht.hdist.is_none());
    assert!(dynamic.tokens.is_none());
}
