use deflate_parser::cursor::{record_text, DataStream};
use deflate_parser::data::Value;
use deflate_parser::error::{Error, ParseError};
use deflate_parser::text::{code_to_bin, digit_text, push_decimal};
use deflate_parser::Settings;

fn parse_error(pos: usize, msg: &str) -> Error {
    Error::Parse(ParseError { pos, msg: msg.to_owned() })
}

#[test]
fn new_cursor_counts_bits() {
    let data = DataStream::new(vec![1, 2, 3], 5);
    assert_eq!((data.pos, data.end), (5, 24));
}

#[test]
fn require_accepts_up_to_the_end() {
    let data = DataStream::new(vec![0; 2], 10);
    assert_eq!(data.require(6), Ok(()));
    assert_eq!(data.require(0), Ok(()));
    assert_eq!(data.require(7), Err(parse_error(10, "EOF")));
}

#[test]
fn require_fails_behind_the_end() {
    let data = DataStream::new(vec![0; 2], 17);
    assert_eq!(data.require(0), Err(parse_error(17, "EOF")));
    let data = DataStream::new(vec![0; 2], usize::MAX);
    assert_eq!(data.require(usize::MAX), Err(parse_error(usize::MAX, "EOF")));
}

#[test]
fn byte_index_needs_a_byte_boundary() {
    assert_eq!(DataStream::new(vec![0; 4], 16).byte_index(), Ok(2));
    assert_eq!(DataStream::new(vec![0; 4], 0).byte_index(), Ok(0));
    assert_eq!(DataStream::new(vec![0; 4], 17).byte_index(), Err(parse_error(17, "Unaligned")));
}

#[test]
fn bits_are_read_least_significant_first() {
    // 0xb5 = 1011_0101, 0x01: the bits in reading order are 1,0,1,0,1,1,0,1,1,0,...
    let mut data = DataStream::new(vec![0xb5, 0x01], 0);
    let mut slot: Option<Value<u8>> = None;
    assert_eq!(data.pop_bits::<u8>(&mut slot, 3), Ok(Value { v: 0b101, start: 0, end: 3 }));
    assert_eq!(slot, Some(Value { v: 0b101, start: 0, end: 3 }));
    assert_eq!(data.pos, 3);
    let mut wide: Option<Value<u16>> = None;
    // bits 3..10 are 0,1,1,0,1,1,0: the value is 0b0110110
    assert_eq!(data.pop_bits::<u16>(&mut wide, 7), Ok(Value { v: 0b011_0110, start: 3, end: 10 }));
    assert_eq!(data.pos, 10);
}

#[test]
fn peek_bits_does_not_move() {
    let data = DataStream::new(vec![0xff], 2);
    assert_eq!(data.peek_bits::<u8>(6), Ok(Value { v: 63, start: 2, end: 8 }));
    assert_eq!(data.pos, 2);
    assert_eq!(data.peek_bits::<u8>(7), Err(parse_error(2, "EOF")));
}

#[test]
fn zero_bits_are_a_zero_width_value() {
    let mut data = DataStream::new(vec![0xff], 4);
    let mut slot: Option<Value<u8>> = None;
    assert_eq!(data.pop_bits::<u8>(&mut slot, 0), Ok(Value { v: 0, start: 4, end: 4 }));
    assert_eq!(data.pos, 4);
}

#[test]
fn failed_pop_bits_leaves_slot_and_cursor() {
    let mut data = DataStream::new(vec![0xff], 6);
    let mut slot = Some(Value { v: 9u8, start: 1, end: 2 });
    assert_eq!(data.pop_bits::<u8>(&mut slot, 3), Err(parse_error(6, "EOF")));
    assert_eq!(slot, Some(Value { v: 9u8, start: 1, end: 2 }));
    assert_eq!(data.pos, 6);
}

#[test]
fn integers_are_little_endian_and_eight_bits_wide_on_record() {
    let mut data = DataStream::new(vec![0x00, 0x1f, 0x8b, 0xd1, 0x9f, 0x38, 0x5c], 8);
    assert_eq!(data.peek_le::<u16>(), Ok(Value { v: 0x8b1f, start: 8, end: 16 }));
    let mut magic: Option<Value<u16>> = None;
    assert_eq!(data.pop_le::<u16>(&mut magic), Ok(Value { v: 0x8b1f, start: 8, end: 16 }));
    assert_eq!(data.pos, 24);
    let mut time: Option<Value<u32>> = None;
    assert_eq!(data.pop_le::<u32>(&mut time), Ok(Value { v: 0x5c38_9fd1, start: 24, end: 32 }));
    assert_eq!(time, Some(Value { v: 0x5c38_9fd1, start: 24, end: 32 }));
    assert_eq!(data.pos, 56);
    let mut byte: Option<Value<u8>> = None;
    assert_eq!(data.pop_le::<u8>(&mut byte), Err(parse_error(56, "EOF")));
    assert_eq!(byte, None);
}

#[test]
fn integers_need_a_byte_boundary() {
    let data = DataStream::new(vec![0; 4], 3);
    assert_eq!(data.peek_le::<u8>(), Err(parse_error(3, "Unaligned")));
    // The end of the input is looked for before the byte boundary.
    let data = DataStream::new(vec![0; 4], 27);
    assert_eq!(data.peek_le::<u8>(), Err(parse_error(27, "EOF")));
}

#[test]
fn drop_moves_or_fails() {
    let mut data = DataStream::new(vec![0; 2], 3);
    assert_eq!(data.drop(13), Ok(()));
    assert_eq!(data.pos, 16);
    assert_eq!(data.drop(1), Err(parse_error(16, "EOF")));
    assert_eq!(data.pos, 16);
}

#[test]
fn align_moves_to_the_next_byte_boundary() {
    let mut data = DataStream::new(vec![0; 2], 3);
    assert_eq!(data.align(), Ok(()));
    assert_eq!(data.pos, 8);
    assert_eq!(data.align(), Ok(()));
    assert_eq!(data.pos, 8);
    let mut data = DataStream::new(vec![0; 2], 16);
    assert_eq!(data.align(), Ok(()));
    assert_eq!(data.pos, 16);
    let mut data = DataStream::new(vec![0; 2], 17);
    assert_eq!(data.align(), Err(parse_error(17, "EOF")));
}

#[test]
fn pop_bytes_records_lower_case_hex() {
    let mut data = DataStream::new(vec![0x12, 0x00, 0xff, 0xab, 0x0c], 8);
    let mut slot: Option<Value<String>> = None;
    let taken = data.pop_bytes(&mut slot, 3, &Settings { bit_offset: 0, data: true });
    assert_eq!(taken, Ok(vec![0x00, 0xff, 0xab]));
    assert_eq!(slot, Some(Value { v: "00ffab".to_owned(), start: 8, end: 32 }));
    assert_eq!(data.pos, 32);
}

#[test]
fn pop_bytes_without_capture_only_moves() {
    let mut data = DataStream::new(vec![0x12, 0x00, 0xff], 8);
    let mut slot: Option<Value<String>> = None;
    let taken = data.pop_bytes(&mut slot, 2, &Settings { bit_offset: 0, data: false });
    assert_eq!(taken, Ok(vec![0x00, 0xff]));
    assert_eq!(slot, None);
    assert_eq!(data.pos, 24);
}

#[test]
fn pop_bytes_of_nothing_is_empty() {
    let mut data = DataStream::new(vec![0x12], 8);
    let mut slot: Option<Value<String>> = None;
    let taken = data.pop_bytes(&mut slot, 0, &Settings { bit_offset: 0, data: true });
    assert_eq!(taken, Ok(vec![]));
    assert_eq!(slot, Some(Value { v: String::new(), start: 8, end: 8 }));
}

#[test]
fn pop_bytes_fails_unaligned_or_short() {
    let settings = Settings { bit_offset: 0, data: true };
    let mut slot: Option<Value<String>> = None;
    let mut data = DataStream::new(vec![0; 4], 4);
    assert_eq!(data.pop_bytes(&mut slot, 1, &settings), Err(parse_error(4, "Unaligned")));
    let mut data = DataStream::new(vec![0; 4], 16);
    assert_eq!(data.pop_bytes(&mut slot, 3, &settings), Err(parse_error(16, "EOF")));
    assert_eq!(data.pos, 16);
    assert_eq!(data.pop_bytes(&mut slot, usize::MAX, &settings), Err(parse_error(16, "EOF")));
    assert_eq!(slot, None);
}

#[test]
fn pop_str_reads_up_to_the_zero_byte() {
    let mut data = DataStream::new(b"\x08a.txt\0rest".to_vec(), 8);
    let mut slot: Option<Value<String>> = None;
    assert_eq!(data.pop_str(&mut slot), Ok(()));
    assert_eq!(slot, Some(Value { v: "a.txt".to_owned(), start: 8, end: 56 }));
    assert_eq!(data.pos, 56);
}

#[test]
fn pop_str_decodes_utf8() {
    let mut data = DataStream::new(vec![0xc3, 0xa9, 0xe2, 0x82, 0xac, 0x00], 0);
    let mut slot: Option<Value<String>> = None;
    assert_eq!(data.pop_str(&mut slot), Ok(()));
    assert_eq!(slot, Some(Value { v: "\u{e9}\u{20ac}".to_owned(), start: 0, end: 48 }));
}

#[test]
fn pop_str_of_an_empty_name() {
    let mut data = DataStream::new(vec![0x00, 0x41], 0);
    let mut slot: Option<Value<String>> = None;
    assert_eq!(data.pop_str(&mut slot), Ok(()));
    assert_eq!(slot, Some(Value { v: String::new(), start: 0, end: 8 }));
    assert_eq!(data.pos, 8);
}

#[test]
fn pop_str_without_zero_byte_is_eof_at_the_end() {
    let mut data = DataStream::new(b"abc".to_vec(), 8);
    let mut slot: Option<Value<String>> = None;
    assert_eq!(data.pop_str(&mut slot), Err(parse_error(24, "EOF")));
    assert_eq!(data.pos, 24);
    assert_eq!(slot, None);
}

#[test]
fn pop_str_rejects_bytes_that_are_not_utf8() {
    let mut data = DataStream::new(vec![0x61, 0xff, 0x00, 0x62], 0);
    let mut slot: Option<Value<String>> = None;
    match data.pop_str(&mut slot) {
        Err(Error::Utf8(msg)) => assert_eq!(msg, "invalid utf-8 sequence of 1 bytes from index 1"),
        other => panic!("unexpected result: {:?}", other),
    }
    assert_eq!(slot, None);
    assert_eq!(data.pos, 24);
}

#[test]
fn pop_str_needs_a_byte_boundary() {
    let mut data = DataStream::new(b"ab\0".to_vec(), 1);
    let mut slot: Option<Value<String>> = None;
    assert_eq!(data.pop_str(&mut slot), Err(parse_error(1, "Unaligned")));
}

#[test]
fn record_text_keeps_or_reports() {
    let mut slot: Option<Value<String>> = None;
    assert_eq!(record_text(&mut slot, Ok("name".to_owned()), 80, 120), Ok(()));
    assert_eq!(slot, Some(Value { v: "name".to_owned(), start: 80, end: 120 }));
    assert_eq!(record_text(&mut slot, Err("bad".to_owned()), 0, 8), Err(Error::Utf8("bad".to_owned())));
    assert_eq!(slot, Some(Value { v: "name".to_owned(), start: 80, end: 120 }));
}

#[test]
fn parse_error_holds_the_position() {
    let data = DataStream::new(vec![0; 3], 11);
    assert_eq!(data.parse_error("Literal"), parse_error(11, "Literal"));
}

#[test]
fn decimal_digits() {
    for (n, expected) in [(0usize, "0"), (7, "7"), (10, "10"), (208, "208"), (65535, "65535"), (1234567890, "1234567890")] {
        let mut text = "n=".to_owned();
        push_decimal(&mut text, n);
        assert_eq!(text, format!("n={}", expected));
    }
    let mut text = String::new();
    push_decimal(&mut text, usize::MAX);
    assert_eq!(text, format!("{}", usize::MAX));
}

#[test]
fn digit_texts() {
    let all: Vec<&str> = (0u8..16).map(digit_text).collect();
    assert_eq!(all.concat(), "0123456789abcdef");
}

#[test]
fn binary_digits_most_significant_first() {
    let mut text = String::new();
    code_to_bin(&mut text, 0b1011, 4);
    assert_eq!(text, "1011");
    code_to_bin(&mut text, 0b1011, 6);
    assert_eq!(text, "1011001011");
    let mut text = String::new();
    code_to_bin(&mut text, 0b1011, 2);
    assert_eq!(text, "11");
    let mut text = String::new();
    code_to_bin(&mut text, 0xffff, 0);
    assert_eq!(text, "");
    let mut text = String::new();
    code_to_bin(&mut text, 0x8001, 18);
    assert_eq!(text, "001000000000000001");
}
