use deflate_parser::cursor::DataStream;
use deflate_parser::data::{
    CompressedStream, DeflateBlockExt, DeflateStream, GzipStream, Token, Value, ZlibStream,
};
use deflate_parser::error::{Error, ParseError};
use deflate_parser::extract::{extract_data, get_blocks, write_block, write_token, write_tokens};
use deflate_parser::stream::{parse_data_stream, parse_gzip, parse_zlib};
use deflate_parser::{parse, Settings, Window};

const KEEP: Settings = Settings { bit_offset: 0, data: true };

const HELLO: [u8; 26] = [
    0x1f, 0x8b, 0x08, 0x00, 0xd1, 0x9f, 0x38, 0x5c, 0x02, 0x03, 0xcb, 0x48, 0xcd, 0xc9, 0xc9, 0xe7, 0x02, 0x00, 0x20,
    0x30, 0x3a, 0x36, 0x06, 0x00, 0x00, 0x00,
];

const NAMED: [u8; 32] = [
    0x1f, 0x8b, 0x08, 0x08, 0x00, 0x00, 0x00, 0x00, 0x02, 0x03, 0x61, 0x2e, 0x74, 0x78, 0x74, 0x00, 0xcb, 0x48, 0xcd,
    0xc9, 0xc9, 0xe7, 0x02, 0x00, 0x20, 0x30, 0x3a, 0x36, 0x06, 0x00, 0x00, 0x00,
];

// "hello\n" as a zlib stream.
const ZLIB_HELLO: [u8; 14] = [0x78, 0xda, 0xcb, 0x48, 0xcd, 0xc9, 0xc9, 0xe7, 0x02, 0x00, 0x08, 0x4b, 0x02, 0x1f];

// Forty times "b" and a line feed as a zlib stream, compressed with a dictionary of thirty-two times "b".
const BBB: [u8; 15] = [0x78, 0xf9, 0xca, 0x40, 0x0c, 0x41, 0x23, 0x16, 0x70, 0x01, 0x00, 0x49, 0x7a, 0x0f, 0x5b];

const RAW_HELLO: [u8; 8] = [0xcb, 0x48, 0xcd, 0xc9, 0xc9, 0xe7, 0x02, 0x00];

fn parse_error(pos: usize, msg: &str) -> Error {
    Error::Parse(ParseError { pos, msg: msg.to_owned() })
}

fn plain(stream: &Option<CompressedStream>) -> Vec<u8> {
    let mut bytes = Vec::new();
    extract_data(&mut bytes, stream).expect("data");
    bytes
}

#[test]
fn bbb() -> Result<(), Error> {
    let mut expected = vec![b'b'; 40];
    expected.push(b'\n');
    let mut stream = Some(CompressedStream::Zlib(ZlibStream::default()));
    let mut window = Window::default();
    window.append_dictionary(&[b'b'; 32]);
    parse(&mut stream, BBB.to_vec(), &mut window, &KEEP)?;
    assert_eq!(plain(&stream), expected);
    assert_eq!(window.plain_pos(), 41);
    match &stream {
        Some(CompressedStream::Zlib(zlib)) => {
            assert_eq!(zlib.cmf, Some(Value { v: 0x78, start: 0, end: 8 }));
            assert_eq!(zlib.flg, Some(Value { v: 0xf9, start: 8, end: 16 }));
            // The four bytes ca 40 0c 41 are recorded least significant byte first.
            assert_eq!(zlib.dictid, Some(Value { v: 0x410c_40ca, start: 16, end: 24 }));
            assert_eq!(zlib.adler32, Some(Value { v: 0x5b0f_7a49, start: 88, end: 96 }));
            let blocks = &zlib.deflate.as_ref().expect("deflate").blocks;
            assert_eq!(blocks.len(), 1);
            assert_eq!((blocks[0].plain_start, blocks[0].plain_end), (Some(0), Some(41)));
            match &blocks[0].ext {
                Some(DeflateBlockExt::Fixed(fixed)) => match &fixed.tokens.as_ref().expect("tokens")[0].v {
                    Token::Window(t) => {
                        assert_eq!(t.plain_pos, 0);
                        assert!(t.distance_value as usize <= 32);
                        assert_eq!(t.hex, "62".repeat(t.length_value as usize));
                    }
                    _ => panic!("not a copy"),
                },
                _ => panic!("not a fixed block"),
            }
        }
        _ => panic!("not a zlib stream"),
    }
    Ok(())
}

#[test]
fn zlib_without_a_dictionary() {
    let mut zlib = ZlibStream::default();
    let mut data = DataStream::new(ZLIB_HELLO.to_vec(), 0);
    let mut window = Window::default();
    assert_eq!(parse_zlib(&mut zlib, &mut data, &mut window, &KEEP), Ok(()));
    assert_eq!(zlib.dictid, None);
    assert_eq!(zlib.adler32, Some(Value { v: 0x1f02_4b08, start: 80, end: 88 }));
    assert_eq!(data.pos, 112);
    assert_eq!(plain(&Some(CompressedStream::Zlib(zlib))), b"hello\n");
}

#[test]
fn zlib_cut_off_in_the_header() {
    let mut zlib = ZlibStream::default();
    let mut data = DataStream::new(BBB[..4].to_vec(), 0);
    let mut window = Window::default();
    assert_eq!(parse_zlib(&mut zlib, &mut data, &mut window, &KEEP), Err(parse_error(16, "EOF")));
    assert_eq!(zlib.flg.map(|v| v.v), Some(0xf9));
    assert!(zlib.dictid.is_none() && zlib.deflate.is_none());
}

#[test]
fn gzip_with_a_file_name() {
    let mut stream: Option<CompressedStream> = None;
    let mut window = Window::default();
    assert_eq!(parse(&mut stream, NAMED.to_vec(), &mut window, &KEEP), Ok(()));
    match &stream {
        Some(CompressedStream::Gzip(gzip)) => {
            assert_eq!(gzip.flags.map(|v| v.v), Some(8));
            assert_eq!(gzip.name, Some(Value { v: "a.txt".to_owned(), start: 80, end: 128 }));
            assert_eq!(gzip.len, Some(Value { v: 6, start: 224, end: 232 }));
        }
        _ => panic!("not a gzip stream"),
    }
    assert_eq!(plain(&stream), b"hello\n");
}

#[test]
fn gzip_name_that_is_not_utf8() {
    let mut bytes = NAMED.to_vec();
    bytes[11] = 0xff;
    let mut stream: Option<CompressedStream> = None;
    let mut window = Window::default();
    let result = parse(&mut stream, bytes, &mut window, &KEEP);
    assert_eq!(result, Err(Error::Utf8("invalid utf-8 sequence of 1 bytes from index 1".to_owned())));
    match &stream {
        Some(CompressedStream::Gzip(gzip)) => {
            assert_eq!(gzip.os.map(|v| v.v), Some(3));
            assert!(gzip.name.is_none() && gzip.deflate.is_none());
        }
        _ => panic!("not a gzip stream"),
    }
}

#[test]
fn no_gzip_magic_is_no_stream() {
    let mut stream: Option<CompressedStream> = None;
    let mut data = DataStream::new(ZLIB_HELLO.to_vec(), 0);
    let mut window = Window::default();
    assert_eq!(parse_gzip(&mut stream, &mut data, &mut window, &KEEP), Err(parse_error(0, "Stream type")));
    assert!(stream.is_none());
    assert_eq!(data.pos, 0);
}

#[test]
fn gzip_replaces_an_earlier_gzip_output() {
    let mut stream: Option<CompressedStream> = None;
    let mut window = Window::default();
    assert_eq!(parse(&mut stream, NAMED.to_vec(), &mut window, &KEEP), Ok(()));
    let mut window = Window::default();
    assert_eq!(parse(&mut stream, HELLO.to_vec(), &mut window, &KEEP), Ok(()));
    match &stream {
        Some(CompressedStream::Gzip(gzip)) => {
            assert!(gzip.name.is_none());
            assert_eq!(gzip.time.map(|v| v.v), Some(0x5c38_9fd1));
        }
        _ => panic!("not a gzip stream"),
    }
}

#[test]
fn raw_stream() {
    let mut stream = Some(CompressedStream::Raw(DeflateStream::default()));
    let mut window = Window::default();
    assert_eq!(parse(&mut stream, RAW_HELLO.to_vec(), &mut window, &KEEP), Ok(()));
    assert_eq!(plain(&stream), b"hello\n");
    assert_eq!(get_blocks(stream.as_ref().expect("stream")).map(|blocks| blocks.len()), Some(1));
}

#[test]
fn raw_stream_appends_to_the_blocks_it_is_given() {
    let mut stream = Some(CompressedStream::Raw(DeflateStream::default()));
    let mut window = Window::default();
    assert_eq!(parse(&mut stream, RAW_HELLO.to_vec(), &mut window, &KEEP), Ok(()));
    assert_eq!(parse(&mut stream, RAW_HELLO.to_vec(), &mut window, &KEEP), Ok(()));
    assert_eq!(plain(&stream), b"hello\nhello\n");
    match &stream {
        Some(CompressedStream::Raw(deflate)) => {
            assert_eq!(deflate.blocks.len(), 2);
            assert_eq!(deflate.blocks[1].plain_start, Some(6));
        }
        _ => panic!("not a raw stream"),
    }
}

#[test]
fn bit_offset_skips_a_wrapper() {
    let mut stream = Some(CompressedStream::Raw(DeflateStream::default()));
    let mut window = Window::default();
    let result = parse(&mut stream, HELLO[..18].to_vec(), &mut window, &Settings { bit_offset: 80, data: true });
    assert_eq!(result, Ok(()));
    assert_eq!(plain(&stream), b"hello\n");
}

#[test]
fn offset_behind_the_end_is_eof() {
    for offset in [209usize, 1000, usize::MAX] {
        let mut stream: Option<CompressedStream> = None;
        let mut window = Window::default();
        let result = parse(&mut stream, HELLO.to_vec(), &mut window, &Settings { bit_offset: offset, data: true });
        assert_eq!(result, Err(parse_error(offset, "EOF")));
        assert!(stream.is_none());
    }
    let mut stream = Some(CompressedStream::Raw(DeflateStream::default()));
    let mut window = Window::default();
    let result = parse(&mut stream, HELLO.to_vec(), &mut window, &Settings { bit_offset: 208, data: true });
    assert_eq!(result, Err(parse_error(208, "EOF")));
    assert_eq!(stream, Some(CompressedStream::Raw(DeflateStream::default())));
    let mut stream = Some(CompressedStream::Zlib(ZlibStream::default()));
    let result = parse(&mut stream, vec![], &mut window, &KEEP);
    assert_eq!(result, Err(parse_error(0, "EOF")));
    let mut stream = Some(CompressedStream::Dht(Box::default()));
    let result = parse(&mut stream, vec![], &mut window, &KEEP);
    assert_eq!(result, Err(parse_error(0, "EOF")));
}

#[test]
fn input_behind_the_stream_is_garbage() {
    let mut bytes = HELLO.to_vec();
    bytes.push(0);
    let mut stream: Option<CompressedStream> = None;
    let mut window = Window::default();
    let result = parse(&mut stream, bytes, &mut window, &KEEP);
    assert_eq!(result, Err(parse_error(208, "Garbage (end=216)")));
    assert_eq!(plain(&stream), b"hello\n");
    match &stream {
        Some(CompressedStream::Gzip(gzip)) => assert_eq!(gzip.len.map(|v| v.v), Some(6)),
        _ => panic!("not a gzip stream"),
    }
}

#[test]
fn cut_off_by_one_byte() {
    let mut stream: Option<CompressedStream> = None;
    let mut window = Window::default();
    let result = parse(&mut stream, HELLO[..25].to_vec(), &mut window, &KEEP);
    assert_eq!(result, Err(parse_error(176, "EOF")));
    match &stream {
        Some(CompressedStream::Gzip(gzip)) => {
            assert_eq!(gzip.checksum.map(|v| v.v), Some(0x363a_3020));
            assert!(gzip.len.is_none());
        }
        _ => panic!("not a gzip stream"),
    }
    assert_eq!(plain(&stream), b"hello\n");
    let mut stream = Some(CompressedStream::Raw(DeflateStream::default()));
    let mut window = Window::default();
    let result = parse(&mut stream, RAW_HELLO[..7].to_vec(), &mut window, &KEEP);
    assert_eq!(result, Err(parse_error(56, "EOF")));
    assert_eq!(plain(&stream), b"hello\n");
}

#[test]
fn parse_data_stream_takes_a_cursor() {
    let mut stream: Option<CompressedStream> = None;
    let mut window = Window::default();
    let data = DataStream::new(HELLO.to_vec(), 0);
    assert_eq!(parse_data_stream(&mut stream, data, &mut window, &KEEP), Ok(()));
    assert!(matches!(stream, Some(CompressedStream::Gzip(_))));
}

#[test]
fn code_tables_have_no_blocks() {
    let tables = CompressedStream::Dht(Box::default());
    assert!(get_blocks(&tables).is_none());
    let gzip = CompressedStream::Gzip(Box::new(GzipStream {
        magic: Value { v: 0x8b1f, start: 0, end: 8 },
        method: None,
        flags: None,
        time: None,
        xflags: None,
        os: None,
        name: None,
        deflate: None,
        checksum: None,
        len: None,
    }));
    assert!(get_blocks(&gzip).is_none());
    assert_eq!(plain(&Some(gzip)), Vec::<u8>::new());
    assert_eq!(plain(&None), Vec::<u8>::new());
}

#[test]
fn extracting_appends_to_the_buffer() {
    let mut stream: Option<CompressedStream> = None;
    let mut window = Window::default();
    assert_eq!(parse(&mut stream, HELLO.to_vec(), &mut window, &KEEP), Ok(()));
    let mut bytes = b">> ".to_vec();
    assert_eq!(extract_data(&mut bytes, &stream), Ok(()));
    assert_eq!(bytes, b">> hello\n");
}

#[test]
fn without_capture_nothing_can_be_extracted() {
    let mut stream: Option<CompressedStream> = None;
    let mut window = Window::default();
    assert_eq!(parse(&mut stream, HELLO.to_vec(), &mut window, &Settings { bit_offset: 0, data: false }), Ok(()));
    assert_eq!(window.plain_pos(), 6);
    assert_eq!(plain(&stream), Vec::<u8>::new());
}

#[test]
fn text_that_is_no_hexadecimal_stops_the_extraction() {
    let mut stream: Option<CompressedStream> = None;
    let mut window = Window::default();
    assert_eq!(parse(&mut stream, HELLO.to_vec(), &mut window, &KEEP), Ok(()));
    let mut bad_at = 0;
    if let Some(CompressedStream::Gzip(gzip)) = &mut stream {
        if let Some(DeflateBlockExt::Fixed(fixed)) = &mut gzip.deflate.as_mut().expect("deflate").blocks[0].ext {
            let tokens = fixed.tokens.as_mut().expect("tokens");
            if let Token::Literal(t) = &mut tokens[2].v {
                t.hex = "6x".to_owned();
            }
            if let Token::Literal(t) = &mut tokens[1].v {
                t.hex = "4A4b".to_owned();
            }
            bad_at = tokens[2].start;
        }
    }
    let mut bytes = Vec::new();
    assert_eq!(extract_data(&mut bytes, &stream), Err(parse_error(bad_at, "Hex")));
    assert_eq!(bytes, b"hJK");
}

#[test]
fn tokens_and_blocks_one_by_one() {
    let mut stream: Option<CompressedStream> = None;
    let mut window = Window::default();
    assert_eq!(parse(&mut stream, HELLO.to_vec(), &mut window, &KEEP), Ok(()));
    let stream = stream.expect("stream");
    let blocks = get_blocks(&stream).expect("blocks");
    let mut bytes = Vec::new();
    assert_eq!(write_block(&mut bytes, &blocks[0]), Ok(()));
    assert_eq!(bytes, b"hello\n");
    match &blocks[0].ext {
        Some(DeflateBlockExt::Fixed(fixed)) => {
            let mut bytes = Vec::new();
            assert_eq!(write_tokens(&mut bytes, &fixed.tokens), Ok(()));
            assert_eq!(bytes, b"hello\n");
            let tokens = fixed.tokens.as_ref().expect("tokens");
            let mut bytes = Vec::new();
            assert_eq!(write_token(&mut bytes, &tokens[4]), Ok(()));
            assert_eq!(bytes, b"o");
            assert_eq!(write_token(&mut bytes, &tokens[6]), Ok(()));
            assert_eq!(bytes, b"o");
            let mut odd = tokens[0].clone();
            if let Token::Literal(t) = &mut odd.v {
                t.hex = "686".to_owned();
            }
            assert_eq!(write_token(&mut bytes, &odd), Err(parse_error(83, "Hex")));
            assert_eq!(write_tokens(&mut bytes, &None), Ok(()));
            assert_eq!(bytes, b"o");
        }
        _ => panic!("not a fixed block"),
    }
}
