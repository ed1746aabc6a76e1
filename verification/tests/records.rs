use deflate_parser::data::{CompressedStream, DeflateStream, DynamicHuffmanTable, ZlibStream};
use deflate_parser::error::{parse_failure, Error, ParseError};
use deflate_parser::word::Unsigned;

#[test]
fn parse_error_becomes_an_error() {
    let error = Error::from(ParseError { pos: 9, msg: "EOF".to_owned() });
    assert_eq!(error, Error::Parse(ParseError { pos: 9, msg: "EOF".to_owned() }));
    assert_eq!(parse_failure(3, "Literal".to_owned()), Error::Parse(ParseError { pos: 3, msg: "Literal".to_owned() }));
}

#[test]
fn records_start_empty() {
    assert!(DeflateStream::default().blocks.is_empty());
    let zlib = ZlibStream::default();
    assert!(zlib.cmf.is_none() && zlib.flg.is_none() && zlib.dictid.is_none());
    assert!(zlib.deflate.is_none() && zlib.adler32.is_none());
    let dht = DynamicHuffmanTable::default();
    assert!(dht.hlit.is_none() && dht.hdist.is_none() && dht.hclen.is_none() && dht.hclens.is_none());
    assert!(dht.hclens_codes.is_none() && dht.hclens_tree.is_none() && dht.hlits.is_none());
    assert!(dht.hlits_codes.is_none() && dht.hlits_tree.is_none());
    assert!(dht.hdists.is_none() && dht.hdists_codes.is_none() && dht.hdists_tree.is_none());
    assert_eq!(CompressedStream::Dht(Box::default()), CompressedStream::Dht(Box::new(dht)));
}

#[test]
fn integers_widen_and_narrow() {
    assert_eq!((<u8 as Unsigned>::bytes(), <u16 as Unsigned>::bytes(), <u32 as Unsigned>::bytes()), (1, 2, 4));
    assert_eq!((200u8.widen(), 60_000u16.widen(), 4_000_000_000u32.widen()), (200, 60_000, 4_000_000_000));
    assert_eq!(<u8 as Unsigned>::narrow(255), 255u8);
    assert_eq!(<u16 as Unsigned>::narrow(65_535), 65_535u16);
    assert_eq!(<u32 as Unsigned>::narrow(u32::MAX), u32::MAX);
}
