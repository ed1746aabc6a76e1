//! The framings of a DEFLATE stream, gzip and zlib, and the entry point
//! that parses a buffer as the kind of stream that the caller chose.
use crate::cursor::{peek_le_at, pop_str_at, DataStream};
use crate::data::{
    opt_view, CompressedStream, CompressedStreamView, DeflateStream, DeflateStreamView, GzipStream, GzipStreamView,
    Value, ZlibStream, ZlibStreamView,
};
use crate::deflate::{deflate_at, parse_deflate};
use crate::dht::{dht_at, parse_dht};
use crate::error::{failure, lift, Error, ErrorView};
use crate::step::Step;
use crate::text::{dec_digits, push_decimal};
use crate::tokens::roomy;
use crate::window::{Window, WindowView};
use crate::Settings;
use vstd::prelude::*;

verus! {

/// The first two bytes of a gzip stream, read as a little-endian integer.
pub const GZIP_MAGIC: u16 = 0x8b1f;

/// The flag bit of a gzip header that announces a file name.
pub const GZIP_FNAME: u8 = 0x08;

/// The flag bit of a zlib header that announces a dictionary identifier.
pub const ZLIB_FDICT: u8 = 0x20;

/// The record of a DEFLATE stream of which nothing has been read.
pub open spec fn empty_deflate() -> DeflateStreamView {
    DeflateStreamView { blocks: Seq::empty() }
}

/// What reading the end of a zlib stream gives, after its header: the
/// DEFLATE stream and the checksum.
pub open spec fn zlib_rest(out: ZlibStreamView, bytes: Seq<u8>, pos: int, win: WindowView, keep: bool) -> Step<
    ZlibStreamView,
    (),
> {
    let deflate = deflate_at(empty_deflate(), bytes, pos, win, keep);
    let out = ZlibStreamView { deflate: Some(deflate.out), ..out };
    match deflate.res {
        Err(e) => Step { out, pos: deflate.pos, win: deflate.win, res: Err(e) },
        Ok(()) => match peek_le_at::<u32>(bytes, deflate.pos) {
            Err(e) => Step { out, pos: deflate.pos, win: deflate.win, res: Err(e) },
            Ok(adler32) => Step {
                out: ZlibStreamView { adler32: Some(adler32), ..out },
                pos: deflate.pos + 32,
                win: deflate.win,
                res: Ok(()),
            },
        },
    }
}

/// What reading a zlib stream gives: two header bytes, a dictionary
/// identifier if the second announces one, the DEFLATE stream, and the
/// checksum. The integers are read least significant byte first.
pub open spec fn zlib_at(out: ZlibStreamView, bytes: Seq<u8>, pos: int, win: WindowView, keep: bool) -> Step<
    ZlibStreamView,
    (),
> {
    match peek_le_at::<u8>(bytes, pos) {
        Err(e) => Step { out, pos, win, res: Err(e) },
        Ok(cmf) => {
            let out = ZlibStreamView { cmf: Some(cmf), ..out };
            match peek_le_at::<u8>(bytes, pos + 8) {
                Err(e) => Step { out, pos: pos + 8, win, res: Err(e) },
                Ok(flg) => {
                    let out = ZlibStreamView { flg: Some(flg), ..out };
                    if flg.v & ZLIB_FDICT != 0 {
                        match peek_le_at::<u32>(bytes, pos + 16) {
                            Err(e) => Step { out, pos: pos + 16, win, res: Err(e) },
                            Ok(dictid) => zlib_rest(
                                ZlibStreamView { dictid: Some(dictid), ..out },
                                bytes,
                                pos + 48,
                                win,
                                keep,
                            ),
                        }
                    } else {
                        zlib_rest(out, bytes, pos + 16, win, keep)
                    }
                },
            }
        },
    }
}

/// Reads a zlib stream into a record.
pub fn parse_zlib(zlib: &mut ZlibStream, data: &mut DataStream, window: &mut Window, settings: &Settings) -> (r: Result<
    (),
    Error,
>)
    requires
        old(window).wf(),
        roomy(*old(data), old(window)@.plain_pos),
    ensures
        final(window).wf(),
        final(data).wf(),
        ({
            let step = zlib_at(old(zlib)@, old(data).bytes@, old(data).pos as int, old(window)@, settings.data);
            &&& final(zlib)@ == step.out
            &&& final(data).moved(*old(data), step.pos)
            &&& final(window)@ == step.win
            &&& lift(r) == step.res
        }),
{
    match data.pop_le::<u8>(&mut zlib.cmf) {
        Err(e) => {
            return Err(e);
        },
        Ok(_) => {},
    }
    let flg = match data.pop_le::<u8>(&mut zlib.flg) {
        Err(e) => {
            return Err(e);
        },
        Ok(v) => v,
    };
    if flg.v & ZLIB_FDICT != 0 {
        match data.pop_le::<u32>(&mut zlib.dictid) {
            Err(e) => {
                return Err(e);
            },
            Ok(_) => {},
        }
    }
    let mut deflate = DeflateStream::default();
    let r = parse_deflate(&mut deflate, data, window, settings);
    zlib.deflate = Some(deflate);
    match r {
        Err(e) => {
            return Err(e);
        },
        Ok(()) => {},
    }
    match data.pop_le::<u32>(&mut zlib.adler32) {
        Err(e) => Err(e),
        Ok(_) => Ok(()),
    }
}

/// The record of a gzip stream of which the magic number was read.
pub open spec fn gzip_opened(magic: Value<u16>) -> GzipStreamView {
    GzipStreamView {
        magic,
        method: None,
        flags: None,
        time: None,
        xflags: None,
        os: None,
        name: None,
        deflate: None,
        checksum: None,
        len: None,
    }
}

/// What reading the end of a gzip stream gives, after its header: the
/// DEFLATE stream, the checksum and the length of the plaintext.
pub open spec fn gzip_rest(out: GzipStreamView, bytes: Seq<u8>, pos: int, win: WindowView, keep: bool) -> Step<
    GzipStreamView,
    (),
> {
    let deflate = deflate_at(empty_deflate(), bytes, pos, win, keep);
    let out = GzipStreamView { deflate: Some(deflate.out), ..out };
    match deflate.res {
        Err(e) => Step { out, pos: deflate.pos, win: deflate.win, res: Err(e) },
        Ok(()) => match peek_le_at::<u32>(bytes, deflate.pos) {
            Err(e) => Step { out, pos: deflate.pos, win: deflate.win, res: Err(e) },
            Ok(checksum) => {
                let out = GzipStreamView { checksum: Some(checksum), ..out };
                match peek_le_at::<u32>(bytes, deflate.pos + 32) {
                    Err(e) => Step { out, pos: deflate.pos + 32, win: deflate.win, res: Err(e) },
                    Ok(len) => Step {
                        out: GzipStreamView { len: Some(len), ..out },
                        pos: deflate.pos + 64,
                        win: deflate.win,
                        res: Ok(()),
                    },
                }
            },
        },
    }
}

/// What reading a file name gives where the flags announce one, and then
/// the end of the stream.
pub open spec fn gzip_named(out: GzipStreamView, flags: u8, bytes: Seq<u8>, pos: int, win: WindowView, keep: bool) -> Step<
    GzipStreamView,
    (),
> {
    if flags & GZIP_FNAME != 0 {
        let name = pop_str_at(out.name, bytes, pos);
        let out = GzipStreamView { name: name.out, ..out };
        match name.res {
            Err(e) => Step { out, pos: name.pos, win, res: Err(e) },
            Ok(()) => gzip_rest(out, bytes, name.pos, win, keep),
        }
    } else {
        gzip_rest(out, bytes, pos, win, keep)
    }
}

/// What reading a gzip stream gives, after its magic number: the method,
/// the flags, the time, the extra flags and the system, a file name if the
/// flags announce one, and the end of the stream.
pub open spec fn gzip_body(out: GzipStreamView, bytes: Seq<u8>, pos: int, win: WindowView, keep: bool) -> Step<
    GzipStreamView,
    (),
> {
    match peek_le_at::<u8>(bytes, pos) {
        Err(e) => Step { out, pos, win, res: Err(e) },
        Ok(method) => {
            let out = GzipStreamView { method: Some(method), ..out };
            match peek_le_at::<u8>(bytes, pos + 8) {
                Err(e) => Step { out, pos: pos + 8, win, res: Err(e) },
                Ok(flags) => {
                    let out = GzipStreamView { flags: Some(flags), ..out };
                    match peek_le_at::<u32>(bytes, pos + 16) {
                        Err(e) => Step { out, pos: pos + 16, win, res: Err(e) },
                        Ok(time) => {
                            let out = GzipStreamView { time: Some(time), ..out };
                            match peek_le_at::<u8>(bytes, pos + 48) {
                                Err(e) => Step { out, pos: pos + 48, win, res: Err(e) },
                                Ok(xflags) => {
                                    let out = GzipStreamView { xflags: Some(xflags), ..out };
                                    match peek_le_at::<u8>(bytes, pos + 56) {
                                        Err(e) => Step { out, pos: pos + 56, win, res: Err(e) },
                                        Ok(os) => gzip_named(
                                            GzipStreamView { os: Some(os), ..out },
                                            flags.v,
                                            bytes,
                                            pos + 64,
                                            win,
                                            keep,
                                        ),
                                    }
                                },
                            }
                        },
                    }
                },
            }
        },
    }
}

/// What reading a gzip stream gives. A stream that does not start with the
/// magic number is a failure that leaves the output as it was.
pub open spec fn gzip_at(out: Option<CompressedStreamView>, bytes: Seq<u8>, pos: int, win: WindowView, keep: bool) -> Step<
    Option<CompressedStreamView>,
    (),
> {
    match peek_le_at::<u16>(bytes, pos) {
        Err(e) => Step { out, pos, win, res: Err(e) },
        Ok(magic) => {
            if magic.v == GZIP_MAGIC {
                let body = gzip_body(gzip_opened(magic), bytes, pos + 16, win, keep);
                Step { out: Some(CompressedStreamView::Gzip(body.out)), pos: body.pos, win: body.win, res: body.res }
            } else {
                Step { out, pos, win, res: Err(failure(pos, "Stream type"@)) }
            }
        },
    }
}

/// Reads a gzip stream, after its magic number, into a record.
fn parse_gzip_body(gzip: &mut GzipStream, data: &mut DataStream, window: &mut Window, settings: &Settings) -> (r: Result<
    (),
    Error,
>)
    requires
        old(window).wf(),
        roomy(*old(data), old(window)@.plain_pos),
    ensures
        final(window).wf(),
        final(data).wf(),
        ({
            let step = gzip_body(old(gzip)@, old(data).bytes@, old(data).pos as int, old(window)@, settings.data);
            &&& final(gzip)@ == step.out
            &&& final(data).moved(*old(data), step.pos)
            &&& final(window)@ == step.win
            &&& lift(r) == step.res
        }),
{
    match data.pop_le::<u8>(&mut gzip.method) {
        Err(e) => {
            return Err(e);
        },
        Ok(_) => {},
    }
    let flags = match data.pop_le::<u8>(&mut gzip.flags) {
        Err(e) => {
            return Err(e);
        },
        Ok(v) => v.v,
    };
    match data.pop_le::<u32>(&mut gzip.time) {
        Err(e) => {
            return Err(e);
        },
        Ok(_) => {},
    }
    match data.pop_le::<u8>(&mut gzip.xflags) {
        Err(e) => {
            return Err(e);
        },
        Ok(_) => {},
    }
    match data.pop_le::<u8>(&mut gzip.os) {
        Err(e) => {
            return Err(e);
        },
        Ok(_) => {},
    }
    if flags & GZIP_FNAME != 0 {
        match data.pop_str(&mut gzip.name) {
            Err(e) => {
                return Err(e);
            },
            Ok(()) => {},
        }
    }
    let mut deflate = DeflateStream::default();
    let r = parse_deflate(&mut deflate, data, window, settings);
    gzip.deflate = Some(deflate);
    match r {
        Err(e) => {
            return Err(e);
        },
        Ok(()) => {},
    }
    match data.pop_le::<u32>(&mut gzip.checksum) {
        Err(e) => {
            return Err(e);
        },
        Ok(_) => {},
    }
    match data.pop_le::<u32>(&mut gzip.len) {
        Err(e) => Err(e),
        Ok(_) => Ok(()),
    }
}

/// Reads a gzip stream into a slot.
pub fn parse_gzip(out: &mut Option<CompressedStream>, data: &mut DataStream, window: &mut Window, settings: &Settings) -> (r:
    Result<(), Error>)
    requires
        old(window).wf(),
        roomy(*old(data), old(window)@.plain_pos),
    ensures
        final(window).wf(),
        final(data).wf(),
        ({
            let step = gzip_at(
                opt_view(*old(out)),
                old(data).bytes@,
                old(data).pos as int,
                old(window)@,
                settings.data,
            );
            &&& opt_view(*final(out)) == step.out
            &&& final(data).moved(*old(data), step.pos)
            &&& final(window)@ == step.win
            &&& lift(r) == step.res
        }),
{
    let magic = match data.peek_le::<u16>() {
        Err(e) => {
            return Err(e);
        },
        Ok(v) => v,
    };
    if magic.v == GZIP_MAGIC {
        match data.drop(16) {
            Err(e) => {
                return Err(e);
            },
            Ok(()) => {},
        }
        let mut gzip = GzipStream {
            magic,
            method: None,
            flags: None,
            time: None,
            xflags: None,
            os: None,
            name: None,
            deflate: None,
            checksum: None,
            len: None,
        };
        let r = parse_gzip_body(&mut gzip, data, window, settings);
        *out = Some(CompressedStream::Gzip(Box::new(gzip)));
        r
    } else {
        Err(data.parse_error("Stream type"))
    }
}

/// What parsing a stream of the kind that the output announces gives.
/// Without an announcement, or with that of a gzip stream, the stream is
/// read as gzip.
pub open spec fn framed_at(out: Option<CompressedStreamView>, bytes: Seq<u8>, pos: int, win: WindowView, keep: bool) -> Step<
    Option<CompressedStreamView>,
    (),
> {
    match out {
        Some(CompressedStreamView::Raw(deflate)) => {
            let step = deflate_at(deflate, bytes, pos, win, keep);
            Step { out: Some(CompressedStreamView::Raw(step.out)), pos: step.pos, win: step.win, res: step.res }
        },
        Some(CompressedStreamView::Dht(dht)) => {
            let step = dht_at(dht, bytes, pos);
            Step { out: Some(CompressedStreamView::Dht(step.out)), pos: step.pos, win, res: step.res }
        },
        Some(CompressedStreamView::Zlib(zlib)) => {
            let step = zlib_at(zlib, bytes, pos, win, keep);
            Step { out: Some(CompressedStreamView::Zlib(step.out)), pos: step.pos, win: step.win, res: step.res }
        },
        _ => gzip_at(out, bytes, pos, win, keep),
    }
}

/// The message for input that is left over behind a stream.
pub open spec fn garbage(bytes: Seq<u8>) -> Seq<char> {
    "Garbage (end="@ + dec_digits(8 * bytes.len()) + ")"@
}

/// What parsing a whole buffer from a position on gives. Input that is
/// left over after the stream is a failure.
pub open spec fn stream_at(out: Option<CompressedStreamView>, bytes: Seq<u8>, pos: int, win: WindowView, keep: bool) -> Step<
    Option<CompressedStreamView>,
    (),
> {
    let step = framed_at(out, bytes, pos, win, keep);
    if step.res is Ok && step.pos != 8 * bytes.len() {
        Step { res: Err(failure(step.pos, garbage(bytes))), ..step }
    } else {
        step
    }
}

/// Parses the whole input of a cursor as the kind of stream that the
/// output announces.
pub fn parse_data_stream(out: &mut Option<CompressedStream>, data: DataStream, window: &mut Window, settings: &Settings) -> (r:
    Result<(), Error>)
    requires
        old(window).wf(),
        roomy(data, old(window)@.plain_pos),
    ensures
        final(window).wf(),
        ({
            let step = stream_at(opt_view(*old(out)), data.bytes@, data.pos as int, old(window)@, settings.data);
            &&& opt_view(*final(out)) == step.out
            &&& final(window)@ == step.win
            &&& lift(r) == step.res
        }),
{
    let mut data = data;
    let r = match out {
        Some(CompressedStream::Raw(deflate)) => parse_deflate(deflate, &mut data, window, settings),
        Some(CompressedStream::Dht(dht)) => parse_dht(dht, &mut data),
        Some(CompressedStream::Zlib(zlib)) => parse_zlib(zlib, &mut data, window, settings),
        Some(CompressedStream::Gzip(_)) => parse_gzip(out, &mut data, window, settings),
        None => parse_gzip(out, &mut data, window, settings),
    };
    match r {
        Err(e) => {
            return Err(e);
        },
        Ok(()) => {},
    }
    if data.pos == data.end {
        Ok(())
    } else {
        let mut msg = "Garbage (end=".to_owned();
        push_decimal(&mut msg, data.end);
        msg.append(")");
        Err(data.parse_error(msg.as_str()))
    }
}

/// Parses a buffer as the kind of stream that the output announces,
/// starting at the bit offset of the settings. The output holds what was
/// read, also where the parse fails.
pub fn parse(out: &mut Option<CompressedStream>, bytes: Vec<u8>, window: &mut Window, settings: &Settings) -> (r: Result<
    (),
    Error,
>)
    requires
        old(window).wf(),
        old(window)@.plain_pos + 2064 * bytes.len() + 16 <= usize::MAX,
    ensures
        final(window).wf(),
        ({
            let step = stream_at(
                opt_view(*old(out)),
                bytes@,
                settings.bit_offset as int,
                old(window)@,
                settings.data,
            );
            &&& opt_view(*final(out)) == step.out
            &&& final(window)@ == step.win
            &&& lift(r) == step.res
        }),
{
    let data = DataStream::new(bytes, settings.bit_offset);
    parse_data_stream(out, data, window, settings)
}

/// A parse is a function of the buffer, the settings, and the output and
/// window that it starts from: two parses of the same give the same output,
/// the same window and the same result.
pub proof fn lemma_parse_is_a_function(
    out: Option<CompressedStreamView>,
    bytes: Seq<u8>,
    pos: int,
    win: WindowView,
    keep: bool,
    first: Step<Option<CompressedStreamView>, ()>,
    second: Step<Option<CompressedStreamView>, ()>,
)
    requires
        first == stream_at(out, bytes, pos, win, keep),
        second == stream_at(out, bytes, pos, win, keep),
    ensures
        first.out == second.out,
        first.win == second.win,
        first.res == second.res,
{
}

/// A parse that starts at or behind the end of the buffer fails there
/// with `EOF`, and leaves output and window as they were. An empty buffer
/// is the case of position zero.
pub proof fn lemma_nothing_to_read(out: Option<CompressedStreamView>, bytes: Seq<u8>, pos: int, win: WindowView, keep: bool)
    requires
        pos >= 8 * bytes.len(),
    ensures
        stream_at(out, bytes, pos, win, keep) == (Step { out, pos, win, res: Err::<(), ErrorView>(crate::cursor::eof(pos)) }),
{
    reveal(crate::deflate::block_at);
    reveal_with_fuel(crate::deflate::deflate_from, 2);
    match out {
        Some(CompressedStreamView::Raw(deflate)) => {
            let step = deflate_at(deflate, bytes, pos, win, keep);
            assert(step.out.blocks == deflate.blocks);
        },
        _ => {},
    }
}

/// Input that is left over behind a stream is a failure at the position
/// where the stream ended, with a message that holds the number of bits of
/// the buffer.
pub proof fn lemma_garbage(out: Option<CompressedStreamView>, bytes: Seq<u8>, pos: int, win: WindowView, keep: bool)
    requires
        framed_at(out, bytes, pos, win, keep).res is Ok,
        framed_at(out, bytes, pos, win, keep).pos != 8 * bytes.len(),
    ensures
        stream_at(out, bytes, pos, win, keep).res == Err::<(), ErrorView>(
            failure(
                framed_at(out, bytes, pos, win, keep).pos,
                "Garbage (end="@ + dec_digits(8 * bytes.len()) + ")"@,
            ),
        ),
        stream_at(out, bytes, pos, win, keep).out == framed_at(out, bytes, pos, win, keep).out,
{
}

/// A gzip stream that was read to its end has the magic number `0x8b1f`.
pub proof fn lemma_gzip_magic(out: Option<CompressedStreamView>, bytes: Seq<u8>, pos: int, win: WindowView, keep: bool)
    requires
        gzip_at(out, bytes, pos, win, keep).res is Ok,
    ensures
        gzip_at(out, bytes, pos, win, keep).out matches Some(CompressedStreamView::Gzip(gzip)) && gzip.magic.v
            == GZIP_MAGIC,
{
}

} // verus!
