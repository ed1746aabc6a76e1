//! The blocks of a DEFLATE stream: stored, with fixed codes, and with
//! dynamic codes.
use crate::cursor::{aligned, eof, in_reach, peek_bits_at, peek_le_at, DataStream};
use crate::data::{
    views, DeflateBlock, DeflateBlockDynamic, DeflateBlockDynamicView, DeflateBlockExt, DeflateBlockExtView,
    DeflateBlockFixed, DeflateBlockFixedView, DeflateBlockHeader, DeflateBlockStored, DeflateBlockStoredView,
    DeflateBlockView, DeflateStream, DeflateStreamView, DynamicHuffmanTable, DynamicHuffmanTableView, HuffmanTree,
    Value, ValueView,
};
use crate::dht::{alphabet_u16, alphabet_u8, count_up_u16, count_up_u8, dht_at, lemma_dht_stays, parse_dht};
use crate::error::{failure, lift, Error, ErrorView};
use crate::huffman::{build_huffman_codes, build_huffman_tree, build_tree, huffman_codes};
use crate::step::{Read, Step};
use crate::text::{dec_digits, hex_chars, push_decimal};
use crate::tokens::{appended, lemma_tokens_stay, parse_tokens, roomy, tokens_at};
use crate::window::{Window, WindowView};
use crate::Settings;
use vstd::prelude::*;

verus! {

/// What reading a block header at a position gives: the last-block flag of
/// one bit and the block type of two.
pub open spec fn header_at(bytes: Seq<u8>, pos: int) -> Read<DeflateBlockHeader, ()> {
    match peek_bits_at::<u8>(bytes, pos, 1) {
        Err(e) => Read { out: DeflateBlockHeader { bfinal: None, btype: None }, pos, res: Err(e) },
        Ok(bfinal) => match peek_bits_at::<u8>(bytes, pos + 1, 2) {
            Err(e) => Read { out: DeflateBlockHeader { bfinal: Some(bfinal), btype: None }, pos: pos + 1, res: Err(e) },
            Ok(btype) => Read {
                out: DeflateBlockHeader { bfinal: Some(bfinal), btype: Some(btype) },
                pos: pos + 3,
                res: Ok(()),
            },
        },
    }
}

/// Reads a block header into a slot.
pub fn parse_deflate_block_header(out: &mut Option<DeflateBlockHeader>, data: &mut DataStream) -> (r: Result<(), Error>)
    requires
        old(data).wf(),
    ensures
        final(data).wf(),
        ({
            let step = header_at(old(data).bytes@, old(data).pos as int);
            &&& *final(out) == Some(step.out)
            &&& final(data).moved(*old(data), step.pos)
            &&& lift(r) == step.res
        }),
{
    let mut header = DeflateBlockHeader { bfinal: None, btype: None };
    match data.pop_bits::<u8>(&mut header.bfinal, 1) {
        Err(e) => {
            *out = Some(header);
            return Err(e);
        },
        Ok(_) => {},
    }
    let r = data.pop_bits::<u8>(&mut header.btype, 2);
    *out = Some(header);
    match r {
        Err(e) => Err(e),
        Ok(_) => Ok(()),
    }
}

/// What reading a stored block gives, after its header: from the next byte
/// boundary on, the length, a second 16-bit field, which is recorded as it
/// stands, and as many bytes of plaintext as the length says.
pub open spec fn stored_at(out: DeflateBlockStoredView, bytes: Seq<u8>, pos: int, win: WindowView, keep: bool) -> Step<
    DeflateBlockStoredView,
    (),
> {
    let at = aligned(pos);
    if at > 8 * bytes.len() {
        Step { out, pos, win, res: Err(eof(pos)) }
    } else {
        match peek_le_at::<u16>(bytes, at) {
            Err(e) => Step { out, pos: at, win, res: Err(e) },
            Ok(len) => {
                let out = DeflateBlockStoredView { len: Some(len), ..out };
                match peek_le_at::<u16>(bytes, at + 16) {
                    Err(e) => Step { out, pos: at + 16, win, res: Err(e) },
                    Ok(nlen) => {
                        let out = DeflateBlockStoredView { nlen: Some(nlen), ..out };
                        let from = at + 32;
                        if !in_reach(bytes, from, 8 * len.v) {
                            Step { out, pos: from, win, res: Err(eof(from)) }
                        } else {
                            let payload = bytes.subrange(from / 8, from / 8 + len.v);
                            Step {
                                out: DeflateBlockStoredView {
                                    data: if keep {
                                        Some(
                                            ValueView {
                                                v: hex_chars(payload),
                                                start: from as usize,
                                                end: (from + 8 * len.v) as usize,
                                            },
                                        )
                                    } else {
                                        out.data
                                    },
                                    ..out
                                },
                                pos: from + 8 * len.v,
                                win: appended(win, payload),
                                res: Ok(()),
                            }
                        }
                    },
                }
            },
        }
    }
}

/// Reads a stored block, after its header, into a record.
pub fn parse_deflate_block_stored(
    out: &mut DeflateBlockStored,
    data: &mut DataStream,
    window: &mut Window,
    settings: &Settings,
) -> (r: Result<(), Error>)
    requires
        old(window).wf(),
        roomy(*old(data), old(window)@.plain_pos),
    ensures
        final(window).wf(),
        roomy(*final(data), final(window)@.plain_pos),
        ({
            let step = stored_at(old(out)@, old(data).bytes@, old(data).pos as int, old(window)@, settings.data);
            &&& final(out)@ == step.out
            &&& final(data).moved(*old(data), step.pos)
            &&& final(window)@ == step.win
            &&& lift(r) == step.res
        }),
{
    match data.align() {
        Err(e) => {
            return Err(e);
        },
        Ok(()) => {},
    }
    let len = match data.pop_le::<u16>(&mut out.len) {
        Err(e) => {
            return Err(e);
        },
        Ok(v) => v,
    };
    match data.pop_le::<u16>(&mut out.nlen) {
        Err(e) => {
            return Err(e);
        },
        Ok(_) => {},
    }
    let payload = match data.pop_bytes(&mut out.data, len.v as usize, settings) {
        Err(e) => {
            return Err(e);
        },
        Ok(v) => v,
    };
    window.append_bytes(payload.as_slice());
    Ok(())
}

/// The code lengths of the fixed literal and length codes, as if read at a position.
pub open spec fn fixed_lens(pos: usize) -> Seq<Value<u8>> {
    Seq::new(
        288,
        |i: int|
            Value {
                v: if i <= 143 {
                    8u8
                } else if i <= 255 {
                    9u8
                } else if i <= 279 {
                    7u8
                } else {
                    8u8
                },
                start: pos,
                end: pos,
            },
    )
}

/// The code lengths of the fixed distance codes, as if read at a position.
pub open spec fn fixed_dist_lens(pos: usize) -> Seq<Value<u8>> {
    Seq::new(32, |i: int| Value { v: 5u8, start: pos, end: pos })
}

/// What reading a block with fixed codes gives, after its header. The two
/// trees are built from the fixed code lengths, then the tokens are read.
pub open spec fn fixed_at(out: DeflateBlockFixedView, bytes: Seq<u8>, pos: int, win: WindowView, keep: bool) -> Step<
    DeflateBlockFixedView,
    (),
> {
    let lit = build_tree(huffman_codes(count_up_u16(286), fixed_lens(pos as usize)));
    match lit.res {
        Err(e) => Step { out, pos, win, res: Err(e) },
        Ok(()) => {
            let dist = build_tree(huffman_codes(count_up_u8(32), fixed_dist_lens(pos as usize)));
            match dist.res {
                Err(e) => Step { out, pos, win, res: Err(e) },
                Ok(()) => {
                    let tokens = tokens_at(out.tokens, bytes, pos, win, lit.tree, dist.tree, keep);
                    Step {
                        out: DeflateBlockFixedView { tokens: tokens.out },
                        pos: tokens.pos,
                        win: tokens.win,
                        res: tokens.res,
                    }
                },
            }
        },
    }
}

/// Appends `count` code lengths of one value to a list.
fn push_lens(lens: &mut Vec<Value<u8>>, len: Value<u8>, count: usize)
    ensures
        final(lens)@ == old(lens)@ + Seq::new(count as nat, |i: int| len),
{
    let mut i: usize = 0;
    while i < count
        invariant
            i <= count,
            lens@ == old(lens)@ + Seq::new(i as nat, |j: int| len),
        decreases count - i,
    {
        lens.push(len);
        i += 1;
        assert(lens@ =~= old(lens)@ + Seq::new(i as nat, |j: int| len));
    }
}

/// Reads a block with fixed codes, after its header, into a record.
pub fn parse_deflate_block_fixed(
    out: &mut DeflateBlockFixed,
    data: &mut DataStream,
    window: &mut Window,
    settings: &Settings,
) -> (r: Result<(), Error>)
    requires
        old(window).wf(),
        roomy(*old(data), old(window)@.plain_pos),
        old(data).pos + 16 <= usize::MAX,
    ensures
        final(window).wf(),
        roomy(*final(data), final(window)@.plain_pos),
        ({
            let step = fixed_at(old(out)@, old(data).bytes@, old(data).pos as int, old(window)@, settings.data);
            &&& final(out)@ == step.out
            &&& final(data).moved(*old(data), step.pos)
            &&& final(window)@ == step.win
            &&& lift(r) == step.res
        }),
{
    let v5 = Value { v: 5u8, start: data.pos, end: data.pos };
    let v7 = Value { v: 7u8, start: data.pos, end: data.pos };
    let v8 = Value { v: 8u8, start: data.pos, end: data.pos };
    let v9 = Value { v: 9u8, start: data.pos, end: data.pos };
    let mut hlits: Vec<Value<u8>> = Vec::new();
    push_lens(&mut hlits, v8, 144);
    push_lens(&mut hlits, v9, 112);
    push_lens(&mut hlits, v7, 24);
    push_lens(&mut hlits, v8, 8);
    assert(hlits@ =~= fixed_lens(data.pos));
    let literals = alphabet_u16(286);
    let hlits_codes = build_huffman_codes(literals.as_slice(), hlits.as_slice());
    let mut hlits_slot: Option<HuffmanTree<u16>> = None;
    match build_huffman_tree(&mut hlits_slot, hlits_codes.as_slice()) {
        Err(e) => {
            return Err(e);
        },
        Ok(()) => {},
    }
    let mut hdists: Vec<Value<u8>> = Vec::new();
    push_lens(&mut hdists, v5, 32);
    assert(hdists@ =~= fixed_dist_lens(data.pos));
    let distances = alphabet_u8(32);
    let hdists_codes = build_huffman_codes(distances.as_slice(), hdists.as_slice());
    let mut hdists_slot: Option<HuffmanTree<u8>> = None;
    match build_huffman_tree(&mut hdists_slot, hdists_codes.as_slice()) {
        Err(e) => {
            return Err(e);
        },
        Ok(()) => {},
    }
    match (&hlits_slot, &hdists_slot) {
        (Some(hlits_tree), Some(hdists_tree)) => parse_tokens(
            &mut out.tokens,
            data,
            window,
            hlits_tree,
            hdists_tree,
            settings,
        ),
        _ => vstd::pervasive::unreached(),
    }
}

/// What reading a block with dynamic codes gives, after its header: the
/// code tables, then the tokens read with their trees.
pub open spec fn dynamic_at(out: DeflateBlockDynamicView, bytes: Seq<u8>, pos: int, win: WindowView, keep: bool) -> Step<
    DeflateBlockDynamicView,
    (),
> {
    let tables = dht_at(DynamicHuffmanTableView::empty(), bytes, pos);
    let out = DeflateBlockDynamicView { dht: Some(tables.out), ..out };
    match tables.res {
        Err(e) => Step { out, pos: tables.pos, win, res: Err(e) },
        Ok(()) => {
            let tokens = tokens_at(
                out.tokens,
                bytes,
                tables.pos,
                win,
                tables.out.hlits_tree->0,
                tables.out.hdists_tree->0,
                keep,
            );
            Step {
                out: DeflateBlockDynamicView { tokens: tokens.out, ..out },
                pos: tokens.pos,
                win: tokens.win,
                res: tokens.res,
            }
        },
    }
}

/// Reads a block with dynamic codes, after its header, into a record.
pub fn parse_deflate_block_dynamic(
    out: &mut DeflateBlockDynamic,
    data: &mut DataStream,
    window: &mut Window,
    settings: &Settings,
) -> (r: Result<(), Error>)
    requires
        old(window).wf(),
        roomy(*old(data), old(window)@.plain_pos),
    ensures
        final(window).wf(),
        roomy(*final(data), final(window)@.plain_pos),
        ({
            let step = dynamic_at(old(out)@, old(data).bytes@, old(data).pos as int, old(window)@, settings.data);
            &&& final(out)@ == step.out
            &&& final(data).moved(*old(data), step.pos)
            &&& final(window)@ == step.win
            &&& lift(r) == step.res
        }),
{
    let mut dht = DynamicHuffmanTable::default();
    let tables = parse_dht(&mut dht, data);
    out.dht = Some(dht);
    match tables {
        Err(e) => {
            return Err(e);
        },
        Ok(()) => {},
    }
    match &out.dht {
        Some(dht) => match (&dht.hlits_tree, &dht.hdists_tree) {
            (Some(hlits_tree), Some(hdists_tree)) => parse_tokens(
                &mut out.tokens,
                data,
                window,
                hlits_tree,
                hdists_tree,
                settings,
            ),
            _ => vstd::pervasive::unreached(),
        },
        None => vstd::pervasive::unreached(),
    }
}

/// The record of a block whose header was read at a window position.
pub open spec fn opened(header: DeflateBlockHeader, plain_pos: usize) -> DeflateBlockView {
    DeflateBlockView { header, end: None, plain_start: Some(plain_pos), plain_end: None, ext: None }
}

/// The record of a stored block of which nothing has been read.
pub open spec fn empty_stored() -> DeflateBlockStoredView {
    DeflateBlockStoredView { len: None, nlen: None, data: None }
}

/// The record of a block with fixed codes of which nothing has been read.
pub open spec fn empty_fixed() -> DeflateBlockFixedView {
    DeflateBlockFixedView { tokens: None }
}

/// The record of a block with dynamic codes of which nothing has been read.
pub open spec fn empty_dynamic() -> DeflateBlockDynamicView {
    DeflateBlockDynamicView { dht: None, tokens: None }
}

/// What reading the body of a block of a type below 3 gives.
pub open spec fn body_at(btype: u8, bytes: Seq<u8>, pos: int, win: WindowView, keep: bool) -> Step<
    DeflateBlockExtView,
    (),
> {
    if btype == 0 {
        let body = stored_at(empty_stored(), bytes, pos, win, keep);
        Step { out: DeflateBlockExtView::Stored(body.out), pos: body.pos, win: body.win, res: body.res }
    } else if btype == 1 {
        let body = fixed_at(empty_fixed(), bytes, pos, win, keep);
        Step { out: DeflateBlockExtView::Fixed(body.out), pos: body.pos, win: body.win, res: body.res }
    } else {
        let body = dynamic_at(empty_dynamic(), bytes, pos, win, keep);
        Step { out: DeflateBlockExtView::Dynamic(body.out), pos: body.pos, win: body.win, res: body.res }
    }
}

/// What reading one block gives: the record of the block, unless its
/// header could not be read, and whether more blocks follow. The record of
/// a block that was read to its end holds where it ends in the input and in
/// the plaintext. Block type 3 is a failure.
#[verifier::opaque]
pub open spec fn block_at(bytes: Seq<u8>, pos: int, win: WindowView, keep: bool) -> Step<Option<DeflateBlockView>, bool> {
    let header = header_at(bytes, pos);
    match header.res {
        Err(e) => Step { out: None, pos: header.pos, win, res: Err(e) },
        Ok(()) => {
            let block = opened(header.out, win.plain_pos);
            let btype = header.out.btype->0.v;
            if btype > 2 {
                Step {
                    out: Some(block),
                    pos: header.pos,
                    win,
                    res: Err(failure(header.pos, "BTYPE="@ + dec_digits(btype as nat))),
                }
            } else {
                let body = body_at(btype, bytes, header.pos, win, keep);
                match body.res {
                    Err(e) => Step {
                        out: Some(DeflateBlockView { ext: Some(body.out), ..block }),
                        pos: body.pos,
                        win: body.win,
                        res: Err(e),
                    },
                    Ok(()) => Step {
                        out: Some(
                            DeflateBlockView {
                                ext: Some(body.out),
                                end: Some(body.pos as usize),
                                plain_end: Some(body.win.plain_pos),
                                ..block
                            },
                        ),
                        pos: body.pos,
                        win: body.win,
                        res: Ok(header.out.bfinal->0.v != 1),
                    },
                }
            }
        },
    }
}

/// A list with one more element, if there is one.
pub open spec fn with<T>(s: Seq<T>, x: Option<T>) -> Seq<T> {
    match x {
        Some(x) => s.push(x),
        None => s,
    }
}

/// Reads one block and appends its record to a list. Returns whether more
/// blocks follow.
pub fn parse_deflate_block(
    out: &mut Vec<DeflateBlock>,
    data: &mut DataStream,
    window: &mut Window,
    settings: &Settings,
) -> (r: Result<bool, Error>)
    requires
        old(window).wf(),
        roomy(*old(data), old(window)@.plain_pos),
    ensures
        final(window).wf(),
        roomy(*final(data), final(window)@.plain_pos),
        ({
            let step = block_at(old(data).bytes@, old(data).pos as int, old(window)@, settings.data);
            &&& views(final(out)@) == with(views(old(out)@), step.out)
            &&& final(data).moved(*old(data), step.pos)
            &&& final(window)@ == step.win
            &&& lift(r) == step.res
        }),
{
    reveal(block_at);
    let mut slot: Option<DeflateBlockHeader> = None;
    match parse_deflate_block_header(&mut slot, data) {
        Err(e) => {
            return Err(e);
        },
        Ok(()) => {},
    }
    let header = match slot {
        Some(header) => header,
        None => vstd::pervasive::unreached(),
    };
    let (bfinal, btype) = match (header.bfinal, header.btype) {
        (Some(bfinal), Some(btype)) => (bfinal.v == 1, btype.v),
        _ => vstd::pervasive::unreached(),
    };
    let mut block = DeflateBlock {
        header,
        end: None,
        plain_start: Some(window.plain_pos()),
        plain_end: None,
        ext: None,
    };
    let ghost opened_view = block@;
    let r = if btype == 0 {
        let mut ext = DeflateBlockStored { len: None, nlen: None, data: None };
        let r = parse_deflate_block_stored(&mut ext, data, window, settings);
        block.ext = Some(DeflateBlockExt::Stored(ext));
        r
    } else if btype == 1 {
        let mut ext = DeflateBlockFixed { tokens: None };
        let r = parse_deflate_block_fixed(&mut ext, data, window, settings);
        block.ext = Some(DeflateBlockExt::Fixed(ext));
        r
    } else if btype == 2 {
        let mut ext = DeflateBlockDynamic { dht: None, tokens: None };
        let r = parse_deflate_block_dynamic(&mut ext, data, window, settings);
        block.ext = Some(DeflateBlockExt::Dynamic(Box::new(ext)));
        r
    } else {
        let mut msg = "BTYPE=".to_owned();
        push_decimal(&mut msg, btype as usize);
        Err(data.parse_error(msg.as_str()))
    };
    let r = match r {
        Err(e) => Err(e),
        Ok(()) => {
            block.end = Some(data.pos);
            block.plain_end = Some(window.plain_pos());
            Ok(!bfinal)
        },
    };
    proof {
        crate::data::lemma_views_push(out@, block);
    }
    out.push(block);
    r
}

/// Reading a block moves forward and stays within the input; a block that
/// was read to its end took three bits or more.
pub proof fn lemma_block_stays(bytes: Seq<u8>, pos: int, win: WindowView, keep: bool)
    ensures
        pos <= block_at(bytes, pos, win, keep).pos,
        pos <= 8 * bytes.len() ==> block_at(bytes, pos, win, keep).pos <= 8 * bytes.len(),
        block_at(bytes, pos, win, keep).res is Ok ==> pos + 3 <= block_at(bytes, pos, win, keep).pos <= 8
            * bytes.len(),
{
    reveal(block_at);
    let header = header_at(bytes, pos);
    if header.res is Ok {
        let btype = header.out.btype->0.v;
        let at = header.pos;
        if btype == 0 {
        } else if btype == 1 {
            let lit = build_tree(huffman_codes(count_up_u16(286), fixed_lens(at as usize)));
            let dist = build_tree(huffman_codes(count_up_u8(32), fixed_dist_lens(at as usize)));
            lemma_tokens_stay(None, bytes, at, win, lit.tree, dist.tree);
            lemma_tokens_stay(Some(Seq::empty()), bytes, at, win, lit.tree, dist.tree);
        } else if btype == 2 {
            let tables = dht_at(DynamicHuffmanTableView::empty(), bytes, at);
            lemma_dht_stays(DynamicHuffmanTableView::empty(), bytes, at);
            lemma_tokens_stay(None, bytes, tables.pos, win, tables.out.hlits_tree->0, tables.out.hdists_tree->0);
            lemma_tokens_stay(
                Some(Seq::empty()),
                bytes,
                tables.pos,
                win,
                tables.out.hlits_tree->0,
                tables.out.hdists_tree->0,
            );
        }
    }
}

/// What moving to the next byte boundary after the last block gives.
pub open spec fn closing(blocks: Seq<DeflateBlockView>, bytes: Seq<u8>, pos: int, win: WindowView) -> Step<
    Seq<DeflateBlockView>,
    (),
> {
    if aligned(pos) > 8 * bytes.len() {
        Step { out: blocks, pos, win, res: Err(eof(pos)) }
    } else {
        Step { out: blocks, pos: aligned(pos), win, res: Ok(()) }
    }
}

/// What reading blocks gives, after those in `blocks`, up to the last
/// block, after which the cursor moves to the next byte boundary.
pub open spec fn deflate_from(blocks: Seq<DeflateBlockView>, bytes: Seq<u8>, pos: int, win: WindowView, keep: bool) -> Step<
    Seq<DeflateBlockView>,
    (),
>
    decreases 8 * bytes.len() - pos,
{
    let block = block_at(bytes, pos, win, keep);
    let blocks = with(blocks, block.out);
    match block.res {
        Err(e) => Step { out: blocks, pos: block.pos, win: block.win, res: Err(e) },
        Ok(more) => {
            proof {
                lemma_block_stays(bytes, pos, win, keep);
            }
            if more {
                deflate_from(blocks, bytes, block.pos, block.win, keep)
            } else {
                closing(blocks, bytes, block.pos, block.win)
            }
        },
    }
}

/// What reading a DEFLATE stream into a record gives.
pub open spec fn deflate_at(out: DeflateStreamView, bytes: Seq<u8>, pos: int, win: WindowView, keep: bool) -> Step<
    DeflateStreamView,
    (),
> {
    let step = deflate_from(out.blocks, bytes, pos, win, keep);
    Step { out: DeflateStreamView { blocks: step.out }, pos: step.pos, win: step.win, res: step.res }
}

/// Reads the blocks of a DEFLATE stream into a record, up to the last
/// block, and moves to the next byte boundary.
pub fn parse_deflate(deflate: &mut DeflateStream, data: &mut DataStream, window: &mut Window, settings: &Settings) -> (r:
    Result<(), Error>)
    requires
        old(window).wf(),
        roomy(*old(data), old(window)@.plain_pos),
    ensures
        final(window).wf(),
        roomy(*final(data), final(window)@.plain_pos),
        ({
            let step = deflate_at(old(deflate)@, old(data).bytes@, old(data).pos as int, old(window)@, settings.data);
            &&& final(deflate)@ == step.out
            &&& final(data).moved(*old(data), step.pos)
            &&& final(window)@ == step.win
            &&& lift(r) == step.res
        }),
{
    let mut more = true;
    while more
        invariant
            window.wf(),
            roomy(*data, window@.plain_pos),
            data.bytes == old(data).bytes,
            data.end == old(data).end,
            more ==> deflate_from(views(deflate.blocks@), data.bytes@, data.pos as int, window@, settings.data)
                == deflate_from(
                views(old(deflate).blocks@),
                old(data).bytes@,
                old(data).pos as int,
                old(window)@,
                settings.data,
            ),
            !more ==> closing(views(deflate.blocks@), data.bytes@, data.pos as int, window@) == deflate_from(
                views(old(deflate).blocks@),
                old(data).bytes@,
                old(data).pos as int,
                old(window)@,
                settings.data,
            ),
        decreases data.end - data.pos,
    {
        proof {
            lemma_block_stays(data.bytes@, data.pos as int, window@, settings.data);
        }
        match parse_deflate_block(&mut deflate.blocks, data, window, settings) {
            Err(e) => {
                return Err(e);
            },
            Ok(again) => {
                more = again;
            },
        }
    }
    data.align()
}

/// A block of type 3 is a failure behind its header, with the message
/// `BTYPE=3`; its record holds the header alone.
pub proof fn lemma_block_type_three(bytes: Seq<u8>, pos: int, win: WindowView, keep: bool)
    requires
        in_reach(bytes, pos, 3),
        crate::cursor::bits_value(bytes, pos + 1, 2) == 3,
    ensures
        block_at(bytes, pos, win, keep).res == Err::<bool, ErrorView>(failure(pos + 3, "BTYPE=3"@)),
        block_at(bytes, pos, win, keep).out == Some(opened(header_at(bytes, pos).out, win.plain_pos)),
        block_at(bytes, pos, win, keep).win == win,
{
    reveal(block_at);
    reveal_strlit("BTYPE=3");
    reveal_strlit("BTYPE=");
    reveal_strlit("0123456789abcdef");
    assert("BTYPE="@ + dec_digits(3) =~= "BTYPE=3"@);
}

/// What a stored block records as its length and as the field behind it
/// are the two 16-bit integers of the input as they stand. The second is
/// the complement of the first exactly where it is so in the input.
pub proof fn lemma_stored_fields(out: DeflateBlockStoredView, bytes: Seq<u8>, pos: int, win: WindowView, keep: bool)
    requires
        0 <= pos,
        stored_at(out, bytes, pos, win, keep).res is Ok,
    ensures
        stored_at(out, bytes, pos, win, keep).out.len matches Some(len) && len.v == crate::cursor::le_value(
            bytes,
            aligned(pos) / 8,
            2,
        ),
        stored_at(out, bytes, pos, win, keep).out.nlen matches Some(nlen) && nlen.v == crate::cursor::le_value(
            bytes,
            aligned(pos) / 8 + 2,
            2,
        ),
        (stored_at(out, bytes, pos, win, keep).out.nlen->0.v == !stored_at(out, bytes, pos, win, keep).out.len->0.v)
            <==> crate::cursor::le_value(bytes, aligned(pos) / 8 + 2, 2) == 0xffff - crate::cursor::le_value(
            bytes,
            aligned(pos) / 8,
            2,
        ),
        stored_at(out, bytes, pos, win, keep).win.bytes.len() == win.bytes.len() + stored_at(
            out,
            bytes,
            pos,
            win,
            keep,
        ).out.len->0.v,
{
    let at = aligned(pos);
    crate::cursor::lemma_le_value_bound(bytes, at / 8, 2);
    crate::cursor::lemma_le_value_bound(bytes, at / 8 + 2, 2);
    vstd::arithmetic::power2::lemma2_to64();
    let len = stored_at(out, bytes, pos, win, keep).out.len->0.v;
    let nlen = stored_at(out, bytes, pos, win, keep).out.nlen->0.v;
    assert((nlen == !len) <==> (nlen == 0xffff - len)) by (bit_vector);
    let from = at + 32;
    let payload = bytes.subrange(from / 8, from / 8 + len);
    assert(payload.len() == len);
    assert((win.bytes + payload).len() == win.bytes.len() + payload.len());
}

/// The number of fixed literal and length codes of each length: 24 of
/// seven bits, 152 of eight and 112 of nine.
pub proof fn lemma_fixed_counts(pos: usize, len: int)
    ensures
        crate::huffman::count_len(fixed_lens(pos), len) == if len == 7 {
            24nat
        } else if len == 8 {
            152nat
        } else if len == 9 {
            112nat
        } else {
            0nat
        },
        crate::huffman::count_len(fixed_dist_lens(pos), len) == if len == 5 {
            32nat
        } else {
            0nat
        },
{
    let lens = fixed_lens(pos);
    assert(lens.take(0) =~= Seq::<Value<u8>>::empty());
    crate::canonical::lemma_count_run(lens, 0, 144, 8, len);
    crate::canonical::lemma_count_run(lens, 144, 256, 9, len);
    crate::canonical::lemma_count_run(lens, 256, 280, 7, len);
    crate::canonical::lemma_count_run(lens, 280, 288, 8, len);
    assert(lens.take(288) =~= lens);
    let dists = fixed_dist_lens(pos);
    assert(dists.take(0) =~= Seq::<Value<u8>>::empty());
    crate::canonical::lemma_count_run(dists, 0, 32, 5, len);
    assert(dists.take(32) =~= dists);
}

/// The trees of the fixed codes can always be built: a block with fixed
/// codes fails only where its tokens do.
pub proof fn lemma_fixed_tables_build(pos: usize)
    ensures
        build_tree(huffman_codes(count_up_u16(286), fixed_lens(pos))).res is Ok,
        build_tree(huffman_codes(count_up_u8(32), fixed_dist_lens(pos))).res is Ok,
{
    let lens = fixed_lens(pos);
    let dists = fixed_dist_lens(pos);
    lemma_fixed_counts(pos, 1);
    lemma_fixed_counts(pos, 2);
    lemma_fixed_counts(pos, 3);
    lemma_fixed_counts(pos, 4);
    lemma_fixed_counts(pos, 5);
    lemma_fixed_counts(pos, 6);
    lemma_fixed_counts(pos, 7);
    lemma_fixed_counts(pos, 8);
    lemma_fixed_counts(pos, 9);
    lemma_fixed_counts(pos, 10);
    lemma_fixed_counts(pos, 11);
    lemma_fixed_counts(pos, 12);
    lemma_fixed_counts(pos, 13);
    lemma_fixed_counts(pos, 14);
    lemma_fixed_counts(pos, 15);
    reveal_with_fuel(crate::huffman::first_code, 8);
    assert(crate::huffman::first_code(lens, 7) == 0);
    assert(crate::huffman::first_code(lens, 10) == 1024);
    assert(crate::huffman::first_code(lens, 15) == 0x8000);
    assert(crate::huffman::first_code(dists, 5) == 0);
    assert(crate::huffman::first_code(dists, 10) == 0x400);
    assert(crate::huffman::first_code(dists, 15) == 0x8000);
    crate::canonical::lemma_fitting_builds(count_up_u16(286), lens);
    crate::canonical::lemma_fitting_builds(count_up_u8(32), dists);
}

} // verus!
