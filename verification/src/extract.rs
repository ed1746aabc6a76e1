//! The plaintext that a parsed stream recorded: the payloads of its stored
//! blocks and the bytes of its tokens, decoded from hexadecimal.
use crate::data::{
    opt_view, views, CompressedStream, CompressedStreamView, DeflateBlock, DeflateBlockExt, DeflateBlockExtView,
    DeflateBlockView, Token, TokenView, Value, ValueView,
};
use crate::cursor::{aligned, peek_bits_at, peek_le_at};
use crate::data::{DynamicHuffmanTableView, EobToken, HuffmanTree, LiteralTokenView, ZlibStreamView};
use crate::deflate::{
    block_at, deflate_from, empty_stored, fixed_dist_lens, fixed_lens, header_at, lemma_block_stays, opened,
    stored_at, with,
};
use crate::dht::{count_up_u16, count_up_u8, dht_at};
use crate::error::{failure, lift, parse_failure, Error, ErrorView};
use crate::huffman::{build_tree, decode, huffman_codes, lemma_decode_stays};
use crate::stream::{framed_at, gzip_at, gzip_body, gzip_rest, stream_at, zlib_at};
use crate::text::{hex_bytes, hex_chars, hex_decode, is_hex, lemma_hex_round_trip};
use crate::tokens::{appended, copy_at, lemma_copy_at_stays, recorded, tokens_from};
use crate::window::WindowView;
use vstd::prelude::*;

verus! {

/// A run of recorded plaintext: its hexadecimal text and the bit position
/// of the element that recorded it.
pub struct Piece {
    pub hex: Seq<char>,
    pub start: usize,
}

/// The outcome of decoding pieces: the bytes decoded, and the failure at
/// the first piece that is no hexadecimal text.
pub struct Extracted {
    pub bytes: Seq<u8>,
    pub res: Result<(), ErrorView>,
}

/// The piece of a token. The end of a block records nothing.
pub open spec fn token_piece(token: ValueView<TokenView>) -> Piece {
    Piece {
        hex: match token.v {
            TokenView::Literal(t) => t.hex,
            TokenView::Eob(_) => Seq::empty(),
            TokenView::Window(t) => t.hex,
        },
        start: token.start,
    }
}

/// The pieces of a list of tokens, in order.
pub open spec fn token_pieces(tokens: Seq<ValueView<TokenView>>) -> Seq<Piece> {
    Seq::new(tokens.len(), |i: int| token_piece(tokens[i]))
}

/// The pieces of the tokens of a block, where they were kept.
pub open spec fn kept_pieces(tokens: Option<Seq<ValueView<TokenView>>>) -> Seq<Piece> {
    match tokens {
        Some(tokens) => token_pieces(tokens),
        None => Seq::empty(),
    }
}

/// The pieces of a block: the payload of a stored block, the tokens of a
/// compressed one, as far as they were kept.
pub open spec fn block_pieces(block: DeflateBlockView) -> Seq<Piece> {
    match block.ext {
        Some(DeflateBlockExtView::Stored(stored)) => match stored.data {
            Some(data) => seq![Piece { hex: data.v, start: data.start }],
            None => Seq::empty(),
        },
        Some(DeflateBlockExtView::Fixed(fixed)) => kept_pieces(fixed.tokens),
        Some(DeflateBlockExtView::Dynamic(dynamic)) => kept_pieces(dynamic.tokens),
        None => Seq::empty(),
    }
}

/// The pieces of a list of blocks, in order.
pub open spec fn blocks_pieces(blocks: Seq<DeflateBlockView>) -> Seq<Piece>
    decreases blocks.len(),
{
    if blocks.len() == 0 {
        Seq::empty()
    } else {
        blocks_pieces(blocks.drop_last()) + block_pieces(blocks.last())
    }
}

/// The blocks of a stream. Code tables alone have none.
pub open spec fn stream_blocks(stream: CompressedStreamView) -> Seq<DeflateBlockView> {
    match stream {
        CompressedStreamView::Raw(deflate) => deflate.blocks,
        CompressedStreamView::Gzip(gzip) => match gzip.deflate {
            Some(deflate) => deflate.blocks,
            None => Seq::empty(),
        },
        CompressedStreamView::Dht(_) => Seq::empty(),
        CompressedStreamView::Zlib(zlib) => match zlib.deflate {
            Some(deflate) => deflate.blocks,
            None => Seq::empty(),
        },
    }
}

/// The pieces of a parsed stream, in order.
pub open spec fn stream_pieces(stream: Option<CompressedStreamView>) -> Seq<Piece> {
    match stream {
        Some(stream) => blocks_pieces(stream_blocks(stream)),
        None => Seq::empty(),
    }
}

/// The failure at a piece that is no hexadecimal text.
pub open spec fn bad_hex(piece: Piece) -> ErrorView {
    failure(piece.start as int, "Hex"@)
}

/// The bytes of pieces decoded one after the other behind `acc`, up to the
/// first piece that is no hexadecimal text.
pub open spec fn decoded(acc: Seq<u8>, pieces: Seq<Piece>) -> Extracted
    decreases pieces.len(),
{
    if pieces.len() == 0 {
        Extracted { bytes: acc, res: Ok(()) }
    } else if is_hex(pieces[0].hex) {
        decoded(acc + hex_bytes(pieces[0].hex), pieces.drop_first())
    } else {
        Extracted { bytes: acc, res: Err(bad_hex(pieces[0])) }
    }
}

/// Decoding two lists of pieces in a row decodes the first, and the second
/// behind it unless the first failed.
pub proof fn lemma_decoded_concat(acc: Seq<u8>, a: Seq<Piece>, b: Seq<Piece>)
    ensures
        decoded(acc, a + b) == if decoded(acc, a).res is Ok {
            decoded(decoded(acc, a).bytes, b)
        } else {
            decoded(acc, a)
        },
    decreases a.len(),
{
    if a.len() == 0 {
        assert(a + b =~= b);
    } else {
        assert((a + b)[0] == a[0]);
        assert((a + b).drop_first() =~= a.drop_first() + b);
        if is_hex(a[0].hex) {
            lemma_decoded_concat(acc + hex_bytes(a[0].hex), a.drop_first(), b);
        }
    }
}

/// Appends the bytes of a hexadecimal text to a buffer.
fn write_hex(out: &mut Vec<u8>, hex: &String, start: usize) -> (r: Result<(), Error>)
    ensures
        ({
            let step = decoded(old(out)@, seq![Piece { hex: hex@, start }]);
            &&& final(out)@ == step.bytes
            &&& lift(r) == step.res
        }),
{
    let ghost piece = Piece { hex: hex@, start };
    proof {
        assert(seq![piece].drop_first() =~= Seq::<Piece>::empty());
        reveal_with_fuel(decoded, 2);
    }
    match hex_decode(hex.as_str()) {
        Some(mut bytes) => {
            out.append(&mut bytes);
            Ok(())
        },
        None => Err(parse_failure(start, "Hex".to_owned())),
    }
}

/// Appends the bytes that a token recorded to a buffer.
pub fn write_token(out: &mut Vec<u8>, token: &Value<Token>) -> (r: Result<(), Error>)
    ensures
        ({
            let step = decoded(old(out)@, seq![token_piece(token@)]);
            &&& final(out)@ == step.bytes
            &&& lift(r) == step.res
        }),
{
    match &token.v {
        Token::Literal(literal) => write_hex(out, &literal.hex, token.start),
        Token::Eob(_) => {
            proof {
                let piece = token_piece(token@);
                assert(seq![piece].drop_first() =~= Seq::<Piece>::empty());
                assert(hex_bytes(piece.hex) =~= Seq::<u8>::empty());
                assert(out@ + hex_bytes(piece.hex) =~= out@);
                reveal_with_fuel(decoded, 2);
            }
            Ok(())
        },
        Token::Window(window) => write_hex(out, &window.hex, token.start),
    }
}

/// Appends the bytes that the tokens of a block recorded to a buffer.
pub fn write_tokens(out: &mut Vec<u8>, tokens: &Option<Vec<Value<Token>>>) -> (r: Result<(), Error>)
    ensures
        ({
            let step = decoded(old(out)@, kept_pieces(crate::data::opt_views(*tokens)));
            &&& final(out)@ == step.bytes
            &&& lift(r) == step.res
        }),
{
    match tokens {
        Some(list) => {
            let ghost pieces = token_pieces(views(list@));
            let mut i: usize = 0;
            assert(pieces.skip(0) =~= pieces);
            while i < list.len()
                invariant
                    i <= list@.len(),
                    pieces == token_pieces(views(list@)),
                    pieces == kept_pieces(crate::data::opt_views(*tokens)),
                    decoded(out@, pieces.skip(i as int)) == decoded(old(out)@, pieces),
                decreases list.len() - i,
            {
                proof {
                    let rest = pieces.skip(i as int);
                    assert(rest =~= seq![rest[0]] + pieces.skip(i + 1));
                    lemma_decoded_concat(out@, seq![rest[0]], pieces.skip(i + 1));
                    assert(rest[0] == token_piece(list@[i as int]@));
                }
                match write_token(out, &list[i]) {
                    Err(e) => {
                        return Err(e);
                    },
                    Ok(()) => {},
                }
                i += 1;
            }
            Ok(())
        },
        None => Ok(()),
    }
}

/// Appends the bytes that a block recorded to a buffer.
pub fn write_block(out: &mut Vec<u8>, block: &DeflateBlock) -> (r: Result<(), Error>)
    ensures
        ({
            let step = decoded(old(out)@, block_pieces(block@));
            &&& final(out)@ == step.bytes
            &&& lift(r) == step.res
        }),
{
    match &block.ext {
        Some(DeflateBlockExt::Stored(stored)) => match &stored.data {
            Some(data) => write_hex(out, &data.v, data.start),
            None => Ok(()),
        },
        Some(DeflateBlockExt::Fixed(fixed)) => write_tokens(out, &fixed.tokens),
        Some(DeflateBlockExt::Dynamic(dynamic)) => write_tokens(out, &dynamic.tokens),
        None => Ok(()),
    }
}

/// The blocks of a stream. Code tables alone have none.
pub fn get_blocks(stream: &CompressedStream) -> (r: Option<&[DeflateBlock]>)
    ensures
        match r {
            Some(blocks) => views(blocks@) == stream_blocks(stream@),
            None => stream_blocks(stream@) == Seq::<DeflateBlockView>::empty(),
        },
{
    match stream {
        CompressedStream::Raw(deflate) => Some(deflate.blocks.as_slice()),
        CompressedStream::Gzip(gzip) => match &gzip.deflate {
            Some(deflate) => Some(deflate.blocks.as_slice()),
            None => None,
        },
        CompressedStream::Dht(_) => None,
        CompressedStream::Zlib(zlib) => match &zlib.deflate {
            Some(deflate) => Some(deflate.blocks.as_slice()),
            None => None,
        },
    }
}

/// Appends the plaintext that a parsed stream recorded to a buffer. Where
/// a recorded text is no hexadecimal text, the buffer holds what was
/// decoded before it, and the failure names the position of its element.
pub fn extract_data(out: &mut Vec<u8>, stream: &Option<CompressedStream>) -> (r: Result<(), Error>)
    ensures
        ({
            let step = decoded(old(out)@, stream_pieces(opt_view(*stream)));
            &&& final(out)@ == step.bytes
            &&& lift(r) == step.res
        }),
{
    let blocks = match stream {
        Some(stream) => match get_blocks(stream) {
            Some(blocks) => blocks,
            None => {
                return Ok(());
            },
        },
        None => {
            return Ok(());
        },
    };
    let ghost all = views(blocks@);
    let mut i: usize = 0;
    assert(all.take(0) =~= Seq::<DeflateBlockView>::empty());
    while i < blocks.len()
        invariant
            i <= blocks@.len(),
            all == views(blocks@),
            stream_pieces(opt_view(*stream)) == blocks_pieces(all),
            decoded(old(out)@, blocks_pieces(all.take(i as int))) == (Extracted { bytes: out@, res: Ok(()) }),
        decreases blocks.len() - i,
    {
        proof {
            assert(all.take(i + 1).drop_last() =~= all.take(i as int));
            lemma_decoded_concat(old(out)@, blocks_pieces(all.take(i as int)), block_pieces(all[i as int]));
            lemma_decoded_stuck(old(out)@, blocks_pieces(all.take(i + 1)), all, i + 1);
        }
        match write_block(out, &blocks[i]) {
            Err(e) => {
                return Err(e);
            },
            Ok(()) => {},
        }
        i += 1;
    }
    assert(all.take(blocks@.len() as int) =~= all);
    Ok(())
}

/// A failure among the pieces of the first blocks is the failure of all blocks.
pub proof fn lemma_decoded_stuck(acc: Seq<u8>, pieces: Seq<Piece>, blocks: Seq<DeflateBlockView>, n: int)
    requires
        0 <= n <= blocks.len(),
        pieces == blocks_pieces(blocks.take(n)),
    ensures
        decoded(acc, pieces).res is Err ==> decoded(acc, blocks_pieces(blocks)) == decoded(acc, pieces),
    decreases blocks.len() - n,
{
    if n < blocks.len() {
        assert(blocks.take(n + 1).drop_last() =~= blocks.take(n));
        lemma_decoded_concat(acc, pieces, block_pieces(blocks[n]));
        lemma_decoded_stuck(acc, blocks_pieces(blocks.take(n + 1)), blocks, n + 1);
    } else {
        assert(blocks.take(n) =~= blocks);
    }
}

/// One more piece decodes to the bytes of the pieces before it and its own.
pub proof fn lemma_decoded_push(base: Seq<u8>, pieces: Seq<Piece>, piece: Piece, bytes: Seq<u8>, more: Seq<u8>)
    requires
        decoded(base, pieces) == (Extracted { bytes, res: Ok(()) }),
        is_hex(piece.hex),
        hex_bytes(piece.hex) == more,
    ensures
        decoded(base, pieces.push(piece)) == (Extracted { bytes: bytes + more, res: Ok(()) }),
{
    lemma_decoded_concat(base, pieces, seq![piece]);
    assert(pieces.push(piece) =~= pieces + seq![piece]);
    assert(seq![piece].drop_first() =~= Seq::<Piece>::empty());
    reveal_with_fuel(decoded, 2);
}

/// Whether pieces decode, behind `base`, to the bytes of a window.
pub open spec fn accounts(base: Seq<u8>, pieces: Seq<Piece>, win: WindowView) -> bool {
    decoded(base, pieces) == (Extracted { bytes: win.bytes, res: Ok(()) })
}

/// The tokens that are kept always decode to what was appended to the
/// window, whether the block was read to its end or not.
pub proof fn lemma_tokens_account(
    base: Seq<u8>,
    tokens: Seq<ValueView<TokenView>>,
    bytes: Seq<u8>,
    pos: int,
    win: WindowView,
    lit_tree: HuffmanTree<u16>,
    dist_tree: HuffmanTree<u8>,
)
    requires
        accounts(base, token_pieces(tokens), win),
    ensures
        tokens_from(Some(tokens), bytes, pos, win, lit_tree, dist_tree).out is Some,
        accounts(
            base,
            kept_pieces(tokens_from(Some(tokens), bytes, pos, win, lit_tree, dist_tree).out),
            tokens_from(Some(tokens), bytes, pos, win, lit_tree, dist_tree).win,
        ),
    decreases 8 * bytes.len() - pos,
{
    let symbol = decode(bytes, pos, lit_tree, pos as usize, 0, 0);
    if !lit_tree.is_symbol() {
        lemma_decode_stays(bytes, pos, lit_tree, pos as usize, 0, 0);
        match symbol.res {
            Err(e) => {},
            Ok(literal) => {
                if literal.v <= 255 {
                    let v = literal.v as u8;
                    let token = TokenView::Literal(
                        LiteralTokenView { plain_pos: win.plain_pos, v, c: v as char, hex: hex_chars(seq![v]) },
                    );
                    let item = ValueView { v: token, start: pos as usize, end: symbol.pos as usize };
                    lemma_hex_round_trip(seq![v]);
                    lemma_decoded_push(base, token_pieces(tokens), token_piece(item), win.bytes, seq![v]);
                    assert(token_pieces(tokens.push(item)) =~= token_pieces(tokens).push(token_piece(item)));
                    lemma_tokens_account(
                        base,
                        tokens.push(item),
                        bytes,
                        symbol.pos,
                        appended(win, seq![v]),
                        lit_tree,
                        dist_tree,
                    );
                } else if literal.v == 256 {
                    let token = TokenView::Eob(EobToken { plain_pos: win.plain_pos });
                    let item = ValueView { v: token, start: pos as usize, end: symbol.pos as usize };
                    assert(hex_bytes(Seq::<char>::empty()) =~= Seq::<u8>::empty());
                    lemma_decoded_push(base, token_pieces(tokens), token_piece(item), win.bytes, Seq::empty());
                    assert(win.bytes + Seq::<u8>::empty() =~= win.bytes);
                    assert(token_pieces(tokens.push(item)) =~= token_pieces(tokens).push(token_piece(item)));
                } else if literal.v <= 285 {
                    let copy = copy_at(literal, bytes, symbol.pos, win, dist_tree);
                    lemma_copy_at_stays(literal, bytes, symbol.pos, win, dist_tree);
                    match copy.out {
                        Some(token) => {
                            let item = ValueView { v: token, start: pos as usize, end: copy.pos as usize };
                            let copied = copy.win.bytes.skip(win.bytes.len() as int);
                            lemma_copy_accounts(literal, bytes, symbol.pos, win, dist_tree);
                            lemma_hex_round_trip(copied);
                            lemma_decoded_push(base, token_pieces(tokens), token_piece(item), win.bytes, copied);
                            assert(token_pieces(tokens.push(item)) =~= token_pieces(tokens).push(token_piece(item)));
                            lemma_tokens_account(base, tokens.push(item), bytes, copy.pos, copy.win, lit_tree, dist_tree);
                        },
                        None => {},
                    }
                }
            },
        }
    }
}

/// A copy records in hexadecimal the bytes that it appends, and a copy
/// that fails appends nothing.
pub proof fn lemma_copy_accounts(
    length: Value<u16>,
    bytes: Seq<u8>,
    pos: int,
    win: WindowView,
    dist_tree: HuffmanTree<u8>,
)
    ensures
        match copy_at(length, bytes, pos, win, dist_tree).out {
            Some(TokenView::Window(token)) => {
                &&& token.hex == hex_chars(
                    copy_at(length, bytes, pos, win, dist_tree).win.bytes.skip(win.bytes.len() as int),
                )
                &&& copy_at(length, bytes, pos, win, dist_tree).win.bytes == win.bytes + copy_at(
                    length,
                    bytes,
                    pos,
                    win,
                    dist_tree,
                ).win.bytes.skip(win.bytes.len() as int)
            },
            Some(_) => false,
            None => copy_at(length, bytes, pos, win, dist_tree).win == win,
        },
{
    let step = copy_at(length, bytes, pos, win, dist_tree);
    match step.out {
        Some(TokenView::Window(token)) => {
            let index = length.v - 257;
            let length_extra = peek_bits_at::<u8>(bytes, pos, crate::tokens::LENGTH_EXTRAS[index] as nat)->Ok_0;
            let length_value = (crate::tokens::LENGTH_BASES[index] + length_extra.v) as u16;
            let after = crate::window::copy_match(win.bytes, token.distance_value as int, length_value as nat);
            crate::window::lemma_copy_match_extends(win.bytes, token.distance_value as int, length_value as nat);
            let copied = after.skip(win.bytes.len() as int);
            assert(after =~= after.subrange(0, win.bytes.len() as int) + copied);
            assert((win.bytes + copied).skip(win.bytes.len() as int) =~= copied);
        },
        _ => {},
    }
}

/// The pieces of a block always decode to what the block appended to the
/// window, whether the block was read to its end or not.
pub proof fn lemma_block_accounts(bytes: Seq<u8>, pos: int, win: WindowView)
    ensures
        match block_at(bytes, pos, win, true).out {
            Some(block) => accounts(win.bytes, block_pieces(block), block_at(bytes, pos, win, true).win),
            None => block_at(bytes, pos, win, true).win == win,
        },
{
    reveal(block_at);
    let header = header_at(bytes, pos);
    let none = Seq::<Piece>::empty();
    assert(decoded(win.bytes, none) == (Extracted { bytes: win.bytes, res: Ok(()) }));
    if header.res is Ok {
        let btype = header.out.btype->0.v;
        let at = header.pos;
        if btype == 0 {
            let body = stored_at(empty_stored(), bytes, at, win, true);
            if body.res is Ok {
                let data = body.out.data->0;
                let payload = body.win.bytes.skip(win.bytes.len() as int);
                assert(payload =~= bytes.subrange((aligned(at) + 32) / 8, (aligned(at) + 32) / 8 + body.out.len->0.v));
                lemma_hex_round_trip(payload);
                lemma_decoded_push(win.bytes, none, Piece { hex: data.v, start: data.start }, win.bytes, payload);
                assert(none.push(Piece { hex: data.v, start: data.start }) =~= seq![
                    Piece { hex: data.v, start: data.start },
                ]);
            }
        } else if btype == 1 {
            let lit = build_tree(huffman_codes(count_up_u16(286), fixed_lens(at as usize)));
            let dist = build_tree(huffman_codes(count_up_u8(32), fixed_dist_lens(at as usize)));
            assert(token_pieces(Seq::empty()) =~= none);
            lemma_tokens_account(win.bytes, Seq::empty(), bytes, at, win, lit.tree, dist.tree);
        } else if btype == 2 {
            let tables = dht_at(DynamicHuffmanTableView::empty(), bytes, at);
            assert(token_pieces(Seq::empty()) =~= none);
            lemma_tokens_account(
                win.bytes,
                Seq::empty(),
                bytes,
                tables.pos,
                win,
                tables.out.hlits_tree->0,
                tables.out.hdists_tree->0,
            );
        }
    }
}

/// The pieces of the blocks of a stream always decode to what was
/// appended to the window.
pub proof fn lemma_deflate_accounts(
    base: Seq<u8>,
    blocks: Seq<DeflateBlockView>,
    bytes: Seq<u8>,
    pos: int,
    win: WindowView,
)
    requires
        accounts(base, blocks_pieces(blocks), win),
    ensures
        accounts(
            base,
            blocks_pieces(deflate_from(blocks, bytes, pos, win, true).out),
            deflate_from(blocks, bytes, pos, win, true).win,
        ),
    decreases 8 * bytes.len() - pos,
{
    let block = block_at(bytes, pos, win, true);
    let next = with(blocks, block.out);
    lemma_block_accounts(bytes, pos, win);
    lemma_block_stays(bytes, pos, win, true);
    match block.out {
        Some(b) => {
            assert(blocks.push(b).drop_last() =~= blocks);
            lemma_decoded_concat(base, blocks_pieces(blocks), block_pieces(b));
        },
        None => {},
    }
    match block.res {
        Err(e) => {},
        Ok(more) => {
            if more {
                lemma_deflate_accounts(base, next, bytes, block.pos, block.win);
            }
        },
    }
}

/// Decoding behind a buffer gives the buffer and what decoding alone gives.
pub proof fn lemma_decoded_shift(acc: Seq<u8>, pieces: Seq<Piece>)
    ensures
        decoded(acc, pieces).bytes == acc + decoded(Seq::empty(), pieces).bytes,
        decoded(acc, pieces).res == decoded(Seq::empty(), pieces).res,
    decreases pieces.len(),
{
    let none = Seq::<u8>::empty();
    if pieces.len() == 0 {
        assert(acc + none =~= acc);
    } else if is_hex(pieces[0].hex) {
        let first = hex_bytes(pieces[0].hex);
        lemma_decoded_shift(acc + first, pieces.drop_first());
        lemma_decoded_shift(none + first, pieces.drop_first());
        lemma_decoded_shift(first, pieces.drop_first());
        assert(none + first =~= first);
        assert((acc + first) + decoded(none, pieces.drop_first()).bytes =~= acc + (first + decoded(
            none,
            pieces.drop_first(),
        ).bytes));
    } else {
        assert(acc + none =~= acc);
    }
}

/// Where data is kept, the pieces that a parse records decode to exactly
/// the plaintext that it appended to the window, in order, whether the
/// parse fails or not. The output that the parse starts from must hold no
/// pieces of its own.
pub proof fn lemma_round_trip(out: Option<CompressedStreamView>, bytes: Seq<u8>, pos: int, win: WindowView)
    requires
        stream_pieces(out).len() == 0,
    ensures
        stream_at(out, bytes, pos, win, true).win.bytes.len() >= win.bytes.len(),
        stream_at(out, bytes, pos, win, true).win.bytes.take(win.bytes.len() as int) == win.bytes,
        decoded(Seq::empty(), stream_pieces(stream_at(out, bytes, pos, win, true).out)) == (Extracted {
            bytes: stream_at(out, bytes, pos, win, true).win.bytes.skip(win.bytes.len() as int),
            res: Ok(()),
        }),
{
    let step = framed_at(out, bytes, pos, win, true);
    let none = Seq::<Piece>::empty();
    assert(stream_pieces(out) =~= none);
    assert(accounts(win.bytes, none, win));
    assert(blocks_pieces(Seq::empty()) =~= none);
    match out {
        Some(CompressedStreamView::Raw(deflate)) => {
            lemma_deflate_accounts(win.bytes, deflate.blocks, bytes, pos, win);
        },
        Some(CompressedStreamView::Dht(dht)) => {},
        Some(CompressedStreamView::Zlib(zlib)) => {
            lemma_zlib_accounts(zlib, bytes, pos, win);
        },
        _ => {
            lemma_gzip_accounts(out, bytes, pos, win);
        },
    }
    assert(accounts(win.bytes, stream_pieces(step.out), step.win));
    lemma_decoded_shift(win.bytes, stream_pieces(step.out));
    let plain = decoded(Seq::empty(), stream_pieces(step.out)).bytes;
    assert(step.win.bytes == win.bytes + plain);
    assert((win.bytes + plain).take(win.bytes.len() as int) =~= win.bytes);
    assert((win.bytes + plain).skip(win.bytes.len() as int) =~= plain);
}

proof fn lemma_zlib_accounts(zlib: ZlibStreamView, bytes: Seq<u8>, pos: int, win: WindowView)
    requires
        stream_pieces(Some(CompressedStreamView::Zlib(zlib))).len() == 0,
    ensures
        accounts(
            win.bytes,
            stream_pieces(Some(CompressedStreamView::Zlib(zlib_at(zlib, bytes, pos, win, true).out))),
            zlib_at(zlib, bytes, pos, win, true).win,
        ),
{
    let none = Seq::<Piece>::empty();
    assert(stream_pieces(Some(CompressedStreamView::Zlib(zlib))) =~= none);
    assert(blocks_pieces(Seq::empty()) =~= none);
    assert(accounts(win.bytes, none, win));
    lemma_deflate_accounts(win.bytes, Seq::empty(), bytes, pos + 16, win);
    lemma_deflate_accounts(win.bytes, Seq::empty(), bytes, pos + 48, win);
}

proof fn lemma_gzip_accounts(out: Option<CompressedStreamView>, bytes: Seq<u8>, pos: int, win: WindowView)
    requires
        stream_pieces(out).len() == 0,
    ensures
        accounts(win.bytes, stream_pieces(gzip_at(out, bytes, pos, win, true).out), gzip_at(out, bytes, pos, win, true).win),
{
    let none = Seq::<Piece>::empty();
    assert(stream_pieces(out) =~= none);
    assert(blocks_pieces(Seq::empty()) =~= none);
    assert(accounts(win.bytes, none, win));
    match peek_le_at::<u16>(bytes, pos) {
        Err(e) => {},
        Ok(magic) => {
            if magic.v == crate::stream::GZIP_MAGIC {
                let opened = crate::stream::gzip_opened(magic);
                let body = gzip_body(opened, bytes, pos + 16, win, true);
                assert(body.out.deflate is None ==> body.win == win);
                assert forall|at: int, g: crate::data::GzipStreamView| #![trigger gzip_rest(g, bytes, at, win, true)]
                    accounts(
                        win.bytes,
                        stream_pieces(Some(CompressedStreamView::Gzip(gzip_rest(g, bytes, at, win, true).out))),
                        gzip_rest(g, bytes, at, win, true).win,
                    ) by {
                    lemma_deflate_accounts(win.bytes, Seq::empty(), bytes, at, win);
                }
            }
        },
    }
}

} // verus!
