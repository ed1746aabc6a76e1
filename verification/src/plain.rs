//! The positions in the plaintext that a parse records: the window counts
//! every byte it is given, and a block spans as many bytes of plaintext as
//! were appended while it was read.
use crate::cursor::aligned;
use crate::data::{
    DeflateBlockView, DynamicHuffmanTableView, HuffmanTree, LiteralTokenView, TokenView, Value, ValueView,
};
use crate::deflate::{
    block_at, deflate_from, empty_stored, fixed_dist_lens, fixed_lens, header_at, lemma_block_stays, stored_at, with,
};
use crate::dht::{count_up_u16, count_up_u8, dht_at, lemma_dht_stays};
use crate::extract::{block_pieces, decoded, lemma_block_accounts, lemma_decoded_shift};
use crate::huffman::{build_tree, decode, huffman_codes, lemma_decode_stays};
use crate::text::hex_chars;
use crate::tokens::{
    appended, copy_at, lemma_copy_at_stays, lemma_tables, recorded, tokens_from, LENGTH_EXTRAS, MAX_MATCH,
};
use crate::window::{copy_match, lemma_copy_match_extends, WindowView};
use vstd::prelude::*;

verus! {

/// Whether the plaintext that the input can still produce from a position
/// on fits the counter of a window: each bit stands for at most 258 bytes.
pub open spec fn room(bytes: Seq<u8>, pos: int, win: WindowView) -> bool {
    &&& 0 <= pos <= 8 * bytes.len()
    &&& win.plain_pos + MAX_MATCH * (8 * bytes.len() - pos) <= usize::MAX
}

/// Whether a window counts, from an earlier window on, exactly the bytes
/// that were appended since.
pub open spec fn counted(before: WindowView, after: WindowView) -> bool {
    &&& before.bytes.len() <= after.bytes.len()
    &&& after.plain_pos == before.plain_pos + (after.bytes.len() - before.bytes.len())
}

/// A copy appends as many bytes as its length says, at most 258, and the
/// window counts them.
pub proof fn lemma_copy_counted(
    length: Value<u16>,
    bytes: Seq<u8>,
    pos: int,
    win: WindowView,
    dist_tree: HuffmanTree<u8>,
)
    requires
        257 <= length.v <= 285,
        win.plain_pos + MAX_MATCH <= usize::MAX,
    ensures
        counted(win, copy_at(length, bytes, pos, win, dist_tree).win),
        copy_at(length, bytes, pos, win, dist_tree).win.bytes.len() <= win.bytes.len() + MAX_MATCH,
        copy_at(length, bytes, pos, win, dist_tree).out matches Some(TokenView::Window(copy)) ==> copy_at(
            length,
            bytes,
            pos,
            win,
            dist_tree,
        ).win.bytes.len() == win.bytes.len() + copy.length_value && copy.plain_pos == win.plain_pos,
{
    let step = copy_at(length, bytes, pos, win, dist_tree);
    match step.out {
        Some(TokenView::Window(copy)) => {
            let index = length.v - 257;
            lemma_tables();
            crate::cursor::lemma_bits_value_bound(bytes, pos, LENGTH_EXTRAS[index] as nat);
            let after = copy_match(win.bytes, copy.distance_value as int, copy.length_value as nat);
            lemma_copy_match_extends(win.bytes, copy.distance_value as int, copy.length_value as nat);
            let copied = after.skip(win.bytes.len() as int);
            assert(copied.len() == copy.length_value);
            assert((win.bytes + copied).len() == win.bytes.len() + copied.len());
        },
        _ => {},
    }
}

/// While tokens are read the window counts every byte that they append.
pub proof fn lemma_tokens_counted(
    out: Option<Seq<ValueView<TokenView>>>,
    bytes: Seq<u8>,
    pos: int,
    win: WindowView,
    lit_tree: HuffmanTree<u16>,
    dist_tree: HuffmanTree<u8>,
)
    requires
        room(bytes, pos, win),
    ensures
        counted(win, tokens_from(out, bytes, pos, win, lit_tree, dist_tree).win),
        room(
            bytes,
            tokens_from(out, bytes, pos, win, lit_tree, dist_tree).pos,
            tokens_from(out, bytes, pos, win, lit_tree, dist_tree).win,
        ),
    decreases 8 * bytes.len() - pos,
{
    let symbol = decode(bytes, pos, lit_tree, pos as usize, 0, 0);
    if !lit_tree.is_symbol() {
        lemma_decode_stays(bytes, pos, lit_tree, pos as usize, 0, 0);
        match symbol.res {
            Err(e) => {},
            Ok(literal) => {
                if literal.v <= 255 {
                    let v = literal.v as u8;
                    let token = TokenView::Literal(
                        LiteralTokenView { plain_pos: win.plain_pos, v, c: v as char, hex: hex_chars(seq![v]) },
                    );
                    let next = appended(win, seq![v]);
                    assert((win.bytes + seq![v]).len() == win.bytes.len() + 1);
                    lemma_tokens_counted(recorded(out, token, pos, symbol.pos), bytes, symbol.pos, next, lit_tree, dist_tree);
                } else if literal.v == 256 {
                } else if literal.v <= 285 {
                    let copy = copy_at(literal, bytes, symbol.pos, win, dist_tree);
                    lemma_copy_at_stays(literal, bytes, symbol.pos, win, dist_tree);
                    lemma_copy_counted(literal, bytes, symbol.pos, win, dist_tree);
                    match copy.out {
                        Some(token) => {
                            lemma_tokens_counted(
                                recorded(out, token, pos, copy.pos),
                                bytes,
                                copy.pos,
                                copy.win,
                                lit_tree,
                                dist_tree,
                            );
                        },
                        None => {},
                    }
                }
            },
        }
    }
}

/// The record of a block that was read to its end holds, as the start and
/// the end of the block in the plaintext, the count of the window before
/// and after the block; their difference is the number of bytes that
/// were appended while the block was read.
pub proof fn lemma_block_counted(bytes: Seq<u8>, pos: int, win: WindowView, keep: bool)
    requires
        room(bytes, pos, win),
    ensures
        counted(win, block_at(bytes, pos, win, keep).win),
        room(bytes, block_at(bytes, pos, win, keep).pos, block_at(bytes, pos, win, keep).win),
        block_at(bytes, pos, win, keep).res is Ok ==> (block_at(bytes, pos, win, keep).out matches Some(block)
            && block.plain_start == Some(win.plain_pos) && block.plain_end == Some(
            block_at(bytes, pos, win, keep).win.plain_pos,
        ) && block.plain_end->0 - block.plain_start->0 == block_at(bytes, pos, win, keep).win.bytes.len()
            - win.bytes.len()),
{
    reveal(block_at);
    lemma_block_stays(bytes, pos, win, keep);
    let header = header_at(bytes, pos);
    if header.res is Ok {
        let btype = header.out.btype->0.v;
        let at = header.pos;
        if btype == 0 {
            let body = stored_at(empty_stored(), bytes, at, win, keep);
            if body.res is Ok {
                let from = aligned(at) + 32;
                let len = body.out.len->0.v;
                let payload = bytes.subrange(from / 8, from / 8 + len);
                assert(payload.len() == len);
                assert((win.bytes + payload).len() == win.bytes.len() + payload.len());
            }
        } else if btype == 1 {
            let lit = build_tree(huffman_codes(count_up_u16(286), fixed_lens(at as usize)));
            let dist = build_tree(huffman_codes(count_up_u8(32), fixed_dist_lens(at as usize)));
            lemma_tokens_counted(None, bytes, at, win, lit.tree, dist.tree);
            lemma_tokens_counted(Some(Seq::empty()), bytes, at, win, lit.tree, dist.tree);
        } else if btype == 2 {
            let tables = dht_at(DynamicHuffmanTableView::empty(), bytes, at);
            lemma_dht_stays(DynamicHuffmanTableView::empty(), bytes, at);
            lemma_tokens_counted(None, bytes, tables.pos, win, tables.out.hlits_tree->0, tables.out.hdists_tree->0);
            lemma_tokens_counted(
                Some(Seq::empty()),
                bytes,
                tables.pos,
                win,
                tables.out.hlits_tree->0,
                tables.out.hdists_tree->0,
            );
        }
    }
}

/// Whether the record of a block spans as many bytes of plaintext as its
/// pieces decode to.
pub open spec fn block_spans_pieces(block: DeflateBlockView) -> bool {
    &&& block.plain_start is Some
    &&& block.plain_end is Some
    &&& decoded(Seq::empty(), block_pieces(block)).res is Ok
    &&& block.plain_end->0 - block.plain_start->0 == decoded(Seq::empty(), block_pieces(block)).bytes.len()
}

/// Whether every block of a list spans as many bytes as its pieces decode to.
pub open spec fn blocks_span_pieces(blocks: Seq<DeflateBlockView>) -> bool {
    forall|i: int| 0 <= i < blocks.len() ==> block_spans_pieces(#[trigger] blocks[i])
}

/// Where data is kept, every block of a stream that was read to its end
/// spans as many bytes of plaintext as it recorded.
pub proof fn lemma_deflate_counted(blocks: Seq<DeflateBlockView>, bytes: Seq<u8>, pos: int, win: WindowView)
    requires
        room(bytes, pos, win),
        blocks_span_pieces(blocks),
        deflate_from(blocks, bytes, pos, win, true).res is Ok,
    ensures
        blocks_span_pieces(deflate_from(blocks, bytes, pos, win, true).out),
        counted(win, deflate_from(blocks, bytes, pos, win, true).win),
    decreases 8 * bytes.len() - pos,
{
    let block = block_at(bytes, pos, win, true);
    lemma_block_stays(bytes, pos, win, true);
    lemma_block_counted(bytes, pos, win, true);
    lemma_block_accounts(bytes, pos, win);
    let b = block.out->0;
    lemma_decoded_shift(win.bytes, block_pieces(b));
    let plain = decoded(Seq::empty(), block_pieces(b)).bytes;
    assert((win.bytes + plain).len() == win.bytes.len() + plain.len());
    let next = with(blocks, block.out);
    assert(blocks_span_pieces(next)) by {
        assert forall|i: int| 0 <= i < next.len() implies block_spans_pieces(#[trigger] next[i]) by {
            if i < blocks.len() {
                assert(next[i] == blocks[i]);
            }
        }
    }
    if block.res->Ok_0 {
        lemma_deflate_counted(next, bytes, block.pos, block.win);
    }
}

} // verus!
