//! Where the values of a parsed stream lie in the input: every value that a
//! parse records spans bits that the parse has read.
use crate::cursor::{aligned, peek_bits_at, peek_le_at, pop_str_at};
use crate::data::{
    CompressedStreamView, DeflateBlockExtView, DeflateBlockView, DeflateStreamView, DynamicHuffmanTableView,
    GzipStreamView, HuffmanCodeView, HuffmanTree, LiteralTokenView, TokenView, Value, ValueView, ZlibStreamView,
};
use crate::deflate::{
    block_at, deflate_at, deflate_from, fixed_dist_lens, fixed_lens, header_at, lemma_block_stays, with,
};
use crate::dht::{
    code_lengths_from, count_up_u16, count_up_u8, dht_at, hclens_from, lemma_code_lengths_stay, lemma_hclens_stay,
    missing, repeated, HCLEN_ORDER,
};
use crate::huffman::{
    build_tree, by_symbol, coded, decode, huffman_codes, insert_by_symbol, lemma_build_from_not_symbol,
    lemma_decode_stays,
};
use crate::stream::{empty_deflate, gzip_body, gzip_opened, gzip_rest, stream_at, zlib_at, zlib_rest};
use crate::text::hex_chars;
use crate::tokens::{appended, copy_at, lemma_copy_at_stays, recorded, tokens_from, DISTANCE_EXTRAS, LENGTH_EXTRAS};
use crate::window::WindowView;
use crate::word::Unsigned;
use vstd::prelude::*;

verus! {

/// The number of bits of a buffer.
pub open spec fn bits(bytes: Seq<u8>) -> int {
    8 * (bytes.len() as int)
}

/// Whether a bit range of one bit or more lies between two positions.
pub open spec fn wide(start: usize, end: usize, lo: int, hi: int) -> bool {
    lo <= start < end <= hi
}

/// Whether the range of a value, if there is one, is of a given number of
/// bits between two positions.
pub open spec fn sized<T: Clone>(value: Option<Value<T>>, width: int, lo: int, hi: int) -> bool {
    value matches Some(v) ==> lo <= v.start && v.end - v.start == width && v.end <= hi
}

/// Whether every value of a list spans a given number of bits.
pub open spec fn each_sized(lens: Seq<Value<u8>>, width: int) -> bool {
    forall|i: int| 0 <= i < lens.len() ==> (#[trigger] lens[i]).end - lens[i].start == width
}

/// Whether every code length of a list was read from one bit or more
/// between two positions.
pub open spec fn lens_located(lens: Seq<Value<u8>>, lo: int, hi: int) -> bool {
    forall|i: int| 0 <= i < lens.len() ==> wide((#[trigger] lens[i]).start, lens[i].end, lo, hi)
}

/// A field of `n` bits spans exactly the bits it was read from.
pub proof fn lemma_bits_span<T: Unsigned>(bytes: Seq<u8>, pos: int, n: nat)
    requires
        0 <= pos,
        8 * bytes.len() <= usize::MAX,
    ensures
        peek_bits_at::<T>(bytes, pos, n) matches Ok(v) ==> v.start == pos && v.end == pos + n && v.end <= 8
            * bytes.len(),
{
}

/// An integer of whole bytes spans the first eight bits it was read from,
/// whatever its width.
pub proof fn lemma_le_span<T: Unsigned>(bytes: Seq<u8>, pos: int)
    requires
        0 <= pos,
        8 * bytes.len() <= usize::MAX,
    ensures
        peek_le_at::<T>(bytes, pos) matches Ok(v) ==> v.start == pos && v.end == pos + 8 && v.end <= 8 * bytes.len(),
{
    T::limits();
}

/// Code lengths that lie before a position lie before every later one.
pub proof fn lemma_lens_located_on(lens: Seq<Value<u8>>, lo: int, hi: int, later: int)
    requires
        lens_located(lens, lo, hi),
        hi <= later,
    ensures
        lens_located(lens, lo, later),
{
    assert forall|i: int| 0 <= i < lens.len() implies wide((#[trigger] lens[i]).start, lens[i].end, lo, later) by {
        assert(wide(lens[i].start, lens[i].end, lo, hi));
    }
}

/// The lengths of the code length codes span the three bits of each.
pub proof fn lemma_hclens_located(acc: Seq<Value<u8>>, bytes: Seq<u8>, pos: int, n: nat, lo: int)
    requires
        0 <= lo <= pos,
        8 * bytes.len() <= usize::MAX,
        lens_located(acc, lo, pos),
    ensures
        lens_located(hclens_from(acc, bytes, pos, n).out, lo, hclens_from(acc, bytes, pos, n).pos),
    decreases n,
{
    if n > 0 {
        match peek_bits_at::<u8>(bytes, pos, 3) {
            Err(e) => {},
            Ok(v) => {
                lemma_lens_located_on(acc, lo, pos, pos + 3);
                lemma_hclens_located(acc.push(v), bytes, pos + 3, (n - 1) as nat, lo);
            },
        }
    }
}

/// The lengths of the code length codes span three bits each.
pub proof fn lemma_hclens_sized(acc: Seq<Value<u8>>, bytes: Seq<u8>, pos: int, n: nat)
    requires
        0 <= pos,
        8 * bytes.len() <= usize::MAX,
        each_sized(acc, 3),
    ensures
        each_sized(hclens_from(acc, bytes, pos, n).out, 3),
    decreases n,
{
    if n > 0 {
        match peek_bits_at::<u8>(bytes, pos, 3) {
            Err(e) => {},
            Ok(v) => {
                lemma_hclens_sized(acc.push(v), bytes, pos + 3, (n - 1) as nat);
            },
        }
    }
}

/// Decoded code lengths span the bits of their symbol, and repeated ones
/// the bits from where their length came from to the end of the repeat count.
pub proof fn lemma_code_lengths_located(
    acc: Seq<Value<u8>>,
    bytes: Seq<u8>,
    pos: int,
    n: nat,
    tree: HuffmanTree<u8>,
    lo: int,
)
    requires
        0 <= lo <= pos,
        8 * bytes.len() <= usize::MAX,
        !tree.is_symbol(),
        lens_located(acc, lo, pos),
    ensures
        lens_located(
            code_lengths_from(acc, bytes, pos, n, tree).out,
            lo,
            code_lengths_from(acc, bytes, pos, n, tree).pos,
        ),
    decreases missing(n, acc.len()),
{
    if acc.len() < n {
        let symbol = decode(bytes, pos, tree, pos as usize, 0, 0);
        lemma_decode_stays(bytes, pos, tree, pos as usize, 0, 0);
        lemma_lens_located_on(acc, lo, pos, symbol.pos);
        match symbol.res {
            Err(e) => {},
            Ok(value) => {
                if value.v <= 15 {
                    lemma_code_lengths_located(acc.push(value), bytes, symbol.pos, n, tree, lo);
                } else if value.v <= 18 {
                    if !(value.v == 16 && acc.len() == 0) {
                        let what = if value.v == 16 { acc.last().v } else { 0 };
                        let start = if value.v == 16 { acc.last().start } else { value.start };
                        let least: nat = if value.v == 18 { 11 } else { 3 };
                        let width: nat = if value.v == 16 { 2 } else if value.v == 17 { 3 } else { 7 };
                        match peek_bits_at::<u8>(bytes, symbol.pos, width) {
                            Err(e) => {},
                            Ok(repeat) => {
                                let more = repeated(what, start, repeat.end, least + repeat.v as nat);
                                let at = symbol.pos + width;
                                assert(more.len() == least + repeat.v);
                                assert((acc + more).len() == acc.len() + more.len());
                                if value.v == 16 {
                                    assert(wide(acc.last().start, acc.last().end, lo, pos));
                                }
                                lemma_lens_located_on(acc, lo, pos, at);
                                assert forall|i: int| 0 <= i < (acc + more).len() implies wide(
                                    (#[trigger] (acc + more)[i]).start,
                                    (acc + more)[i].end,
                                    lo,
                                    at,
                                ) by {
                                    if i < acc.len() {
                                        assert((acc + more)[i] == acc[i]);
                                    } else {
                                        assert((acc + more)[i] == more[i - acc.len()]);
                                    }
                                }
                                lemma_code_lengths_located(acc + more, bytes, at, n, tree, lo);
                            },
                        }
                    }
                }
            },
        }
    }
}

/// Whether every entry has a code length that is not zero and meets a condition.
pub open spec fn entries_meet<T>(s: Seq<(T, Value<u8>)>, p: spec_fn(Value<u8>) -> bool) -> bool {
    forall|i: int| 0 <= i < s.len() ==> (#[trigger] s[i]).1.v != 0 && p(s[i].1)
}

proof fn lemma_coded_meet<T>(alphabet: Seq<T>, lens: Seq<Value<u8>>, p: spec_fn(Value<u8>) -> bool)
    requires
        forall|i: int| 0 <= i < lens.len() ==> p(#[trigger] lens[i]),
    ensures
        entries_meet(coded(alphabet, lens), p),
    decreases alphabet.len(),
{
    if alphabet.len() > 0 {
        lemma_coded_meet(alphabet.drop_last(), lens, p);
    }
}

proof fn lemma_insert_meets<T: Unsigned>(s: Seq<(T, Value<u8>)>, e: (T, Value<u8>), p: spec_fn(Value<u8>) -> bool)
    requires
        entries_meet(s, p),
        e.1.v != 0,
        p(e.1),
    ensures
        entries_meet(insert_by_symbol(s, e), p),
    decreases s.len(),
{
    if !(s.len() == 0 || s.last().0.value() <= e.0.value()) {
        lemma_insert_meets(s.drop_last(), e, p);
        assert forall|i: int| 0 <= i < s.drop_last().len() implies (#[trigger] s.drop_last()[i]).1.v != 0 && p(
            s.drop_last()[i].1,
        ) by {
            assert(s.drop_last()[i] == s[i]);
        }
    }
}

proof fn lemma_by_symbol_meets<T: Unsigned>(s: Seq<(T, Value<u8>)>, p: spec_fn(Value<u8>) -> bool)
    requires
        entries_meet(s, p),
    ensures
        entries_meet(by_symbol(s), p),
    decreases s.len(),
{
    if s.len() > 0 {
        assert forall|i: int| 0 <= i < s.drop_last().len() implies (#[trigger] s.drop_last()[i]).1.v != 0 && p(
            s.drop_last()[i].1,
        ) by {
            assert(s.drop_last()[i] == s[i]);
        }
        lemma_by_symbol_meets(s.drop_last(), p);
        lemma_insert_meets(by_symbol(s.drop_last()), s.last(), p);
    }
}

/// The code length of every code of a canonical code list is not zero,
/// and meets every condition that all the code lengths it was made from meet.
pub proof fn lemma_codes_meet<T: Unsigned>(alphabet: Seq<T>, lens: Seq<Value<u8>>, p: spec_fn(Value<u8>) -> bool)
    requires
        forall|i: int| 0 <= i < lens.len() ==> p(#[trigger] lens[i]),
    ensures
        forall|k: int|
            0 <= k < huffman_codes(alphabet, lens).len() ==> (#[trigger] huffman_codes(alphabet, lens)[k]).len.v >= 1
                && p(huffman_codes(alphabet, lens)[k].len),
{
    lemma_coded_meet(alphabet, lens, p);
    lemma_by_symbol_meets(coded(alphabet, lens), p);
}

/// Whether the code length of every code of a list was read from one bit
/// or more between two positions.
pub open spec fn codes_located<T>(codes: Seq<HuffmanCodeView<T>>, lo: int, hi: int) -> bool {
    forall|k: int| 0 <= k < codes.len() ==> wide((#[trigger] codes[k]).len.start, codes[k].len.end, lo, hi)
}

/// Whether the codes of a list, if there is one, are located.
pub open spec fn kept_codes_located<T>(codes: Option<Seq<HuffmanCodeView<T>>>, lo: int, hi: int) -> bool {
    codes matches Some(codes) ==> codes_located(codes, lo, hi)
}

/// Whether the code lengths of a list, if there is one, are located.
pub open spec fn kept_lens_located(lens: Option<Seq<Value<u8>>>, lo: int, hi: int) -> bool {
    lens matches Some(lens) ==> lens_located(lens, lo, hi)
}

/// Whether every value of the code tables of a dynamic block was read
/// between two positions: the three counts from five, five and four bits,
/// the lengths of the code length codes from three bits each, the code
/// lengths from one bit or more.
pub open spec fn dht_located(dht: DynamicHuffmanTableView, lo: int, hi: int) -> bool {
    &&& sized(dht.hlit, 5, lo, hi)
    &&& sized(dht.hdist, 5, lo, hi)
    &&& sized(dht.hclen, 4, lo, hi)
    &&& kept_lens_located(dht.hclens, lo, hi)
    &&& dht.hclens matches Some(lens) ==> each_sized(lens, 3)
    &&& kept_codes_located(dht.hclens_codes, lo, hi)
    &&& kept_lens_located(dht.hlits, lo, hi)
    &&& kept_codes_located(dht.hlits_codes, lo, hi)
    &&& kept_lens_located(dht.hdists, lo, hi)
    &&& kept_codes_located(dht.hdists_codes, lo, hi)
}

proof fn lemma_codes_located<T: Unsigned>(alphabet: Seq<T>, lens: Seq<Value<u8>>, lo: int, hi: int)
    requires
        lens_located(lens, lo, hi),
    ensures
        codes_located(huffman_codes(alphabet, lens), lo, hi),
        forall|k: int|
            0 <= k < huffman_codes(alphabet, lens).len() ==> (#[trigger] huffman_codes(alphabet, lens)[k]).len.v >= 1,
{
    lemma_codes_meet(alphabet, lens, |v: Value<u8>| wide(v.start, v.end, lo, hi));
}

/// The values of code tables that were read to the end lie in the input
/// behind the position where reading started, each on one bit or more.
pub proof fn lemma_dht_located(out: DynamicHuffmanTableView, bytes: Seq<u8>, pos: int, lo: int)
    requires
        0 <= lo <= pos,
        8 * bytes.len() <= usize::MAX,
        dht_at(out, bytes, pos).res is Ok,
        out.hdists is None,
    ensures
        dht_located(dht_at(out, bytes, pos).out, lo, bits(bytes)),
        dht_at(out, bytes, pos).out.hlits_tree matches Some(tree) && !tree.is_symbol(),
        dht_at(out, bytes, pos).out.hdists_tree matches Some(tree) && !tree.is_symbol(),
{
    let hi = bits(bytes);
    let hlit = peek_bits_at::<u8>(bytes, pos, 5)->Ok_0;
    let hdist = peek_bits_at::<u8>(bytes, pos + 5, 5)->Ok_0;
    let hclen = peek_bits_at::<u8>(bytes, pos + 10, 4)->Ok_0;
    let first = hclens_from(Seq::empty(), bytes, pos + 14, (hclen.v + 4) as nat);
    lemma_hclens_located(Seq::empty(), bytes, pos + 14, (hclen.v + 4) as nat, lo);
    lemma_hclens_sized(Seq::empty(), bytes, pos + 14, (hclen.v + 4) as nat);
    lemma_hclens_stay(Seq::empty(), bytes, pos + 14, (hclen.v + 4) as nat);
    lemma_lens_located_on(first.out, lo, first.pos, hi);
    let codes = huffman_codes(HCLEN_ORDER@, first.out);
    lemma_codes_located(HCLEN_ORDER@, first.out, lo, hi);
    let built = build_tree(codes);
    lemma_build_from_not_symbol(HuffmanTree::<u8>::empty(), codes);
    let n = (hlit.v + 257 + hdist.v + 1) as nat;
    let second = code_lengths_from(Seq::empty(), bytes, first.pos, n, built.tree);
    lemma_code_lengths_located(Seq::empty(), bytes, first.pos, n, built.tree, lo);
    lemma_code_lengths_stay(Seq::empty(), bytes, first.pos, n, built.tree);
    lemma_lens_located_on(second.out, lo, second.pos, hi);
    let count = hlit.v + 257;
    let lits = second.out.take(count);
    let dists = second.out.skip(count);
    crate::dht::lemma_code_lengths_count(Seq::empty(), bytes, first.pos, n, built.tree);
    assert(lens_located(lits, lo, hi)) by {
        assert forall|i: int| 0 <= i < lits.len() implies wide((#[trigger] lits[i]).start, lits[i].end, lo, hi) by {
            assert(lits[i] == second.out[i]);
        }
    }
    assert(lens_located(dists, lo, hi)) by {
        assert forall|i: int| 0 <= i < dists.len() implies wide((#[trigger] dists[i]).start, dists[i].end, lo, hi) by {
            assert(dists[i] == second.out[i + count]);
        }
    }
    lemma_codes_located(count_up_u16(286), lits, lo, hi);
    lemma_codes_located(count_up_u8(30), dists, lo, hi);
    lemma_build_from_not_symbol(HuffmanTree::<u16>::empty(), huffman_codes(count_up_u16(286), lits));
    lemma_build_from_not_symbol(HuffmanTree::<u8>::empty(), huffman_codes(count_up_u8(30), dists));
}

/// Whether a token spans one bit or more between two positions and, if it
/// is a copy, its four fields follow one another from its first bit to
/// its last, the extra bits as many as the tables say.
pub open spec fn token_located(token: ValueView<TokenView>, lo: int, hi: int) -> bool {
    &&& wide(token.start, token.end, lo, hi)
    &&& token.v matches TokenView::Window(copy) ==> {
        &&& 257 <= copy.length.v <= 285
        &&& copy.distance.v < 30
        &&& copy.length.start == token.start
        &&& copy.length.start < copy.length.end
        &&& copy.length.end == copy.length_extra.start
        &&& copy.length_extra.end - copy.length_extra.start == LENGTH_EXTRAS[copy.length.v - 257]
        &&& copy.length_extra.end == copy.distance.start
        &&& copy.distance.start <= copy.distance.end
        &&& copy.distance.end == copy.distance_extra.start
        &&& copy.distance_extra.end - copy.distance_extra.start == DISTANCE_EXTRAS[copy.distance.v as int]
        &&& copy.distance_extra.end == token.end
    }
}

/// Whether every token of a list is located.
pub open spec fn tokens_located(tokens: Seq<ValueView<TokenView>>, lo: int, hi: int) -> bool {
    forall|i: int| 0 <= i < tokens.len() ==> token_located(#[trigger] tokens[i], lo, hi)
}

/// Whether the tokens of a block, where they were kept, are located.
pub open spec fn kept_tokens_located(tokens: Option<Seq<ValueView<TokenView>>>, lo: int, hi: int) -> bool {
    tokens matches Some(tokens) ==> tokens_located(tokens, lo, hi)
}

/// The tokens that are kept span the bits they were read from.
pub proof fn lemma_tokens_located(
    out: Option<Seq<ValueView<TokenView>>>,
    bytes: Seq<u8>,
    pos: int,
    win: WindowView,
    lit_tree: HuffmanTree<u16>,
    dist_tree: HuffmanTree<u8>,
    lo: int,
)
    requires
        0 <= lo <= pos,
        8 * bytes.len() <= usize::MAX,
        kept_tokens_located(out, lo, bits(bytes)),
    ensures
        kept_tokens_located(tokens_from(out, bytes, pos, win, lit_tree, dist_tree).out, lo, bits(bytes)),
    decreases 8 * bytes.len() - pos,
{
    let symbol = decode(bytes, pos, lit_tree, pos as usize, 0, 0);
    if !lit_tree.is_symbol() {
        lemma_decode_stays(bytes, pos, lit_tree, pos as usize, 0, 0);
        match symbol.res {
            Err(e) => {},
            Ok(literal) => {
                if literal.v <= 255 {
                    let v = literal.v as u8;
                    let token = TokenView::Literal(
                        LiteralTokenView { plain_pos: win.plain_pos, v, c: v as char, hex: hex_chars(seq![v]) },
                    );
                    lemma_tokens_located(
                        recorded(out, token, pos, symbol.pos),
                        bytes,
                        symbol.pos,
                        appended(win, seq![v]),
                        lit_tree,
                        dist_tree,
                        lo,
                    );
                } else if literal.v == 256 {
                } else if literal.v <= 285 {
                    let copy = copy_at(literal, bytes, symbol.pos, win, dist_tree);
                    lemma_copy_at_stays(literal, bytes, symbol.pos, win, dist_tree);
                    match copy.out {
                        Some(token) => {
                            let index = literal.v - 257;
                            let at = symbol.pos + LENGTH_EXTRAS[index];
                            lemma_decode_stays(bytes, at, dist_tree, at as usize, 0, 0);
                            crate::tokens::lemma_tables();
                            lemma_tokens_located(
                                recorded(out, token, pos, copy.pos),
                                bytes,
                                copy.pos,
                                copy.win,
                                lit_tree,
                                dist_tree,
                                lo,
                            );
                        },
                        None => {},
                    }
                }
            },
        }
    }
}

/// Whether every value of a block was read between two positions: the
/// header fields from one and two bits, the integers on record from
/// eight, code lengths and tokens from one bit or more, the payload of a
/// stored block from eight bits for each byte.
pub open spec fn block_located(block: DeflateBlockView, lo: int, hi: int) -> bool {
    &&& sized(block.header.bfinal, 1, lo, hi)
    &&& sized(block.header.btype, 2, lo, hi)
    &&& match block.ext {
        Some(DeflateBlockExtView::Stored(stored)) => {
            &&& sized(stored.len, 8, lo, hi)
            &&& sized(stored.nlen, 8, lo, hi)
            &&& stored.data matches Some(data) ==> lo <= data.start <= data.end <= hi && stored.len is Some
                && data.end - data.start == 8 * stored.len->0.v
        },
        Some(DeflateBlockExtView::Fixed(fixed)) => kept_tokens_located(fixed.tokens, lo, hi),
        Some(DeflateBlockExtView::Dynamic(dynamic)) => {
            &&& dynamic.dht matches Some(dht) ==> dht_located(dht, lo, hi)
            &&& kept_tokens_located(dynamic.tokens, lo, hi)
        },
        None => true,
    }
}

/// Whether every block of a list is located.
pub open spec fn blocks_located(blocks: Seq<DeflateBlockView>, lo: int, hi: int) -> bool {
    forall|i: int| 0 <= i < blocks.len() ==> block_located(#[trigger] blocks[i], lo, hi)
}

/// The values of a block that was read to its end lie in the input behind
/// the position where reading started.
pub proof fn lemma_block_located(bytes: Seq<u8>, pos: int, win: WindowView, keep: bool, lo: int)
    requires
        0 <= lo <= pos,
        8 * bytes.len() <= usize::MAX,
        block_at(bytes, pos, win, keep).res is Ok,
    ensures
        block_at(bytes, pos, win, keep).out matches Some(block) && block_located(block, lo, bits(bytes)),
{
    reveal(block_at);
    let header = header_at(bytes, pos);
    let btype = header.out.btype->0.v;
    let at = header.pos;
    if btype == 0 {
        let start = aligned(at);
        lemma_le_span::<u16>(bytes, start);
        lemma_le_span::<u16>(bytes, start + 16);
    } else if btype == 1 {
        let lit = build_tree(huffman_codes(count_up_u16(286), fixed_lens(at as usize)));
        let dist = build_tree(huffman_codes(count_up_u8(32), fixed_dist_lens(at as usize)));
        lemma_tokens_located(None, bytes, at, win, lit.tree, dist.tree, lo);
        lemma_tokens_located(Some(Seq::empty()), bytes, at, win, lit.tree, dist.tree, lo);
    } else if btype == 2 {
        let tables = dht_at(DynamicHuffmanTableView::empty(), bytes, at);
        crate::dht::lemma_dht_stays(DynamicHuffmanTableView::empty(), bytes, at);
        lemma_dht_located(DynamicHuffmanTableView::empty(), bytes, at, lo);
        lemma_tokens_located(None, bytes, tables.pos, win, tables.out.hlits_tree->0, tables.out.hdists_tree->0, lo);
        lemma_tokens_located(
            Some(Seq::empty()),
            bytes,
            tables.pos,
            win,
            tables.out.hlits_tree->0,
            tables.out.hdists_tree->0,
            lo,
        );
    }
}

/// The values of the blocks of a stream that was read to its end lie in
/// the input behind the position where reading started.
pub proof fn lemma_deflate_located(
    blocks: Seq<DeflateBlockView>,
    bytes: Seq<u8>,
    pos: int,
    win: WindowView,
    keep: bool,
    lo: int,
)
    requires
        0 <= lo <= pos,
        8 * bytes.len() <= usize::MAX,
        blocks_located(blocks, lo, bits(bytes)),
        deflate_from(blocks, bytes, pos, win, keep).res is Ok,
    ensures
        blocks_located(deflate_from(blocks, bytes, pos, win, keep).out, lo, bits(bytes)),
        pos <= deflate_from(blocks, bytes, pos, win, keep).pos <= bits(bytes),
    decreases 8 * bytes.len() - pos,
{
    let block = block_at(bytes, pos, win, keep);
    lemma_block_stays(bytes, pos, win, keep);
    lemma_block_located(bytes, pos, win, keep, lo);
    let next = with(blocks, block.out);
    assert(blocks_located(next, lo, bits(bytes))) by {
        assert forall|i: int| 0 <= i < next.len() implies block_located(#[trigger] next[i], lo, bits(bytes)) by {
            if i < blocks.len() {
                assert(next[i] == blocks[i]);
            }
        }
    }
    if block.res->Ok_0 {
        lemma_deflate_located(next, bytes, block.pos, block.win, keep, lo);
    }
}

/// Whether the range of a text, if there is one, is of one bit or more
/// between two positions.
pub open spec fn text_located(text: Option<ValueView<Seq<char>>>, lo: int, hi: int) -> bool {
    text matches Some(v) ==> wide(v.start, v.end, lo, hi)
}

/// Whether the blocks of a DEFLATE stream, if there is one, are located.
pub open spec fn kept_deflate_located(deflate: Option<DeflateStreamView>, lo: int, hi: int) -> bool {
    deflate matches Some(deflate) ==> blocks_located(deflate.blocks, lo, hi)
}

/// Whether every value of a stream was read between two positions.
pub open spec fn stream_located(stream: CompressedStreamView, lo: int, hi: int) -> bool {
    match stream {
        CompressedStreamView::Raw(deflate) => blocks_located(deflate.blocks, lo, hi),
        CompressedStreamView::Gzip(gzip) => {
            &&& sized(Some(gzip.magic), 8, lo, hi)
            &&& sized(gzip.method, 8, lo, hi)
            &&& sized(gzip.flags, 8, lo, hi)
            &&& sized(gzip.time, 8, lo, hi)
            &&& sized(gzip.xflags, 8, lo, hi)
            &&& sized(gzip.os, 8, lo, hi)
            &&& text_located(gzip.name, lo, hi)
            &&& kept_deflate_located(gzip.deflate, lo, hi)
            &&& sized(gzip.checksum, 8, lo, hi)
            &&& sized(gzip.len, 8, lo, hi)
        },
        CompressedStreamView::Dht(dht) => dht_located(dht, lo, hi),
        CompressedStreamView::Zlib(zlib) => {
            &&& sized(zlib.cmf, 8, lo, hi)
            &&& sized(zlib.flg, 8, lo, hi)
            &&& sized(zlib.dictid, 8, lo, hi)
            &&& kept_deflate_located(zlib.deflate, lo, hi)
            &&& sized(zlib.adler32, 8, lo, hi)
        },
    }
}

/// Whether an output holds nothing that a parse to the end would keep:
/// no blocks of a raw stream, no dictionary identifier of a zlib stream,
/// no code lengths of distances of their own in code tables.
pub open spec fn unwritten(out: Option<CompressedStreamView>) -> bool {
    match out {
        Some(CompressedStreamView::Raw(deflate)) => deflate.blocks.len() == 0,
        Some(CompressedStreamView::Dht(dht)) => dht.hdists is None,
        Some(CompressedStreamView::Zlib(zlib)) => zlib.dictid is None,
        _ => true,
    }
}

proof fn lemma_find_nul_on(bytes: Seq<u8>, index: int)
    requires
        0 <= index,
    ensures
        index <= crate::cursor::find_nul(bytes, index) || crate::cursor::find_nul(bytes, index) == bytes.len(),
    decreases bytes.len() - index,
{
    if index < bytes.len() && bytes[index] != 0 {
        lemma_find_nul_on(bytes, index + 1);
    }
}

proof fn lemma_gzip_rest_located(out: GzipStreamView, bytes: Seq<u8>, at: int, win: WindowView, keep: bool, lo: int)
    requires
        0 <= lo <= at,
        8 * bytes.len() <= usize::MAX,
        gzip_rest(out, bytes, at, win, keep).res is Ok,
    ensures
        gzip_rest(out, bytes, at, win, keep).out == (GzipStreamView {
            deflate: gzip_rest(out, bytes, at, win, keep).out.deflate,
            checksum: gzip_rest(out, bytes, at, win, keep).out.checksum,
            len: gzip_rest(out, bytes, at, win, keep).out.len,
            ..out
        }),
        kept_deflate_located(gzip_rest(out, bytes, at, win, keep).out.deflate, lo, bits(bytes)),
        sized(gzip_rest(out, bytes, at, win, keep).out.checksum, 8, lo, bits(bytes)),
        sized(gzip_rest(out, bytes, at, win, keep).out.len, 8, lo, bits(bytes)),
{
    let deflate = deflate_at(empty_deflate(), bytes, at, win, keep);
    lemma_deflate_located(Seq::empty(), bytes, at, win, keep, lo);
    lemma_le_span::<u32>(bytes, deflate.pos);
    lemma_le_span::<u32>(bytes, deflate.pos + 32);
}

proof fn lemma_zlib_rest_located(out: ZlibStreamView, bytes: Seq<u8>, at: int, win: WindowView, keep: bool, lo: int)
    requires
        0 <= lo <= at,
        8 * bytes.len() <= usize::MAX,
        zlib_rest(out, bytes, at, win, keep).res is Ok,
    ensures
        zlib_rest(out, bytes, at, win, keep).out == (ZlibStreamView {
            deflate: zlib_rest(out, bytes, at, win, keep).out.deflate,
            adler32: zlib_rest(out, bytes, at, win, keep).out.adler32,
            ..out
        }),
        kept_deflate_located(zlib_rest(out, bytes, at, win, keep).out.deflate, lo, bits(bytes)),
        sized(zlib_rest(out, bytes, at, win, keep).out.adler32, 8, lo, bits(bytes)),
{
    let deflate = deflate_at(empty_deflate(), bytes, at, win, keep);
    lemma_deflate_located(Seq::empty(), bytes, at, win, keep, lo);
    lemma_le_span::<u32>(bytes, deflate.pos);
}

proof fn lemma_zlib_located(zlib: ZlibStreamView, bytes: Seq<u8>, pos: int, win: WindowView, keep: bool)
    requires
        0 <= pos,
        8 * bytes.len() <= usize::MAX,
        zlib.dictid is None,
        zlib_at(zlib, bytes, pos, win, keep).res is Ok,
    ensures
        stream_located(CompressedStreamView::Zlib(zlib_at(zlib, bytes, pos, win, keep).out), pos, bits(bytes)),
{
    lemma_le_span::<u8>(bytes, pos);
    lemma_le_span::<u8>(bytes, pos + 8);
    lemma_le_span::<u32>(bytes, pos + 16);
    let cmf = peek_le_at::<u8>(bytes, pos)->Ok_0;
    let flg = peek_le_at::<u8>(bytes, pos + 8)->Ok_0;
    let header = ZlibStreamView { cmf: Some(cmf), flg: Some(flg), ..zlib };
    if flg.v & crate::stream::ZLIB_FDICT != 0 {
        let dictid = peek_le_at::<u32>(bytes, pos + 16)->Ok_0;
        lemma_zlib_rest_located(ZlibStreamView { dictid: Some(dictid), ..header }, bytes, pos + 48, win, keep, pos);
    } else {
        lemma_zlib_rest_located(header, bytes, pos + 16, win, keep, pos);
    }
}

proof fn lemma_gzip_header_located(out: GzipStreamView, bytes: Seq<u8>, pos: int, win: WindowView, keep: bool, lo: int)
    requires
        0 <= lo <= pos,
        8 * bytes.len() <= usize::MAX,
        gzip_body(out, bytes, pos, win, keep).res is Ok,
        sized(Some(out.magic), 8, lo, bits(bytes)),
        out.name is None,
    ensures
        stream_located(CompressedStreamView::Gzip(gzip_body(out, bytes, pos, win, keep).out), lo, bits(bytes)),
{
    lemma_le_span::<u8>(bytes, pos);
    lemma_le_span::<u8>(bytes, pos + 8);
    lemma_le_span::<u32>(bytes, pos + 16);
    lemma_le_span::<u8>(bytes, pos + 48);
    lemma_le_span::<u8>(bytes, pos + 56);
    let method = peek_le_at::<u8>(bytes, pos)->Ok_0;
    let flags = peek_le_at::<u8>(bytes, pos + 8)->Ok_0;
    let time = peek_le_at::<u32>(bytes, pos + 16)->Ok_0;
    let xflags = peek_le_at::<u8>(bytes, pos + 48)->Ok_0;
    let os = peek_le_at::<u8>(bytes, pos + 56)->Ok_0;
    let header = GzipStreamView {
        method: Some(method),
        flags: Some(flags),
        time: Some(time),
        xflags: Some(xflags),
        os: Some(os),
        ..out
    };
    let at = pos + 64;
    if flags.v & crate::stream::GZIP_FNAME != 0 {
        let name = pop_str_at(None, bytes, at);
        lemma_find_nul_on(bytes, at / 8);
        lemma_gzip_rest_located(GzipStreamView { name: name.out, ..header }, bytes, name.pos, win, keep, lo);
    } else {
        lemma_gzip_rest_located(header, bytes, at, win, keep, lo);
    }
}

/// In a parse to the end every value that the output holds was read from
/// the input behind the position where the parse started. Fields of a
/// fixed number of bits span that number, integers of whole bytes eight
/// bits on record; code lengths, tokens and names span one bit or more;
/// the extra bits of a copy span as many bits as the tables say and the
/// payload of a stored block eight for each byte, which may be none.
/// The output that the parse starts from must hold nothing that the parse
/// would keep.
pub proof fn lemma_stream_located(out: Option<CompressedStreamView>, bytes: Seq<u8>, pos: int, win: WindowView, keep: bool)
    requires
        0 <= pos,
        8 * bytes.len() <= usize::MAX,
        unwritten(out),
        stream_at(out, bytes, pos, win, keep).res is Ok,
    ensures
        stream_at(out, bytes, pos, win, keep).out matches Some(stream) && stream_located(stream, pos, bits(bytes)),
{
    match out {
        Some(CompressedStreamView::Raw(deflate)) => {
            lemma_deflate_located(deflate.blocks, bytes, pos, win, keep, pos);
        },
        Some(CompressedStreamView::Dht(dht)) => {
            lemma_dht_located(dht, bytes, pos, pos);
        },
        Some(CompressedStreamView::Zlib(zlib)) => {
            lemma_zlib_located(zlib, bytes, pos, win, keep);
        },
        _ => {
            lemma_le_span::<u16>(bytes, pos);
            let magic = peek_le_at::<u16>(bytes, pos)->Ok_0;
            lemma_gzip_header_located(gzip_opened(magic), bytes, pos + 16, win, keep, pos);
        },
    }
}

} // verus!
