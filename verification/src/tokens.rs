//! The tokens of a compressed block: literals, the end of the block, and
//! copies from the window, each a length and a distance.
use crate::cursor::{in_reach, peek_bits_at, DataStream};
use crate::data::{
    opt_views, EobToken, HuffmanTree, LiteralToken, LiteralTokenView, Token, TokenView, Value, ValueView,
    WindowToken, WindowTokenView,
};
use crate::error::{failure, lift, Error, ErrorView};
use crate::huffman::{decode, lemma_decode_stays, parse_huffman_code};
use crate::step::Step;
use crate::text::{hex_chars, hex_encode};
use crate::window::{copy_match, Window, WindowView};
use crate::Settings;
use vstd::prelude::*;

verus! {

/// The number of extra bits of each length symbol, from symbol 257 on.
pub const LENGTH_EXTRAS: [u8; 29] = [
    0, 0, 0, 0, 0, 0, 0, 0, 1, 1, 1, 1, 2, 2, 2, 2, 3, 3, 3, 3, 4, 4, 4, 4, 5, 5, 5, 5, 0,
];

/// The smallest length of each length symbol.
pub const LENGTH_BASES: [u16; 29] = [
    3, 4, 5, 6, 7, 8, 9, 10, 11, 13, 15, 17, 19, 23, 27, 31, 35, 43, 51, 59, 67, 83, 99, 115, 131, 163, 195, 227,
    258,
];

/// The number of extra bits of each distance symbol.
pub const DISTANCE_EXTRAS: [u8; 30] = [
    0, 0, 0, 0, 1, 1, 2, 2, 3, 3, 4, 4, 5, 5, 6, 6, 7, 7, 8, 8, 9, 9, 10, 10, 11, 11, 12, 12, 13, 13,
];

/// The smallest distance of each distance symbol.
pub const DISTANCE_BASES: [u16; 30] = [
    1, 2, 3, 4, 5, 7, 9, 13, 17, 25, 33, 49, 65, 97, 129, 193, 257, 385, 513, 769, 1025, 1537, 2049, 3073, 4097,
    6145, 8193, 12289, 16385, 24577,
];

/// The longest copy that a token can stand for.
pub const MAX_MATCH: usize = 258;

/// Whether the plaintext that the rest of the input can still produce
/// fits the counters: each bit left stands for at most 258 bytes.
pub open spec fn roomy(data: DataStream, plain_pos: usize) -> bool {
    &&& data.wf()
    &&& data.end + 16 <= usize::MAX
    &&& data.pos <= data.end ==> plain_pos + MAX_MATCH * (data.end - data.pos) <= usize::MAX
}

/// The largest length and distance of each symbol fit 16 bits, and no
/// length is above 258 or distance above 32768.
pub proof fn lemma_tables()
    ensures
        forall|i: int| 0 <= i < 29 ==> (#[trigger] LENGTH_EXTRAS[i]) <= 5,
        forall|i: int| 0 <= i < 30 ==> (#[trigger] DISTANCE_EXTRAS[i]) <= 13,
        forall|i: int|
            0 <= i < 29 ==> (#[trigger] LENGTH_BASES[i]) + vstd::arithmetic::power2::pow2(LENGTH_EXTRAS[i] as nat) - 1
                <= MAX_MATCH,
        forall|i: int|
            0 <= i < 30 ==> (#[trigger] DISTANCE_BASES[i]) + vstd::arithmetic::power2::pow2(
                DISTANCE_EXTRAS[i] as nat,
            ) - 1 <= 0x8000,
{
    vstd::arithmetic::power2::lemma2_to64();
}

/// The window after more plaintext.
pub open spec fn appended(win: WindowView, bytes: Seq<u8>) -> WindowView {
    WindowView { bytes: win.bytes + bytes, plain_pos: (win.plain_pos + bytes.len()) as usize }
}

/// The token list with one more token, if tokens are kept.
pub open spec fn recorded(out: Option<Seq<ValueView<TokenView>>>, token: TokenView, start: int, end: int) -> Option<
    Seq<ValueView<TokenView>>,
> {
    match out {
        Some(tokens) => Some(tokens.push(ValueView { v: token, start: start as usize, end: end as usize })),
        None => None,
    }
}

/// What reading the rest of a copy gives, after its length symbol: the
/// extra bits of the length, the distance symbol, which must be below 30,
/// and its extra bits. The token holds the bytes copied in hexadecimal.
pub open spec fn copy_at(
    length: Value<u16>,
    bytes: Seq<u8>,
    pos: int,
    win: WindowView,
    dist_tree: HuffmanTree<u8>,
) -> Step<Option<TokenView>, ()> {
    let index = length.v - 257;
    match peek_bits_at::<u8>(bytes, pos, LENGTH_EXTRAS[index] as nat) {
        Err(e) => Step { out: None, pos, win, res: Err(e) },
        Ok(length_extra) => {
            let length_value = (LENGTH_BASES[index] + length_extra.v) as u16;
            let at = pos + LENGTH_EXTRAS[index];
            let symbol = decode(bytes, at, dist_tree, at as usize, 0, 0);
            match symbol.res {
                Err(e) => Step { out: None, pos: symbol.pos, win, res: Err(e) },
                Ok(distance) => {
                    if distance.v >= 30 {
                        Step { out: None, pos: symbol.pos, win, res: Err(failure(symbol.pos, "Distance extra bits"@)) }
                    } else {
                        match peek_bits_at::<u16>(bytes, symbol.pos, DISTANCE_EXTRAS[distance.v as int] as nat) {
                            Err(e) => Step { out: None, pos: symbol.pos, win, res: Err(e) },
                            Ok(distance_extra) => {
                                let distance_value = (DISTANCE_BASES[distance.v as int] + distance_extra.v) as u16;
                                let after = copy_match(win.bytes, distance_value as int, length_value as nat);
                                let copied = after.skip(win.bytes.len() as int);
                                Step {
                                    out: Some(
                                        TokenView::Window(
                                            WindowTokenView {
                                                plain_pos: win.plain_pos,
                                                length,
                                                length_extra,
                                                length_value,
                                                distance,
                                                distance_extra,
                                                distance_value,
                                                hex: hex_chars(copied),
                                            },
                                        ),
                                    ),
                                    pos: symbol.pos + DISTANCE_EXTRAS[distance.v as int],
                                    win: appended(win, copied),
                                    res: Ok(()),
                                }
                            },
                        }
                    }
                },
            }
        },
    }
}

/// What reading tokens from a position on gives, up to the end of the
/// block. Symbols below 256 are literals, 256 ends the block, 257 to 285
/// start a copy; others are a failure. A token spans from its first bit to
/// the last bit read for it. A tree that is a lone symbol reads nothing.
pub open spec fn tokens_from(
    out: Option<Seq<ValueView<TokenView>>>,
    bytes: Seq<u8>,
    pos: int,
    win: WindowView,
    lit_tree: HuffmanTree<u16>,
    dist_tree: HuffmanTree<u8>,
) -> Step<Option<Seq<ValueView<TokenView>>>, ()>
    decreases 8 * bytes.len() - pos,
{
    let symbol = decode(bytes, pos, lit_tree, pos as usize, 0, 0);
    if lit_tree.is_symbol() {
        Step { out, pos, win, res: Ok(()) }
    } else {
        match symbol.res {
            Err(e) => Step { out, pos: symbol.pos, win, res: Err(e) },
            Ok(literal) => {
                proof {
                    lemma_decode_stays(bytes, pos, lit_tree, pos as usize, 0, 0);
                }
                if literal.v <= 255 {
                    let v = literal.v as u8;
                    let token = TokenView::Literal(
                        LiteralTokenView { plain_pos: win.plain_pos, v, c: v as char, hex: hex_chars(seq![v]) },
                    );
                    tokens_from(
                        recorded(out, token, pos, symbol.pos),
                        bytes,
                        symbol.pos,
                        appended(win, seq![v]),
                        lit_tree,
                        dist_tree,
                    )
                } else if literal.v == 256 {
                    let token = TokenView::Eob(EobToken { plain_pos: win.plain_pos });
                    Step { out: recorded(out, token, pos, symbol.pos), pos: symbol.pos, win, res: Ok(()) }
                } else if literal.v <= 285 {
                    let copy = copy_at(literal, bytes, symbol.pos, win, dist_tree);
                    match copy.out {
                        Some(token) => {
                            proof {
                                lemma_copy_at_stays(literal, bytes, symbol.pos, win, dist_tree);
                            }
                            tokens_from(recorded(out, token, pos, copy.pos), bytes, copy.pos, copy.win, lit_tree, dist_tree)
                        },
                        None => Step { out, pos: copy.pos, win, res: copy.res },
                    }
                } else {
                    Step { out, pos: symbol.pos, win, res: Err(failure(symbol.pos, "Literal"@)) }
                }
            },
        }
    }
}

/// What reading the tokens of a block gives. Where data is kept the token
/// list starts empty; where it is not, no token is recorded.
pub open spec fn tokens_at(
    out: Option<Seq<ValueView<TokenView>>>,
    bytes: Seq<u8>,
    pos: int,
    win: WindowView,
    lit_tree: HuffmanTree<u16>,
    dist_tree: HuffmanTree<u8>,
    keep: bool,
) -> Step<Option<Seq<ValueView<TokenView>>>, ()> {
    tokens_from(if keep { Some(Seq::empty()) } else { out }, bytes, pos, win, lit_tree, dist_tree)
}

/// A copy moves forward and stays within the input, and appends no more than 258 bytes.
pub proof fn lemma_copy_at_stays(
    length: Value<u16>,
    bytes: Seq<u8>,
    pos: int,
    win: WindowView,
    dist_tree: HuffmanTree<u8>,
)
    requires
        257 <= length.v <= 285,
    ensures
        pos <= copy_at(length, bytes, pos, win, dist_tree).pos,
        pos <= 8 * bytes.len() ==> copy_at(length, bytes, pos, win, dist_tree).pos <= 8 * bytes.len(),
        copy_at(length, bytes, pos, win, dist_tree).res is Ok <==> copy_at(length, bytes, pos, win, dist_tree).out is Some,
{
    let index = length.v - 257;
    match peek_bits_at::<u8>(bytes, pos, LENGTH_EXTRAS[index] as nat) {
        Err(e) => {},
        Ok(length_extra) => {
            let at = pos + LENGTH_EXTRAS[index];
            lemma_decode_stays(bytes, at, dist_tree, at as usize, 0, 0);
        },
    }
}

/// Reads the rest of a copy after its length symbol, and makes the copy in the window.
pub fn parse_copy(data: &mut DataStream, window: &mut Window, length: Value<u16>, hdists_tree: &HuffmanTree<u8>) -> (r:
    Result<Token, Error>)
    requires
        old(window).wf(),
        old(data).wf(),
        257 <= length.v <= 285,
        old(data).pos <= old(data).end,
        old(window)@.plain_pos + MAX_MATCH <= usize::MAX,
    ensures
        final(window).wf(),
        final(data).wf(),
        ({
            let step = copy_at(length, old(data).bytes@, old(data).pos as int, old(window)@, *hdists_tree);
            &&& match r {
                Ok(token) => Some(token@) == step.out,
                Err(_) => step.out is None,
            }
            &&& final(data).moved(*old(data), step.pos)
            &&& final(window)@ == step.win
            &&& r matches Err(e) ==> Err::<(), ErrorView>(e@) == step.res
            &&& r is Ok ==> step.res is Ok
            &&& final(window)@.plain_pos <= old(window)@.plain_pos + MAX_MATCH
        }),
{
    proof {
        lemma_tables();
        vstd::arithmetic::power2::lemma2_to64();
    }
    let plain_pos = window.plain_pos();
    let index: usize = length.v as usize - 257;
    let mut slot: Option<Value<u8>> = None;
    let length_extra = match data.pop_bits::<u8>(&mut slot, LENGTH_EXTRAS[index] as usize) {
        Err(e) => {
            return Err(e);
        },
        Ok(v) => v,
    };
    proof {
        crate::cursor::lemma_bits_value_bound(old(data).bytes@, old(data).pos as int, LENGTH_EXTRAS[index as int] as nat);
    }
    let length_value: u16 = LENGTH_BASES[index] + length_extra.v as u16;
    let distance_start = data.pos;
    proof {
        lemma_decode_stays(data.bytes@, data.pos as int, *hdists_tree, distance_start, 0, 0);
    }
    let distance = match parse_huffman_code(data, hdists_tree, distance_start, 0, 0) {
        Err(e) => {
            return Err(e);
        },
        Ok(v) => v,
    };
    if distance.v as usize >= 30 {
        return Err(data.parse_error("Distance extra bits"));
    }
    let ghost at = data.pos as int;
    let mut slot: Option<Value<u16>> = None;
    let distance_extra = match data.pop_bits::<u16>(&mut slot, DISTANCE_EXTRAS[distance.v as usize] as usize) {
        Err(e) => {
            return Err(e);
        },
        Ok(v) => v,
    };
    proof {
        crate::cursor::lemma_bits_value_bound(old(data).bytes@, at, DISTANCE_EXTRAS[distance.v as int] as nat);
    }
    let distance_value: u16 = DISTANCE_BASES[distance.v as usize] + distance_extra.v;
    let copied = window.append_match(distance_value as usize, length_value as usize);
    proof {
        assert((old(window)@.bytes + copied@).skip(old(window)@.bytes.len() as int) =~= copied@);
    }
    Ok(
        Token::Window(
            WindowToken {
                plain_pos,
                length,
                length_extra,
                length_value,
                distance,
                distance_extra,
                distance_value,
                hex: hex_encode(copied.as_slice()),
            },
        ),
    )
}

/// Reads the tokens of a block up to its end, and appends the plaintext
/// they stand for to the window.
pub fn parse_tokens(
    out: &mut Option<Vec<Value<Token>>>,
    data: &mut DataStream,
    window: &mut Window,
    hlits_tree: &HuffmanTree<u16>,
    hdists_tree: &HuffmanTree<u8>,
    settings: &Settings,
) -> (r: Result<(), Error>)
    requires
        old(window).wf(),
        roomy(*old(data), old(window)@.plain_pos),
        !hlits_tree.is_symbol(),
    ensures
        final(window).wf(),
        roomy(*final(data), final(window)@.plain_pos),
        ({
            let step = tokens_at(
                opt_views(*old(out)),
                old(data).bytes@,
                old(data).pos as int,
                old(window)@,
                *hlits_tree,
                *hdists_tree,
                settings.data,
            );
            &&& opt_views(*final(out)) == step.out
            &&& final(data).moved(*old(data), step.pos)
            &&& final(window)@ == step.win
            &&& lift(r) == step.res
            &&& old(data).pos <= step.pos
            &&& old(data).pos <= old(data).end ==> step.pos <= old(data).end
        }),
{
    if settings.data {
        *out = Some(Vec::new());
        proof {
            crate::data::lemma_views_empty::<Value<Token>>();
        }
    }
    let mut is_eob = false;
    while !is_eob
        invariant
            window.wf(),
            roomy(*data, window@.plain_pos),
            !hlits_tree.is_symbol(),
            data.bytes == old(data).bytes,
            data.end == old(data).end,
            old(data).pos <= data.pos,
            old(data).pos <= old(data).end ==> data.pos <= old(data).end,
            !is_eob ==> tokens_from(
                opt_views(*out),
                data.bytes@,
                data.pos as int,
                window@,
                *hlits_tree,
                *hdists_tree,
            ) == tokens_at(
                opt_views(*old(out)),
                old(data).bytes@,
                old(data).pos as int,
                old(window)@,
                *hlits_tree,
                *hdists_tree,
                settings.data,
            ),
            is_eob ==> (Step { out: opt_views(*out), pos: data.pos as int, win: window@, res: Ok::<(), ErrorView>(()) })
                == tokens_at(
                opt_views(*old(out)),
                old(data).bytes@,
                old(data).pos as int,
                old(window)@,
                *hlits_tree,
                *hdists_tree,
                settings.data,
            ),
        decreases data.end - data.pos,
    {
        let start = data.pos;
        let ghost win = window@;
        proof {
            lemma_decode_stays(data.bytes@, data.pos as int, *hlits_tree, start, 0, 0);
        }
        let literal = match parse_huffman_code(data, hlits_tree, start, 0, 0) {
            Err(e) => {
                return Err(e);
            },
            Ok(v) => v,
        };
        let token_plain_pos = window.plain_pos();
        let token = if literal.v <= 255 {
            let v: u8 = literal.v as u8;
            window.append_byte(v);
            let one: [u8; 1] = [v];
            assert(one@ =~= seq![v]);
            assert(window@.bytes =~= win.bytes + seq![v]);
            Token::Literal(LiteralToken { plain_pos: token_plain_pos, v, c: v as char, hex: hex_encode(one.as_slice()) })
        } else if literal.v == 256 {
            is_eob = true;
            Token::Eob(EobToken { plain_pos: token_plain_pos })
        } else if literal.v <= 285 {
            proof {
                lemma_copy_at_stays(literal, data.bytes@, data.pos as int, win, *hdists_tree);
            }
            match parse_copy(data, window, literal, hdists_tree) {
                Err(e) => {
                    return Err(e);
                },
                Ok(token) => token,
            }
        } else {
            return Err(data.parse_error("Literal"));
        };
        let ghost before = opt_views(*out);
        match out {
            Some(tokens) => {
                proof {
                    crate::data::lemma_views_push(tokens@, Value { v: token, start, end: data.pos });
                }
                tokens.push(Value { v: token, start, end: data.pos });
            },
            None => {},
        }
        assert(opt_views(*out) == recorded(before, token@, start as int, data.pos as int));
    }
    Ok(())
}

/// Reading tokens moves forward and stays within the input.
pub proof fn lemma_tokens_stay(
    out: Option<Seq<ValueView<TokenView>>>,
    bytes: Seq<u8>,
    pos: int,
    win: WindowView,
    lit_tree: HuffmanTree<u16>,
    dist_tree: HuffmanTree<u8>,
)
    ensures
        pos <= tokens_from(out, bytes, pos, win, lit_tree, dist_tree).pos,
        pos <= 8 * bytes.len() ==> tokens_from(out, bytes, pos, win, lit_tree, dist_tree).pos <= 8 * bytes.len(),
    decreases 8 * bytes.len() - pos,
{
    let symbol = decode(bytes, pos, lit_tree, pos as usize, 0, 0);
    if !lit_tree.is_symbol() {
        lemma_decode_stays(bytes, pos, lit_tree, pos as usize, 0, 0);
        match symbol.res {
            Err(e) => {},
            Ok(literal) => {
                if literal.v <= 255 {
                    let v = literal.v as u8;
                    let token = TokenView::Literal(
                        LiteralTokenView { plain_pos: win.plain_pos, v, c: v as char, hex: hex_chars(seq![v]) },
                    );
                    lemma_tokens_stay(
                        recorded(out, token, pos, symbol.pos),
                        bytes,
                        symbol.pos,
                        appended(win, seq![v]),
                        lit_tree,
                        dist_tree,
                    );
                } else if literal.v == 256 {
                } else if literal.v <= 285 {
                    let copy = copy_at(literal, bytes, symbol.pos, win, dist_tree);
                    lemma_copy_at_stays(literal, bytes, symbol.pos, win, dist_tree);
                    match copy.out {
                        Some(token) => {
                            lemma_tokens_stay(
                                recorded(out, token, pos, copy.pos),
                                bytes,
                                copy.pos,
                                copy.win,
                                lit_tree,
                                dist_tree,
                            );
                        },
                        None => {},
                    }
                }
            },
        }
    }
}

/// A distance symbol of 30 or more is a failure behind the symbol, with
/// the message `Distance extra bits`; nothing is copied.
pub proof fn lemma_distance_too_large(
    length: Value<u16>,
    bytes: Seq<u8>,
    pos: int,
    win: WindowView,
    dist_tree: HuffmanTree<u8>,
)
    requires
        257 <= length.v <= 285,
        in_reach(bytes, pos, LENGTH_EXTRAS[length.v - 257] as int),
        ({
            let at = pos + LENGTH_EXTRAS[length.v - 257];
            decode(bytes, at, dist_tree, at as usize, 0, 0).res matches Ok(distance) && distance.v >= 30
        }),
    ensures
        ({
            let at = pos + LENGTH_EXTRAS[length.v - 257];
            let symbol = decode(bytes, at, dist_tree, at as usize, 0, 0);
            &&& copy_at(length, bytes, pos, win, dist_tree).res == Err::<(), ErrorView>(
                failure(symbol.pos, "Distance extra bits"@),
            )
            &&& copy_at(length, bytes, pos, win, dist_tree).win == win
        }),
{
}

} // verus!
