//! The code tables of a dynamic block: the lengths of the code length
//! codes, the run-length coded code lengths, and the three code lists and
//! trees made from them.
use crate::cursor::{peek_bits_at, DataStream};
use crate::data::{opt_seq, DynamicHuffmanTable, DynamicHuffmanTableView, HuffmanTree, Value};
use crate::error::{failure, lift, Error, ErrorView};
use crate::huffman::{
    build_huffman_codes, build_huffman_tree, build_tree, decode, huffman_codes, parse_huffman_code, MAX_BITS,
};
use crate::step::Read;
use vstd::prelude::*;

verus! {

/// The order in which the lengths of the code length codes are stored.
pub const HCLEN_ORDER: [u8; 19] = [16, 17, 18, 0, 8, 7, 9, 6, 10, 5, 11, 4, 12, 3, 13, 2, 14, 1, 15];

/// The numbers from zero up to `n`, not included.
pub open spec fn count_up_u8(n: nat) -> Seq<u8> {
    Seq::new(n, |i: int| i as u8)
}

/// The 16-bit numbers from zero up to `n`, not included.
pub open spec fn count_up_u16(n: nat) -> Seq<u16> {
    Seq::new(n, |i: int| i as u16)
}

/// The symbols of an alphabet of `n` symbols below 256, in order.
pub fn alphabet_u8(n: u8) -> (r: Vec<u8>)
    ensures
        r@ == count_up_u8(n as nat),
{
    let mut r: Vec<u8> = Vec::new();
    let mut i: u8 = 0;
    while i < n
        invariant
            i <= n,
            r@ == count_up_u8(i as nat),
        decreases n - i,
    {
        r.push(i);
        i += 1;
        assert(r@ =~= count_up_u8(i as nat));
    }
    r
}

/// The symbols of an alphabet of `n` symbols, in order.
pub fn alphabet_u16(n: u16) -> (r: Vec<u16>)
    ensures
        r@ == count_up_u16(n as nat),
{
    let mut r: Vec<u16> = Vec::new();
    let mut i: u16 = 0;
    while i < n
        invariant
            i <= n,
            r@ == count_up_u16(i as nat),
        decreases n - i,
    {
        r.push(i);
        i += 1;
        assert(r@ =~= count_up_u16(i as nat));
    }
    r
}

/// What reading `n` more fields of three bits gives, after the fields in `acc`.
pub open spec fn hclens_from(acc: Seq<Value<u8>>, bytes: Seq<u8>, pos: int, n: nat) -> Read<Seq<Value<u8>>, ()>
    decreases n,
{
    if n == 0 {
        Read { out: acc, pos, res: Ok(()) }
    } else {
        match peek_bits_at::<u8>(bytes, pos, 3) {
            Err(e) => Read { out: acc, pos, res: Err(e) },
            Ok(v) => hclens_from(acc.push(v), bytes, pos + 3, (n - 1) as nat),
        }
    }
}

/// Whether every code length of a list is at most 15 and was read before a position.
pub open spec fn lens_bounded(lens: Seq<Value<u8>>, pos: int) -> bool {
    forall|i: int| 0 <= i < lens.len() ==> (#[trigger] lens[i]).v <= MAX_BITS && lens[i].start <= pos
}

/// Reads the `hclen + 4` lengths of the code length codes into a slot.
pub fn parse_hclens(out: &mut Option<Vec<Value<u8>>>, data: &mut DataStream, hclen: u8) -> (r: Result<(), Error>)
    requires
        old(data).wf(),
    ensures
        final(data).wf(),
        ({
            let step = hclens_from(Seq::empty(), old(data).bytes@, old(data).pos as int, (hclen + 4) as nat);
            &&& opt_seq(*final(out)) == Some(step.out)
            &&& final(data).moved(*old(data), step.pos)
            &&& lift(r) == step.res
            &&& lens_bounded(step.out, step.pos)
            &&& r is Ok ==> step.out.len() == hclen + 4
            &&& old(data).pos <= step.pos
            &&& old(data).pos <= old(data).end ==> step.pos <= old(data).end
        }),
{
    let n: usize = hclen as usize + 4;
    let mut hclens: Vec<Value<u8>> = Vec::new();
    let mut i: usize = 0;
    while i < n
        invariant
            data.wf(),
            data.bytes == old(data).bytes,
            data.end == old(data).end,
            i <= n,
            n == hclen + 4,
            hclens@.len() == i,
            lens_bounded(hclens@, data.pos as int),
            old(data).pos <= data.pos,
            old(data).pos <= old(data).end ==> data.pos <= old(data).end,
            hclens_from(hclens@, data.bytes@, data.pos as int, (n - i) as nat) == hclens_from(
                Seq::empty(),
                old(data).bytes@,
                old(data).pos as int,
                n as nat,
            ),
        decreases n - i,
    {
        let mut bits: Option<Value<u8>> = None;
        match data.pop_bits::<u8>(&mut bits, 3) {
            Err(e) => {
                *out = Some(hclens);
                return Err(e);
            },
            Ok(v) => {
                proof {
                    crate::cursor::lemma_bits_value_bound(old(data).bytes@, v.start as int, 3);
                    vstd::arithmetic::power2::lemma2_to64();
                }
                hclens.push(v);
            },
        }
        i += 1;
    }
    *out = Some(hclens);
    Ok(())
}

/// The entries that a repeat code adds.
pub open spec fn repeated(what: u8, start: usize, end: usize, times: nat) -> Seq<Value<u8>> {
    Seq::new(times, |i: int| Value { v: what, start, end })
}

/// The number of entries that a list lacks to hold `n`.
pub open spec fn missing(n: nat, len: nat) -> nat {
    if len < n {
        (n - len) as nat
    } else {
        0
    }
}

/// What decoding code lengths gives, after those in `acc`, until there are
/// `n` of them. Symbols up to 15 are lengths; 16 repeats the length before
/// it 3 to 6 times; 17 and 18 stand for 3 to 10 and 11 to 138 zeros. The
/// entries of a repeat span from where their length came from to the end of
/// the repeat count. A repeat that runs past `n` is a failure.
pub open spec fn code_lengths_from(acc: Seq<Value<u8>>, bytes: Seq<u8>, pos: int, n: nat, tree: HuffmanTree<u8>) -> Read<
    Seq<Value<u8>>,
    (),
>
    decreases missing(n, acc.len()),
{
    if acc.len() >= n {
        Read { out: acc, pos, res: if acc.len() == n { Ok(()) } else { Err(failure(pos, "Code lengths"@)) } }
    } else {
        let symbol = decode(bytes, pos, tree, pos as usize, 0, 0);
        match symbol.res {
            Err(e) => Read { out: acc, pos: symbol.pos, res: Err(e) },
            Ok(value) => {
                if value.v <= 15 {
                    code_lengths_from(acc.push(value), bytes, symbol.pos, n, tree)
                } else if value.v <= 18 {
                    if value.v == 16 && acc.len() == 0 {
                        Read { out: acc, pos: symbol.pos, res: Err(failure(symbol.pos, "Repeat"@)) }
                    } else {
                        let what = if value.v == 16 { acc.last().v } else { 0 };
                        let start = if value.v == 16 { acc.last().start } else { value.start };
                        let least: nat = if value.v == 18 { 11 } else { 3 };
                        let width: nat = if value.v == 16 { 2 } else if value.v == 17 { 3 } else { 7 };
                        match peek_bits_at::<u8>(bytes, symbol.pos, width) {
                            Err(e) => Read { out: acc, pos: symbol.pos, res: Err(e) },
                            Ok(repeat) => {
                                let more = repeated(what, start, repeat.end, least + repeat.v as nat);
                                proof {
                                    assert(more.len() == least + repeat.v);
                                    assert((acc + more).len() == acc.len() + more.len());
                                }
                                code_lengths_from(acc + more, bytes, symbol.pos + width, n, tree)
                            },
                        }
                    }
                } else {
                    Read { out: acc, pos: symbol.pos, res: Err(failure(symbol.pos, "Code length"@)) }
                }
            },
        }
    }
}

/// Decodes `n` code lengths into a slot.
pub fn parse_huffman_code_lengths(
    out: &mut Option<Vec<Value<u8>>>,
    data: &mut DataStream,
    n: usize,
    tree: &HuffmanTree<u8>,
) -> (r: Result<(), Error>)
    requires
        old(data).wf(),
    ensures
        final(data).wf(),
        ({
            let step = code_lengths_from(Seq::empty(), old(data).bytes@, old(data).pos as int, n as nat, *tree);
            &&& opt_seq(*final(out)) == Some(step.out)
            &&& final(data).moved(*old(data), step.pos)
            &&& lift(r) == step.res
            &&& lens_bounded(step.out, step.pos)
            &&& r is Ok ==> step.out.len() == n
            &&& old(data).pos <= step.pos
            &&& old(data).pos <= old(data).end ==> step.pos <= old(data).end
        }),
{
    let mut lens: Vec<Value<u8>> = Vec::new();
    while lens.len() < n
        invariant
            data.wf(),
            data.bytes == old(data).bytes,
            data.end == old(data).end,
            lens_bounded(lens@, data.pos as int),
            old(data).pos <= data.pos,
            old(data).pos <= old(data).end ==> data.pos <= old(data).end,
            code_lengths_from(lens@, data.bytes@, data.pos as int, n as nat, *tree) == code_lengths_from(
                Seq::empty(),
                old(data).bytes@,
                old(data).pos as int,
                n as nat,
                *tree,
            ),
        decreases missing(n as nat, lens@.len()),
    {
        let start = data.pos;
        proof {
            crate::huffman::lemma_decode_stays(data.bytes@, data.pos as int, *tree, start, 0, 0);
        }
        let value = match parse_huffman_code(data, tree, start, 0, 0) {
            Err(e) => {
                *out = Some(lens);
                return Err(e);
            },
            Ok(value) => value,
        };
        if value.v <= 15 {
            lens.push(value);
        } else if value.v <= 18 {
            let (what, from, least, width): (u8, usize, usize, usize) = if value.v == 16 {
                if lens.len() == 0 {
                    let e = data.parse_error("Repeat");
                    *out = Some(lens);
                    return Err(e);
                }
                let last = lens[lens.len() - 1];
                (last.v, last.start, 3, 2)
            } else if value.v == 17 {
                (0, value.start, 3, 3)
            } else {
                (0, value.start, 11, 7)
            };
            let mut slot: Option<Value<u8>> = None;
            let repeat = match data.pop_bits::<u8>(&mut slot, width) {
                Err(e) => {
                    *out = Some(lens);
                    return Err(e);
                },
                Ok(repeat) => repeat,
            };
            let times: usize = least + repeat.v as usize;
            let ghost acc = lens@;
            let mut j: usize = 0;
            while j < times
                invariant
                    j <= times,
                    what <= MAX_BITS,
                    from <= data.pos,
                    lens_bounded(lens@, data.pos as int),
                    lens@ == acc + repeated(what, from, repeat.end, j as nat),
                decreases times - j,
            {
                lens.push(Value { v: what, start: from, end: repeat.end });
                j += 1;
                assert(lens@ =~= acc + repeated(what, from, repeat.end, j as nat));
            }
            assert(lens@.len() == acc.len() + times);
        } else {
            let e = data.parse_error("Code length");
            *out = Some(lens);
            return Err(e);
        }
    }
    if lens.len() == n {
        *out = Some(lens);
        Ok(())
    } else {
        let e = data.parse_error("Code lengths");
        *out = Some(lens);
        Err(e)
    }
}

/// The third stage of reading the tables: the code lists and trees of the
/// literal and length alphabet, made from the first `count` code lengths,
/// and of the distance alphabet, made from the rest.
pub open spec fn dht_trees(out: DynamicHuffmanTableView, pos: int, lens: Seq<Value<u8>>, count: int) -> Read<
    DynamicHuffmanTableView,
    (),
> {
    let lit_codes = huffman_codes(count_up_u16(286), lens.take(count));
    let lit = build_tree(lit_codes);
    let out = DynamicHuffmanTableView { hlits_codes: Some(lit_codes), hlits_tree: Some(lit.tree), ..out };
    match lit.res {
        Err(e) => Read { out, pos, res: Err(e) },
        Ok(()) => {
            let dist_codes = huffman_codes(count_up_u8(30), lens.skip(count));
            let dist = build_tree(dist_codes);
            Read {
                out: DynamicHuffmanTableView { hdists_codes: Some(dist_codes), hdists_tree: Some(dist.tree), ..out },
                pos,
                res: dist.res,
            }
        },
    }
}

/// The second stage of reading the tables: the lengths of the code length
/// codes with their code list and tree, and the code lengths decoded with
/// that tree.
pub open spec fn dht_lengths(out: DynamicHuffmanTableView, bytes: Seq<u8>, pos: int, hlit: u8, hdist: u8, hclen: u8) -> Read<
    DynamicHuffmanTableView,
    (),
> {
    let first = hclens_from(Seq::empty(), bytes, pos, (hclen + 4) as nat);
    let out = DynamicHuffmanTableView { hclens: Some(first.out), ..out };
    match first.res {
        Err(e) => Read { out, pos: first.pos, res: Err(e) },
        Ok(()) => {
            let codes = huffman_codes(HCLEN_ORDER@, first.out);
            let built = build_tree(codes);
            let out = DynamicHuffmanTableView { hclens_codes: Some(codes), hclens_tree: Some(built.tree), ..out };
            match built.res {
                Err(e) => Read { out, pos: first.pos, res: Err(e) },
                Ok(()) => {
                    let second = code_lengths_from(
                        Seq::empty(),
                        bytes,
                        first.pos,
                        (hlit + 257 + hdist + 1) as nat,
                        built.tree,
                    );
                    let out = DynamicHuffmanTableView { hlits: Some(second.out), ..out };
                    match second.res {
                        Err(e) => Read { out, pos: second.pos, res: Err(e) },
                        Ok(()) => dht_trees(out, second.pos, second.out, hlit + 257),
                    }
                },
            }
        },
    }
}

/// What reading the code tables of a dynamic block at a position gives: the
/// three counts, then the tables. More than 286 literal and length codes
/// are a failure.
pub open spec fn dht_at(out: DynamicHuffmanTableView, bytes: Seq<u8>, pos: int) -> Read<DynamicHuffmanTableView, ()> {
    match peek_bits_at::<u8>(bytes, pos, 5) {
        Err(e) => Read { out, pos, res: Err(e) },
        Ok(hlit) => {
            let out = DynamicHuffmanTableView { hlit: Some(hlit), ..out };
            if hlit.v > 29 {
                Read { out, pos: pos + 5, res: Err(failure(pos + 5, "HLIT > 29"@)) }
            } else {
                match peek_bits_at::<u8>(bytes, pos + 5, 5) {
                    Err(e) => Read { out, pos: pos + 5, res: Err(e) },
                    Ok(hdist) => {
                        let out = DynamicHuffmanTableView { hdist: Some(hdist), ..out };
                        match peek_bits_at::<u8>(bytes, pos + 10, 4) {
                            Err(e) => Read { out, pos: pos + 10, res: Err(e) },
                            Ok(hclen) => dht_lengths(
                                DynamicHuffmanTableView { hclen: Some(hclen), ..out },
                                bytes,
                                pos + 14,
                                hlit.v,
                                hdist.v,
                                hclen.v,
                            ),
                        }
                    },
                }
            }
        },
    }
}

/// Whether a table holds the two trees that tokens are decoded with, the
/// first of them not a lone symbol, and as many code lengths as its counts
/// announce.
pub open spec fn dht_complete(dht: DynamicHuffmanTableView) -> bool {
    &&& dht.hlits_tree matches Some(tree) && !tree.is_symbol()
    &&& dht.hdists_tree is Some
    &&& dht.hlit is Some
    &&& dht.hdist is Some
    &&& dht.hlits matches Some(lens) && lens.len() == dht.hlit->0.v + 257 + dht.hdist->0.v + 1
}

/// Reads the code tables of a dynamic block into a record.
pub fn parse_dht(out: &mut DynamicHuffmanTable, data: &mut DataStream) -> (r: Result<(), Error>)
    requires
        old(data).wf(),
        old(data).end + 16 <= usize::MAX,
    ensures
        final(data).wf(),
        ({
            let step = dht_at(old(out)@, old(data).bytes@, old(data).pos as int);
            &&& final(out)@ == step.out
            &&& final(data).moved(*old(data), step.pos)
            &&& lift(r) == step.res
            &&& r is Ok ==> dht_complete(step.out)
            &&& old(data).pos <= step.pos
            &&& old(data).pos <= old(data).end ==> step.pos <= old(data).end
        }),
{
    let hlit = match data.pop_bits::<u8>(&mut out.hlit, 5) {
        Err(e) => {
            return Err(e);
        },
        Ok(v) => v,
    };
    if hlit.v > 29 {
        return Err(data.parse_error("HLIT > 29"));
    }
    let hdist = match data.pop_bits::<u8>(&mut out.hdist, 5) {
        Err(e) => {
            return Err(e);
        },
        Ok(v) => v,
    };
    let hclen = match data.pop_bits::<u8>(&mut out.hclen, 4) {
        Err(e) => {
            return Err(e);
        },
        Ok(v) => v,
    };
    proof {
        crate::cursor::lemma_bits_value_bound(old(data).bytes@, hdist.start as int, 5);
        crate::cursor::lemma_bits_value_bound(old(data).bytes@, hclen.start as int, 4);
        vstd::arithmetic::power2::lemma2_to64();
    }
    match parse_hclens(&mut out.hclens, data, hclen.v) {
        Err(e) => {
            return Err(e);
        },
        Ok(()) => {},
    }
    let hclens_codes = match &out.hclens {
        Some(hclens) => build_huffman_codes(HCLEN_ORDER.as_slice(), hclens.as_slice()),
        None => vstd::pervasive::unreached(),
    };
    let built = build_huffman_tree(&mut out.hclens_tree, hclens_codes.as_slice());
    out.hclens_codes = Some(hclens_codes);
    match built {
        Err(e) => {
            return Err(e);
        },
        Ok(()) => {},
    }
    let hlits_count: usize = hlit.v as usize + 257;
    let hdists_count: usize = hdist.v as usize + 1;
    let decoded = match &out.hclens_tree {
        Some(tree) => parse_huffman_code_lengths(&mut out.hlits, data, hlits_count + hdists_count, tree),
        None => vstd::pervasive::unreached(),
    };
    match decoded {
        Err(e) => {
            return Err(e);
        },
        Ok(()) => {},
    }
    let literals = alphabet_u16(286);
    let distances = alphabet_u8(30);
    let (hlits_codes, hdists_codes) = match &out.hlits {
        Some(lens) => {
            let all = lens.as_slice();
            (
                build_huffman_codes(
                    literals.as_slice(),
                    vstd::slice::slice_subrange(all, 0, hlits_count),
                ),
                build_huffman_codes(
                    distances.as_slice(),
                    vstd::slice::slice_subrange(all, hlits_count, all.len()),
                ),
            )
        },
        None => vstd::pervasive::unreached(),
    };
    let built = build_huffman_tree(&mut out.hlits_tree, hlits_codes.as_slice());
    out.hlits_codes = Some(hlits_codes);
    match built {
        Err(e) => {
            return Err(e);
        },
        Ok(()) => {},
    }
    let built = build_huffman_tree(&mut out.hdists_tree, hdists_codes.as_slice());
    out.hdists_codes = Some(hdists_codes);
    built
}

/// Reading the lengths of the code length codes moves forward and stays within the input.
pub proof fn lemma_hclens_stay(acc: Seq<Value<u8>>, bytes: Seq<u8>, pos: int, n: nat)
    ensures
        pos <= hclens_from(acc, bytes, pos, n).pos,
        pos <= 8 * bytes.len() ==> hclens_from(acc, bytes, pos, n).pos <= 8 * bytes.len(),
    decreases n,
{
    if n > 0 {
        match peek_bits_at::<u8>(bytes, pos, 3) {
            Err(e) => {},
            Ok(v) => lemma_hclens_stay(acc.push(v), bytes, pos + 3, (n - 1) as nat),
        }
    }
}

/// Decoding code lengths moves forward and stays within the input.
pub proof fn lemma_code_lengths_stay(acc: Seq<Value<u8>>, bytes: Seq<u8>, pos: int, n: nat, tree: HuffmanTree<u8>)
    ensures
        pos <= code_lengths_from(acc, bytes, pos, n, tree).pos,
        pos <= 8 * bytes.len() ==> code_lengths_from(acc, bytes, pos, n, tree).pos <= 8 * bytes.len(),
    decreases missing(n, acc.len()),
{
    if acc.len() < n {
        let symbol = decode(bytes, pos, tree, pos as usize, 0, 0);
        crate::huffman::lemma_decode_stays(bytes, pos, tree, pos as usize, 0, 0);
        match symbol.res {
            Err(e) => {},
            Ok(value) => {
                if value.v <= 15 {
                    lemma_code_lengths_stay(acc.push(value), bytes, symbol.pos, n, tree);
                } else if value.v <= 18 {
                    if !(value.v == 16 && acc.len() == 0) {
                        let what = if value.v == 16 { acc.last().v } else { 0 };
                        let start = if value.v == 16 { acc.last().start } else { value.start };
                        let least: nat = if value.v == 18 { 11 } else { 3 };
                        let width: nat = if value.v == 16 { 2 } else if value.v == 17 { 3 } else { 7 };
                        match peek_bits_at::<u8>(bytes, symbol.pos, width) {
                            Err(e) => {},
                            Ok(repeat) => {
                                let more = repeated(what, start, repeat.end, least + repeat.v as nat);
                                assert(more.len() == least + repeat.v);
                                assert((acc + more).len() == acc.len() + more.len());
                                lemma_code_lengths_stay(acc + more, bytes, symbol.pos + width, n, tree);
                            },
                        }
                    }
                }
            },
        }
    }
}

/// Reading the code tables moves forward and stays within the input.
pub proof fn lemma_dht_stays(out: DynamicHuffmanTableView, bytes: Seq<u8>, pos: int)
    ensures
        pos <= dht_at(out, bytes, pos).pos,
        pos <= 8 * bytes.len() ==> dht_at(out, bytes, pos).pos <= 8 * bytes.len(),
{
    match peek_bits_at::<u8>(bytes, pos, 5) {
        Err(e) => {},
        Ok(hlit) => {
            if hlit.v <= 29 {
                match peek_bits_at::<u8>(bytes, pos + 5, 5) {
                    Err(e) => {},
                    Ok(hdist) => {
                        match peek_bits_at::<u8>(bytes, pos + 10, 4) {
                            Err(e) => {},
                            Ok(hclen) => {
                                let first = hclens_from(Seq::empty(), bytes, pos + 14, (hclen.v + 4) as nat);
                                lemma_hclens_stay(Seq::empty(), bytes, pos + 14, (hclen.v + 4) as nat);
                                let built = build_tree(huffman_codes(HCLEN_ORDER@, first.out));
                                lemma_code_lengths_stay(
                                    Seq::empty(),
                                    bytes,
                                    first.pos,
                                    (hlit.v + 257 + hdist.v + 1) as nat,
                                    built.tree,
                                );
                            },
                        }
                    },
                }
            }
        },
    }
}

/// Code lengths that were decoded to the end are as many as were asked for.
pub proof fn lemma_code_lengths_count(acc: Seq<Value<u8>>, bytes: Seq<u8>, pos: int, n: nat, tree: HuffmanTree<u8>)
    requires
        code_lengths_from(acc, bytes, pos, n, tree).res is Ok,
    ensures
        code_lengths_from(acc, bytes, pos, n, tree).out.len() == n,
    decreases missing(n, acc.len()),
{
    if acc.len() < n {
        let symbol = decode(bytes, pos, tree, pos as usize, 0, 0);
        match symbol.res {
            Err(e) => {},
            Ok(value) => {
                if value.v <= 15 {
                    lemma_code_lengths_count(acc.push(value), bytes, symbol.pos, n, tree);
                } else if value.v <= 18 {
                    if !(value.v == 16 && acc.len() == 0) {
                        let what = if value.v == 16 { acc.last().v } else { 0 };
                        let start = if value.v == 16 { acc.last().start } else { value.start };
                        let least: nat = if value.v == 18 { 11 } else { 3 };
                        let width: nat = if value.v == 16 { 2 } else if value.v == 17 { 3 } else { 7 };
                        match peek_bits_at::<u8>(bytes, symbol.pos, width) {
                            Err(e) => {},
                            Ok(repeat) => {
                                let more = repeated(what, start, repeat.end, least + repeat.v as nat);
                                assert(more.len() == least + repeat.v);
                                assert((acc + more).len() == acc.len() + more.len());
                                lemma_code_lengths_count(acc + more, bytes, symbol.pos + width, n, tree);
                            },
                        }
                    }
                }
            },
        }
    }
}

/// The code tables of a dynamic block that were read to the end hold as
/// many code lengths as their counts announce: `hlit + 257` for literals
/// and lengths and `hdist + 1` for distances.
pub proof fn lemma_dht_count(out: DynamicHuffmanTableView, bytes: Seq<u8>, pos: int)
    requires
        dht_at(out, bytes, pos).res is Ok,
    ensures
        dht_at(out, bytes, pos).out.hlit is Some,
        dht_at(out, bytes, pos).out.hdist is Some,
        dht_at(out, bytes, pos).out.hlits matches Some(lens) && lens.len() == dht_at(out, bytes, pos).out.hlit->0.v
            + 257 + dht_at(out, bytes, pos).out.hdist->0.v + 1,
{
    let hlit = peek_bits_at::<u8>(bytes, pos, 5)->Ok_0;
    let hdist = peek_bits_at::<u8>(bytes, pos + 5, 5)->Ok_0;
    let hclen = peek_bits_at::<u8>(bytes, pos + 10, 4)->Ok_0;
    let first = hclens_from(Seq::empty(), bytes, pos + 14, (hclen.v + 4) as nat);
    let built = build_tree(huffman_codes(HCLEN_ORDER@, first.out));
    lemma_code_lengths_count(Seq::empty(), bytes, first.pos, (hlit.v + 257 + hdist.v + 1) as nat, built.tree);
}

/// More than 286 literal and length codes are a failure behind the
/// count, with the message `HLIT > 29`.
pub proof fn lemma_hlit_too_large(out: DynamicHuffmanTableView, bytes: Seq<u8>, pos: int)
    requires
        crate::cursor::in_reach(bytes, pos, 5),
        crate::cursor::bits_value(bytes, pos, 5) > 29,
    ensures
        dht_at(out, bytes, pos).res == Err::<(), ErrorView>(failure(pos + 5, "HLIT > 29"@)),
        dht_at(out, bytes, pos).pos == pos + 5,
{
    crate::cursor::lemma_bits_value_bound(bytes, pos, 5);
    vstd::arithmetic::power2::lemma2_to64();
}

} // verus!
