//! Canonical Huffman codes, the trees that decode them, and the decoding of
//! one symbol from the input.
use crate::cursor::{bit_at, eof, in_reach, DataStream};
use crate::data::{views, HuffmanCode, HuffmanCodeView, HuffmanTree, Value};
use crate::error::{failure, lift, parse_failure, Error, ErrorView};
use crate::text::{bin_digits, code_bit, code_to_bin, dec_digits, push_decimal};
use crate::word::Unsigned;
use vstd::prelude::*;

verus! {

/// The longest code length that a code list can hold.
pub const MAX_BITS: usize = 15;

/// The number of code lengths equal to `len`.
pub open spec fn count_len(lens: Seq<Value<u8>>, len: int) -> nat
    decreases lens.len(),
{
    if lens.len() == 0 {
        0
    } else {
        count_len(lens.drop_last(), len) + if lens.last().v == len { 1nat } else { 0nat }
    }
}

/// The smallest code of each code length: the codes of one length follow
/// those of the length before, doubled. Zero lengths take no code.
pub open spec fn first_code(lens: Seq<Value<u8>>, bits: nat) -> nat
    decreases bits,
{
    if bits == 0 {
        0
    } else {
        2 * (first_code(lens, (bits - 1) as nat) + if bits == 1 { 0 } else { count_len(lens, bits - 1) })
    }
}

/// The symbols that take a code, each with its code length, in the order of
/// the alphabet: those that have a length, and not the length zero.
pub open spec fn coded<T>(alphabet: Seq<T>, lens: Seq<Value<u8>>) -> Seq<(T, Value<u8>)>
    decreases alphabet.len(),
{
    if alphabet.len() == 0 {
        Seq::empty()
    } else {
        let rest = coded(alphabet.drop_last(), lens);
        let i = alphabet.len() - 1;
        if i < lens.len() && lens[i].v != 0 {
            rest.push((alphabet.last(), lens[i]))
        } else {
            rest
        }
    }
}

/// A list ordered by symbol with one more entry, placed behind the entries
/// whose symbol is not larger.
pub open spec fn insert_by_symbol<T: Unsigned>(s: Seq<(T, Value<u8>)>, e: (T, Value<u8>)) -> Seq<(T, Value<u8>)>
    decreases s.len(),
{
    if s.len() == 0 || s.last().0.value() <= e.0.value() {
        s.push(e)
    } else {
        insert_by_symbol(s.drop_last(), e).push(s.last())
    }
}

/// The entries ordered by symbol; entries of one symbol keep their order.
pub open spec fn by_symbol<T: Unsigned>(s: Seq<(T, Value<u8>)>) -> Seq<(T, Value<u8>)>
    decreases s.len(),
{
    if s.len() == 0 {
        s
    } else {
        insert_by_symbol(by_symbol(s.drop_last()), s.last())
    }
}

/// The code lengths of a list of entries.
pub open spec fn lens_of<T>(s: Seq<(T, Value<u8>)>) -> Seq<Value<u8>> {
    Seq::new(s.len(), |i: int| s[i].1)
}

/// The code of entry `k` of an ordered list: the smallest code of its
/// length plus the number of entries of that length before it, in 16 bits.
pub open spec fn code_at<T>(lens: Seq<Value<u8>>, s: Seq<(T, Value<u8>)>, k: int) -> u16 {
    ((first_code(lens, s[k].1.v as nat) + count_len(lens_of(s.take(k)), s[k].1.v as int)) % 0x10000) as u16
}

/// The canonical code list of an alphabet with the code lengths of its symbols.
pub open spec fn huffman_codes<T: Unsigned>(alphabet: Seq<T>, lens: Seq<Value<u8>>) -> Seq<HuffmanCodeView<T>> {
    let s = by_symbol(coded(alphabet, lens));
    Seq::new(
        s.len(),
        |k: int|
            HuffmanCodeView {
                symbol: s[k].0,
                code: code_at(lens, s, k),
                len: s[k].1,
                bin: bin_digits(code_at(lens, s, k), s[k].1.v as nat),
            },
    )
}

/// Placing an entry by symbol puts it in front of the entries whose
/// symbol is larger.
pub proof fn lemma_insert_by_symbol_at<T: Unsigned>(s: Seq<(T, Value<u8>)>, e: (T, Value<u8>), at: int)
    requires
        0 <= at <= s.len(),
        forall|k: int| at <= k < s.len() ==> s[k].0.value() > e.0.value(),
        at == 0 || s[at - 1].0.value() <= e.0.value(),
    ensures
        insert_by_symbol(s, e) == s.insert(at, e),
    decreases s.len() - at,
{
    if at == s.len() {
        assert(s.push(e) =~= s.insert(at, e));
    } else {
        lemma_insert_by_symbol_at(s.drop_last(), e, at);
        assert(s.drop_last().insert(at, e).push(s.last()) =~= s.insert(at, e));
    }
}

/// Whether every entry has a code length from 1 to 15.
pub open spec fn lens_in_range<T>(s: Seq<(T, Value<u8>)>) -> bool {
    forall|i: int| 0 <= i < s.len() ==> 1 <= (#[trigger] s[i]).1.v <= MAX_BITS
}

impl<T> HuffmanTree<T> {
    /// A leaf without a symbol.
    pub open spec fn empty() -> HuffmanTree<T> {
        HuffmanTree::Leaf(None)
    }

    /// A node with two empty leaves.
    pub open spec fn fresh() -> HuffmanTree<T> {
        HuffmanTree::Node(Box::new([HuffmanTree::Leaf(None), HuffmanTree::Leaf(None)]))
    }

    /// Whether the tree is a leaf that holds a symbol.
    pub open spec fn is_symbol(self) -> bool {
        self matches HuffmanTree::Leaf(Some(_))
    }

    /// Whether the tree is a leaf without a symbol.
    pub fn is_empty_leaf(&self) -> (r: bool)
        ensures
            r == (*self == Self::empty()),
    {
        matches!(self, HuffmanTree::Leaf(None))
    }

    /// A node with two empty leaves.
    pub fn new_node() -> (r: HuffmanTree<T>)
        ensures
            r == Self::fresh(),
    {
        HuffmanTree::Node(Box::new([HuffmanTree::Leaf(None), HuffmanTree::Leaf(None)]))
    }
}

/// The message for a symbol whose place is taken.
pub open spec fn occupied<T: Unsigned>(symbol: T) -> Seq<char> {
    "Not an empty leaf (symbol="@ + dec_digits(symbol.value()) + ")"@
}

/// The message for a symbol whose path runs into another symbol.
pub open spec fn conflict<T: Unsigned>(old_symbol: T, symbol: T) -> Seq<char> {
    "Conflict (symbol="@ + dec_digits(old_symbol.value()) + " and "@ + dec_digits(symbol.value()) + ")"@
}

/// The child of a node that a bit selects.
pub open spec fn branch(set: bool) -> int {
    if set {
        1
    } else {
        0
    }
}

/// The tree with a symbol placed at the end of the path that the lowest
/// `len` bits of a code spell, most significant bit first; or the failure,
/// where the path runs into a symbol or ends on a place that is taken. The
/// position of a failure counts on from `pos` by the depth it was found at.
pub open spec fn insert_at<T: Unsigned>(tree: HuffmanTree<T>, pos: int, code: u16, len: nat, symbol: T) -> Result<
    HuffmanTree<T>,
    ErrorView,
>
    decreases len,
{
    if len == 0 {
        if tree == HuffmanTree::<T>::empty() {
            Ok(HuffmanTree::Leaf(Some(symbol)))
        } else {
            Err(failure(pos, occupied(symbol)))
        }
    } else {
        let grown = if tree == HuffmanTree::<T>::empty() { HuffmanTree::<T>::fresh() } else { tree };
        match grown {
            HuffmanTree::Node(children) => {
                let bit = branch(code_bit(code, len - 1));
                match insert_at(children[bit], pos + 1, code, (len - 1) as nat, symbol) {
                    Ok(child) => Ok(
                        HuffmanTree::Node(
                            Box::new(
                                if bit == 0 {
                                    [child, children[1]]
                                } else {
                                    [children[0], child]
                                },
                            ),
                        ),
                    ),
                    Err(e) => Err(e),
                }
            },
            HuffmanTree::Leaf(held) => Err(failure(pos, conflict(held->0, symbol))),
        }
    }
}

/// A symbol always finds its place below an empty leaf.
pub proof fn lemma_insert_at_empty<T: Unsigned>(pos: int, code: u16, len: nat, symbol: T)
    ensures
        insert_at(HuffmanTree::<T>::empty(), pos, code, len, symbol) is Ok,
    decreases len,
{
    if len > 0 {
        lemma_insert_at_empty(pos + 1, code, (len - 1) as nat, symbol);
        let children = [HuffmanTree::<T>::Leaf(None), HuffmanTree::<T>::Leaf(None)];
        assert(children[0] == HuffmanTree::<T>::empty());
        assert(children[1] == HuffmanTree::<T>::empty());
    }
}

/// Places a symbol in a tree at the end of the path of its code. A tree in
/// which the symbol finds no place is left as it was.
pub fn add_to_huffman_tree<T: Unsigned>(tree: &mut HuffmanTree<T>, pos: usize, code: u16, len: usize, symbol: T) -> (r:
    Result<(), Error>)
    requires
        pos + len <= usize::MAX,
    ensures
        match insert_at(*old(tree), pos as int, code, len as nat, symbol) {
            Ok(grown) => r is Ok && *final(tree) == grown,
            Err(e) => lift(r) == Err::<(), ErrorView>(e) && *final(tree) == *old(tree),
        },
    decreases len,
{
    if len == 0 {
        if tree.is_empty_leaf() {
            *tree = HuffmanTree::Leaf(Some(symbol));
            Ok(())
        } else {
            let mut msg = "Not an empty leaf (symbol=".to_owned();
            push_decimal(&mut msg, symbol.widen() as usize);
            msg.append(")");
            Err(parse_failure(pos, msg))
        }
    } else {
        let was_empty = tree.is_empty_leaf();
        if was_empty {
            *tree = HuffmanTree::new_node();
        }
        let i: usize = len - 1;
        let bit: usize = if i < 16 && (code >> (i as u16)) & 1 == 1 { 1 } else { 0 };
        assert(bit == branch(code_bit(code, len - 1)));
        proof {
            if was_empty {
                lemma_insert_at_empty(pos + 1, code, (len - 1) as nat, symbol);
                let children = [HuffmanTree::<T>::Leaf(None), HuffmanTree::<T>::Leaf(None)];
                assert(children[0] == HuffmanTree::<T>::empty());
                assert(children[1] == HuffmanTree::<T>::empty());
            }
        }
        match tree {
            HuffmanTree::Node(children) => {
                let ghost before = **children;
                let r = add_to_huffman_tree(&mut children[bit], pos + 1, code, len - 1, symbol);
                proof {
                    let after = **children;
                    if r is Ok {
                        let child = after[bit as int];
                        let built = if bit == 0 { [child, before[1]] } else { [before[0], child] };
                        assert(built =~= after);
                    } else {
                        assert(after =~= before);
                    }
                }
                r
            },
            HuffmanTree::Leaf(Some(old_symbol)) => {
                let mut msg = "Conflict (symbol=".to_owned();
                push_decimal(&mut msg, old_symbol.widen() as usize);
                msg.append(" and ");
                push_decimal(&mut msg, symbol.widen() as usize);
                msg.append(")");
                Err(parse_failure(pos, msg))
            },
            HuffmanTree::Leaf(None) => vstd::pervasive::unreached(),
        }
    }
}

/// Doubling a sum keeps its last 16 bits where the terms keep theirs.
proof fn lemma_double_mod(prev: nat, count: nat)
    ensures
        ((prev % 0x10000 + count % 0x10000) * 2) % 0x10000 == (2 * (prev + count)) % 0x10000,
{
    let m = 0x10000int;
    let c = prev as int % m;
    let r = count as int % m;
    let q = prev as int / m + count as int / m;
    assert(2 * (prev + count) == m * (2 * q) + (c + r) * 2);
    vstd::arithmetic::div_mod::lemma_mod_multiples_vanish(2 * q, (c + r) * 2, m);
}

/// Counting one up keeps the last 16 bits of the count.
proof fn lemma_succ_mod(sum: nat)
    ensures
        (sum % 0x10000 + 1) % 0x10000 == (sum + 1) % 0x10000,
{
    let m = 0x10000int;
    assert(sum + 1 == m * (sum as int / m) + (sum as int % m + 1));
    vstd::arithmetic::div_mod::lemma_mod_multiples_vanish(sum as int / m, sum as int % m + 1, m);
}

/// No more entries have one length than there are entries.
pub proof fn lemma_count_len_bound(lens: Seq<Value<u8>>, len: int)
    ensures
        count_len(lens, len) <= lens.len(),
    decreases lens.len(),
{
    if lens.len() > 0 {
        lemma_count_len_bound(lens.drop_last(), len);
    }
}

/// Builds the canonical code list of an alphabet from the code lengths of
/// its symbols. Symbol `i` of the alphabet has length `i` of the list;
/// symbols without a length, or with length zero, take no code. The codes
/// come ordered by symbol.
pub fn build_huffman_codes<T: Unsigned>(alphabet: &[T], lens: &[Value<u8>]) -> (r: Vec<HuffmanCode<T>>)
    requires
        forall|i: int| 0 <= i < lens@.len() ==> lens@[i].v <= MAX_BITS,
    ensures
        views(r@) == huffman_codes(alphabet@, lens@),
        forall|k: int| 0 <= k < r@.len() ==> 1 <= (#[trigger] r@[k]).len.v <= MAX_BITS && lens@.contains(r@[k].len),
{
    let mut bl_count: [usize; 16] = [0; 16];
    let mut i: usize = 0;
    while i < lens.len()
        invariant
            i <= lens@.len(),
            forall|j: int| 0 <= j < lens@.len() ==> lens@[j].v <= MAX_BITS,
            forall|l: int| 0 <= l < 16 ==> bl_count[l] == count_len(lens@.take(i as int), l),
        decreases lens.len() - i,
    {
        let l: usize = lens[i].v as usize;
        proof {
            lemma_count_len_bound(lens@.take(i as int), l as int);
            assert(lens@.take(i + 1).drop_last() =~= lens@.take(i as int));
        }
        bl_count[l] = bl_count[l] + 1;
        i += 1;
    }
    assert(lens@.take(lens@.len() as int) =~= lens@);
    let mut next_code: [u16; 16] = [0; 16];
    let mut code: u16 = 0;
    bl_count[0] = 0;
    let mut bits: usize = 1;
    while bits <= MAX_BITS
        invariant
            1 <= bits <= 16,
            bl_count[0] == 0,
            forall|l: int| 1 <= l < 16 ==> bl_count[l] == count_len(lens@, l),
            code == first_code(lens@, (bits - 1) as nat) % 0x10000,
            forall|l: int| 1 <= l < bits ==> next_code[l] == first_code(lens@, l as nat) % 0x10000,
        decreases 16 - bits,
    {
        proof {
            lemma_double_mod(
                first_code(lens@, (bits - 1) as nat),
                if bits == 1 { 0 } else { count_len(lens@, bits - 1) },
            );
        }
        code = (((code as usize + bl_count[bits - 1] % 0x10000) * 2) % 0x10000) as u16;
        next_code[bits] = code;
        bits += 1;
    }
    let mut entries: Vec<(T, Value<u8>)> = Vec::new();
    let mut i: usize = 0;
    while i < alphabet.len()
        invariant
            i <= alphabet@.len(),
            forall|j: int| 0 <= j < lens@.len() ==> lens@[j].v <= MAX_BITS,
            entries@ == by_symbol(coded(alphabet@.take(i as int), lens@)),
            lens_in_range(entries@),
            forall|k: int| 0 <= k < entries@.len() ==> lens@.contains((#[trigger] entries@[k]).1),
        decreases alphabet.len() - i,
    {
        proof {
            assert(alphabet@.take(i + 1).drop_last() =~= alphabet@.take(i as int));
        }
        if i < lens.len() {
            let len = lens[i];
            if len.v != 0 {
                let entry = (alphabet[i], len);
                let key = alphabet[i].widen();
                let mut at: usize = entries.len();
                while at > 0 && entries[at - 1].0.widen() > key
                    invariant
                        at <= entries@.len(),
                        key == entry.0.value(),
                        forall|k: int| at <= k < entries@.len() ==> entries@[k].0.value() > key,
                    decreases at,
                {
                    at -= 1;
                }
                proof {
                    lemma_insert_by_symbol_at(entries@, entry, at as int);
                    let rest = coded(alphabet@.take(i as int), lens@);
                    assert(rest.push(entry).drop_last() =~= rest);
                    let placed = entries@.insert(at as int, entry);
                    assert(lens@.contains(entry.1));
                    assert forall|k: int| 0 <= k < placed.len() implies 1 <= (#[trigger] placed[k]).1.v
                        <= MAX_BITS && lens@.contains(placed[k].1) by {
                        if k < at {
                            assert(placed[k] == entries@[k]);
                        } else if k > at {
                            assert(placed[k] == entries@[k - 1]);
                        }
                    }
                }
                entries.insert(at, entry);
            }
        }
        i += 1;
    }
    assert(alphabet@.take(alphabet@.len() as int) =~= alphabet@);
    let mut codes: Vec<HuffmanCode<T>> = Vec::new();
    let mut k: usize = 0;
    proof {
        crate::data::lemma_views_empty::<HuffmanCode<T>>();
        assert(views(codes@) =~= huffman_codes(alphabet@, lens@).take(0));
    }
    while k < entries.len()
        invariant
            k <= entries@.len(),
            entries@ == by_symbol(coded(alphabet@, lens@)),
            lens_in_range(entries@),
            forall|j: int| 0 <= j < entries@.len() ==> lens@.contains((#[trigger] entries@[j]).1),
            codes@.len() == k,
            forall|j: int| 0 <= j < k ==> (#[trigger] codes@[j]).len == entries@[j].1,
            forall|l: int|
                1 <= l < 16 ==> next_code[l] == (first_code(lens@, l as nat) + count_len(
                    lens_of(entries@.take(k as int)),
                    l,
                )) % 0x10000,
            views(codes@) == huffman_codes(alphabet@, lens@).take(k as int),
        decreases entries.len() - k,
    {
        let entry = entries[k];
        let l: usize = entry.1.v as usize;
        assert(1 <= entries@[k as int].1.v <= MAX_BITS);
        let code = next_code[l];
        let mut bin = String::new();
        code_to_bin(&mut bin, code, l);
        assert(bin@ =~= bin_digits(code, l as nat));
        proof {
            assert(lens_of(entries@.take(k + 1)).drop_last() =~= lens_of(entries@.take(k as int)));
            crate::data::lemma_views_push(
                codes@,
                HuffmanCode { symbol: entry.0, code, len: entry.1, bin },
            );
        }
        codes.push(HuffmanCode { symbol: entry.0, code, len: entry.1, bin });
        proof {
            lemma_succ_mod(first_code(lens@, l as nat) + count_len(lens_of(entries@.take(k as int)), l as int));
        }
        next_code[l] = ((code as u32 + 1) % 0x10000) as u16;
        k += 1;
        assert(views(codes@) =~= huffman_codes(alphabet@, lens@).take(k as int));
    }
    assert(huffman_codes(alphabet@, lens@).take(entries@.len() as int) =~= huffman_codes(alphabet@, lens@));
    codes
}

/// The outcome of building a tree: the tree as far as it was built, and
/// the failure that stopped the building, if one did.
pub struct Built<T> {
    pub tree: HuffmanTree<T>,
    pub res: Result<(), ErrorView>,
}

/// A tree with the codes of a list placed in it one after the other. The
/// first code that finds no place ends the building.
pub open spec fn build_from<T: Unsigned>(tree: HuffmanTree<T>, codes: Seq<HuffmanCodeView<T>>) -> Built<T>
    decreases codes.len(),
{
    if codes.len() == 0 {
        Built { tree, res: Ok(()) }
    } else {
        let first = codes[0];
        match insert_at(tree, first.len.start as int, first.code, first.len.v as nat, first.symbol) {
            Ok(grown) => build_from(grown, codes.drop_first()),
            Err(e) => Built { tree, res: Err(e) },
        }
    }
}

/// The tree of a code list.
pub open spec fn build_tree<T: Unsigned>(codes: Seq<HuffmanCodeView<T>>) -> Built<T> {
    build_from(HuffmanTree::empty(), codes)
}

/// Builds the tree of a code list into a slot. Where a code finds no place,
/// the slot holds the tree of the codes before it.
pub fn build_huffman_tree<T: Unsigned>(out: &mut Option<HuffmanTree<T>>, codes: &[HuffmanCode<T>]) -> (r: Result<
    (),
    Error,
>)
    requires
        forall|i: int| 0 <= i < codes@.len() ==> codes@[i].len.start + codes@[i].len.v <= usize::MAX,
    ensures
        *final(out) == Some(build_tree(views(codes@)).tree),
        lift(r) == build_tree(views(codes@)).res,
        (forall|i: int| 0 <= i < codes@.len() ==> codes@[i].len.v >= 1) ==> !build_tree(views(codes@)).tree.is_symbol(),
{
    proof {
        if forall|i: int| 0 <= i < codes@.len() ==> codes@[i].len.v >= 1 {
            lemma_build_from_not_symbol(HuffmanTree::<T>::empty(), views(codes@));
        }
    }
    let mut tree: HuffmanTree<T> = HuffmanTree::Leaf(None);
    let mut i: usize = 0;
    assert(views(codes@).skip(0) =~= views(codes@));
    while i < codes.len()
        invariant
            i <= codes@.len(),
            forall|j: int| 0 <= j < codes@.len() ==> codes@[j].len.start + codes@[j].len.v <= usize::MAX,
            build_from(tree, views(codes@).skip(i as int)) == build_tree(views(codes@)),
            (forall|j: int| 0 <= j < codes@.len() ==> codes@[j].len.v >= 1) ==> !build_tree(
                views(codes@),
            ).tree.is_symbol(),
        decreases codes.len() - i,
    {
        let code = &codes[i];
        proof {
            assert(views(codes@).skip(i as int)[0] == codes@[i as int]@);
            assert(views(codes@).skip(i as int).drop_first() =~= views(codes@).skip(i + 1));
        }
        match add_to_huffman_tree(&mut tree, code.len.start, code.code, code.len.v as usize, code.symbol) {
            Err(e) => {
                *out = Some(tree);
                return Err(e);
            },
            Ok(()) => {},
        }
        i += 1;
    }
    *out = Some(tree);
    Ok(())
}

/// The outcome of decoding one symbol: the position reached and the symbol
/// with the bits it was read from, or the failure.
pub struct Decoded<T: Clone> {
    pub pos: int,
    pub res: Result<Value<T>, ErrorView>,
}

/// What decoding gives from a position on, below a tree that was reached
/// with the `len` bits gathered in `code`: one bit is read for each node,
/// until a leaf is reached. A leaf without a symbol is a failure that names
/// the bits read.
pub open spec fn decode<T: Unsigned>(
    bytes: Seq<u8>,
    pos: int,
    tree: HuffmanTree<T>,
    start: usize,
    code: u16,
    len: nat,
) -> Decoded<T>
    decreases 8 * bytes.len() - pos,
{
    match tree {
        HuffmanTree::Node(children) => {
            if !in_reach(bytes, pos, 1) {
                Decoded { pos, res: Err(eof(pos)) }
            } else {
                let bit = bit_at(bytes, pos);
                decode(bytes, pos + 1, children[bit as int], start, (code << 1) | (bit as u16), len + 1)
            }
        },
        HuffmanTree::Leaf(Some(symbol)) => Decoded { pos, res: Ok(Value { v: symbol, start, end: pos as usize }) },
        HuffmanTree::Leaf(None) => Decoded { pos, res: Err(failure(pos, "Code=0b"@ + bin_digits(code, len))) },
    }
}

/// Decodes one symbol at the cursor.
pub fn parse_huffman_code<T: Unsigned>(
    data: &mut DataStream,
    tree: &HuffmanTree<T>,
    start: usize,
    code: u16,
    len: usize,
) -> (r: Result<Value<T>, Error>)
    requires
        old(data).wf(),
        old(data).pos <= old(data).end ==> len + (old(data).end - old(data).pos) <= usize::MAX,
    ensures
        final(data).wf(),
        final(data).moved(
            *old(data),
            decode(old(data).bytes@, old(data).pos as int, *tree, start, code, len as nat).pos,
        ),
        lift(r) == decode(old(data).bytes@, old(data).pos as int, *tree, start, code, len as nat).res,
    decreases old(data).end - old(data).pos,
{
    match tree {
        HuffmanTree::Node(children) => {
            let mut slot: Option<Value<u8>> = None;
            let bit = match data.pop_bits::<u8>(&mut slot, 1) {
                Err(e) => {
                    return Err(e);
                },
                Ok(bit) => bit,
            };
            proof {
                crate::cursor::lemma_bit_at_bound(old(data).bytes@, old(data).pos as int);
                assert(crate::cursor::bits_value(old(data).bytes@, old(data).pos as int, 1) == bit_at(
                    old(data).bytes@,
                    old(data).pos as int,
                )) by {
                    reveal_with_fuel(crate::cursor::bits_value, 2);
                }
            }
            parse_huffman_code(data, &children[bit.v as usize], start, (code << 1) | (bit.v as u16), len + 1)
        },
        HuffmanTree::Leaf(Some(symbol)) => Ok(Value { v: *symbol, start, end: data.pos }),
        HuffmanTree::Leaf(None) => {
            let mut msg = "Code=0b".to_owned();
            code_to_bin(&mut msg, code, len);
            Err(data.parse_error(msg.as_str()))
        },
    }
}

/// Decoding moves forward and stays within the input.
pub proof fn lemma_decode_stays<T: Unsigned>(
    bytes: Seq<u8>,
    pos: int,
    tree: HuffmanTree<T>,
    start: usize,
    code: u16,
    len: nat,
)
    ensures
        pos <= decode(bytes, pos, tree, start, code, len).pos,
        pos <= 8 * bytes.len() ==> decode(bytes, pos, tree, start, code, len).pos <= 8 * bytes.len(),
        decode(bytes, pos, tree, start, code, len).res is Ok && !tree.is_symbol() ==> pos < decode(
            bytes,
            pos,
            tree,
            start,
            code,
            len,
        ).pos,
        decode(bytes, pos, tree, start, code, len).res matches Ok(v) ==> v.start == start && v.end == decode(
            bytes,
            pos,
            tree,
            start,
            code,
            len,
        ).pos as usize,
    decreases 8 * bytes.len() - pos,
{
    match tree {
        HuffmanTree::Node(children) => {
            if in_reach(bytes, pos, 1) {
                let bit = bit_at(bytes, pos);
                lemma_decode_stays(bytes, pos + 1, children[bit as int], start, (code << 1) | (bit as u16), len + 1);
            }
        },
        _ => {},
    }
}

/// Codes of one bit or more never leave a tree that is a single symbol.
pub proof fn lemma_build_from_not_symbol<T: Unsigned>(tree: HuffmanTree<T>, codes: Seq<HuffmanCodeView<T>>)
    requires
        !tree.is_symbol(),
        forall|i: int| 0 <= i < codes.len() ==> (#[trigger] codes[i]).len.v >= 1,
    ensures
        !build_from(tree, codes).tree.is_symbol(),
    decreases codes.len(),
{
    if codes.len() > 0 {
        let first = codes[0];
        match insert_at(tree, first.len.start as int, first.code, first.len.v as nat, first.symbol) {
            Ok(grown) => {
                assert forall|i: int| 0 <= i < codes.drop_first().len() implies (#[trigger] codes.drop_first()[i]).len.v
                    >= 1 by {
                    assert(codes.drop_first()[i] == codes[i + 1]);
                }
                lemma_build_from_not_symbol(grown, codes.drop_first());
            },
            Err(e) => {},
        }
    }
}

/// The path of a code: its lowest `len` bits, most significant bit first.
pub open spec fn path(code: u16, len: nat) -> Seq<bool> {
    Seq::new(len, |j: int| code_bit(code, len - 1 - j))
}

/// The part of a tree at the end of a path, where the path stays within the tree.
pub open spec fn subtree<T>(tree: HuffmanTree<T>, p: Seq<bool>) -> Option<HuffmanTree<T>>
    decreases p.len(),
{
    if p.len() == 0 {
        Some(tree)
    } else {
        match tree {
            HuffmanTree::Node(children) => subtree(children[branch(p[0])], p.drop_first()),
            HuffmanTree::Leaf(_) => None,
        }
    }
}

/// Whether a path ends on the leaf of a symbol.
pub open spec fn leads_to<T>(tree: HuffmanTree<T>, p: Seq<bool>, symbol: T) -> bool {
    subtree(tree, p) == Some(HuffmanTree::Leaf(Some(symbol)))
}

/// Whether a path ends on the leaf of some symbol.
pub open spec fn taken<T>(tree: HuffmanTree<T>, p: Seq<bool>) -> bool {
    subtree(tree, p) matches Some(HuffmanTree::Leaf(Some(_)))
}

/// The path of a code starts with its highest bit and goes on with the
/// path of its lower bits.
pub proof fn lemma_path_step(code: u16, len: nat)
    requires
        len > 0,
    ensures
        path(code, len)[0] == code_bit(code, len - 1),
        path(code, len).drop_first() == path(code, (len - 1) as nat),
{
    assert(path(code, len).drop_first() =~= path(code, (len - 1) as nat));
}

/// A symbol that was placed is found at the end of the path of its code.
pub proof fn lemma_insert_adds<T: Unsigned>(tree: HuffmanTree<T>, pos: int, code: u16, len: nat, symbol: T)
    requires
        insert_at(tree, pos, code, len, symbol) is Ok,
    ensures
        leads_to(insert_at(tree, pos, code, len, symbol)->Ok_0, path(code, len), symbol),
    decreases len,
{
    if len > 0 {
        lemma_path_step(code, len);
        let grown = if tree == HuffmanTree::<T>::empty() { HuffmanTree::<T>::fresh() } else { tree };
        match grown {
            HuffmanTree::Node(children) => {
                let bit = branch(code_bit(code, len - 1));
                lemma_insert_adds(children[bit], pos + 1, code, (len - 1) as nat, symbol);
            },
            _ => {},
        }
    }
}

/// Placing a symbol leaves the symbols that were there where they were.
pub proof fn lemma_insert_keeps<T: Unsigned>(
    tree: HuffmanTree<T>,
    pos: int,
    code: u16,
    len: nat,
    symbol: T,
    q: Seq<bool>,
    other: T,
)
    requires
        insert_at(tree, pos, code, len, symbol) is Ok,
        leads_to(tree, q, other),
    ensures
        leads_to(insert_at(tree, pos, code, len, symbol)->Ok_0, q, other),
    decreases len,
{
    if len > 0 {
        match tree {
            HuffmanTree::Node(children) => {
                let bit = branch(code_bit(code, len - 1));
                if q.len() > 0 && branch(q[0]) == bit {
                    lemma_insert_keeps(children[bit], pos + 1, code, (len - 1) as nat, symbol, q.drop_first(), other);
                }
            },
            _ => {},
        }
    }
}

/// A symbol finds no place where the path of its code ends on a symbol.
pub proof fn lemma_insert_refused<T: Unsigned>(tree: HuffmanTree<T>, pos: int, code: u16, len: nat, symbol: T)
    requires
        taken(tree, path(code, len)),
    ensures
        insert_at(tree, pos, code, len, symbol) is Err,
    decreases len,
{
    if len > 0 {
        lemma_path_step(code, len);
        match tree {
            HuffmanTree::Node(children) => {
                let bit = branch(code_bit(code, len - 1));
                lemma_insert_refused(children[bit], pos + 1, code, (len - 1) as nat, symbol);
            },
            _ => {},
        }
    }
}

/// In a tree no path to a symbol goes on to another symbol.
pub proof fn lemma_tree_prefix_free<T>(tree: HuffmanTree<T>, p: Seq<bool>, q: Seq<bool>)
    requires
        taken(tree, p),
        taken(tree, q),
        p.is_prefix_of(q),
    ensures
        p == q,
    decreases p.len(),
{
    if p.len() == 0 {
        assert(q.len() == 0);
        assert(p =~= q);
    } else {
        match tree {
            HuffmanTree::Node(children) => {
                assert(p[0] == q[0]);
                assert(p.drop_first().is_prefix_of(q.drop_first())) by {
                    assert(p.drop_first() =~= q.drop_first().subrange(0, p.len() - 1));
                }
                lemma_tree_prefix_free(children[branch(p[0])], p.drop_first(), q.drop_first());
                assert(p =~= seq![p[0]] + p.drop_first());
                assert(q =~= seq![q[0]] + q.drop_first());
            },
            _ => {},
        }
    }
}

/// The path of a code of a list.
pub open spec fn path_of<T>(code: HuffmanCodeView<T>) -> Seq<bool> {
    path(code.code, code.len.v as nat)
}

/// Where every code of a list found its place: each is found at the end
/// of its path, what the tree held before is still there, and no two
/// codes have one path, nor the path of a symbol that was there before.
pub proof fn lemma_build_from_places<T: Unsigned>(tree: HuffmanTree<T>, codes: Seq<HuffmanCodeView<T>>)
    requires
        build_from(tree, codes).res is Ok,
    ensures
        forall|i: int|
            0 <= i < codes.len() ==> leads_to(build_from(tree, codes).tree, path_of(#[trigger] codes[i]), codes[i].symbol),
        forall|q: Seq<bool>, other: T| #[trigger]
            leads_to(tree, q, other) ==> leads_to(build_from(tree, codes).tree, q, other),
        forall|i: int, j: int| 0 <= i < j < codes.len() ==> path_of(#[trigger] codes[i]) != path_of(#[trigger] codes[j]),
        forall|i: int| 0 <= i < codes.len() ==> !taken(tree, path_of(#[trigger] codes[i])),
    decreases codes.len(),
{
    if codes.len() > 0 {
        let first = codes[0];
        let rest = codes.drop_first();
        let pos = first.len.start as int;
        let len = first.len.v as nat;
        let step = insert_at(tree, pos, first.code, len, first.symbol);
        let grown = step->Ok_0;
        let built = build_from(tree, codes).tree;
        lemma_build_from_places(grown, rest);
        lemma_insert_adds(tree, pos, first.code, len, first.symbol);
        assert(leads_to(grown, path_of(first), first.symbol));
        assert forall|i: int| 0 <= i < codes.len() implies leads_to(built, path_of(#[trigger] codes[i]), codes[i].symbol) by {
            if i > 0 {
                assert(codes[i] == rest[i - 1]);
            }
        }
        assert forall|q: Seq<bool>, other: T| #[trigger] leads_to(tree, q, other) implies leads_to(built, q, other) by {
            lemma_insert_keeps(tree, pos, first.code, len, first.symbol, q, other);
        }
        assert forall|i: int| 0 <= i < codes.len() implies !taken(tree, path_of(#[trigger] codes[i])) by {
            if i == 0 {
                if taken(tree, path_of(first)) {
                    lemma_insert_refused(tree, pos, first.code, len, first.symbol);
                }
            } else {
                assert(codes[i] == rest[i - 1]);
                if taken(tree, path_of(codes[i])) {
                    let other = subtree(tree, path_of(codes[i]))->0->Leaf_0->0;
                    lemma_insert_keeps(tree, pos, first.code, len, first.symbol, path_of(codes[i]), other);
                    assert(taken(grown, path_of(rest[i - 1])));
                }
            }
        }
        assert forall|i: int, j: int| 0 <= i < j < codes.len() implies path_of(#[trigger] codes[i]) != path_of(
            #[trigger] codes[j],
        ) by {
            assert(codes[j] == rest[j - 1]);
            if i == 0 {
                assert(!taken(grown, path_of(rest[j - 1])));
            } else {
                assert(codes[i] == rest[i - 1]);
            }
        }
    }
}

/// The text of a code spells its path.
pub proof fn lemma_bin_spells_path(code: u16, len: nat, other: u16, other_len: nat)
    ensures
        bin_digits(code, len).is_prefix_of(bin_digits(other, other_len)) ==> path(code, len).is_prefix_of(
            path(other, other_len),
        ),
{
    let a = bin_digits(code, len);
    let b = bin_digits(other, other_len);
    if a.is_prefix_of(b) {
        assert forall|j: int| 0 <= j < len implies path(code, len)[j] == path(other, other_len)[j] by {
            assert(a[j] == b.subrange(0, a.len() as int)[j]);
        }
        assert(path(code, len) =~= path(other, other_len).subrange(0, len as int));
    }
}

/// A code list whose tree could be built is a prefix code: the tree leads
/// from the bits of every code to its symbol, the text of no code is the
/// beginning of the text of another, and no two codes agree in both code
/// and length.
pub proof fn lemma_prefix_code<T: Unsigned>(alphabet: Seq<T>, lens: Seq<Value<u8>>)
    requires
        build_tree(huffman_codes(alphabet, lens)).res is Ok,
    ensures
        forall|i: int|
            0 <= i < huffman_codes(alphabet, lens).len() ==> leads_to(
                build_tree(huffman_codes(alphabet, lens)).tree,
                path_of(#[trigger] huffman_codes(alphabet, lens)[i]),
                huffman_codes(alphabet, lens)[i].symbol,
            ),
        forall|i: int, j: int|
            0 <= i < huffman_codes(alphabet, lens).len() && 0 <= j < huffman_codes(alphabet, lens).len() && i != j
                ==> !(#[trigger] huffman_codes(alphabet, lens)[i]).bin.is_prefix_of(
                (#[trigger] huffman_codes(alphabet, lens)[j]).bin,
            ),
        forall|i: int, j: int|
            0 <= i < huffman_codes(alphabet, lens).len() && 0 <= j < huffman_codes(alphabet, lens).len() && i != j
                ==> !((#[trigger] huffman_codes(alphabet, lens)[i]).code == (#[trigger] huffman_codes(
                alphabet,
                lens,
            )[j]).code && huffman_codes(alphabet, lens)[i].len.v == huffman_codes(alphabet, lens)[j].len.v),
{
    let codes = huffman_codes(alphabet, lens);
    let tree = build_tree(codes).tree;
    lemma_build_from_places(HuffmanTree::<T>::empty(), codes);
    assert forall|i: int, j: int| 0 <= i < codes.len() && 0 <= j < codes.len() && i != j implies !(#[trigger] codes[i]).bin.is_prefix_of(
        (#[trigger] codes[j]).bin,
    ) by {
        if codes[i].bin.is_prefix_of(codes[j].bin) {
            lemma_bin_spells_path(codes[i].code, codes[i].len.v as nat, codes[j].code, codes[j].len.v as nat);
            lemma_tree_prefix_free(tree, path_of(codes[i]), path_of(codes[j]));
            if i < j {
                assert(path_of(codes[i]) != path_of(codes[j]));
            } else {
                assert(path_of(codes[j]) != path_of(codes[i]));
            }
        }
    }
    assert forall|i: int, j: int| 0 <= i < codes.len() && 0 <= j < codes.len() && i != j implies !((
    #[trigger] codes[i]).code == (#[trigger] codes[j]).code && codes[i].len.v == codes[j].len.v) by {
        if i < j {
            assert(path_of(codes[i]) != path_of(codes[j]));
        } else {
            assert(path_of(codes[j]) != path_of(codes[i]));
        }
    }
}

/// The text of every code of a canonical code list is its code in binary,
/// most significant bit first, in as many characters as the code is long.
pub proof fn lemma_bin_is_code<T: Unsigned>(alphabet: Seq<T>, lens: Seq<Value<u8>>, i: int)
    requires
        0 <= i < huffman_codes(alphabet, lens).len(),
    ensures
        huffman_codes(alphabet, lens)[i].bin == bin_digits(
            huffman_codes(alphabet, lens)[i].code,
            huffman_codes(alphabet, lens)[i].len.v as nat,
        ),
        huffman_codes(alphabet, lens)[i].bin.len() == huffman_codes(alphabet, lens)[i].len.v,
{
}

/// Whether the symbols of a list of entries do not decrease.
pub open spec fn ordered<T: Unsigned>(s: Seq<(T, Value<u8>)>) -> bool {
    forall|i: int, j: int| 0 <= i < j < s.len() ==> (#[trigger] s[i]).0.value() <= (#[trigger] s[j]).0.value()
}

/// Placing an entry in an ordered list keeps the list ordered, adds the
/// entry and nothing else, and places it behind the entries of its symbol.
pub proof fn lemma_insert_by_symbol<T: Unsigned>(s: Seq<(T, Value<u8>)>, e: (T, Value<u8>))
    requires
        ordered(s),
    ensures
        ordered(insert_by_symbol(s, e)),
        insert_by_symbol(s, e).to_multiset() == s.to_multiset().insert(e),
        insert_by_symbol(s, e).len() == s.len() + 1,
        forall|i: int|
            0 <= i < insert_by_symbol(s, e).len() ==> (#[trigger] insert_by_symbol(s, e)[i]) == e || s.contains(
                insert_by_symbol(s, e)[i],
            ),
    decreases s.len(),
{
    broadcast use vstd::seq_lib::to_multiset_build;

    if s.len() == 0 || s.last().0.value() <= e.0.value() {
        let placed = s.push(e);
        assert forall|i: int| 0 <= i < placed.len() implies (#[trigger] placed[i]) == e || s.contains(placed[i]) by {
            if i < s.len() {
                assert(placed[i] == s[i]);
            }
        }
    } else {
        let front = s.drop_last();
        lemma_insert_by_symbol(front, e);
        let placed = insert_by_symbol(front, e).push(s.last());
        assert(s =~= front.push(s.last()));
        assert(front.push(s.last()).to_multiset() =~= front.to_multiset().insert(s.last()));
        assert(placed.to_multiset() =~= s.to_multiset().insert(e));
        assert forall|i: int| 0 <= i < placed.len() implies (#[trigger] placed[i]) == e || s.contains(placed[i]) by {
            if i < placed.len() - 1 {
                let x = insert_by_symbol(front, e)[i];
                assert(placed[i] == x);
                if x != e {
                    assert(front.contains(x));
                    let k = choose|k: int| 0 <= k < front.len() && front[k] == x;
                    assert(s[k] == x);
                }
            } else {
                assert(placed[i] == s[s.len() - 1]);
            }
        }
        assert forall|i: int, j: int| 0 <= i < j < placed.len() implies (#[trigger] placed[i]).0.value() <= (
        #[trigger] placed[j]).0.value() by {
            if j == placed.len() - 1 {
                let x = insert_by_symbol(front, e)[i];
                assert(placed[i] == x);
                if x != e {
                    assert(front.contains(x));
                    let k = choose|k: int| 0 <= k < front.len() && front[k] == x;
                    assert(s[k] == x);
                    assert(s[k].0.value() <= s[s.len() - 1].0.value());
                }
            } else {
                assert(placed[i] == insert_by_symbol(front, e)[i]);
                assert(placed[j] == insert_by_symbol(front, e)[j]);
            }
        }
    }
}

/// The entries ordered by symbol are the same entries, and their symbols
/// do not decrease.
pub proof fn lemma_by_symbol_sorts<T: Unsigned>(s: Seq<(T, Value<u8>)>)
    ensures
        ordered(by_symbol(s)),
        by_symbol(s).to_multiset() == s.to_multiset(),
        by_symbol(s).len() == s.len(),
    decreases s.len(),
{
    broadcast use vstd::seq_lib::to_multiset_build;

    if s.len() > 0 {
        lemma_by_symbol_sorts(s.drop_last());
        lemma_insert_by_symbol(by_symbol(s.drop_last()), s.last());
        assert(s =~= s.drop_last().push(s.last()));
        assert(s.drop_last().push(s.last()).to_multiset() =~= s.drop_last().to_multiset().insert(s.last()));
    }
}

/// The codes of a canonical code list come ordered by symbol, one for
/// every symbol of the alphabet that has a code length other than zero.
pub proof fn lemma_codes_ordered<T: Unsigned>(alphabet: Seq<T>, lens: Seq<Value<u8>>)
    ensures
        huffman_codes(alphabet, lens).len() == coded(alphabet, lens).len(),
        forall|i: int, j: int|
            0 <= i < j < huffman_codes(alphabet, lens).len() ==> (#[trigger] huffman_codes(
                alphabet,
                lens,
            )[i]).symbol.value() <= (#[trigger] huffman_codes(alphabet, lens)[j]).symbol.value(),
{
    let s = by_symbol(coded(alphabet, lens));
    lemma_by_symbol_sorts(coded(alphabet, lens));
    assert forall|i: int, j: int| 0 <= i < j < huffman_codes(alphabet, lens).len() implies (#[trigger] huffman_codes(
        alphabet,
        lens,
    )[i]).symbol.value() <= (#[trigger] huffman_codes(alphabet, lens)[j]).symbol.value() by {
        assert(s[i].0.value() <= s[j].0.value());
    }
}

/// Reading the bits of a path that ends on a symbol decodes that symbol,
/// over exactly those bits.
pub proof fn lemma_decode_follows_path<T: Unsigned>(
    bytes: Seq<u8>,
    pos: int,
    tree: HuffmanTree<T>,
    p: Seq<bool>,
    symbol: T,
    start: usize,
    code: u16,
    len: nat,
)
    requires
        leads_to(tree, p, symbol),
        in_reach(bytes, pos, p.len() as int),
        forall|j: int| 0 <= j < p.len() ==> bit_at(bytes, pos + j) == branch(#[trigger] p[j]),
    ensures
        decode(bytes, pos, tree, start, code, len).pos == pos + p.len(),
        decode(bytes, pos, tree, start, code, len).res == Ok::<Value<T>, ErrorView>(
            Value { v: symbol, start, end: (pos + p.len()) as usize },
        ),
    decreases p.len(),
{
    if p.len() > 0 {
        match tree {
            HuffmanTree::Node(children) => {
                let bit = bit_at(bytes, pos);
                assert(bit == branch(p[0]));
                assert forall|j: int| 0 <= j < p.drop_first().len() implies bit_at(bytes, pos + 1 + j) == branch(
                    #[trigger] p.drop_first()[j],
                ) by {
                    assert(p.drop_first()[j] == p[j + 1]);
                }
                lemma_decode_follows_path(
                    bytes,
                    pos + 1,
                    children[bit as int],
                    p.drop_first(),
                    symbol,
                    start,
                    (code << 1) | (bit as u16),
                    len + 1,
                );
            },
            _ => {},
        }
    }
}

/// Where the tree of a code list could be built, the bits of each of its
/// codes, most significant first, decode to the symbol of the code.
pub proof fn lemma_codes_decode<T: Unsigned>(
    alphabet: Seq<T>,
    lens: Seq<Value<u8>>,
    i: int,
    bytes: Seq<u8>,
    pos: int,
    start: usize,
)
    requires
        build_tree(huffman_codes(alphabet, lens)).res is Ok,
        0 <= i < huffman_codes(alphabet, lens).len(),
        in_reach(bytes, pos, huffman_codes(alphabet, lens)[i].len.v as int),
        forall|j: int|
            0 <= j < huffman_codes(alphabet, lens)[i].len.v ==> #[trigger] bit_at(bytes, pos + j) == branch(
                code_bit(huffman_codes(alphabet, lens)[i].code, huffman_codes(alphabet, lens)[i].len.v - 1 - j),
            ),
    ensures
        decode(bytes, pos, build_tree(huffman_codes(alphabet, lens)).tree, start, 0, 0).res == Ok::<
            Value<T>,
            ErrorView,
        >(
            Value {
                v: huffman_codes(alphabet, lens)[i].symbol,
                start,
                end: (pos + huffman_codes(alphabet, lens)[i].len.v) as usize,
            },
        ),
{
    let codes = huffman_codes(alphabet, lens);
    lemma_prefix_code(alphabet, lens);
    let p = path_of(codes[i]);
    assert forall|j: int| 0 <= j < p.len() implies bit_at(bytes, pos + j) == branch(#[trigger] p[j]) by {}
    lemma_decode_follows_path(bytes, pos, build_tree(codes).tree, p, codes[i].symbol, start, 0, 0);
}

} // verus!
