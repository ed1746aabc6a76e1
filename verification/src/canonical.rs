//! Why canonical codes are prefix codes: where the code lengths leave room
//! for all their codes, no code is the beginning of another, and the tree
//! of the code list can be built.
use crate::data::{HuffmanCodeView, HuffmanTree, Value};
use crate::huffman::{
    branch, build_from, build_tree, by_symbol, code_at, coded, count_len, first_code, huffman_codes, insert_at,
    insert_by_symbol, lemma_insert_at_empty, lemma_path_step, lens_of, path, path_of, subtree, taken, MAX_BITS,
};
use crate::text::code_bit;
use crate::word::Unsigned;
use vstd::arithmetic::power2::{lemma2_to64, lemma_pow2_adds, lemma_pow2_pos, lemma_pow2_unfold, pow2};
use vstd::prelude::*;

verus! {

/// The number of codes of a length; zero lengths take no code.
pub open spec fn codes_of(lens: Seq<Value<u8>>, len: nat) -> nat {
    if len == 0 {
        0
    } else {
        count_len(lens, len as int)
    }
}

/// Whether code lengths leave room for all their codes: no length is
/// above 15, and the codes of 15 bits end within 15 bits. This is the
/// inequality of Kraft, each code counted with the weight of its length.
pub open spec fn fitting(lens: Seq<Value<u8>>) -> bool {
    &&& forall|i: int| 0 <= i < lens.len() ==> (#[trigger] lens[i]).v <= MAX_BITS
    &&& first_code(lens, 15) + codes_of(lens, 15) <= 0x8000
}

/// The codes of each length end within that length.
pub proof fn lemma_room_at(lens: Seq<Value<u8>>, len: nat)
    requires
        first_code(lens, 15) + codes_of(lens, 15) <= 0x8000,
        len <= 15,
    ensures
        first_code(lens, len) + codes_of(lens, len) <= pow2(len),
    decreases 15 - len,
{
    lemma2_to64();
    if len < 15 {
        lemma_room_at(lens, len + 1);
        lemma_pow2_unfold(len + 1);
        assert(first_code(lens, len + 1) == 2 * (first_code(lens, len) + codes_of(lens, len)));
    }
}

/// The codes of a length start behind all codes of a shorter length, each
/// continued to that length.
pub proof fn lemma_starts_behind(lens: Seq<Value<u8>>, short: nat, long: nat)
    requires
        short < long,
    ensures
        first_code(lens, long) >= pow2((long - short) as nat) * (first_code(lens, short) + codes_of(lens, short)),
    decreases long - short,
{
    lemma2_to64();
    let base = first_code(lens, short) + codes_of(lens, short);
    if long == short + 1 {
        assert(first_code(lens, long) == 2 * base);
        assert(pow2(1) * base == 2 * base);
    } else {
        lemma_starts_behind(lens, short, (long - 1) as nat);
        lemma_pow2_unfold((long - short) as nat);
        let before = first_code(lens, (long - 1) as nat);
        let half = pow2((long - 1 - short) as nat);
        assert(first_code(lens, long) == 2 * (before + codes_of(lens, (long - 1) as nat)));
        assert(2 * (half * base) == (2 * half) * base) by (nonlinear_arith);
    }
}

/// Counting goes on from list to longer list.
pub proof fn lemma_count_push(lens: Seq<Value<u8>>, x: Value<u8>, len: int)
    ensures
        count_len(lens.push(x), len) == count_len(lens, len) + if x.v == len { 1nat } else { 0nat },
{
    assert(lens.push(x).drop_last() =~= lens);
}

/// A beginning of a list holds no more entries of a length than a longer
/// beginning, and fewer where an entry of the length lies between.
pub proof fn lemma_count_take(lens: Seq<Value<u8>>, k: int, j: int, len: int)
    requires
        0 <= k <= j <= lens.len(),
    ensures
        count_len(lens.take(k), len) <= count_len(lens.take(j), len),
        k < j && lens[k].v == len ==> count_len(lens.take(k), len) < count_len(lens.take(j), len),
    decreases j - k,
{
    if k < j {
        lemma_count_take(lens, k, j - 1, len);
        assert(lens.take(j) =~= lens.take(j - 1).push(lens[j - 1]));
        lemma_count_push(lens.take(j - 1), lens[j - 1], len);
    }
}

/// Placing an entry by symbol adds one entry of its length.
pub proof fn lemma_insert_counts<T: Unsigned>(s: Seq<(T, Value<u8>)>, e: (T, Value<u8>), len: int)
    ensures
        count_len(lens_of(insert_by_symbol(s, e)), len) == count_len(lens_of(s), len) + if e.1.v == len {
            1nat
        } else {
            0nat
        },
    decreases s.len(),
{
    if s.len() == 0 || s.last().0.value() <= e.0.value() {
        assert(lens_of(s.push(e)) =~= lens_of(s).push(e.1));
        lemma_count_push(lens_of(s), e.1, len);
    } else {
        let front = s.drop_last();
        lemma_insert_counts(front, e, len);
        let placed = insert_by_symbol(front, e);
        assert(lens_of(placed.push(s.last())) =~= lens_of(placed).push(s.last().1));
        lemma_count_push(lens_of(placed), s.last().1, len);
        assert(lens_of(s) =~= lens_of(front).push(s.last().1));
        lemma_count_push(lens_of(front), s.last().1, len);
    }
}

/// Ordering by symbol keeps the number of entries of each length.
pub proof fn lemma_by_symbol_counts<T: Unsigned>(s: Seq<(T, Value<u8>)>, len: int)
    ensures
        count_len(lens_of(by_symbol(s)), len) == count_len(lens_of(s), len),
    decreases s.len(),
{
    if s.len() > 0 {
        lemma_by_symbol_counts(s.drop_last(), len);
        lemma_insert_counts(by_symbol(s.drop_last()), s.last(), len);
        assert(lens_of(s) =~= lens_of(s.drop_last()).push(s.last().1));
        lemma_count_push(lens_of(s.drop_last()), s.last().1, len);
    }
}

/// The shorter of two lengths.
pub open spec fn shorter(a: nat, b: nat) -> int {
    if a < b {
        a as int
    } else {
        b as int
    }
}

/// No more symbols take a code of a length than there are code lengths of it.
pub proof fn lemma_coded_counts<T>(alphabet: Seq<T>, lens: Seq<Value<u8>>, len: int)
    requires
        len != 0,
    ensures
        count_len(lens_of(coded(alphabet, lens)), len) <= count_len(
            lens.take(shorter(alphabet.len(), lens.len())),
            len,
        ),
        count_len(lens_of(coded(alphabet, lens)), len) <= count_len(lens, len),
    decreases alphabet.len(),
{
    if alphabet.len() > 0 {
        let front = alphabet.drop_last();
        let i = alphabet.len() - 1;
        lemma_coded_counts(front, lens, len);
        if i < lens.len() {
            assert(lens.take(i + 1) =~= lens.take(i).push(lens[i]));
            lemma_count_push(lens.take(i), lens[i], len);
            if lens[i].v != 0 {
                let rest = coded(front, lens);
                assert(lens_of(rest.push((alphabet.last(), lens[i]))) =~= lens_of(rest).push(lens[i]));
                lemma_count_push(lens_of(rest), lens[i], len);
            }
        }
    }
    lemma_count_take(lens, shorter(alphabet.len(), lens.len()), lens.len() as int, len);
    assert(lens.take(lens.len() as int) =~= lens);
}

/// The number of a code before it is cut to 16 bits: the smallest code of
/// its length and the number of entries of that length before it.
pub open spec fn number_at<T>(lens: Seq<Value<u8>>, s: Seq<(T, Value<u8>)>, k: int) -> nat {
    first_code(lens, s[k].1.v as nat) + count_len(lens_of(s.take(k)), s[k].1.v as int)
}

/// Where code lengths leave room, every code is within the bits of its
/// length, so that nothing is cut off, and no code is the beginning of
/// another: continued or cut to the length of another code, a code is
/// not that code.
pub proof fn lemma_numbers_apart<T: Unsigned>(alphabet: Seq<T>, lens: Seq<Value<u8>>, i: int, j: int)
    requires
        fitting(lens),
        0 <= i < by_symbol(coded(alphabet, lens)).len(),
        0 <= j < by_symbol(coded(alphabet, lens)).len(),
        i != j,
        by_symbol(coded(alphabet, lens))[i].1.v <= by_symbol(coded(alphabet, lens))[j].1.v,
    ensures
        ({
            let s = by_symbol(coded(alphabet, lens));
            &&& 1 <= s[i].1.v <= 15
            &&& number_at(lens, s, i) < pow2(s[i].1.v as nat)
            &&& number_at(lens, s, j) < pow2(s[j].1.v as nat)
            &&& code_at(lens, s, i) == number_at(lens, s, i)
            &&& code_at(lens, s, j) == number_at(lens, s, j)
            &&& number_at(lens, s, j) / pow2((s[j].1.v - s[i].1.v) as nat) != number_at(lens, s, i)
        }),
{
    let s = by_symbol(coded(alphabet, lens));
    lemma_number_fits(alphabet, lens, i);
    lemma_number_fits(alphabet, lens, j);
    let li = s[i].1.v as nat;
    let lj = s[j].1.v as nat;
    let vi = number_at(lens, s, i);
    let vj = number_at(lens, s, j);
    lemma2_to64();
    if li == lj {
        assert(pow2(0) == 1);
        assert(lens_of(s.take(i)) =~= lens_of(s).take(i));
        assert(lens_of(s.take(j)) =~= lens_of(s).take(j));
        assert(lens_of(s)[i] == s[i].1 && lens_of(s)[j] == s[j].1);
        if i < j {
            lemma_count_take(lens_of(s), i, j, li as int);
        } else {
            lemma_count_take(lens_of(s), j, i, li as int);
        }
        assert(vi != vj);
        assert(vj / 1 == vj);
    } else {
        let d = (lj - li) as nat;
        lemma_starts_behind(lens, li, lj);
        lemma_rank_below(alphabet, lens, i);
        lemma_pow2_pos(d);
        let base = first_code(lens, li) + codes_of(lens, li);
        assert(vi + 1 <= base);
        assert(pow2(d) * (vi + 1) <= pow2(d) * base) by (nonlinear_arith)
            requires
                vi + 1 <= base,
                pow2(d) > 0,
        ;
        assert(vj >= pow2(d) * (vi + 1));
        assert(vj as int / pow2(d) as int >= vi + 1) by (nonlinear_arith)
            requires
                vj >= pow2(d) * (vi + 1),
                pow2(d) > 0,
        ;
        assert(vj / pow2(d) != vi);
    }
}

/// Fewer entries of a length come before an entry than there are code
/// lengths of that length.
pub proof fn lemma_rank_below<T: Unsigned>(alphabet: Seq<T>, lens: Seq<Value<u8>>, k: int)
    requires
        0 <= k < by_symbol(coded(alphabet, lens)).len(),
    ensures
        ({
            let s = by_symbol(coded(alphabet, lens));
            &&& s[k].1.v != 0
            &&& count_len(lens_of(s.take(k)), s[k].1.v as int) < codes_of(lens, s[k].1.v as nat)
        }),
{
    let s = by_symbol(coded(alphabet, lens));
    let len = s[k].1.v as int;
    crate::located::lemma_codes_meet(alphabet, lens, |v: Value<u8>| true);
    assert(huffman_codes(alphabet, lens)[k].len == s[k].1);
    assert(lens_of(s.take(k)) =~= lens_of(s).take(k));
    lemma_count_take(lens_of(s), k, s.len() as int, len);
    assert(lens_of(s).take(s.len() as int) =~= lens_of(s));
    lemma_by_symbol_counts(coded(alphabet, lens), len);
    lemma_coded_counts(alphabet, lens, len);
}

/// Where code lengths leave room, a code is within the bits of its length,
/// and nothing of it is cut off.
pub proof fn lemma_number_fits<T: Unsigned>(alphabet: Seq<T>, lens: Seq<Value<u8>>, k: int)
    requires
        fitting(lens),
        0 <= k < by_symbol(coded(alphabet, lens)).len(),
    ensures
        ({
            let s = by_symbol(coded(alphabet, lens));
            &&& 1 <= s[k].1.v <= 15
            &&& number_at(lens, s, k) < pow2(s[k].1.v as nat)
            &&& code_at(lens, s, k) == number_at(lens, s, k)
        }),
{
    let s = by_symbol(coded(alphabet, lens));
    lemma_rank_below(alphabet, lens, k);
    crate::located::lemma_codes_meet(alphabet, lens, |v: Value<u8>| v.v <= MAX_BITS);
    assert(huffman_codes(alphabet, lens)[k].len == s[k].1);
    lemma_room_at(lens, s[k].1.v as nat);
    lemma2_to64();
    vstd::arithmetic::power2::lemma_pow2_strictly_increases(s[k].1.v as nat, 16);
}

proof fn lemma_bit_of_half(a: u16, i: int)
    requires
        0 <= i < 15,
    ensures
        code_bit((a / 2) as u16, i) == code_bit(a, i + 1),
{
    let s = i as u16;
    assert(((a / 2) >> s) & 1 == (a >> ((s + 1) as u16)) & 1) by (bit_vector)
        requires
            s < 15,
    ;
}

proof fn lemma_bit_of_shifted(b: u16, d: u16, i: int)
    requires
        0 <= i,
        i + d < 16,
    ensures
        code_bit(b >> d, i) == code_bit(b, i + d),
{
    let s = i as u16;
    assert(((b >> d) >> s) & 1 == (b >> ((s + d) as u16)) & 1) by (bit_vector)
        requires
            s + d < 16,
    ;
}

/// Two numbers below 2 to the `len` that agree in their lowest `len` bits
/// are one number.
pub proof fn lemma_low_bits_decide(a: u16, b: u16, len: nat)
    requires
        len <= 15,
        a < pow2(len),
        b < pow2(len),
        forall|i: int| 0 <= i < len ==> code_bit(a, i) == code_bit(b, i),
    ensures
        a == b,
    decreases len,
{
    lemma2_to64();
    if len > 0 {
        let half_a = (a / 2) as u16;
        let half_b = (b / 2) as u16;
        lemma_pow2_unfold(len);
        assert forall|i: int| 0 <= i < len - 1 implies code_bit(half_a, i) == code_bit(half_b, i) by {
            lemma_bit_of_half(a, i);
            lemma_bit_of_half(b, i);
            assert(code_bit(a, i + 1) == code_bit(b, i + 1));
        }
        lemma_low_bits_decide(half_a, half_b, (len - 1) as nat);
        assert(code_bit(a, 0) == code_bit(b, 0));
        assert((a >> 0u16) & 1 == a % 2) by (bit_vector);
        assert((b >> 0u16) & 1 == b % 2) by (bit_vector);
    }
}

/// A code whose path begins the path of a longer code is that code cut to
/// its length.
pub proof fn lemma_prefix_is_quotient(a: u16, short: nat, b: u16, long: nat)
    requires
        short <= long <= 15,
        a < pow2(short),
        b < pow2(long),
        path(a, short).is_prefix_of(path(b, long)),
    ensures
        b as nat / pow2((long - short) as nat) == a,
{
    let d = (long - short) as nat;
    let cut = b >> (d as u16);
    vstd::bits::lemma_u16_shr_is_div(b, d as u16);
    lemma_pow2_adds(d, short);
    lemma_pow2_pos(d);
    assert(b as nat / pow2(d) < pow2(short)) by (nonlinear_arith)
        requires
            b < pow2(d) * pow2(short),
            pow2(d) > 0,
    ;
    assert forall|i: int| 0 <= i < short implies code_bit(a, i) == code_bit(cut, i) by {
        let t = short - 1 - i;
        assert(path(a, short)[t] == path(b, long).subrange(0, short as int)[t]);
        lemma_bit_of_shifted(b, d as u16, i);
    }
    lemma_low_bits_decide(a, cut, short);
}

/// Whether a path ends on a node.
pub open spec fn node_at<T>(tree: HuffmanTree<T>, p: Seq<bool>) -> bool {
    subtree(tree, p) matches Some(HuffmanTree::Node(_))
}

/// A symbol finds its place where its path neither runs through or onto
/// a symbol nor ends on a node.
pub proof fn lemma_insert_succeeds<T: Unsigned>(tree: HuffmanTree<T>, pos: int, code: u16, len: nat, symbol: T)
    requires
        forall|k: int| 0 <= k <= len ==> !taken(tree, #[trigger] path(code, len).take(k)),
        !node_at(tree, path(code, len)),
    ensures
        insert_at(tree, pos, code, len, symbol) is Ok,
    decreases len,
{
    let p = path(code, len);
    assert(p.take(0) =~= Seq::<bool>::empty());
    assert(!taken(tree, p.take(0)));
    if len == 0 {
        assert(p =~= Seq::<bool>::empty());
    } else {
        lemma_path_step(code, len);
        let rest = path(code, (len - 1) as nat);
        match tree {
            HuffmanTree::Node(children) => {
                let child = children[branch(code_bit(code, len - 1))];
                assert forall|k: int| 0 <= k <= len - 1 implies !taken(child, #[trigger] rest.take(k)) by {
                    assert(p.take(k + 1).drop_first() =~= rest.take(k));
                    assert(p.take(k + 1)[0] == p[0]);
                    assert(!taken(tree, p.take(k + 1)));
                }
                lemma_insert_succeeds(child, pos + 1, code, (len - 1) as nat, symbol);
            },
            HuffmanTree::Leaf(None) => {
                lemma_insert_at_empty(pos, code, len, symbol);
            },
            HuffmanTree::Leaf(Some(_)) => {},
        }
    }
}

/// Placing a symbol adds the leaf at the end of its path and nodes along
/// its path, and no other leaf of a symbol and no other node.
pub proof fn lemma_insert_frame<T: Unsigned>(
    tree: HuffmanTree<T>,
    pos: int,
    code: u16,
    len: nat,
    symbol: T,
    q: Seq<bool>,
)
    requires
        insert_at(tree, pos, code, len, symbol) is Ok,
    ensures
        taken(insert_at(tree, pos, code, len, symbol)->Ok_0, q) ==> q == path(code, len) || taken(tree, q),
        node_at(insert_at(tree, pos, code, len, symbol)->Ok_0, q) ==> (q.len() < len && q.is_prefix_of(
            path(code, len),
        )) || node_at(tree, q),
    decreases len,
{
    let p = path(code, len);
    let grown_tree = insert_at(tree, pos, code, len, symbol)->Ok_0;
    if len == 0 {
        if q.len() == 0 {
            assert(q =~= p);
        }
    } else {
        lemma_path_step(code, len);
        let rest = path(code, (len - 1) as nat);
        let bit = branch(code_bit(code, len - 1));
        let grown = if tree == HuffmanTree::<T>::empty() { HuffmanTree::<T>::fresh() } else { tree };
        match grown {
            HuffmanTree::Node(children) => {
                if q.len() == 0 {
                    assert(q =~= p.subrange(0, 0));
                } else if branch(q[0]) == bit {
                    lemma_insert_frame(children[bit], pos + 1, code, (len - 1) as nat, symbol, q.drop_first());
                    if q.drop_first() == rest {
                        assert(q =~= seq![q[0]] + q.drop_first());
                        assert(p =~= seq![p[0]] + p.drop_first());
                    }
                    if q.drop_first().len() < len - 1 && q.drop_first().is_prefix_of(rest) {
                        assert(q =~= p.subrange(0, q.len() as int)) by {
                            assert forall|i: int| 0 <= i < q.len() implies q[i] == p[i] by {
                                if i > 0 {
                                    assert(q.drop_first()[i - 1] == rest.subrange(0, q.len() - 1)[i - 1]);
                                }
                            }
                        }
                    }
                    if tree == HuffmanTree::<T>::empty() {
                        let fresh = [HuffmanTree::<T>::Leaf(None), HuffmanTree::<T>::Leaf(None)];
                        assert(fresh[bit] == HuffmanTree::<T>::Leaf(None));
                    }
                } else {
                    if tree == HuffmanTree::<T>::empty() {
                        let fresh = [HuffmanTree::<T>::Leaf(None), HuffmanTree::<T>::Leaf(None)];
                        assert(fresh[1 - bit] == HuffmanTree::<T>::Leaf(None));
                    }
                }
            },
            _ => {},
        }
    }
}

/// Whether no path of a code of a list begins the path of another.
pub open spec fn apart<T>(codes: Seq<HuffmanCodeView<T>>) -> bool {
    forall|i: int, j: int|
        0 <= i < codes.len() && 0 <= j < codes.len() && i != j ==> !path_of(#[trigger] codes[i]).is_prefix_of(
            path_of(#[trigger] codes[j]),
        )
}

/// Codes whose paths keep apart from one another and from what a tree
/// holds all find their place in the tree.
pub proof fn lemma_apart_builds<T: Unsigned>(tree: HuffmanTree<T>, codes: Seq<HuffmanCodeView<T>>)
    requires
        apart(codes),
        forall|i: int, k: int|
            0 <= i < codes.len() && 0 <= k <= codes[i].len.v ==> !taken(tree, #[trigger] path_of(codes[i]).take(k)),
        forall|i: int| 0 <= i < codes.len() ==> !node_at(tree, #[trigger] path_of(codes[i])),
    ensures
        build_from(tree, codes).res is Ok,
    decreases codes.len(),
{
    if codes.len() > 0 {
        let first = codes[0];
        let rest = codes.drop_first();
        let pos = first.len.start as int;
        let len = first.len.v as nat;
        let p = path_of(first);
        assert forall|k: int| 0 <= k <= len implies !taken(tree, #[trigger] path(first.code, len).take(k)) by {
            assert(!taken(tree, path_of(codes[0]).take(k)));
        }
        lemma_insert_succeeds(tree, pos, first.code, len, first.symbol);
        let grown = insert_at(tree, pos, first.code, len, first.symbol)->Ok_0;
        assert forall|i: int, j: int| 0 <= i < rest.len() && 0 <= j < rest.len() && i != j implies !path_of(
            #[trigger] rest[i],
        ).is_prefix_of(path_of(#[trigger] rest[j])) by {
            assert(rest[i] == codes[i + 1] && rest[j] == codes[j + 1]);
        }
        assert forall|i: int, k: int| 0 <= i < rest.len() && 0 <= k <= rest[i].len.v implies !taken(
            grown,
            #[trigger] path_of(rest[i]).take(k),
        ) by {
            let q = path_of(rest[i]).take(k);
            assert(rest[i] == codes[i + 1]);
            lemma_insert_frame(tree, pos, first.code, len, first.symbol, q);
            assert(!taken(tree, path_of(codes[i + 1]).take(k)));
            if q == p {
                assert(q.is_prefix_of(path_of(codes[i + 1])));
                assert(!path_of(codes[0]).is_prefix_of(path_of(codes[i + 1])));
            }
        }
        assert forall|i: int| 0 <= i < rest.len() implies !node_at(grown, #[trigger] path_of(rest[i])) by {
            let q = path_of(rest[i]);
            assert(rest[i] == codes[i + 1]);
            lemma_insert_frame(tree, pos, first.code, len, first.symbol, q);
            assert(!node_at(tree, path_of(codes[i + 1])));
            assert(!path_of(codes[i + 1]).is_prefix_of(path_of(codes[0])));
        }
        lemma_apart_builds(grown, rest);
    }
}

/// The paths of the codes of code lengths that leave room keep apart.
pub proof fn lemma_fitting_apart<T: Unsigned>(alphabet: Seq<T>, lens: Seq<Value<u8>>)
    requires
        fitting(lens),
    ensures
        apart(huffman_codes(alphabet, lens)),
{
    let codes = huffman_codes(alphabet, lens);
    let s = by_symbol(coded(alphabet, lens));
    assert forall|i: int, j: int| 0 <= i < codes.len() && 0 <= j < codes.len() && i != j implies !path_of(
        #[trigger] codes[i],
    ).is_prefix_of(path_of(#[trigger] codes[j])) by {
        if path_of(codes[i]).is_prefix_of(path_of(codes[j])) {
            assert(codes[i].len == s[i].1 && codes[j].len == s[j].1);
            assert(s[i].1.v <= s[j].1.v);
            lemma_numbers_apart(alphabet, lens, i, j);
            lemma_number_fits(alphabet, lens, j);
            lemma_prefix_is_quotient(codes[i].code, s[i].1.v as nat, codes[j].code, s[j].1.v as nat);
        }
    }
}

/// Where code lengths leave room for all their codes, the tree of their
/// canonical code list can be built.
pub proof fn lemma_fitting_builds<T: Unsigned>(alphabet: Seq<T>, lens: Seq<Value<u8>>)
    requires
        fitting(lens),
    ensures
        build_tree(huffman_codes(alphabet, lens)).res is Ok,
{
    lemma_fitting_apart(alphabet, lens);
    lemma_apart_builds(HuffmanTree::<T>::empty(), huffman_codes(alphabet, lens));
}

/// Counting over a run of one code length: the entries from `from` up to
/// `to` add their number to the count of their length, and nothing to
/// the counts of other lengths.
pub proof fn lemma_count_run(lens: Seq<Value<u8>>, from: int, to: int, run: u8, len: int)
    requires
        0 <= from <= to <= lens.len(),
        forall|i: int| from <= i < to ==> (#[trigger] lens[i]).v == run,
    ensures
        count_len(lens.take(to), len) == count_len(lens.take(from), len) + if run == len {
            (to - from) as nat
        } else {
            0nat
        },
    decreases to - from,
{
    if from < to {
        lemma_count_run(lens, from, to - 1, run, len);
        assert(lens.take(to) =~= lens.take(to - 1).push(lens[to - 1]));
        lemma_count_push(lens.take(to - 1), lens[to - 1], len);
    }
}

} // verus!
