//! The texts that the output model carries: digits of numbers in base 2, 10
//! and 16, and names decoded from UTF-8.
use vstd::prelude::*;
use vstd::utf8::{decode_utf8, valid_utf8};

verus! {

/// The character for a digit below 16, lower case.
pub open spec fn digit(d: nat) -> char {
    "0123456789abcdef"@[d as int]
}

/// The decimal digits of a number, most significant first, without leading zeros.
pub open spec fn dec_digits(n: nat) -> Seq<char>
    decreases n,
{
    if n < 10 {
        seq![digit(n)]
    } else {
        dec_digits(n / 10).push(digit(n % 10))
    }
}

/// Bit `i` of a code, bit 0 being the least significant; bits from 16 on are clear.
pub open spec fn code_bit(code: u16, i: int) -> bool {
    0 <= i < 16 && (code >> (i as u16)) & 1 == 1
}

/// The lowest `len` bits of a code as text, most significant bit first.
pub open spec fn bin_digits(code: u16, len: nat) -> Seq<char> {
    Seq::new(len, |j: int| if code_bit(code, len - 1 - j) { '1' } else { '0' })
}

/// Two lower-case hexadecimal digits for every byte, the high half first.
pub open spec fn hex_chars(bytes: Seq<u8>) -> Seq<char> {
    Seq::new(
        2 * bytes.len(),
        |i: int| if i % 2 == 0 { digit(bytes[i / 2] as nat / 16) } else { digit(bytes[i / 2] as nat % 16) },
    )
}

/// The number that a hexadecimal digit of either case stands for.
pub open spec fn hex_value(c: char) -> Option<nat> {
    if '0' <= c <= '9' {
        Some((c as nat - '0' as nat) as nat)
    } else if 'a' <= c <= 'f' {
        Some((c as nat - 'a' as nat + 10) as nat)
    } else if 'A' <= c <= 'F' {
        Some((c as nat - 'A' as nat + 10) as nat)
    } else {
        None
    }
}

/// Whether a text is made of pairs of hexadecimal digits.
pub open spec fn is_hex(s: Seq<char>) -> bool {
    s.len() % 2 == 0 && forall|i: int| 0 <= i < s.len() ==> hex_value(#[trigger] s[i]) is Some
}

/// The bytes that a text of hexadecimal digit pairs stands for.
pub open spec fn hex_bytes(s: Seq<char>) -> Seq<u8> {
    Seq::new(s.len() / 2, |i: int| (hex_value(s[2 * i])->0 * 16 + hex_value(s[2 * i + 1])->0) as u8)
}

/// Decoding undoes encoding.
pub proof fn lemma_hex_round_trip(bytes: Seq<u8>)
    ensures
        is_hex(hex_chars(bytes)),
        hex_bytes(hex_chars(bytes)) == bytes,
{
    reveal_strlit("0123456789abcdef");
    let s = hex_chars(bytes);
    assert forall|d: nat| d < 16 implies hex_value(digit(d)) == Some(d) by {
        assert(d == 0 || d == 1 || d == 2 || d == 3 || d == 4 || d == 5 || d == 6 || d == 7 || d
            == 8 || d == 9 || d == 10 || d == 11 || d == 12 || d == 13 || d == 14 || d == 15);
    }
    assert forall|i: int| 0 <= i < s.len() implies hex_value(#[trigger] s[i]) is Some by {
        let b = bytes[i / 2] as nat;
        assert(b / 16 < 16 && b % 16 < 16);
    }
    assert forall|i: int| 0 <= i < bytes.len() implies hex_bytes(s)[i] == bytes[i] by {
        let b = bytes[i] as nat;
        assert(b / 16 < 16 && b % 16 < 16);
        assert(s[2 * i] == digit(b / 16));
        assert(s[2 * i + 1] == digit(b % 16));
    }
    assert(hex_bytes(s) =~= bytes);
}

/// The text of a digit below 16.
pub fn digit_text(d: u8) -> (r: &'static str)
    requires
        d < 16,
    ensures
        r@ == seq![digit(d as nat)],
{
    proof {
        reveal_strlit("0123456789abcdef");
        reveal_strlit("0");
        reveal_strlit("1");
        reveal_strlit("2");
        reveal_strlit("3");
        reveal_strlit("4");
        reveal_strlit("5");
        reveal_strlit("6");
        reveal_strlit("7");
        reveal_strlit("8");
        reveal_strlit("9");
        reveal_strlit("a");
        reveal_strlit("b");
        reveal_strlit("c");
        reveal_strlit("d");
        reveal_strlit("e");
        reveal_strlit("f");
    }
    let r = match d {
        0 => "0",
        1 => "1",
        2 => "2",
        3 => "3",
        4 => "4",
        5 => "5",
        6 => "6",
        7 => "7",
        8 => "8",
        9 => "9",
        10 => "a",
        11 => "b",
        12 => "c",
        13 => "d",
        14 => "e",
        _ => "f",
    };
    assert(r@ =~= seq![digit(d as nat)]);
    r
}

/// Appends the decimal digits of a number to a text.
pub fn push_decimal(out: &mut String, n: usize)
    ensures
        final(out)@ == old(out)@ + dec_digits(n as nat),
    decreases n,
{
    if n >= 10 {
        push_decimal(out, n / 10);
    }
    out.append(digit_text((n % 10) as u8));
    assert(out@ =~= old(out)@ + dec_digits(n as nat));
}

/// Appends the lowest `len` bits of a code to a text, most significant bit first.
pub fn code_to_bin(out: &mut String, code: u16, len: usize)
    ensures
        final(out)@ == old(out)@ + bin_digits(code, len as nat),
{
    proof {
        reveal_strlit("0");
        reveal_strlit("1");
    }
    let mut j: usize = 0;
    while j < len
        invariant
            j <= len,
            out@ == old(out)@ + bin_digits(code, len as nat).take(j as int),
            "0"@ == seq!['0'],
            "1"@ == seq!['1'],
        decreases len - j,
    {
        let i: usize = len - 1 - j;
        let set = i < 16 && (code >> (i as u16)) & 1 == 1;
        assert(set == code_bit(code, len - 1 - j));
        if set {
            out.append("1");
        } else {
            out.append("0");
        }
        j += 1;
        assert(out@ =~= old(out)@ + bin_digits(code, len as nat).take(j as int));
    }
    assert(bin_digits(code, len as nat).take(len as int) =~= bin_digits(code, len as nat));
}

/// The message with which the standard library rejects bytes that are not
/// UTF-8. It depends on the bytes alone.
pub uninterp spec fn utf8_error_text(bytes: Seq<u8>) -> Seq<char>;

/// Calls `hex::encode`, which writes each byte as two lower-case hexadecimal
/// digits, the high half first.
#[verifier::external_body]
pub(crate) fn hex_encode(bytes: &[u8]) -> (r: String)
    ensures
        r@ == hex_chars(bytes@),
{
    hex::encode(bytes)
}

/// Calls `hex::decode`, which accepts a text of an even number of
/// hexadecimal digits of either case and returns the byte of each pair, and
/// rejects every other text.
#[verifier::external_body]
pub(crate) fn hex_decode(text: &str) -> (r: Option<Vec<u8>>)
    ensures
        r is Some <==> is_hex(text@),
        r matches Some(bytes) ==> bytes@ == hex_bytes(text@),
{
    hex::decode(text).ok()
}

/// Calls `std::str::from_utf8`, which accepts exactly the byte sequences that
/// are valid UTF-8 and then returns the text they encode. Of a rejection only
/// the message is kept.
#[verifier::external_body]
pub(crate) fn utf8_text(bytes: &[u8]) -> (r: Result<&str, String>)
    ensures
        r is Ok <==> valid_utf8(bytes@),
        r matches Ok(text) ==> text@ == decode_utf8(bytes@),
        r matches Err(msg) ==> msg@ == utf8_error_text(bytes@),
{
    match std::str::from_utf8(bytes) {
        Ok(text) => Ok(text),
        Err(e) => Err(e.to_string()),
    }
}

} // verus!
