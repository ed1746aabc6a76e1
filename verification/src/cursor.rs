//! A cursor over the bits of a byte buffer.
//!
//! Bit `k` of the input is bit `k % 8` of byte `k / 8`, the least significant
//! bit of a byte being its bit 0. Fields of several bits are read least
//! significant bit first.
use crate::data::{opt_view, Value, ValueView};
use crate::error::{failure, lift, parse_failure, Error, ErrorView};
use crate::text::{hex_chars, hex_encode, utf8_error_text, utf8_text};
use crate::word::Unsigned;
use crate::Settings;
use vstd::arithmetic::power2::{lemma2_to64, lemma_pow2_strictly_increases, lemma_pow2_unfold, pow2};
use vstd::prelude::*;
use vstd::utf8::{decode_utf8, valid_utf8};

verus! {

/// The bit at a position of the input.
pub open spec fn bit_at(bytes: Seq<u8>, pos: int) -> nat {
    ((bytes[pos / 8] >> ((pos % 8) as u8)) & 1) as nat
}

/// The number that `n` bits from a position on stand for, the first bit
/// being the least significant.
pub open spec fn bits_value(bytes: Seq<u8>, pos: int, n: nat) -> nat
    decreases n,
{
    if n == 0 {
        0
    } else {
        bit_at(bytes, pos) + 2 * bits_value(bytes, pos + 1, (n - 1) as nat)
    }
}

/// The number that `n` bytes from an index on stand for, the first byte
/// being the least significant.
pub open spec fn le_value(bytes: Seq<u8>, index: int, n: nat) -> nat
    decreases n,
{
    if n == 0 {
        0
    } else {
        bytes[index] as nat + 256 * le_value(bytes, index + 1, (n - 1) as nat)
    }
}

/// Whether `n` more bits can be read from a position.
pub open spec fn in_reach(bytes: Seq<u8>, pos: int, n: int) -> bool {
    pos + n <= 8 * bytes.len()
}

/// The failure of a read that runs past the end of the input.
pub open spec fn eof(pos: int) -> ErrorView {
    failure(pos, "EOF"@)
}

/// The failure of a read of whole bytes that does not start on a byte boundary.
pub open spec fn unaligned(pos: int) -> ErrorView {
    failure(pos, "Unaligned"@)
}

/// The first byte boundary at or after a position.
pub open spec fn aligned(pos: int) -> int {
    pos + (8 - pos % 8) % 8
}

/// What reading a little-endian integer at a position gives. The recorded
/// range is eight bits wide whatever the width of the integer.
pub open spec fn peek_le_at<T: Unsigned>(bytes: Seq<u8>, pos: int) -> Result<Value<T>, ErrorView> {
    if !in_reach(bytes, pos, 8 * T::size() as int) {
        Err(eof(pos))
    } else if pos % 8 != 0 {
        Err(unaligned(pos))
    } else {
        Ok(Value { v: T::make(le_value(bytes, pos / 8, T::size())), start: pos as usize, end: (pos + 8) as usize })
    }
}

/// What reading `n` bits at a position gives.
pub open spec fn peek_bits_at<T: Unsigned>(bytes: Seq<u8>, pos: int, n: nat) -> Result<Value<T>, ErrorView> {
    if !in_reach(bytes, pos, n as int) {
        Err(eof(pos))
    } else {
        Ok(Value { v: T::make(bits_value(bytes, pos, n)), start: pos as usize, end: (pos + n) as usize })
    }
}

/// The index of the first zero byte at or after an index, or the length of
/// the input if there is none.
pub open spec fn find_nul(bytes: Seq<u8>, index: int) -> int
    decreases bytes.len() - index,
{
    if index >= bytes.len() {
        bytes.len() as int
    } else if bytes[index] == 0 {
        index
    } else {
        find_nul(bytes, index + 1)
    }
}

/// The outcome of reading a text that ends with a zero byte.
pub struct TextStep {
    pub out: Option<ValueView<Seq<char>>>,
    pub pos: int,
    pub res: Result<(), ErrorView>,
}

/// What reading a zero-terminated text at a position gives: the new content
/// of the slot that receives it, the position reached, and the result.
pub open spec fn pop_str_at(
    out: Option<ValueView<Seq<char>>>,
    bytes: Seq<u8>,
    pos: int,
) -> TextStep {
    let nul = find_nul(bytes, pos / 8);
    if pos % 8 != 0 {
        TextStep { out, pos, res: Err(unaligned(pos)) }
    } else if nul >= bytes.len() {
        let stop = if pos <= 8 * bytes.len() { 8 * bytes.len() as int } else { pos };
        TextStep { out, pos: stop, res: Err(eof(stop)) }
    } else {
        let name = bytes.subrange(pos / 8, nul);
        if valid_utf8(name) {
            TextStep {
                out: Some(
                    ValueView { v: decode_utf8(name), start: pos as usize, end: (8 * (nul + 1)) as usize },
                ),
                pos: 8 * (nul + 1),
                res: Ok(()),
            }
        } else {
            TextStep { out, pos: 8 * (nul + 1), res: Err(ErrorView::Utf8(utf8_error_text(name))) }
        }
    }
}

/// A bit is zero or one.
pub proof fn lemma_bit_at_bound(bytes: Seq<u8>, pos: int)
    ensures
        bit_at(bytes, pos) <= 1,
{
    let b = bytes[pos / 8];
    let s = (pos % 8) as u8;
    assert((b >> s) & 1 <= 1) by (bit_vector);
}

/// A field of `n` bits is below 2 to the `n`.
pub proof fn lemma_bits_value_bound(bytes: Seq<u8>, pos: int, n: nat)
    ensures
        bits_value(bytes, pos, n) < pow2(n),
    decreases n,
{
    if n == 0 {
        lemma2_to64();
    } else {
        lemma_bits_value_bound(bytes, pos + 1, (n - 1) as nat);
        lemma_bit_at_bound(bytes, pos);
        lemma_pow2_unfold(n);
    }
}

/// A field of `n` bytes is below 256 to the `n`.
pub proof fn lemma_le_value_bound(bytes: Seq<u8>, index: int, n: nat)
    ensures
        le_value(bytes, index, n) < pow2(8 * n),
    decreases n,
{
    lemma2_to64();
    if n > 0 {
        lemma_le_value_bound(bytes, index + 1, (n - 1) as nat);
        vstd::arithmetic::power2::lemma_pow2_adds(8, (8 * (n - 1)) as nat);
        assert(256 * le_value(bytes, index + 1, (n - 1) as nat) <= 256 * (pow2((8 * (n - 1)) as nat) - 1))
            by (nonlinear_arith)
            requires
                le_value(bytes, index + 1, (n - 1) as nat) <= pow2((8 * (n - 1)) as nat) - 1,
        ;
    }
}

/// Records a text that was decoded from a bit range in a slot, or turns
/// the message of a rejection into a failure and leaves the slot as it was.
pub fn record_text(out: &mut Option<Value<String>>, decoded: Result<String, String>, start: usize, end: usize) -> (r:
    Result<(), Error>)
    ensures
        match decoded {
            Ok(text) => r is Ok && opt_view(*final(out)) == Some(ValueView { v: text@, start, end }),
            Err(msg) => lift(r) == Err::<(), ErrorView>(ErrorView::Utf8(msg@)) && *final(out) == *old(out),
        },
{
    match decoded {
        Ok(text) => {
            *out = Some(Value { v: text, start, end });
            Ok(())
        },
        Err(msg) => Err(Error::Utf8(msg)),
    }
}

/// The input of a parse with the position of the next bit to read.
#[derive(Debug)]
pub struct DataStream {
    pub bytes: Vec<u8>,
    pub pos: usize,
    pub end: usize,
}

impl DataStream {
    /// The end is the number of bits of the buffer.
    pub open spec fn wf(self) -> bool {
        self.end == 8 * self.bytes.len()
    }

    /// The same input as `from`, at position `pos`.
    pub open spec fn moved(self, from: DataStream, pos: int) -> bool {
        &&& self.bytes == from.bytes
        &&& self.end == from.end
        &&& self.pos == pos
    }

    /// A cursor over a buffer, at a bit position that may lie beyond its end.
    pub fn new(bytes: Vec<u8>, pos: usize) -> (r: DataStream)
        requires
            8 * bytes.len() <= usize::MAX,
        ensures
            r.wf(),
            r.bytes == bytes,
            r.pos == pos,
    {
        let end = bytes.len() * 8;
        DataStream { bytes, pos, end }
    }

    /// A parse failure at the position of the cursor.
    pub fn parse_error(&self, msg: &str) -> (r: Error)
        ensures
            r@ == failure(self.pos as int, msg@),
    {
        parse_failure(self.pos, msg.to_owned())
    }

    /// Succeeds if `n` more bits can be read.
    pub fn require(&self, n: usize) -> (r: Result<(), Error>)
        requires
            self.wf(),
        ensures
            r is Ok <==> in_reach(self.bytes@, self.pos as int, n as int),
            r matches Err(e) ==> e@ == eof(self.pos as int),
    {
        if n <= self.end && self.pos <= self.end - n {
            Ok(())
        } else {
            Err(self.parse_error("EOF"))
        }
    }

    /// The index of the byte at the cursor, which must stand on a byte boundary.
    pub fn byte_index(&self) -> (r: Result<usize, Error>)
        ensures
            self.pos % 8 == 0 ==> r == Ok::<usize, Error>(self.pos / 8),
            self.pos % 8 != 0 ==> r is Err && lift(r) == Err::<usize, ErrorView>(unaligned(self.pos as int)),
    {
        if self.pos % 8 == 0 {
            Ok(self.pos / 8)
        } else {
            Err(self.parse_error("Unaligned"))
        }
    }

    /// Reads a little-endian integer at the cursor without moving.
    pub fn peek_le<T: Unsigned>(&self) -> (r: Result<Value<T>, Error>)
        requires
            self.wf(),
        ensures
            lift(r) == peek_le_at::<T>(self.bytes@, self.pos as int),
    {
        let size = T::bytes();
        proof {
            T::limits();
        }
        match self.require(size * 8) {
            Err(e) => {
                return Err(e);
            },
            Ok(()) => {},
        }
        let index = match self.byte_index() {
            Err(e) => {
                return Err(e);
            },
            Ok(index) => index,
        };
        let mut acc: u32 = 0;
        let mut i: usize = size;
        proof {
            lemma2_to64();
        }
        while i > 0
            invariant
                self.wf(),
                i <= size,
                size == T::size(),
                size <= 4,
                index + size <= self.bytes.len(),
                acc == le_value(self.bytes@, index + i, (size - i) as nat),
            decreases i,
        {
            proof {
                lemma_le_value_bound(self.bytes@, index + i, (size - i) as nat);
                lemma_pow2_strictly_increases((8 * (size - i)) as nat, 25);
                lemma2_to64();
            }
            i -= 1;
            acc = acc * 256 + self.bytes[index + i] as u32;
        }
        proof {
            lemma_le_value_bound(self.bytes@, index as int, size as nat);
        }
        Ok(Value { v: T::narrow(acc), start: self.pos, end: self.pos + 8 })
    }

    /// Reads a little-endian integer into a slot and moves past it.
    pub fn pop_le<T: Unsigned>(&mut self, out: &mut Option<Value<T>>) -> (r: Result<Value<T>, Error>)
        requires
            old(self).wf(),
        ensures
            final(self).wf(),
            lift(r) == peek_le_at::<T>(old(self).bytes@, old(self).pos as int),
            r matches Ok(v) ==> *final(out) == Some(v) && final(self).moved(
                *old(self),
                old(self).pos + 8 * T::size(),
            ),
            r is Err ==> *final(out) == *old(out) && *final(self) == *old(self),
    {
        match self.peek_le::<T>() {
            Err(e) => Err(e),
            Ok(v) => {
                *out = Some(v);
                self.pos += T::bytes() * 8;
                Ok(v)
            },
        }
    }

    /// Moves `n` bits on.
    pub fn drop(&mut self, n: usize) -> (r: Result<(), Error>)
        requires
            old(self).wf(),
        ensures
            final(self).wf(),
            r is Ok <==> in_reach(old(self).bytes@, old(self).pos as int, n as int),
            r is Ok ==> final(self).moved(*old(self), old(self).pos + n),
            r matches Err(e) ==> e@ == eof(old(self).pos as int) && *final(self) == *old(self),
    {
        match self.require(n) {
            Err(e) => Err(e),
            Ok(()) => {
                self.pos += n;
                Ok(())
            },
        }
    }

    /// Reads `n` bits at the cursor without moving.
    pub fn peek_bits<T: Unsigned>(&self, n: usize) -> (r: Result<Value<T>, Error>)
        requires
            self.wf(),
            n <= 8 * T::size(),
        ensures
            lift(r) == peek_bits_at::<T>(self.bytes@, self.pos as int, n as nat),
    {
        proof {
            T::limits();
        }
        match self.require(n) {
            Err(e) => {
                return Err(e);
            },
            Ok(()) => {},
        }
        let mut acc: u32 = 0;
        let mut i: usize = n;
        while i > 0
            invariant
                self.wf(),
                i <= n,
                n <= 32,
                self.pos + n <= self.end,
                acc == bits_value(self.bytes@, self.pos + i, (n - i) as nat),
            decreases i,
        {
            proof {
                lemma_bits_value_bound(self.bytes@, self.pos + i, (n - i) as nat);
                lemma_pow2_strictly_increases((n - i) as nat, 32);
                lemma2_to64();
                lemma_bit_at_bound(self.bytes@, self.pos + i - 1);
            }
            i -= 1;
            let p: usize = self.pos + i;
            let shift: u8 = (p % 8) as u8;
            let bit: u8 = (self.bytes[p / 8] >> shift) & 1;
            acc = acc * 2 + bit as u32;
        }
        proof {
            lemma_bits_value_bound(self.bytes@, self.pos as int, n as nat);
            if n < 8 * T::size() {
                lemma_pow2_strictly_increases(n as nat, 8 * T::size());
            }
        }
        Ok(Value { v: T::narrow(acc), start: self.pos, end: self.pos + n })
    }

    /// Reads `n` bits into a slot and moves past them.
    pub fn pop_bits<T: Unsigned>(&mut self, out: &mut Option<Value<T>>, n: usize) -> (r: Result<
        Value<T>,
        Error,
    >)
        requires
            old(self).wf(),
            n <= 8 * T::size(),
        ensures
            final(self).wf(),
            lift(r) == peek_bits_at::<T>(old(self).bytes@, old(self).pos as int, n as nat),
            r matches Ok(v) ==> *final(out) == Some(v) && final(self).moved(*old(self), old(self).pos + n),
            r is Err ==> *final(out) == *old(out) && *final(self) == *old(self),
    {
        match self.peek_bits::<T>(n) {
            Err(e) => Err(e),
            Ok(v) => {
                *out = Some(v);
                self.pos += n;
                Ok(v)
            },
        }
    }

    /// Moves to the next byte boundary, or stays on the one the cursor stands on.
    pub fn align(&mut self) -> (r: Result<(), Error>)
        requires
            old(self).wf(),
        ensures
            final(self).wf(),
            r is Ok <==> aligned(old(self).pos as int) <= 8 * old(self).bytes.len(),
            r is Ok ==> final(self).moved(*old(self), aligned(old(self).pos as int)),
            r matches Err(e) ==> e@ == eof(old(self).pos as int) && *final(self) == *old(self),
    {
        let n: usize = (8 - self.pos % 8) % 8;
        self.drop(n)
    }

    /// Takes `n` bytes at the cursor, which must stand on a byte boundary,
    /// and records them in hexadecimal if data is to be kept.
    pub fn pop_bytes(&mut self, out: &mut Option<Value<String>>, n: usize, settings: &Settings) -> (r: Result<
        Vec<u8>,
        Error,
    >)
        requires
            old(self).wf(),
        ensures
            final(self).wf(),
            old(self).pos % 8 != 0 ==> lift(r) == Err::<Vec<u8>, ErrorView>(unaligned(old(self).pos as int)),
            old(self).pos % 8 == 0 && !in_reach(old(self).bytes@, old(self).pos as int, 8 * n) ==> lift(r) == Err::<
                Vec<u8>,
                ErrorView,
            >(eof(old(self).pos as int)),
            r is Ok <==> old(self).pos % 8 == 0 && in_reach(old(self).bytes@, old(self).pos as int, 8 * n),
            r matches Ok(taken) ==> {
                &&& taken@ == old(self).bytes@.subrange(old(self).pos as int / 8, old(self).pos as int / 8 + n)
                &&& final(self).moved(*old(self), old(self).pos + 8 * n)
                &&& settings.data ==> opt_view(*final(out)) == Some(
                    ValueView {
                        v: hex_chars(taken@),
                        start: old(self).pos,
                        end: (old(self).pos + 8 * n) as usize,
                    },
                )
                &&& !settings.data ==> *final(out) == *old(out)
            },
            r is Err ==> *final(out) == *old(out) && *final(self) == *old(self),
    {
        let index = match self.byte_index() {
            Err(e) => {
                return Err(e);
            },
            Ok(index) => index,
        };
        if self.pos > self.end || n > (self.end - self.pos) / 8 {
            return Err(self.parse_error("EOF"));
        }
        let bits: usize = n * 8;
        let taken = vstd::slice::slice_to_vec(vstd::slice::slice_subrange(self.bytes.as_slice(), index, index + n));
        if settings.data {
            *out = Some(Value { v: hex_encode(taken.as_slice()), start: self.pos, end: self.pos + bits });
        }
        self.pos += bits;
        Ok(taken)
    }

    /// Reads a text that ends with a zero byte into a slot. The cursor must
    /// stand on a byte boundary.
    pub fn pop_str(&mut self, out: &mut Option<Value<String>>) -> (r: Result<(), Error>)
        requires
            old(self).wf(),
        ensures
            final(self).wf(),
            ({
                let step = pop_str_at(opt_view(*old(out)), old(self).bytes@, old(self).pos as int);
                &&& opt_view(*final(out)) == step.out
                &&& final(self).moved(*old(self), step.pos)
                &&& lift(r) == step.res
            }),
            r is Err ==> *final(out) == *old(out),
            old(self).pos <= final(self).pos,
    {
        let start = match self.byte_index() {
            Err(e) => {
                return Err(e);
            },
            Ok(index) => index,
        };
        let mut pos: usize = start;
        loop
            invariant
                self.wf(),
                self.bytes == old(self).bytes,
                self.end == old(self).end,
                *out == *old(out),
                old(self).pos == 8 * start,
                start <= pos,
                self.pos == 8 * pos,
                pos <= self.bytes.len() || pos == start,
                find_nul(self.bytes@, start as int) == find_nul(self.bytes@, pos as int),
            decreases self.bytes.len() - pos,
        {
            match self.require(8) {
                Err(e) => {
                    return Err(e);
                },
                Ok(()) => {},
            }
            let byte = self.bytes[pos];
            pos += 1;
            self.pos += 8;
            if byte == 0 {
                let name = vstd::slice::slice_subrange(self.bytes.as_slice(), start, pos - 1);
                let decoded = match utf8_text(name) {
                    Ok(text) => Ok(text.to_owned()),
                    Err(msg) => Err(msg),
                };
                return record_text(out, decoded, start * 8, pos * 8);
            }
        }
    }
}

} // verus!
