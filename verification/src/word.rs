//! The fixed-width unsigned integers that fields of a stream are read into.
use vstd::prelude::*;

verus! {

/// An unsigned integer of at most 32 bits.
pub trait Unsigned: Copy {
    /// The number that the integer stands for.
    spec fn value(self) -> nat;

    /// One more than the largest number of the type.
    spec fn limit() -> nat;

    /// The width of the type in bytes.
    spec fn size() -> nat;

    /// The integer of the type that stands for a number below the limit.
    spec fn make(n: nat) -> Self;

    proof fn limits()
        ensures
            1 <= Self::size() <= 4,
            Self::limit() == vstd::arithmetic::power2::pow2(8 * Self::size()),
    ;

    proof fn make_value(n: nat)
        requires
            n < Self::limit(),
        ensures
            Self::make(n).value() == n,
    ;

    proof fn value_make(a: Self)
        ensures
            a.value() < Self::limit(),
            Self::make(a.value()) == a,
    ;

    fn bytes() -> (r: usize)
        ensures
            r == Self::size(),
    ;

    fn widen(self) -> (r: u32)
        ensures
            r == self.value(),
            self.value() < Self::limit(),
    ;

    fn narrow(x: u32) -> (r: Self)
        requires
            x < Self::limit(),
        ensures
            r == Self::make(x as nat),
    ;
}

impl Unsigned for u8 {
    open spec fn value(self) -> nat {
        self as nat
    }

    open spec fn limit() -> nat {
        0x100
    }

    open spec fn size() -> nat {
        1
    }

    proof fn limits() {
        vstd::arithmetic::power2::lemma2_to64();
    }

    open spec fn make(n: nat) -> u8 {
        n as u8
    }

    proof fn make_value(n: nat) {
    }

    proof fn value_make(a: u8) {
    }

    fn bytes() -> (r: usize) {
        1
    }

    fn widen(self) -> (r: u32) {
        self as u32
    }

    fn narrow(x: u32) -> (r: u8) {
        x as u8
    }
}

impl Unsigned for u16 {
    open spec fn value(self) -> nat {
        self as nat
    }

    open spec fn limit() -> nat {
        0x1_0000
    }

    open spec fn size() -> nat {
        2
    }

    proof fn limits() {
        vstd::arithmetic::power2::lemma2_to64();
    }

    open spec fn make(n: nat) -> u16 {
        n as u16
    }

    proof fn make_value(n: nat) {
    }

    proof fn value_make(a: u16) {
    }

    fn bytes() -> (r: usize) {
        2
    }

    fn widen(self) -> (r: u32) {
        self as u32
    }

    fn narrow(x: u32) -> (r: u16) {
        x as u16
    }
}

impl Unsigned for u32 {
    open spec fn value(self) -> nat {
        self as nat
    }

    open spec fn limit() -> nat {
        0x1_0000_0000
    }

    open spec fn size() -> nat {
        4
    }

    proof fn limits() {
        vstd::arithmetic::power2::lemma2_to64();
    }

    open spec fn make(n: nat) -> u32 {
        n as u32
    }

    proof fn make_value(n: nat) {
    }

    proof fn value_make(a: u32) {
    }

    fn bytes() -> (r: usize) {
        4
    }

    fn widen(self) -> (r: u32) {
        self
    }

    fn narrow(x: u32) -> (r: u32) {
        x
    }
}

} // verus!
