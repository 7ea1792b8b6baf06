use vstd::prelude::*;

verus! {

/// A totally ordered key.  Each key stands for one mathematical integer,
/// `key_int`, and two keys compare exactly as their integers do.  This is the
/// ordering that the sorted containers of this crate are built on.
pub trait IntKey: Sized {
    /// The integer that this key stands for.
    spec fn key_int(&self) -> int;

    /// Two keys that stand for the same integer are the same key.
    proof fn lemma_key_injective(a: Self, b: Self)
        ensures
            a.key_int() == b.key_int() ==> a == b,
    ;

    /// `self < other`.
    fn key_lt(&self, other: &Self) -> (r: bool)
        ensures
            r == (self.key_int() < other.key_int()),
    ;

    /// `self <= other`.
    fn key_le(&self, other: &Self) -> (r: bool)
        ensures
            r == (self.key_int() <= other.key_int()),
    ;

    /// `self == other`.
    fn key_eq(&self, other: &Self) -> (r: bool)
        ensures
            r == (self.key_int() == other.key_int()),
    ;

    /// The 64 low bits of the key's integer, in two's complement.
    fn key_bits(&self) -> (r: u64)
        ensures
            r == self.key_int() as u64,
    ;
}

impl IntKey for i8 {
    open spec fn key_int(&self) -> int { *self as int }
    proof fn lemma_key_injective(a: Self, b: Self) {}
    fn key_lt(&self, other: &Self) -> (r: bool) { *self < *other }
    fn key_le(&self, other: &Self) -> (r: bool) { *self <= *other }
    fn key_eq(&self, other: &Self) -> (r: bool) { *self == *other }
    fn key_bits(&self) -> (r: u64) { *self as u64 }
}

impl IntKey for i16 {
    open spec fn key_int(&self) -> int { *self as int }
    proof fn lemma_key_injective(a: Self, b: Self) {}
    fn key_lt(&self, other: &Self) -> (r: bool) { *self < *other }
    fn key_le(&self, other: &Self) -> (r: bool) { *self <= *other }
    fn key_eq(&self, other: &Self) -> (r: bool) { *self == *other }
    fn key_bits(&self) -> (r: u64) { *self as u64 }
}

impl IntKey for i32 {
    open spec fn key_int(&self) -> int { *self as int }
    proof fn lemma_key_injective(a: Self, b: Self) {}
    fn key_lt(&self, other: &Self) -> (r: bool) { *self < *other }
    fn key_le(&self, other: &Self) -> (r: bool) { *self <= *other }
    fn key_eq(&self, other: &Self) -> (r: bool) { *self == *other }
    fn key_bits(&self) -> (r: u64) { *self as u64 }
}

impl IntKey for i64 {
    open spec fn key_int(&self) -> int { *self as int }
    proof fn lemma_key_injective(a: Self, b: Self) {}
    fn key_lt(&self, other: &Self) -> (r: bool) { *self < *other }
    fn key_le(&self, other: &Self) -> (r: bool) { *self <= *other }
    fn key_eq(&self, other: &Self) -> (r: bool) { *self == *other }
    fn key_bits(&self) -> (r: u64) { *self as u64 }
}

impl IntKey for isize {
    open spec fn key_int(&self) -> int { *self as int }
    proof fn lemma_key_injective(a: Self, b: Self) {}
    fn key_lt(&self, other: &Self) -> (r: bool) { *self < *other }
    fn key_le(&self, other: &Self) -> (r: bool) { *self <= *other }
    fn key_eq(&self, other: &Self) -> (r: bool) { *self == *other }
    fn key_bits(&self) -> (r: u64) { *self as u64 }
}

impl IntKey for u8 {
    open spec fn key_int(&self) -> int { *self as int }
    proof fn lemma_key_injective(a: Self, b: Self) {}
    fn key_lt(&self, other: &Self) -> (r: bool) { *self < *other }
    fn key_le(&self, other: &Self) -> (r: bool) { *self <= *other }
    fn key_eq(&self, other: &Self) -> (r: bool) { *self == *other }
    fn key_bits(&self) -> (r: u64) { *self as u64 }
}

impl IntKey for u16 {
    open spec fn key_int(&self) -> int { *self as int }
    proof fn lemma_key_injective(a: Self, b: Self) {}
    fn key_lt(&self, other: &Self) -> (r: bool) { *self < *other }
    fn key_le(&self, other: &Self) -> (r: bool) { *self <= *other }
    fn key_eq(&self, other: &Self) -> (r: bool) { *self == *other }
    fn key_bits(&self) -> (r: u64) { *self as u64 }
}

impl IntKey for u32 {
    open spec fn key_int(&self) -> int { *self as int }
    proof fn lemma_key_injective(a: Self, b: Self) {}
    fn key_lt(&self, other: &Self) -> (r: bool) { *self < *other }
    fn key_le(&self, other: &Self) -> (r: bool) { *self <= *other }
    fn key_eq(&self, other: &Self) -> (r: bool) { *self == *other }
    fn key_bits(&self) -> (r: u64) { *self as u64 }
}

impl IntKey for u64 {
    open spec fn key_int(&self) -> int { *self as int }
    proof fn lemma_key_injective(a: Self, b: Self) {}
    fn key_lt(&self, other: &Self) -> (r: bool) { *self < *other }
    fn key_le(&self, other: &Self) -> (r: bool) { *self <= *other }
    fn key_eq(&self, other: &Self) -> (r: bool) { *self == *other }
    fn key_bits(&self) -> (r: u64) { *self as u64 }
}

impl IntKey for usize {
    open spec fn key_int(&self) -> int { *self as int }
    proof fn lemma_key_injective(a: Self, b: Self) {}
    fn key_lt(&self, other: &Self) -> (r: bool) { *self < *other }
    fn key_le(&self, other: &Self) -> (r: bool) { *self <= *other }
    fn key_eq(&self, other: &Self) -> (r: bool) { *self == *other }
    fn key_bits(&self) -> (r: u64) { *self as u64 }
}

} // verus!
