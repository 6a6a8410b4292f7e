//! The capabilities a scalar needs to serve as a weight, a capacity or a
//! quantity, and the capability that tells a finite quantity from the
//! unlimited one.
use vstd::prelude::*;

verus! {

/// A weight / capacity scalar: a small unsigned number that converts to a
/// 64-bit key without loss.
///
/// All arithmetic of the library is carried out on keys, in `u64`; the bound
/// on `key_limit` is what keeps a product of two keys plus a third inside
/// `u64`.
pub trait CompatibleProblemType: Copy + Sized {
    /// The key of a value: the number it stands for.
    spec fn key_spec(self) -> u64;

    /// The largest key a value of the type can have.
    spec fn key_limit() -> u64;

    /// Every key is within the type's limit, and the limit within 32 bits.
    proof fn lemma_key_bounds(value: Self)
        ensures
            value.key_spec() <= Self::key_limit(),
            Self::key_limit() <= u32::MAX,
    ;

    /// Two values with the same key are the same value.
    proof fn lemma_key_injective(a: Self, b: Self)
        requires
            a.key_spec() == b.key_spec(),
        ensures
            a == b,
    ;

    /// The key of `value`.
    fn type_to_key(value: Self) -> (key: u64)
        ensures
            key == value.key_spec(),
    ;

    /// The key that `key` is cut down to where it is beyond the limit.
    spec fn key_cut(key: u64) -> u64;

    /// A key within the limit is not cut.
    proof fn lemma_key_cut(key: u64)
        requires
            key <= Self::key_limit(),
        ensures
            Self::key_cut(key) == key,
    ;

    /// The value whose key is `key`, or, beyond the limit, what `key` is cut
    /// down to.
    fn key_to_type(key: u64) -> (value: Self)
        ensures
            value.key_spec() == Self::key_cut(key),
            key <= Self::key_limit() ==> value.key_spec() == key,
    ;

    /// The multiplicative identity: the quantity of a single unit.
    fn identity() -> (one: Self)
        ensures
            one.key_spec() == 1,
    ;
}

/// A quantity: either a finite amount or the unlimited marker.
pub trait UnboundedCompatibility: Copy + Sized {
    /// Whether every value of the type stands for "no limit".
    spec fn is_unbounded_spec() -> bool;

    /// The finite amount a value stands for (0 for the unlimited marker).
    spec fn amount_spec(self) -> u64;

    /// The largest finite amount the type can hold (0 for the unlimited marker).
    spec fn amount_limit() -> u64;

    /// Every amount is within the type's limit, and the limit within 32 bits.
    proof fn lemma_amount_bounds(value: Self)
        ensures
            value.amount_spec() <= Self::amount_limit(),
            Self::amount_limit() <= u32::MAX,
    ;

    /// A finite type holds exactly one value per amount; the unlimited type
    /// holds a single value.
    proof fn lemma_amount_injective(a: Self, b: Self)
        requires
            a.amount_spec() == b.amount_spec(),
        ensures
            a == b,
    ;

    /// The empty quantity, where the type has one.
    fn null() -> (zero: Option<Self>)
        ensures
            Self::is_unbounded_spec() <==> zero is None,
            zero matches Some(z) ==> z.amount_spec() == 0,
    ;

    /// Whether the type is the unlimited marker.
    fn is_unbounded() -> (r: bool)
        ensures
            r == Self::is_unbounded_spec(),
    ;

    /// The finite amount of `value`.
    fn to_amount(value: Self) -> (amount: u64)
        ensures
            amount == value.amount_spec(),
    ;

    /// The amount that `amount` is cut down to where it is beyond the limit;
    /// nothing for the unlimited marker.
    spec fn amount_cut(amount: u64) -> u64;

    /// An amount within the limit is not cut.
    proof fn lemma_amount_cut(amount: u64)
        requires
            amount <= Self::amount_limit(),
        ensures
            Self::amount_cut(amount) == amount,
    ;

    /// The quantity that stands for `amount`; the unlimited marker absorbs
    /// every amount.
    fn from_amount(amount: u64) -> (value: Self)
        ensures
            value.amount_spec() == Self::amount_cut(amount),
            amount <= Self::amount_limit() ==> value.amount_spec() == amount,
    ;
}

impl<T> UnboundedCompatibility for T where T: CompatibleProblemType {
    open spec fn is_unbounded_spec() -> bool {
        false
    }

    open spec fn amount_spec(self) -> u64 {
        self.key_spec()
    }

    open spec fn amount_limit() -> u64 {
        T::key_limit()
    }

    proof fn lemma_amount_bounds(value: Self) {
        T::lemma_key_bounds(value);
    }

    proof fn lemma_amount_injective(a: Self, b: Self) {
        T::lemma_key_injective(a, b);
    }

    open spec fn amount_cut(amount: u64) -> u64 {
        T::key_cut(amount)
    }

    proof fn lemma_amount_cut(amount: u64) {
        T::lemma_key_cut(amount);
    }

    fn null() -> (zero: Option<Self>) {
        Some(T::key_to_type(0))
    }

    fn is_unbounded() -> (r: bool) {
        false
    }

    fn to_amount(value: Self) -> (amount: u64) {
        T::type_to_key(value)
    }

    fn from_amount(amount: u64) -> (value: Self) {
        T::key_to_type(amount)
    }
}

impl CompatibleProblemType for u32 {
    open spec fn key_spec(self) -> u64 {
        self as u64
    }

    open spec fn key_limit() -> u64 {
        0xffff_ffff
    }

    proof fn lemma_key_bounds(value: Self) {
    }

    proof fn lemma_key_injective(a: Self, b: Self) {
    }

    fn type_to_key(value: Self) -> (key: u64) {
        value as u64
    }

    open spec fn key_cut(key: u64) -> u64 {
        (key as u32) as u64
    }

    proof fn lemma_key_cut(key: u64) {
    }

    fn key_to_type(key: u64) -> (value: Self) {
        #[verifier::truncate]
        (key as u32)
    }

    fn identity() -> (one: Self) {
        1
    }
}

impl CompatibleProblemType for u16 {
    open spec fn key_spec(self) -> u64 {
        self as u64
    }

    open spec fn key_limit() -> u64 {
        0xffff
    }

    proof fn lemma_key_bounds(value: Self) {
    }

    proof fn lemma_key_injective(a: Self, b: Self) {
    }

    fn type_to_key(value: Self) -> (key: u64) {
        value as u64
    }

    open spec fn key_cut(key: u64) -> u64 {
        (key as u16) as u64
    }

    proof fn lemma_key_cut(key: u64) {
    }

    fn key_to_type(key: u64) -> (value: Self) {
        #[verifier::truncate]
        (key as u16)
    }

    fn identity() -> (one: Self) {
        1
    }
}

impl CompatibleProblemType for u8 {
    open spec fn key_spec(self) -> u64 {
        self as u64
    }

    open spec fn key_limit() -> u64 {
        0xff
    }

    proof fn lemma_key_bounds(value: Self) {
    }

    proof fn lemma_key_injective(a: Self, b: Self) {
    }

    fn type_to_key(value: Self) -> (key: u64) {
        value as u64
    }

    open spec fn key_cut(key: u64) -> u64 {
        (key as u8) as u64
    }

    proof fn lemma_key_cut(key: u64) {
    }

    fn key_to_type(key: u64) -> (value: Self) {
        #[verifier::truncate]
        (key as u8)
    }

    fn identity() -> (one: Self) {
        1
    }
}

} // verus!
