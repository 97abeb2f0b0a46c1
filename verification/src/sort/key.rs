//! Keys that the bin sort can order, and the key functions that extract them.
use vstd::prelude::*;

verus! {

/// An integer key. Its mathematical value is `key_value`; two keys with the
/// same value are the same key.
pub trait SortKey: Copy + Sized {
    /// The integer that this key stands for.
    spec fn key_value(self) -> int;

    /// Keys are determined by their value.
    proof fn lemma_key_value_injective(a: Self, b: Self)
        ensures
            a.key_value() == b.key_value() ==> a == b,
    ;

    /// The distance between two keys of the same type fits in 64 bits.
    proof fn lemma_difference_fits(a: Self, b: Self)
        requires
            a.key_value() <= b.key_value(),
        ensures
            b.key_value() - a.key_value() <= u64::MAX,
    ;

    /// `self < other` on key values.
    fn key_lt(self, other: Self) -> (r: bool)
        ensures
            r == (self.key_value() < other.key_value()),
    ;

    /// The distance `self - other` between two keys, where `other <= self`.
    /// Every key type here is at most 64 bits wide, so the distance fits in a `u64`.
    fn difference(self, other: Self) -> (d: u64)
        requires
            other.key_value() <= self.key_value(),
        ensures
            d == self.key_value() - other.key_value(),
    ;
}

impl SortKey for u8 {
    open spec fn key_value(self) -> int {
        self as int
    }

    proof fn lemma_key_value_injective(a: Self, b: Self) {
    }

    proof fn lemma_difference_fits(a: Self, b: Self) {
    }

    fn key_lt(self, other: Self) -> (r: bool) {
        self < other
    }

    fn difference(self, other: Self) -> (d: u64) {
        (self - other) as u64
    }
}

impl SortKey for i8 {
    open spec fn key_value(self) -> int {
        self as int
    }

    proof fn lemma_key_value_injective(a: Self, b: Self) {
    }

    proof fn lemma_difference_fits(a: Self, b: Self) {
    }

    fn key_lt(self, other: Self) -> (r: bool) {
        self < other
    }

    fn difference(self, other: Self) -> (d: u64) {
        (self as i16 - other as i16) as u64
    }
}

impl SortKey for u16 {
    open spec fn key_value(self) -> int {
        self as int
    }

    proof fn lemma_key_value_injective(a: Self, b: Self) {
    }

    proof fn lemma_difference_fits(a: Self, b: Self) {
    }

    fn key_lt(self, other: Self) -> (r: bool) {
        self < other
    }

    fn difference(self, other: Self) -> (d: u64) {
        (self - other) as u64
    }
}

impl SortKey for i16 {
    open spec fn key_value(self) -> int {
        self as int
    }

    proof fn lemma_key_value_injective(a: Self, b: Self) {
    }

    proof fn lemma_difference_fits(a: Self, b: Self) {
    }

    fn key_lt(self, other: Self) -> (r: bool) {
        self < other
    }

    fn difference(self, other: Self) -> (d: u64) {
        (self as i32 - other as i32) as u64
    }
}

impl SortKey for u32 {
    open spec fn key_value(self) -> int {
        self as int
    }

    proof fn lemma_key_value_injective(a: Self, b: Self) {
    }

    proof fn lemma_difference_fits(a: Self, b: Self) {
    }

    fn key_lt(self, other: Self) -> (r: bool) {
        self < other
    }

    fn difference(self, other: Self) -> (d: u64) {
        (self - other) as u64
    }
}

impl SortKey for i32 {
    open spec fn key_value(self) -> int {
        self as int
    }

    proof fn lemma_key_value_injective(a: Self, b: Self) {
    }

    proof fn lemma_difference_fits(a: Self, b: Self) {
    }

    fn key_lt(self, other: Self) -> (r: bool) {
        self < other
    }

    fn difference(self, other: Self) -> (d: u64) {
        (self as i64 - other as i64) as u64
    }
}

impl SortKey for u64 {
    open spec fn key_value(self) -> int {
        self as int
    }

    proof fn lemma_key_value_injective(a: Self, b: Self) {
    }

    proof fn lemma_difference_fits(a: Self, b: Self) {
    }

    fn key_lt(self, other: Self) -> (r: bool) {
        self < other
    }

    fn difference(self, other: Self) -> (d: u64) {
        (self - other) as u64
    }
}

impl SortKey for i64 {
    open spec fn key_value(self) -> int {
        self as int
    }

    proof fn lemma_key_value_injective(a: Self, b: Self) {
    }

    proof fn lemma_difference_fits(a: Self, b: Self) {
    }

    fn key_lt(self, other: Self) -> (r: bool) {
        self < other
    }

    fn difference(self, other: Self) -> (d: u64) {
        (self as i128 - other as i128) as u64
    }
}

impl SortKey for usize {
    open spec fn key_value(self) -> int {
        self as int
    }

    proof fn lemma_key_value_injective(a: Self, b: Self) {
    }

    proof fn lemma_difference_fits(a: Self, b: Self) {
    }

    fn key_lt(self, other: Self) -> (r: bool) {
        self < other
    }

    fn difference(self, other: Self) -> (d: u64) {
        (self - other) as u64
    }
}

/// `u8` keys are ordered as Rust orders `u8`, are equal only when the
/// values are, and lie apart by the arithmetic difference of the values.
pub proof fn lemma_u8_key_order(a: u8, b: u8)
    ensures
        (a < b) == (a.key_value() < b.key_value()),
        (a == b) == (a.key_value() == b.key_value()),
        b.key_value() - a.key_value() == b - a,
{
}

/// A sequence sorted by a key function with `u8` results ascends in Rust's
/// order of `u8`.
pub proof fn lemma_u8_keys_ascend<T, F: Fn(&T) -> u8>(key: F, s: Seq<T>)
    requires
        forall|i: int, j: int| 0 <= i < j < s.len() ==> #[trigger] key_int(key, s[i]) <= #[trigger] key_int(key, s[j]),
    ensures
        forall|i: int, j: int| 0 <= i < j < s.len() ==> #[trigger] (key_spec(key))(s[i]) <= #[trigger] (key_spec(key))(s[j]),
{
    assert forall|i: int, j: int| 0 <= i < j < s.len() implies #[trigger] (key_spec(key))(s[i]) <= #[trigger] (key_spec(key))(s[j]) by {
        assert(key_int(key, s[i]) <= key_int(key, s[j]));
        lemma_u8_key_order((key_spec(key))(s[i]), (key_spec(key))(s[j]));
    }
}

/// `i8` keys are ordered as Rust orders `i8`, are equal only when the
/// values are, and lie apart by the arithmetic difference of the values.
pub proof fn lemma_i8_key_order(a: i8, b: i8)
    ensures
        (a < b) == (a.key_value() < b.key_value()),
        (a == b) == (a.key_value() == b.key_value()),
        b.key_value() - a.key_value() == b - a,
{
}

/// A sequence sorted by a key function with `i8` results ascends in Rust's
/// order of `i8`.
pub proof fn lemma_i8_keys_ascend<T, F: Fn(&T) -> i8>(key: F, s: Seq<T>)
    requires
        forall|i: int, j: int| 0 <= i < j < s.len() ==> #[trigger] key_int(key, s[i]) <= #[trigger] key_int(key, s[j]),
    ensures
        forall|i: int, j: int| 0 <= i < j < s.len() ==> #[trigger] (key_spec(key))(s[i]) <= #[trigger] (key_spec(key))(s[j]),
{
    assert forall|i: int, j: int| 0 <= i < j < s.len() implies #[trigger] (key_spec(key))(s[i]) <= #[trigger] (key_spec(key))(s[j]) by {
        assert(key_int(key, s[i]) <= key_int(key, s[j]));
        lemma_i8_key_order((key_spec(key))(s[i]), (key_spec(key))(s[j]));
    }
}

/// `u16` keys are ordered as Rust orders `u16`, are equal only when the
/// values are, and lie apart by the arithmetic difference of the values.
pub proof fn lemma_u16_key_order(a: u16, b: u16)
    ensures
        (a < b) == (a.key_value() < b.key_value()),
        (a == b) == (a.key_value() == b.key_value()),
        b.key_value() - a.key_value() == b - a,
{
}

/// A sequence sorted by a key function with `u16` results ascends in Rust's
/// order of `u16`.
pub proof fn lemma_u16_keys_ascend<T, F: Fn(&T) -> u16>(key: F, s: Seq<T>)
    requires
        forall|i: int, j: int| 0 <= i < j < s.len() ==> #[trigger] key_int(key, s[i]) <= #[trigger] key_int(key, s[j]),
    ensures
        forall|i: int, j: int| 0 <= i < j < s.len() ==> #[trigger] (key_spec(key))(s[i]) <= #[trigger] (key_spec(key))(s[j]),
{
    assert forall|i: int, j: int| 0 <= i < j < s.len() implies #[trigger] (key_spec(key))(s[i]) <= #[trigger] (key_spec(key))(s[j]) by {
        assert(key_int(key, s[i]) <= key_int(key, s[j]));
        lemma_u16_key_order((key_spec(key))(s[i]), (key_spec(key))(s[j]));
    }
}

/// `i16` keys are ordered as Rust orders `i16`, are equal only when the
/// values are, and lie apart by the arithmetic difference of the values.
pub proof fn lemma_i16_key_order(a: i16, b: i16)
    ensures
        (a < b) == (a.key_value() < b.key_value()),
        (a == b) == (a.key_value() == b.key_value()),
        b.key_value() - a.key_value() == b - a,
{
}

/// A sequence sorted by a key function with `i16` results ascends in Rust's
/// order of `i16`.
pub proof fn lemma_i16_keys_ascend<T, F: Fn(&T) -> i16>(key: F, s: Seq<T>)
    requires
        forall|i: int, j: int| 0 <= i < j < s.len() ==> #[trigger] key_int(key, s[i]) <= #[trigger] key_int(key, s[j]),
    ensures
        forall|i: int, j: int| 0 <= i < j < s.len() ==> #[trigger] (key_spec(key))(s[i]) <= #[trigger] (key_spec(key))(s[j]),
{
    assert forall|i: int, j: int| 0 <= i < j < s.len() implies #[trigger] (key_spec(key))(s[i]) <= #[trigger] (key_spec(key))(s[j]) by {
        assert(key_int(key, s[i]) <= key_int(key, s[j]));
        lemma_i16_key_order((key_spec(key))(s[i]), (key_spec(key))(s[j]));
    }
}

/// `u32` keys are ordered as Rust orders `u32`, are equal only when the
/// values are, and lie apart by the arithmetic difference of the values.
pub proof fn lemma_u32_key_order(a: u32, b: u32)
    ensures
        (a < b) == (a.key_value() < b.key_value()),
        (a == b) == (a.key_value() == b.key_value()),
        b.key_value() - a.key_value() == b - a,
{
}

/// A sequence sorted by a key function with `u32` results ascends in Rust's
/// order of `u32`.
pub proof fn lemma_u32_keys_ascend<T, F: Fn(&T) -> u32>(key: F, s: Seq<T>)
    requires
        forall|i: int, j: int| 0 <= i < j < s.len() ==> #[trigger] key_int(key, s[i]) <= #[trigger] key_int(key, s[j]),
    ensures
        forall|i: int, j: int| 0 <= i < j < s.len() ==> #[trigger] (key_spec(key))(s[i]) <= #[trigger] (key_spec(key))(s[j]),
{
    assert forall|i: int, j: int| 0 <= i < j < s.len() implies #[trigger] (key_spec(key))(s[i]) <= #[trigger] (key_spec(key))(s[j]) by {
        assert(key_int(key, s[i]) <= key_int(key, s[j]));
        lemma_u32_key_order((key_spec(key))(s[i]), (key_spec(key))(s[j]));
    }
}

/// `i32` keys are ordered as Rust orders `i32`, are equal only when the
/// values are, and lie apart by the arithmetic difference of the values.
pub proof fn lemma_i32_key_order(a: i32, b: i32)
    ensures
        (a < b) == (a.key_value() < b.key_value()),
        (a == b) == (a.key_value() == b.key_value()),
        b.key_value() - a.key_value() == b - a,
{
}

/// A sequence sorted by a key function with `i32` results ascends in Rust's
/// order of `i32`.
pub proof fn lemma_i32_keys_ascend<T, F: Fn(&T) -> i32>(key: F, s: Seq<T>)
    requires
        forall|i: int, j: int| 0 <= i < j < s.len() ==> #[trigger] key_int(key, s[i]) <= #[trigger] key_int(key, s[j]),
    ensures
        forall|i: int, j: int| 0 <= i < j < s.len() ==> #[trigger] (key_spec(key))(s[i]) <= #[trigger] (key_spec(key))(s[j]),
{
    assert forall|i: int, j: int| 0 <= i < j < s.len() implies #[trigger] (key_spec(key))(s[i]) <= #[trigger] (key_spec(key))(s[j]) by {
        assert(key_int(key, s[i]) <= key_int(key, s[j]));
        lemma_i32_key_order((key_spec(key))(s[i]), (key_spec(key))(s[j]));
    }
}

/// `u64` keys are ordered as Rust orders `u64`, are equal only when the
/// values are, and lie apart by the arithmetic difference of the values.
pub proof fn lemma_u64_key_order(a: u64, b: u64)
    ensures
        (a < b) == (a.key_value() < b.key_value()),
        (a == b) == (a.key_value() == b.key_value()),
        b.key_value() - a.key_value() == b - a,
{
}

/// A sequence sorted by a key function with `u64` results ascends in Rust's
/// order of `u64`.
pub proof fn lemma_u64_keys_ascend<T, F: Fn(&T) -> u64>(key: F, s: Seq<T>)
    requires
        forall|i: int, j: int| 0 <= i < j < s.len() ==> #[trigger] key_int(key, s[i]) <= #[trigger] key_int(key, s[j]),
    ensures
        forall|i: int, j: int| 0 <= i < j < s.len() ==> #[trigger] (key_spec(key))(s[i]) <= #[trigger] (key_spec(key))(s[j]),
{
    assert forall|i: int, j: int| 0 <= i < j < s.len() implies #[trigger] (key_spec(key))(s[i]) <= #[trigger] (key_spec(key))(s[j]) by {
        assert(key_int(key, s[i]) <= key_int(key, s[j]));
        lemma_u64_key_order((key_spec(key))(s[i]), (key_spec(key))(s[j]));
    }
}

/// `i64` keys are ordered as Rust orders `i64`, are equal only when the
/// values are, and lie apart by the arithmetic difference of the values.
pub proof fn lemma_i64_key_order(a: i64, b: i64)
    ensures
        (a < b) == (a.key_value() < b.key_value()),
        (a == b) == (a.key_value() == b.key_value()),
        b.key_value() - a.key_value() == b - a,
{
}

/// A sequence sorted by a key function with `i64` results ascends in Rust's
/// order of `i64`.
pub proof fn lemma_i64_keys_ascend<T, F: Fn(&T) -> i64>(key: F, s: Seq<T>)
    requires
        forall|i: int, j: int| 0 <= i < j < s.len() ==> #[trigger] key_int(key, s[i]) <= #[trigger] key_int(key, s[j]),
    ensures
        forall|i: int, j: int| 0 <= i < j < s.len() ==> #[trigger] (key_spec(key))(s[i]) <= #[trigger] (key_spec(key))(s[j]),
{
    assert forall|i: int, j: int| 0 <= i < j < s.len() implies #[trigger] (key_spec(key))(s[i]) <= #[trigger] (key_spec(key))(s[j]) by {
        assert(key_int(key, s[i]) <= key_int(key, s[j]));
        lemma_i64_key_order((key_spec(key))(s[i]), (key_spec(key))(s[j]));
    }
}

/// `usize` keys are ordered as Rust orders `usize`, are equal only when the
/// values are, and lie apart by the arithmetic difference of the values.
pub proof fn lemma_usize_key_order(a: usize, b: usize)
    ensures
        (a < b) == (a.key_value() < b.key_value()),
        (a == b) == (a.key_value() == b.key_value()),
        b.key_value() - a.key_value() == b - a,
{
}

/// A sequence sorted by a key function with `usize` results ascends in Rust's
/// order of `usize`.
pub proof fn lemma_usize_keys_ascend<T, F: Fn(&T) -> usize>(key: F, s: Seq<T>)
    requires
        forall|i: int, j: int| 0 <= i < j < s.len() ==> #[trigger] key_int(key, s[i]) <= #[trigger] key_int(key, s[j]),
    ensures
        forall|i: int, j: int| 0 <= i < j < s.len() ==> #[trigger] (key_spec(key))(s[i]) <= #[trigger] (key_spec(key))(s[j]),
{
    assert forall|i: int, j: int| 0 <= i < j < s.len() implies #[trigger] (key_spec(key))(s[i]) <= #[trigger] (key_spec(key))(s[j]) by {
        assert(key_int(key, s[i]) <= key_int(key, s[j]));
        lemma_usize_key_order((key_spec(key))(s[i]), (key_spec(key))(s[j]));
    }
}

/// A function that extracts a key of type `K` from an element of type `T`.
pub trait KeyFn<T, K>: Fn(&T) -> K + Copy {
}

impl<T, K, F: Fn(&T) -> K + Copy> KeyFn<T, K> for F {
}

/// `key` can be called on every element and its result is a function of the
/// element alone, namely `g`.
pub open spec fn key_fn_is<T, K, F: Fn(&T) -> K>(key: F, g: spec_fn(T) -> K) -> bool {
    &&& forall|t: T| #[trigger] key.requires((&t,))
    &&& forall|t: T, k: K| #[trigger] key.ensures((&t,), k) ==> k == g(t)
}

/// `key` is a usable key function: callable everywhere, and deterministic.
pub open spec fn key_fn_valid<T, K, F: Fn(&T) -> K>(key: F) -> bool {
    exists|g: spec_fn(T) -> K| key_fn_is(key, g)
}

/// The function that a valid `key` computes.
pub open spec fn key_spec<T, K, F: Fn(&T) -> K>(key: F) -> spec_fn(T) -> K {
    choose|g: spec_fn(T) -> K| key_fn_is(key, g)
}

/// The integer key of `t` under `key`.
pub open spec fn key_int<T, K: SortKey, F: Fn(&T) -> K>(key: F, t: T) -> int {
    (key_spec(key))(t).key_value()
}

/// Calls `key` on `t`.
pub fn key_of<T, K: SortKey, F: KeyFn<T, K>>(key: F, t: &T) -> (k: K)
    requires
        key_fn_valid(key),
    ensures
        k == (key_spec(key))(*t),
        k.key_value() == key_int(key, *t),
{
    key(t)
}

} // verus!
