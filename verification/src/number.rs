//! Double-precision numbers as bit patterns, and the order they have.
//!
//! A bit pattern is the sixty-four bit word of the IEEE 754 double it stands for. Two patterns
//! compare as the doubles do: the two zeros are one number, and a not-a-number compares false with
//! everything.
use vstd::prelude::*;

use crate::assoc::{find, lookup};
use crate::model::models;

verus! {

/// The sign bit of a double.
pub const SIGN: u64 = 0x8000_0000_0000_0000;

/// The bit pattern of positive infinity; a larger magnitude is not a number.
pub const INFINITY: u64 = 0x7ff0_0000_0000_0000;

/// The bit pattern without its sign.
pub open spec fn magnitude(bits: u64) -> int {
    if bits >= SIGN {
        bits - SIGN
    } else {
        bits as int
    }
}

/// Whether the pattern is a not-a-number.
pub open spec fn is_nan(bits: u64) -> bool {
    magnitude(bits) > INFINITY
}

/// Whether the pattern is a finite number.
pub open spec fn is_finite(bits: u64) -> bool {
    magnitude(bits) < INFINITY
}

/// Where the number stands in the order of all doubles; both zeros stand at zero.
pub open spec fn rank(bits: u64) -> int {
    if bits >= SIGN {
        -magnitude(bits)
    } else {
        magnitude(bits)
    }
}

/// `a < b` of the two numbers.
pub open spec fn num_lt(a: u64, b: u64) -> bool {
    !is_nan(a) && !is_nan(b) && rank(a) < rank(b)
}

/// `a <= b` of the two numbers.
pub open spec fn num_le(a: u64, b: u64) -> bool {
    !is_nan(a) && !is_nan(b) && rank(a) <= rank(b)
}

/// `a == b` of the two numbers.
pub open spec fn num_eq(a: u64, b: u64) -> bool {
    !is_nan(a) && !is_nan(b) && rank(a) == rank(b)
}

fn magnitude_of(bits: u64) -> (r: u64)
    ensures
        r == magnitude(bits),
{
    if bits >= SIGN {
        bits - SIGN
    } else {
        bits
    }
}

fn rank_of(bits: u64) -> (r: i128)
    ensures
        r == rank(bits),
{
    let m: i128 = magnitude_of(bits) as i128;
    if bits >= SIGN {
        -m
    } else {
        m
    }
}

/// Whether the pattern is a finite number.
pub fn finite(bits: u64) -> (r: bool)
    ensures
        r == is_finite(bits),
{
    magnitude_of(bits) < INFINITY
}

/// `a < b` of the two numbers.
pub fn lt(a: u64, b: u64) -> (r: bool)
    ensures
        r == num_lt(a, b),
{
    magnitude_of(a) <= INFINITY && magnitude_of(b) <= INFINITY && rank_of(a) < rank_of(b)
}

/// `a <= b` of the two numbers.
pub fn le(a: u64, b: u64) -> (r: bool)
    ensures
        r == num_le(a, b),
{
    magnitude_of(a) <= INFINITY && magnitude_of(b) <= INFINITY && rank_of(a) <= rank_of(b)
}

/// `a == b` of the two numbers.
pub fn eq(a: u64, b: u64) -> (r: bool)
    ensures
        r == num_eq(a, b),
{
    magnitude_of(a) <= INFINITY && magnitude_of(b) <= INFINITY && rank_of(a) == rank_of(b)
}

/// One end of a numeric interval.
#[derive(Debug, Clone, Copy, PartialEq, Eq, Structural)]
pub enum Bound {
    Unbounded,
    Included(u64),
    Excluded(u64),
}

/// Whether `n` lies above the lower bound `min` and below the upper bound `max`.
pub open spec fn within(min: Bound, max: Bound, n: u64) -> bool {
    &&& match min {
        Bound::Unbounded => true,
        Bound::Included(a) => num_le(a, n),
        Bound::Excluded(a) => num_lt(a, n),
    }
    &&& match max {
        Bound::Unbounded => true,
        Bound::Included(b) => num_le(n, b),
        Bound::Excluded(b) => num_lt(n, b),
    }
}

/// Whether `n` lies above the lower bound `min` and below the upper bound `max`.
pub fn in_bounds(min: Bound, max: Bound, n: u64) -> (r: bool)
    ensures
        r == within(min, max, n),
{
    let above = match min {
        Bound::Unbounded => true,
        Bound::Included(a) => le(a, n),
        Bound::Excluded(a) => lt(a, n),
    };
    let below = match max {
        Bound::Unbounded => true,
        Bound::Included(b) => le(n, b),
        Bound::Excluded(b) => lt(n, b),
    };
    above && below
}

/// What texts read as: `numbers` gives the number that a text spells, `lengths` the length in
/// metres that it spells. A text without an entry spells none.
#[derive(Debug)]
pub struct Readings {
    pub numbers: Vec<(String, u64)>,
    pub lengths: Vec<(String, u64)>,
}

/// What texts read as.
pub struct ReadingsV {
    pub numbers: Seq<(Seq<char>, u64)>,
    pub lengths: Seq<(Seq<char>, u64)>,
}

impl ReadingsV {
    /// The number that a text spells.
    pub open spec fn number(self, text: Seq<char>) -> Option<u64> {
        lookup(self.numbers, text)
    }

    /// The length that a text spells.
    pub open spec fn length(self, text: Seq<char>) -> Option<u64> {
        lookup(self.lengths, text)
    }
}

impl Readings {
    pub open spec fn view(&self) -> ReadingsV {
        ReadingsV { numbers: models(self.numbers@), lengths: models(self.lengths@) }
    }

    /// The number that a text spells.
    pub fn number(&self, text: &str) -> (r: Option<u64>)
        ensures
            r == self@.number(text@),
    {
        match find(&self.numbers, text) {
            Some(i) => Some(self.numbers[i].1),
            None => None,
        }
    }

    /// The length that a text spells.
    pub fn length(&self, text: &str) -> (r: Option<u64>)
        ensures
            r == self@.length(text@),
    {
        match find(&self.lengths, text) {
            Some(i) => Some(self.lengths[i].1),
            None => None,
        }
    }
}

/// Bit patterns compare as the doubles do: positive numbers grow with their bits, negative ones the
/// other way round, and a negative number is below every positive one. The two zeros are equal.
pub proof fn patterns_compare_as_doubles(a: u64, b: u64)
    requires
        a < b <= 0x7ff0_0000_0000_0000,
    ensures
        num_lt(a, b),
        !num_lt(b, a),
        !num_eq(a, b),
        num_lt((0x8000_0000_0000_0000 + b) as u64, (0x8000_0000_0000_0000 + a) as u64),
        num_lt((0x8000_0000_0000_0000 + b) as u64, a),
        num_eq(0, 0x8000_0000_0000_0000),
        !num_lt(0, 0x8000_0000_0000_0000),
{
}

/// Of two numbers exactly one is below the other, or they are equal; with a not-a-number none of the
/// three holds.
pub proof fn numbers_have_an_order(a: u64, b: u64)
    ensures
        !is_nan(a) && !is_nan(b) ==> (num_lt(a, b) || num_lt(b, a) || num_eq(a, b)),
        !(num_lt(a, b) && num_lt(b, a)),
        num_eq(a, b) ==> !num_lt(a, b) && !num_lt(b, a) && num_eq(b, a),
        num_le(a, b) <==> num_lt(a, b) || num_eq(a, b),
        is_nan(a) || is_nan(b) ==> !num_lt(a, b) && !num_le(a, b) && !num_eq(a, b),
{
}

/// A pattern is a not-a-number where, without its sign, it is above that of infinity, and a finite
/// number where it is below.
pub proof fn infinity_parts_numbers_from_others(bits: u64)
    ensures
        bits < 0x7ff0_0000_0000_0000 ==> is_finite(bits) && !is_nan(bits),
        bits == 0x7ff0_0000_0000_0000 ==> !is_finite(bits) && !is_nan(bits),
        0x7ff0_0000_0000_0000 < bits < 0x8000_0000_0000_0000 ==> is_nan(bits),
        bits < 0x8000_0000_0000_0000 ==> is_nan((0x8000_0000_0000_0000 + bits) as u64) == is_nan(
            bits,
        ) && is_finite((0x8000_0000_0000_0000 + bits) as u64) == is_finite(bits),
{
}

/// A lower bound and an upper bound each take in what lies on their side; an excluded bound does not
/// take in itself.
pub proof fn bounds_take_in_one_side(a: u64, n: u64)
    ensures
        within(Bound::Unbounded, Bound::Unbounded, n),
        within(Bound::Included(a), Bound::Unbounded, n) <==> num_le(a, n),
        within(Bound::Excluded(a), Bound::Unbounded, n) <==> num_lt(a, n),
        within(Bound::Unbounded, Bound::Included(a), n) <==> num_le(n, a),
        within(Bound::Unbounded, Bound::Excluded(a), n) <==> num_lt(n, a),
        !within(Bound::Excluded(a), Bound::Unbounded, a),
        !within(Bound::Unbounded, Bound::Excluded(a), a),
        !is_nan(a) ==> within(Bound::Included(a), Bound::Included(a), a),
{
}

} // verus!
