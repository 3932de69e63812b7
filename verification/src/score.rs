//! Recognition scores.
//!
//! A recogniser rates each reading with a single-precision number. The rules
//! only ever ask which of two scores is the higher one, so a [`Score`] holds the
//! 32 bits of the interchange format and orders them as the numbers that they
//! encode are ordered. What encodes no number is neither below nor above
//! anything.
use vstd::prelude::*;

verus! {

/// Weight of the sign bit.
pub const SIGN_BIT: u32 = 2147483648;

/// Encoding of infinity without its sign; what lies above it encodes no number.
pub const INFINITY_BITS: u32 = 2139095040;

/// A single-precision number by its interchange format.
#[derive(Clone, Copy, Debug, PartialEq, Eq, Structural)]
pub struct Score {
    pub bits: u32,
}

impl Score {
    /// Whether the bits encode a number, an infinity included.
    pub open spec fn is_number(self) -> bool {
        self.bits % SIGN_BIT <= INFINITY_BITS
    }

    /// Place of the encoded number in the order of all numbers; both zeros share
    /// place zero.
    pub open spec fn rank(self) -> int {
        if self.bits < SIGN_BIT {
            self.bits as int
        } else {
            -(self.bits - SIGN_BIT)
        }
    }

    /// `self < other` as numbers.
    pub open spec fn below(self, other: Score) -> bool {
        self.is_number() && other.is_number() && self.rank() < other.rank()
    }

    /// `self >= other` as numbers.
    pub open spec fn at_least(self, other: Score) -> bool {
        self.is_number() && other.is_number() && self.rank() >= other.rank()
    }

    /// `self` comes below `other` where what is no number comes below every number.
    pub open spec fn ranks_below(self, other: Score) -> bool {
        self.below(other) || (!self.is_number() && other.is_number())
    }

    /// The score of the number zero.
    pub fn zero() -> (r: Score)
        ensures
            r.bits == 0,
    {
        Score { bits: 0 }
    }

    /// Whether the score is a number, an infinity included.
    pub fn numeric(&self) -> (r: bool)
        ensures
            r == self.is_number(),
    {
        self.bits % SIGN_BIT <= INFINITY_BITS
    }

    fn place(&self) -> (r: i64)
        ensures
            r == self.rank(),
    {
        if self.bits < SIGN_BIT {
            self.bits as i64
        } else {
            -((self.bits - SIGN_BIT) as i64)
        }
    }

    /// Whether this score is lower than `other`.
    pub fn is_below(&self, other: &Score) -> (r: bool)
        ensures
            r == self.below(*other),
    {
        self.numeric() && other.numeric() && self.place() < other.place()
    }

    /// Whether this score comes below `other` where what is no number comes below every
    /// number.
    pub fn is_ranked_below(&self, other: &Score) -> (r: bool)
        ensures
            r == self.ranks_below(*other),
    {
        self.is_below(other) || (!self.numeric() && other.numeric())
    }

    /// Whether this score is as high as `other` or higher.
    pub fn is_at_least(&self, other: &Score) -> (r: bool)
        ensures
            r == self.at_least(*other),
    {
        self.numeric() && other.numeric() && self.place() >= other.place()
    }
}

/// No score is below itself, and being below passes along a chain.
pub proof fn law_below_is_a_strict_order(a: Score, b: Score, c: Score)
    ensures
        !a.below(a),
        a.below(b) && b.below(c) ==> a.below(c),
        a.below(b) ==> !b.below(a),
        !a.ranks_below(a),
        a.ranks_below(b) && b.ranks_below(c) ==> a.ranks_below(c),
{
}

/// Scores above zero are ordered as their encodings, those below zero the other way round,
/// and every negative number comes below every positive one. Of two numbers one is below
/// the other unless they are the same or both zero.
pub proof fn law_scores_are_ordered_as_numbers(a: Score, b: Score)
    ensures
        a.bits <= 2139095040 && b.bits <= 2139095040 ==> (a.below(b) <==> a.bits < b.bits),
        2147483648 <= a.bits <= 4286578688 && 2147483648 <= b.bits <= 4286578688 ==> (a.below(b)
            <==> a.bits > b.bits),
        2147483648 < a.bits <= 4286578688 && b.bits <= 2139095040 ==> a.below(b) && !b.below(a),
        a.bits == 2147483648 && b.bits == 0 ==> !a.below(b) && !b.below(a),
        a.is_number() && b.is_number() ==> a.below(b) || b.below(a) || a.bits == b.bits || (a.bits
            % 2147483648 == 0 && b.bits % 2147483648 == 0),
        a.is_number() && b.is_number() ==> (a.at_least(b) <==> !a.below(b)),
{
}

/// What is no number is neither below nor above anything, nor equal to it.
pub proof fn law_what_is_no_number_has_no_order(a: Score, b: Score)
    requires
        2139095040 < a.bits < 2147483648 || 4286578688 < a.bits,
    ensures
        !a.is_number(),
        !a.below(b) && !b.below(a) && !a.at_least(b) && !b.at_least(a),
        b.is_number() ==> a.ranks_below(b),
{
}

} // verus!
