//! A closed interval of clock offsets, in milliseconds.

use vstd::prelude::*;
use vstd::string::StringExecFns;

verus! {

/// The offsets, in milliseconds, that the server's clock may have relative
/// to this machine's clock: every offset from `min` to `max`, both included.
/// An interval whose `min` exceeds its `max` holds no offset.
#[derive(Copy, Clone, Debug, PartialEq, Eq, Structural)]
pub struct Range {
    pub min: i16,
    pub max: i16,
}

impl Range {
    /// Whether the interval holds the offset `x`.
    pub open spec fn contains(self, x: int) -> bool {
        self.min <= x <= self.max
    }

    /// The interval that `transpose` leaves in `self` when it is given `other`.
    pub open spec fn spec_intersect(self, other: Range) -> Range {
        Range {
            min: if self.min >= other.min { self.min } else { other.min },
            max: if self.max <= other.max { self.max } else { other.max },
        }
    }

    /// The interval from `min` to `max`.
    pub fn new(min: i16, max: i16) -> (r: Self)
        ensures
            r.min == min,
            r.max == max,
    {
        Range { min, max }
    }

    /// Narrows `self` to the offsets that both `self` and `other` hold.
    pub fn transpose(&mut self, other: Range)
        ensures
            *final(self) == old(self).spec_intersect(other),
    {
        if other.min > self.min {
            self.min = other.min;
        }
        if other.max < self.max {
            self.max = other.max;
        }
    }
}

/// The decimal digit `d` as a character.
pub open spec fn digit_char(d: int) -> char {
    (48 + d) as char
}

/// The decimal digits of `n`, without leading zeros.
pub open spec fn decimal_text(n: nat) -> Seq<char>
    decreases n,
{
    if n < 10 {
        seq![digit_char(n as int)]
    } else {
        decimal_text(n / 10).push(digit_char((n % 10) as int))
    }
}

/// How an `i16` is written in decimal: a minus sign before the digits of a
/// negative number.
pub open spec fn i16_text(x: i16) -> Seq<char> {
    if x < 0 {
        seq!['-'] + decimal_text((-x) as nat)
    } else {
        decimal_text(x as nat)
    }
}

/// Writes `x` in decimal through `i16`'s `to_string`, which std's `Display`
/// for integers writes as a minus sign for a negative number followed by the
/// decimal digits without leading zeros.
#[verifier::external_body]
fn i16_to_string(x: i16) -> (r: String)
    ensures
        r@ == i16_text(x),
{
    x.to_string()
}

impl Range {
    /// The interval as text: `"{min}ms, {max}ms"`.
    pub fn to_string(&self) -> (r: String)
        ensures
            r@ == i16_text(self.min) + "ms, "@ + i16_text(self.max) + "ms"@,
    {
        let mut text = i16_to_string(self.min);
        text.append("ms, ");
        let max = i16_to_string(self.max);
        text.append(max.as_str());
        text.append("ms");
        text
    }
}

/// An offset lies in the narrowed interval exactly when it lies in both.
pub proof fn lemma_intersect_contains(a: Range, b: Range, x: int)
    ensures
        a.spec_intersect(b).contains(x) <==> (a.contains(x) && b.contains(x)),
{
}

/// Narrowing never widens: the bounds move inward only.
pub proof fn lemma_intersect_narrows(a: Range, b: Range)
    ensures
        a.spec_intersect(b).min >= a.min,
        a.spec_intersect(b).max <= a.max,
        a.spec_intersect(b).min >= b.min,
        a.spec_intersect(b).max <= b.max,
{
}

/// The order in which two intervals narrow each other does not matter.
pub proof fn lemma_intersect_commutes(a: Range, b: Range)
    ensures
        a.spec_intersect(b) == b.spec_intersect(a),
{
}

/// Narrowing by `b` and then by `c` is narrowing by their common part.
pub proof fn lemma_intersect_associates(a: Range, b: Range, c: Range)
    ensures
        a.spec_intersect(b).spec_intersect(c) == a.spec_intersect(b.spec_intersect(c)),
{
}

/// Narrowing an interval by itself leaves it unchanged, and narrowing twice by
/// the same interval is narrowing once.
pub proof fn lemma_intersect_idempotent(a: Range, b: Range)
    ensures
        a.spec_intersect(a) == a,
        a.spec_intersect(b).spec_intersect(b) == a.spec_intersect(b),
{
}

} // verus!
