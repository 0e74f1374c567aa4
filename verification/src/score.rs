//! Scores: single-precision numbers, held as their bits, with the order of
//! their values and the total order of their bits.

use vstd::arithmetic::power2::*;
use vstd::prelude::*;

verus! {

/// A single-precision number in the binary format of IEEE 754.
#[derive(Clone, Copy, Debug, Eq, PartialEq, Structural)]
pub struct Score {
    pub bits: u32,
}

/// Whether the sign bit is set.
pub open spec fn negative(score: Score) -> bool {
    score.bits >= 0x8000_0000
}

/// The bits without the sign. They grow with the absolute value.
pub open spec fn magnitude(score: Score) -> int {
    if negative(score) {
        score.bits - 0x8000_0000
    } else {
        score.bits as int
    }
}

/// Whether the bits stand for no number.
pub open spec fn is_nan(score: Score) -> bool {
    magnitude(score) > 0x7f80_0000
}

/// A number that grows with the value; both zeros have the number zero.
pub open spec fn level(score: Score) -> int {
    if negative(score) {
        -magnitude(score)
    } else {
        magnitude(score)
    }
}

/// Whether one value is less than another. Nothing is less than, or greater
/// than, what is no number.
pub open spec fn less(left: Score, right: Score) -> bool {
    !is_nan(left) && !is_nan(right) && level(left) < level(right)
}

/// The place of a score in the total order of scores: that of IEEE 754, in
/// which negative zero comes before zero, and what is no number comes at the
/// ends.
pub open spec fn total_place(score: Score) -> int {
    if negative(score) {
        -magnitude(score) - 1
    } else {
        magnitude(score)
    }
}

/// The score zero.
pub open spec fn zero() -> Score {
    Score { bits: 0 }
}

impl Score {
    /// The score zero.
    pub fn zero() -> (score: Self)
        ensures
            score == zero(),
    {
        Score { bits: 0 }
    }

    /// The sign and the magnitude.
    pub fn parts(self) -> (parts: (bool, u32))
        ensures
            parts.0 == negative(self),
            parts.1 == magnitude(self),
    {
        if self.bits >= 0x8000_0000 {
            (true, self.bits - 0x8000_0000)
        } else {
            (false, self.bits)
        }
    }

    /// The place in the total order.
    pub fn place(self) -> (place: i64)
        ensures
            place == total_place(self),
    {
        let (sign, size) = self.parts();
        if sign {
            -(size as i64) - 1
        } else {
            size as i64
        }
    }

    /// Whether the value is less than that of `other`.
    pub fn is_less_than(self, other: Self) -> (is_less: bool)
        ensures
            is_less == less(self, other),
    {
        let (left_sign, left) = self.parts();
        let (right_sign, right) = other.parts();
        if left > 0x7f80_0000 || right > 0x7f80_0000 {
            return false;
        }
        let left_level: i64 = if left_sign {
            -(left as i64)
        } else {
            left as i64
        };
        let right_level: i64 = if right_sign {
            -(right as i64)
        } else {
            right as i64
        };
        left_level < right_level
    }
}

// ---------------------------------------------------------------------------
// Counts as scores
// ---------------------------------------------------------------------------

/// How often a number has to be halved to be below 2^24.
pub open spec fn halvings(count: nat) -> nat
    decreases count,
{
    if count < 0x100_0000 {
        0
    } else {
        1 + halvings(count / 2)
    }
}

/// How often a number has to be doubled to be at least 2^23.
pub open spec fn doublings(count: nat) -> nat
    decreases 0x100_0000 - count,
{
    if count == 0 || count >= 0x80_0000 {
        0
    } else {
        1 + doublings(2 * count)
    }
}

/// `count / unit`, rounded to the nearest whole number, and to an even one
/// where two are equally near.
pub open spec fn rounded(count: nat, unit: nat) -> nat {
    let quotient = count / unit;
    let rest = count % unit;
    if 2 * rest > unit || (2 * rest == unit && quotient % 2 == 1) {
        quotient + 1
    } else {
        quotient
    }
}

/// The bits of the single-precision number that is nearest to a count: an
/// exponent, with bias 127, above 23 bits of a fraction.
pub open spec fn count_bits(count: nat) -> int {
    if count == 0 {
        0
    } else if count < 0x100_0000 {
        let exponent = 23 - doublings(count);
        (exponent + 127) * 0x80_0000 + (count * pow2(doublings(count)) - 0x80_0000)
    } else {
        let exponent = 23 + halvings(count);
        (exponent + 127) * 0x80_0000 + (rounded(count, pow2(halvings(count))) - 0x80_0000)
    }
}

pub proof fn lemma_doublings(count: nat)
    requires
        0 < count < 0x100_0000,
    ensures
        doublings(count) <= 23,
        0x80_0000 <= count * pow2(doublings(count)) < 0x100_0000,
    decreases 0x100_0000 - count,
{
    lemma2_to64();
    lemma_doublings_bound(count, 0);
    if count >= 0x80_0000 {
        assert(count * pow2(0) == count) by (nonlinear_arith)
            requires
                pow2(0) == 1,
        ;
    } else {
        lemma_doublings(2 * count);
        let rest = doublings(2 * count);
        lemma_pow2_unfold(rest + 1);
        assert(count * pow2(rest + 1) == (2 * count) * pow2(rest)) by (nonlinear_arith)
            requires
                pow2(rest + 1) == 2 * pow2(rest),
        ;
    }
}

/// A number that was doubled `done` times from at least one needs few more.
proof fn lemma_doublings_bound(count: nat, done: nat)
    requires
        0 < count < 0x100_0000,
        done <= 23,
        count >= pow2(done),
    ensures
        doublings(count) + done <= 23,
    decreases 0x100_0000 - count,
{
    lemma2_to64();
    if count < 0x80_0000 {
        if done == 23 {
            assert(pow2(23) == 0x80_0000);
        } else {
            lemma_pow2_unfold(done + 1);
            lemma_doublings_bound(2 * count, done + 1);
        }
    }
}

proof fn lemma_halvings_bound(count: nat, limit: nat)
    requires
        count < pow2(24 + limit),
    ensures
        halvings(count) <= limit,
    decreases limit,
{
    lemma2_to64();
    if count >= 0x100_0000 {
        if limit == 0 {
            assert(pow2(24) == 0x100_0000);
        } else {
            lemma_pow2_unfold(24 + limit);
            lemma_halvings_bound(count / 2, (limit - 1) as nat);
        }
    }
}

proof fn lemma_halvings(count: nat)
    ensures
        count / pow2(halvings(count)) < 0x100_0000,
        count >= 0x100_0000 ==> count / pow2(halvings(count)) >= 0x80_0000,
        pow2(halvings(count)) <= if count == 0 {
            1
        } else {
            count
        },
    decreases count,
{
    lemma2_to64();
    if count >= 0x100_0000 {
        let half = count / 2;
        lemma_halvings(half);
        let rest = halvings(half);
        lemma_pow2_unfold(rest + 1);
        lemma_pow2_pos(rest);
        assert(count / pow2(rest + 1) == half / pow2(rest)) by {
            vstd::arithmetic::div_mod::lemma_div_denominator(
                count as int,
                2,
                pow2(rest) as int,
            );
        }
        if half < 0x100_0000 {
            assert(rest == 0);
            assert(half / pow2(0) == half);
        }
    } else {
        assert(halvings(count) == 0);
        assert(count / pow2(0) == count);
    }
}

/// The single-precision number nearest to a count.
pub fn score_of_count(count: usize) -> (score: Score)
    ensures
        score.bits == count_bits(count as nat),
{
    if count == 0 {
        return Score { bits: 0 };
    }
    proof {
        lemma2_to64();
    }
    if count < 0x100_0000 {
        let mut fraction: u32 = count as u32;
        let mut done: u32 = 0;
        proof {
            lemma_doublings(count as nat);
        }
        while fraction < 0x80_0000
            invariant
                0 < count < 0x100_0000,
                0 < fraction < 0x100_0000,
                done + doublings(fraction as nat) == doublings(count as nat),
                doublings(count as nat) <= 23,
                fraction == count * pow2(done as nat),
            decreases 0x100_0000 - fraction,
        {
            proof {
                lemma_pow2_unfold((done + 1) as nat);
                assert(count * pow2((done + 1) as nat) == 2 * (count * pow2(done as nat)))
                    by (nonlinear_arith)
                    requires
                        pow2((done + 1) as nat) == 2 * pow2(done as nat),
                ;
            }
            fraction = 2 * fraction;
            done = done + 1;
        }
        return Score { bits: (150 - done) * 0x80_0000 + (fraction - 0x80_0000) };
    }
    let mut quotient: usize = count;
    let mut unit: usize = 1;
    let mut exponent: u32 = 150;
    proof {
        assert(count as nat / pow2(0) == count);
        lemma_halvings_bound(count as nat, 40);
    }
    while quotient >= 0x100_0000
        invariant
            count >= 0x100_0000,
            150 <= exponent,
            unit == pow2((exponent - 150) as nat),
            quotient == count as nat / unit as nat,
            unit >= 1,
            (exponent - 150) + halvings(quotient as nat) == halvings(count as nat),
            halvings(count as nat) <= 40,
        decreases quotient,
    {
        proof {
            lemma_pow2_unfold((exponent - 150 + 1) as nat);
            vstd::arithmetic::div_mod::lemma_div_denominator(count as int, unit as int, 2);
            assert(2 * unit <= count) by (nonlinear_arith)
                requires
                    quotient == count as nat / unit as nat,
                    quotient >= 2,
                    unit >= 1,
            ;
        }
        quotient = quotient / 2;
        unit = unit * 2;
        exponent = exponent + 1;
    }
    proof {
        lemma_halvings(count as nat);
    }
    let rest: usize = count % unit;
    let up: bool = rest > unit - rest || (rest == unit - rest && quotient % 2 == 1);
    let fraction: u32 = if up {
        quotient as u32 + 1
    } else {
        quotient as u32
    };
    Score { bits: exponent * 0x80_0000 + (fraction - 0x80_0000) }
}

// ---------------------------------------------------------------------------
// Values
// ---------------------------------------------------------------------------

/// The significand of a finite score: a whole number below 2^24.
pub open spec fn significand(score: Score) -> nat {
    let fraction = (magnitude(score) % 0x80_0000) as nat;
    if magnitude(score) / 0x80_0000 == 0 {
        fraction
    } else {
        0x80_0000 + fraction
    }
}

/// The power of two by which the significand of a finite score is multiplied.
pub open spec fn power(score: Score) -> int {
    let exponent = magnitude(score) / 0x80_0000;
    if exponent == 0 {
        -149
    } else {
        exponent - 150
    }
}

// ---------------------------------------------------------------------------
// Laws
// ---------------------------------------------------------------------------

proof fn lemma_doublings_order(left: nat, right: nat)
    requires
        0 < left <= right,
    ensures
        doublings(right) <= doublings(left),
    decreases 0x100_0000 - left,
{
    if left < 0x80_0000 && right < 0x80_0000 {
        lemma_doublings_order(2 * left, 2 * right);
    }
}

proof fn lemma_halvings_order(left: nat, right: nat)
    requires
        left <= right,
    ensures
        halvings(left) <= halvings(right),
    decreases right,
{
    if left >= 0x100_0000 {
        lemma_halvings_order(left / 2, right / 2);
    }
}

proof fn lemma_rounded_order(left: nat, right: nat, unit: nat)
    requires
        left <= right,
        unit > 0,
    ensures
        rounded(left, unit) <= rounded(right, unit),
{
    vstd::arithmetic::div_mod::lemma_div_is_ordered(left as int, right as int, unit as int);
    vstd::arithmetic::div_mod::lemma_fundamental_div_mod(left as int, unit as int);
    vstd::arithmetic::div_mod::lemma_fundamental_div_mod(right as int, unit as int);
}

/// A greater count has no lesser score, and among counts below 2^24 it has a
/// greater one.
pub proof fn law_count_order(left: nat, right: nat)
    requires
        left <= right,
    ensures
        count_bits(left) <= count_bits(right),
        left < right < 0x100_0000 ==> count_bits(left) < count_bits(right),
{
    if left > 0 && right < 0x100_0000 {
        lemma_doublings(left);
        lemma_doublings(right);
        lemma_doublings_order(left, right);
        if doublings(left) == doublings(right) {
            let unit = pow2(doublings(left));
            lemma_pow2_pos(doublings(left));
            assert(left * unit <= right * unit) by (nonlinear_arith)
                requires
                    left <= right,
                    unit > 0,
            ;
            assert(left < right ==> left * unit < right * unit) by (nonlinear_arith)
                requires
                    unit > 0,
            ;
        }
    } else if left < 0x100_0000 {
        if right >= 0x100_0000 {
            lemma_halvings(right);
            lemma_pow2_pos(halvings(right));
        }
        if left > 0 {
            lemma_doublings(left);
        } else if right > 0 && right < 0x100_0000 {
            lemma_doublings(right);
        }
    } else {
        lemma_halvings(left);
        lemma_halvings(right);
        lemma_halvings_order(left, right);
        lemma_pow2_pos(halvings(left));
        lemma_pow2_pos(halvings(right));
        if halvings(left) == halvings(right) {
            lemma_rounded_order(left, right, pow2(halvings(left)));
        }
    }
}

/// The total order agrees with the order of values, and tells any two scores
/// apart.
pub proof fn law_total_order(left: Score, right: Score)
    ensures
        less(left, right) ==> total_place(left) < total_place(right),
        total_place(left) == total_place(right) ==> left == right,
{
}

/// The score of a count is a number that is not negative, and finite.
pub proof fn law_count_bits(count: nat)
    requires
        count <= usize::MAX,
    ensures
        0 <= count_bits(count) < 0x7f80_0000,
        count_bits(count) == 0 <==> count == 0,
{
    lemma2_to64();
    if 0 < count < 0x100_0000 {
        lemma_doublings(count);
    } else if count > 0 {
        lemma_halvings_bound(count, 40);
        lemma_halvings(count);
    }
}

/// The absolute value of a finite score, in units of the least one above zero.
pub open spec fn units(score: Score) -> nat {
    significand(score) * pow2((power(score) + 149) as nat)
}

proof fn lemma_units_grow(left: Score, right: Score)
    requires
        magnitude(left) < magnitude(right) < 0x7f80_0000,
    ensures
        units(left) < units(right),
{
    let a = significand(left);
    let b = significand(right);
    let p = (power(left) + 149) as nat;
    let q = (power(right) + 149) as nat;
    lemma_pow2_pos(p);
    lemma_pow2_pos(q);
    if p == q {
        assert(a < b);
        assert(a * pow2(p) < b * pow2(p)) by (nonlinear_arith)
            requires
                a < b,
                pow2(p) > 0,
        ;
    } else {
        assert(p < q);
        lemma_pow2_unfold((p + 1) as nat);
        if p + 1 < q {
            lemma_pow2_strictly_increases((p + 1) as nat, q);
        }
        let x = pow2(p);
        let y = pow2(q);
        assert(2 * x <= y);
        assert(a < 0x100_0000 && b >= 0x80_0000);
        assert(a * x < b * y) by (nonlinear_arith)
            requires
                a < 0x100_0000,
                b >= 0x80_0000,
                x > 0,
                2 * x <= y,
        ;
    }
}

/// One finite score is less than another exactly if its value, with its sign, is.
/// What is infinite is beyond all finite scores. What is no number is neither
/// less nor greater than anything.
pub proof fn law_less(left: Score, right: Score)
    ensures
        magnitude(left) < 0x7f80_0000 && magnitude(right) < 0x7f80_0000 ==> (less(left, right) <==> {
            let a = if left.bits >= 0x8000_0000 {
                -(units(left) as int)
            } else {
                units(left) as int
            };
            let b = if right.bits >= 0x8000_0000 {
                -(units(right) as int)
            } else {
                units(right) as int
            };
            a < b
        }),
        is_nan(left) || is_nan(right) ==> !less(left, right),
        magnitude(left) < 0x7f80_0000 && right.bits == 0x7f80_0000 ==> less(left, right),
        left.bits == 0xff80_0000 && magnitude(right) < 0x7f80_0000 ==> less(left, right),
{
    if magnitude(left) < 0x7f80_0000 && magnitude(right) < 0x7f80_0000 {
        let nothing = Score { bits: 0 };
        assert(significand(nothing) == 0);
        assert(units(nothing) == 0) by {
            assert(0 * pow2((power(nothing) + 149) as nat) == 0) by (nonlinear_arith);
        }
        if magnitude(left) > 0 {
            lemma_units_grow(nothing, left);
        } else {
            assert(significand(left) == 0);
            assert(0 * pow2((power(left) + 149) as nat) == 0) by (nonlinear_arith);
        }
        if magnitude(right) > 0 {
            lemma_units_grow(nothing, right);
        } else {
            assert(significand(right) == 0);
            assert(0 * pow2((power(right) + 149) as nat) == 0) by (nonlinear_arith);
        }
        if magnitude(left) < magnitude(right) {
            lemma_units_grow(left, right);
        } else if magnitude(right) < magnitude(left) {
            lemma_units_grow(right, left);
        } else {
            assert(units(left) == units(right));
        }
    }
}

/// What is rounded differs from the quotient by no more than a half; where it
/// differs by just that, it is even.
pub proof fn law_rounded(count: nat, unit: nat)
    requires
        unit > 0,
    ensures
        2 * (rounded(count, unit) * unit - count) <= unit,
        2 * (count - rounded(count, unit) * unit) <= unit,
        2 * (rounded(count, unit) * unit - count) == unit || 2 * (count - rounded(count, unit)
            * unit) == unit ==> rounded(count, unit) % 2 == 0,
{
    let q = count / unit;
    let r = count % unit;
    vstd::arithmetic::div_mod::lemma_fundamental_div_mod(count as int, unit as int);
    assert(unit * q + r == count);
    assert(q * unit == unit * q) by (nonlinear_arith);
    assert((q + 1) * unit == unit * q + unit) by (nonlinear_arith);
}

/// The score of a count below 2^24 has just that value.
pub proof fn law_count_value(count: nat)
    requires
        count < 0x100_0000,
    ensures
        units(Score { bits: count_bits(count) as u32 }) == count * pow2(149),
{
    let score = Score { bits: count_bits(count) as u32 };
    if count == 0 {
        assert(significand(score) == 0);
        assert(0 * pow2((power(score) + 149) as nat) == 0) by (nonlinear_arith);
        assert(0 * pow2(149) == 0) by (nonlinear_arith);
    } else {
        let d = doublings(count);
        lemma_doublings(count);
        let fraction = count * pow2(d);
        assert(magnitude(score) == count_bits(count));
        assert(magnitude(score) / 0x80_0000 == 150 - d);
        assert(significand(score) == fraction);
        let p = (power(score) + 149) as nat;
        assert(p == 149 - d);
        lemma_pow2_adds(d, p);
        assert((count * pow2(d)) * pow2(p) == count * (pow2(d) * pow2(p))) by (nonlinear_arith);
        assert(pow2(d) * pow2(p) == pow2(149));
    }
}

/// In the total order what is no number comes at the ends: after all numbers
/// where its sign bit is not set, before all numbers where it is. Negative zero
/// comes before zero.
pub proof fn law_total_order_ends(odd: Score, number: Score)
    requires
        is_nan(odd),
        !is_nan(number),
    ensures
        odd.bits < 0x8000_0000 ==> total_place(number) < total_place(odd),
        odd.bits >= 0x8000_0000 ==> total_place(odd) < total_place(number),
        total_place(Score { bits: 0x8000_0000 }) < total_place(Score { bits: 0 }),
{
}

/// The score of a count of 2^24 or more is the value nearest to it that a
/// significand of 24 bits can have: it differs by no more than half of the unit
/// in which such a significand counts.
pub proof fn law_count_nearest(count: nat)
    requires
        0x100_0000 <= count <= usize::MAX,
    ensures
        ({
            let unit = pow2(halvings(count));
            let value = units(Score { bits: count_bits(count) as u32 });
            &&& 0x80_0000 <= count / unit < 0x100_0000
            &&& value == rounded(count, unit) * unit * pow2(149)
            &&& 2 * (rounded(count, unit) * unit - count) <= unit
            &&& 2 * (count - rounded(count, unit) * unit) <= unit
        }),
{
    let h = halvings(count);
    let unit = pow2(h);
    lemma2_to64();
    lemma_halvings_bound(count, 40);
    lemma_halvings(count);
    lemma_pow2_pos(h);
    law_rounded(count, unit);
    let r = rounded(count, unit);
    let score = Score { bits: count_bits(count) as u32 };
    let p = (power(score) + 149) as nat;
    if r == 0x100_0000 {
        assert(magnitude(score) == (151 + h) * 0x80_0000);
        assert(significand(score) == 0x80_0000);
        assert(p == h + 150);
        lemma_pow2_unfold(150);
        lemma_pow2_adds(h, 150);
        assert(0x80_0000 * (unit * (2 * pow2(149))) == 0x100_0000 * unit * pow2(149))
            by (nonlinear_arith);
    } else {
        assert(magnitude(score) == (150 + h) * 0x80_0000 + (r - 0x80_0000));
        assert(significand(score) == r);
        assert(p == h + 149);
        lemma_pow2_adds(h, 149);
        assert(r * (unit * pow2(149)) == r * unit * pow2(149)) by (nonlinear_arith);
    }
}

} // verus!
