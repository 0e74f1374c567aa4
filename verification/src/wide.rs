//! Reported scores: double-precision numbers, held as their bits, which single
//! ones are widened to, and how they are written.

use crate::decimal;
use crate::score;
use crate::score::Score;
use vstd::arithmetic::power2::*;
use vstd::prelude::*;
use vstd::string::*;

verus! {

/// A double-precision number in the binary format of IEEE 754.
#[derive(Clone, Copy, Debug, Eq, PartialEq, Structural)]
pub struct WideScore {
    pub bits: u64,
}

/// Whether the sign bit is set.
pub open spec fn negative(score: WideScore) -> bool {
    score.bits >= 0x8000_0000_0000_0000
}

/// The bits without the sign.
pub open spec fn magnitude(score: WideScore) -> int {
    if negative(score) {
        score.bits - 0x8000_0000_0000_0000
    } else {
        score.bits as int
    }
}

/// The magnitude of what is infinite; that of what is no number is greater.
pub open spec fn infinite() -> int {
    0x7ff0_0000_0000_0000
}

/// The significand of a finite score: a whole number below 2^53.
pub open spec fn significand(score: WideScore) -> nat {
    let fraction = (magnitude(score) % 0x10_0000_0000_0000) as nat;
    if magnitude(score) / 0x10_0000_0000_0000 == 0 {
        fraction
    } else {
        0x10_0000_0000_0000 + fraction
    }
}

/// The power of two by which the significand of a finite score is multiplied.
pub open spec fn power(score: WideScore) -> int {
    let exponent = magnitude(score) / 0x10_0000_0000_0000;
    if exponent == 0 {
        -1074
    } else {
        exponent - 1075
    }
}

// ---------------------------------------------------------------------------
// Widening
// ---------------------------------------------------------------------------

/// The magnitude of a single-precision score as a double-precision one.
pub open spec fn widened_magnitude(score: Score) -> int {
    let exponent = score::magnitude(score) / 0x80_0000;
    let fraction = score::magnitude(score) % 0x80_0000;
    if exponent == 255 {
        infinite() + fraction * 0x2000_0000
    } else if exponent > 0 {
        (exponent + 896) * 0x10_0000_0000_0000 + fraction * 0x2000_0000
    } else if fraction > 0 {
        let shift = score::doublings(fraction as nat);
        (897 - shift) * 0x10_0000_0000_0000 + (fraction * pow2(shift) - 0x80_0000) * 0x2000_0000
    } else {
        0
    }
}

/// A single-precision score as a double-precision one of the same value.
pub open spec fn widened(score: Score) -> WideScore {
    WideScore {
        bits: (widened_magnitude(score) + if score::negative(score) {
            0x8000_0000_0000_0000int
        } else {
            0int
        }) as u64,
    }
}

proof fn lemma_widened_range(score: Score)
    ensures
        0 <= widened_magnitude(score) < 0x8000_0000_0000_0000,
        score::magnitude(score) < 0x7f80_0000 ==> widened_magnitude(score) < infinite(),
{
    let exponent = score::magnitude(score) / 0x80_0000;
    let fraction = score::magnitude(score) % 0x80_0000;
    assert(0 <= exponent <= 255);
    if exponent == 0 && fraction > 0 {
        score::lemma_doublings(fraction as nat);
    }
}

/// A single-precision score as a double-precision one of the same value.
pub fn widen(score: Score) -> (wide: WideScore)
    ensures
        wide == widened(score),
{
    let (sign, size) = score.parts();
    let exponent: u64 = (size / 0x80_0000) as u64;
    let fraction: u64 = (size % 0x80_0000) as u64;
    proof {
        lemma_widened_range(score);
    }
    let wide_size: u64 = if exponent == 255 {
        0x7ff0_0000_0000_0000 + fraction * 0x2000_0000
    } else if exponent > 0 {
        (exponent + 896) * 0x10_0000_0000_0000 + fraction * 0x2000_0000
    } else if fraction > 0 {
        let mut value: u64 = fraction;
        let mut shift: u64 = 0;
        proof {
            score::lemma_doublings(fraction as nat);
            lemma2_to64();
            assert(fraction * pow2(0) == fraction) by (nonlinear_arith)
                requires
                    pow2(0) == 1,
            ;
        }
        while value < 0x80_0000
            invariant
                0 < fraction < 0x80_0000,
                0 < value < 0x100_0000,
                shift + score::doublings(value as nat) == score::doublings(fraction as nat),
                score::doublings(fraction as nat) <= 23,
                value == fraction * pow2(shift as nat),
            decreases 0x100_0000 - value,
        {
            proof {
                lemma_pow2_unfold((shift + 1) as nat);
                assert(fraction * pow2((shift + 1) as nat) == 2 * (fraction * pow2(shift as nat)))
                    by (nonlinear_arith)
                    requires
                        pow2((shift + 1) as nat) == 2 * pow2(shift as nat),
                ;
            }
            value = 2 * value;
            shift = shift + 1;
        }
        (897 - shift) * 0x10_0000_0000_0000 + (value - 0x80_0000) * 0x2000_0000
    } else {
        0
    };
    assert(wide_size == widened_magnitude(score));
    if sign {
        WideScore { bits: wide_size + 0x8000_0000_0000_0000 }
    } else {
        WideScore { bits: wide_size }
    }
}

// ---------------------------------------------------------------------------
// Scores as text
// ---------------------------------------------------------------------------

/// The absolute value of a finite score in thousandths, rounded to the nearest
/// whole number, and to an even one where two are equally near.
pub open spec fn thousandths(score: WideScore) -> nat {
    if power(score) >= 0 {
        significand(score) * pow2(power(score) as nat) * 1000
    } else {
        score::rounded(significand(score) * 1000, pow2((-power(score)) as nat))
    }
}

/// A number below a thousand with three digits.
pub open spec fn three_digits(value: nat) -> Seq<char> {
    seq![
        decimal::digit(value / 100),
        decimal::digit((value / 10) % 10),
        decimal::digit(value % 10),
    ]
}

/// A score with three digits after the point.
pub open spec fn score_text(score: WideScore) -> Seq<char> {
    if magnitude(score) > infinite() {
        "NaN"@
    } else {
        let sign = if negative(score) {
            "-"@
        } else {
            Seq::empty()
        };
        if magnitude(score) == infinite() {
            sign + "inf"@
        } else {
            sign + decimal::decimal(thousandths(score) / 1000) + "."@ + three_digits(
                thousandths(score) % 1000,
            )
        }
    }
}

/// A power of two.
fn power_of_two(power: u32) -> (unit: u128)
    requires
        power <= 64,
    ensures
        unit == pow2(power as nat),
{
    let mut unit: u128 = 1;
    let mut done: u32 = 0;
    proof {
        lemma2_to64();
    }
    while done < power
        invariant
            done <= power <= 64,
            unit == pow2(done as nat),
        decreases power - done,
    {
        proof {
            lemma2_to64();
            lemma_pow2_unfold((done + 1) as nat);
            lemma_pow2_strictly_increases(done as nat, 64);
        }
        unit = 2 * unit;
        done = done + 1;
    }
    unit
}

/// `value / 2^shift` in thousandths, rounded.
fn rounded_thousandths(value: u64, shift: u32) -> (count: u128)
    requires
        value < 0x20_0000_0000_0000,
    ensures
        count == score::rounded(value as nat * 1000, pow2(shift as nat)),
{
    let ghost unit = pow2(shift as nat);
    let product: u128 = value as u128 * 1000;
    if shift > 64 {
        proof {
            lemma2_to64();
            lemma_pow2_strictly_increases(64, shift as nat);
            assert(2 * product < unit);
            vstd::arithmetic::div_mod::lemma_basic_div(product as int, unit as int);
            vstd::arithmetic::div_mod::lemma_small_mod(product as nat, unit);
        }
        return 0;
    }
    let unit: u128 = power_of_two(shift);
    proof {
        lemma_pow2_pos(shift as nat);
        vstd::arithmetic::div_mod::lemma_div_is_ordered_by_denominator(
            product as int,
            1,
            unit as int,
        );
    }
    let quotient: u128 = product / unit;
    let rest: u128 = product % unit;
    if rest > unit - rest || (rest == unit - rest && quotient % 2 == 1) {
        quotient + 1
    } else {
        quotient
    }
}

fn push_three_digits(out: &mut String, value: u128)
    requires
        value < 1000,
    ensures
        final(out)@ == old(out)@ + three_digits(value as nat),
{
    let ghost before = out@;
    out.push((48 + (value / 100) as u8) as char);
    out.push((48 + ((value / 10) % 10) as u8) as char);
    out.push((48 + (value % 10) as u8) as char);
    assert(out@ =~= before + three_digits(value as nat));
}

/// Appends a score with three digits after the point.
pub fn push_score(out: &mut String, score: WideScore)
    ensures
        final(out)@ == old(out)@ + score_text(score),
{
    let sign: bool = score.bits >= 0x8000_0000_0000_0000;
    let size: u64 = if sign {
        score.bits - 0x8000_0000_0000_0000
    } else {
        score.bits
    };
    let ghost before = out@;
    if size > 0x7ff0_0000_0000_0000 {
        out.append("NaN");
        return ;
    }
    if sign {
        out.append("-");
    }
    let ghost shown_sign = if sign {
        "-"@
    } else {
        Seq::empty()
    };
    assert(out@ =~= before + shown_sign);
    if size == 0x7ff0_0000_0000_0000 {
        out.append("inf");
        assert(out@ =~= before + score_text(score));
        return ;
    }
    let exponent: u64 = size / 0x10_0000_0000_0000;
    let fraction: u64 = size % 0x10_0000_0000_0000;
    let value: u64 = if exponent == 0 {
        fraction
    } else {
        0x10_0000_0000_0000 + fraction
    };
    let ghost total = thousandths(score);
    if exponent >= 1075 {
        let shift: u32 = (exponent - 1075) as u32;
        proof {
            let whole = (value as nat * pow2(shift as nat)) as int;
            vstd::arithmetic::div_mod::lemma_div_multiples_vanish(whole, 1000);
            vstd::arithmetic::div_mod::lemma_mod_multiples_basic(whole, 1000);
            assert(total / 1000 == whole);
            assert(total % 1000 == 0);
        }
        decimal::push_scaled_decimal(out, value, shift);
        out.append(".");
        push_three_digits(out, 0);
    } else {
        let shift: u32 = if exponent == 0 {
            1074
        } else {
            (1075 - exponent) as u32
        };
        let count: u128 = rounded_thousandths(value, shift);
        decimal::push_decimal(out, count / 1000);
        out.append(".");
        push_three_digits(out, count % 1000);
    }
    assert(out@ =~= before + score_text(score));
}

// ---------------------------------------------------------------------------
// Laws
// ---------------------------------------------------------------------------

/// Widening keeps the sign and the value, and what is infinite or no number.
pub proof fn law_widened(score: Score)
    ensures
        negative(widened(score)) == score::negative(score),
        score::is_nan(score) == (magnitude(widened(score)) > infinite()),
        (score::magnitude(score) == 0x7f80_0000) == (magnitude(widened(score)) == infinite()),
        score::magnitude(score) < 0x7f80_0000 ==> significand(widened(score)) * pow2(
            (power(widened(score)) + 1074) as nat,
        ) == score::significand(score) * pow2((score::power(score) + 1074) as nat),
{
    lemma_widened_range(score);
    let wide = widened(score);
    let exponent = score::magnitude(score) / 0x80_0000;
    let fraction = score::magnitude(score) % 0x80_0000;
    assert(magnitude(wide) == widened_magnitude(score));
    if exponent < 255 {
        lemma2_to64();
        if exponent > 0 {
            assert(magnitude(wide) / 0x10_0000_0000_0000 == exponent + 896);
            assert(magnitude(wide) % 0x10_0000_0000_0000 == fraction * 0x2000_0000);
            let low = (power(wide) + 1074) as nat;
            lemma_pow2_adds(29, low);
            let value = (0x80_0000 + fraction) as nat;
            assert(significand(wide) == value * 0x2000_0000);
            assert((value * 0x2000_0000) * pow2(low) == value * (0x2000_0000 * pow2(low)))
                by (nonlinear_arith);
        } else if fraction > 0 {
            let shift = score::doublings(fraction as nat);
            score::lemma_doublings(fraction as nat);
            let value = fraction * pow2(shift);
            assert(magnitude(wide) / 0x10_0000_0000_0000 == 897 - shift);
            assert(magnitude(wide) % 0x10_0000_0000_0000 == (value - 0x80_0000) * 0x2000_0000);
            assert(significand(wide) == value * 0x2000_0000);
            let low = (power(wide) + 1074) as nat;
            lemma_pow2_adds(29, low);
            lemma_pow2_adds(shift, 29 + low);
            assert((fraction * pow2(shift) * 0x2000_0000) * pow2(low) == fraction * (pow2(shift)
                * (0x2000_0000 * pow2(low)))) by (nonlinear_arith);
            assert(29 + low + shift == score::power(score) + 1074);
        } else {
            assert(significand(wide) == 0);
            assert(score::significand(score) == 0);
            assert(0 * pow2((power(wide) + 1074) as nat) == 0 && 0 * pow2(
                (score::power(score) + 1074) as nat,
            ) == 0) by (nonlinear_arith);
        }
    }
}

/// What a finite score shows is its value to three digits after the point: in
/// thousandths the difference is no more than a half, and an even digit is shown
/// where two are equally near.
pub proof fn law_thousandths(score: WideScore)
    ensures
        power(score) >= 0 ==> thousandths(score) == 1000 * (significand(score) * pow2(
            power(score) as nat,
        )),
        power(score) < 0 ==> {
            let unit = pow2((-power(score)) as nat);
            let shown = thousandths(score) * unit;
            let value = 1000 * significand(score);
            &&& 2 * (shown - value) <= unit
            &&& 2 * (value - shown) <= unit
            &&& 2 * (shown - value) == unit || 2 * (value - shown) == unit ==> thousandths(score)
                % 2 == 0
        },
{
    if power(score) < 0 {
        let unit = pow2((-power(score)) as nat);
        lemma_pow2_pos((-power(score)) as nat);
        score::law_rounded(significand(score) * 1000, unit);
    }
}

/// A finite score is written with its sign, its whole part in decimal notation,
/// a point, and three digits that read as the thousandths.
pub proof fn law_score_text(score: WideScore)
    requires
        magnitude(score) < infinite(),
    ensures
        ({
            let fraction = three_digits(thousandths(score) % 1000);
            &&& score_text(score) == (if score.bits >= 0x8000_0000_0000_0000 {
                "-"@
            } else {
                Seq::empty()
            }) + decimal::decimal(thousandths(score) / 1000) + "."@ + fraction
            &&& fraction.len() == 3
            &&& decimal::read_decimal(fraction) == thousandths(score) % 1000
        }),
{
    let rest = thousandths(score) % 1000;
    let fraction = three_digits(rest);
    reveal_with_fuel(decimal::read_decimal, 4);
    let a = seq![fraction[0]];
    let b = seq![fraction[0], fraction[1]];
    assert(fraction.drop_last() =~= b);
    assert(b.drop_last() =~= a);
    assert(a.drop_last() =~= Seq::empty());
}

/// What is infinite or no number is written as such.
pub proof fn law_score_text_special(score: WideScore)
    ensures
        magnitude(score) > 0x7ff0_0000_0000_0000 ==> score_text(score) == "NaN"@,
        score.bits == 0x7ff0_0000_0000_0000 ==> score_text(score) == "inf"@,
        score.bits == 0xfff0_0000_0000_0000 ==> score_text(score) == "-"@ + "inf"@,
{
    assert(Seq::<char>::empty() + "inf"@ =~= "inf"@);
}

} // verus!
