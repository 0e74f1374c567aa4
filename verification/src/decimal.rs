//! Numbers in decimal notation.

use vstd::arithmetic::power2::*;
use vstd::prelude::*;
use vstd::string::*;

verus! {

/// The decimal digit of a number below ten.
pub open spec fn digit(value: nat) -> char {
    (48 + value) as char
}

/// A number in decimal notation, without leading zeros.
pub open spec fn decimal(value: nat) -> Seq<char>
    decreases value,
{
    if value < 10 {
        seq![digit(value)]
    } else {
        decimal(value / 10).push(digit(value % 10))
    }
}

/// Appends a number in decimal notation.
pub fn push_decimal(out: &mut String, value: u128)
    ensures
        final(out)@ == old(out)@ + decimal(value as nat),
    decreases value,
{
    let ghost before = out@;
    if value >= 10 {
        push_decimal(out, value / 10);
    }
    let last: u8 = (value % 10) as u8;
    out.push((48 + last) as char);
    assert(out@ =~= before + decimal(value as nat));
}

// ---------------------------------------------------------------------------
// Numbers of any size, as their digits
// ---------------------------------------------------------------------------

/// The number that digits stand for, the most significant digit first.
pub open spec fn digits_value(digits: Seq<u8>) -> nat
    decreases digits.len(),
{
    if digits.len() == 0 {
        0
    } else {
        10 * digits_value(digits.drop_last()) + digits.last() as nat
    }
}

/// Whether numbers are decimal digits without a leading zero.
pub open spec fn are_digits(digits: Seq<u8>) -> bool {
    &&& forall|i: int| 0 <= i < digits.len() ==> #[trigger] digits[i] < 10
    &&& digits.len() > 0 ==> digits[0] != 0
}

/// Digits as characters.
pub open spec fn digit_text(digits: Seq<u8>) -> Seq<char> {
    digits.map_values(|value: u8| digit(value as nat))
}

proof fn lemma_digits_positive(digits: Seq<u8>)
    requires
        are_digits(digits),
        digits.len() > 0,
    ensures
        digits_value(digits) > 0,
    decreases digits.len(),
{
    if digits.len() > 1 {
        lemma_digits_positive(digits.drop_last());
    }
}

proof fn lemma_digit_text(digits: Seq<u8>)
    requires
        are_digits(digits),
        digits.len() > 0,
    ensures
        digit_text(digits) == decimal(digits_value(digits)),
    decreases digits.len(),
{
    let rest = digits.drop_last();
    let last = digits.last();
    assert(digit_text(digits) =~= digit_text(rest).push(digit(last as nat)));
    if rest.len() == 0 {
        assert(digits_value(rest) == 0);
        assert(digit_text(digits) =~= seq![digit(last as nat)]);
    } else {
        lemma_digits_positive(rest);
        lemma_digit_text(rest);
        let value = digits_value(digits);
        assert(value / 10 == digits_value(rest));
        assert(value % 10 == last as nat);
    }
}

/// The digits of a number; none for zero.
fn digits_of(value: u64) -> (digits: Vec<u8>)
    ensures
        are_digits(digits@),
        digits_value(digits@) == value,
    decreases value,
{
    if value == 0 {
        return Vec::new();
    }
    let mut digits = digits_of(value / 10);
    let ghost before = digits@;
    digits.push((value % 10) as u8);
    proof {
        assert(digits@.drop_last() =~= before);
        if before.len() > 0 {
            assert(digits@[0] == before[0]);
        } else {
            assert(digits_value(before) == 0);
        }
    }
    digits
}

/// The digits of twice the number that the first `count` digits stand for,
/// with a carry added.
fn doubled(digits: &Vec<u8>, count: usize, carry: u8) -> (result: Vec<u8>)
    requires
        count <= digits@.len(),
        are_digits(digits@.take(count as int)),
        carry <= 1,
    ensures
        are_digits(result@),
        digits_value(result@) == 2 * digits_value(digits@.take(count as int)) + carry,
    decreases count,
{
    if count == 0 {
        let mut result: Vec<u8> = Vec::new();
        assert(digits_value(result@) == 0);
        if carry == 1 {
            result.push(1);
            assert(result@.drop_last() =~= Seq::empty());
        }
        return result;
    }
    let ghost taken = digits@.take(count as int);
    let ghost rest = digits@.take(count - 1);
    proof {
        assert(taken.drop_last() =~= rest);
        assert(taken.last() == digits@[count - 1]);
        assert(taken[count - 1] < 10);
        assert forall|i: int| 0 <= i < rest.len() implies #[trigger] rest[i] < 10 by {
            assert(taken[i] == rest[i]);
        }
        if rest.len() > 0 {
            assert(rest[0] == taken[0]);
        }
    }
    let twice: u8 = 2 * digits[count - 1] + carry;
    let mut result = doubled(digits, count - 1, twice / 10);
    let ghost before = result@;
    result.push(twice % 10);
    proof {
        assert(result@.drop_last() =~= before);
        if before.len() > 0 {
            assert(result@[0] == before[0]);
        } else {
            assert(digits_value(before) == 0);
            if rest.len() > 0 {
                lemma_digits_positive(rest);
            }
            assert(rest.len() == 0);
            assert(taken[0] == digits@[count - 1]);
        }
    }
    result
}

/// Appends a number times a power of two, in decimal notation.
pub fn push_scaled_decimal(out: &mut String, value: u64, power: u32)
    ensures
        final(out)@ == old(out)@ + decimal(value as nat * pow2(power as nat)),
{
    let ghost before = out@;
    let mut digits = digits_of(value);
    let mut done: u32 = 0;
    proof {
        lemma2_to64();
        assert(value as nat * pow2(0) == value) by (nonlinear_arith)
            requires
                pow2(0) == 1,
        ;
    }
    while done < power
        invariant
            done <= power,
            are_digits(digits@),
            digits_value(digits@) == value as nat * pow2(done as nat),
        decreases power - done,
    {
        proof {
            assert(digits@.take(digits@.len() as int) =~= digits@);
            lemma_pow2_unfold((done + 1) as nat);
            assert(value as nat * pow2((done + 1) as nat) == 2 * (value as nat * pow2(
                done as nat,
            ))) by (nonlinear_arith)
                requires
                    pow2((done + 1) as nat) == 2 * pow2(done as nat),
            ;
        }
        digits = doubled(&digits, digits.len(), 0);
        done = done + 1;
    }
    if digits.len() == 0 {
        out.push('0');
        assert(out@ =~= before + decimal(0));
        return ;
    }
    for index in 0..digits.len()
        invariant
            are_digits(digits@),
            out@ == before + digit_text(digits@).take(index as int),
    {
        assert(digits@[index as int] < 10);
        out.push((48 + digits[index]) as char);
        proof {
            let text = digit_text(digits@);
            assert(text.take(index + 1) =~= text.take(index as int).push(text[index as int]));
            assert(out@ =~= before + text.take(index + 1));
        }
    }
    proof {
        lemma_digit_text(digits@);
        assert(digit_text(digits@).take(digits@.len() as int) =~= digit_text(digits@));
    }
}

// ---------------------------------------------------------------------------
// Laws
// ---------------------------------------------------------------------------

/// The number that decimal digits read as.
pub open spec fn read_decimal(text: Seq<char>) -> int
    decreases text.len(),
{
    if text.len() == 0 {
        0
    } else {
        10 * read_decimal(text.drop_last()) + (text.last() as int - '0' as int)
    }
}

/// Decimal notation reads back as the number that was written. It consists of
/// digits only, there is at least one, and it starts with zero only for zero.
pub proof fn law_decimal(value: nat)
    ensures
        read_decimal(decimal(value)) == value,
        decimal(value).len() > 0,
        forall|i: int|
            0 <= i < decimal(value).len() ==> '0' <= #[trigger] decimal(value)[i] <= '9',
        value > 0 ==> decimal(value).first() != '0',
        value == 0 ==> decimal(value).len() == 1,
    decreases value,
{
    reveal_with_fuel(read_decimal, 2);
    if value >= 10 {
        law_decimal(value / 10);
        let rest = decimal(value / 10);
        assert(decimal(value).drop_last() =~= rest);
        assert(decimal(value).first() == rest.first());
    } else {
        assert(decimal(value).drop_last() =~= Seq::empty());
    }
}

} // verus!
