//! Decimal and octal numerals in ASCII: writing and reading.

use vstd::prelude::*;

verus! {

/// The decimal numeral of `n` in ASCII, without sign or leading zeros.
pub open spec fn decimal_digits(n: nat) -> Seq<u8>
    decreases n,
{
    if n < 10 {
        seq![(48 + n) as u8]
    } else {
        decimal_digits(n / 10).push((48 + n % 10) as u8)
    }
}

/// One or more ASCII digits `0` to `9`.
pub open spec fn is_decimal(text: Seq<u8>) -> bool {
    &&& text.len() > 0
    &&& forall|i: int| 0 <= i < text.len() ==> 48 <= #[trigger] text[i] <= 57
}

/// The number that a sequence of decimal digits denotes; leading zeros
/// count for nothing.
pub open spec fn decimal_value(text: Seq<u8>) -> nat
    decreases text.len(),
{
    if text.len() == 0 {
        0
    } else {
        (decimal_value(text.drop_last()) * 10 + (text.last() - 48)) as nat
    }
}

/// The octal numeral of `n` in ASCII, without sign or leading zeros.
pub open spec fn octal_digits(n: nat) -> Seq<u8>
    decreases n,
{
    if n < 8 {
        seq![(48 + n) as u8]
    } else {
        octal_digits(n / 8).push((48 + n % 8) as u8)
    }
}

/// One or more ASCII digits `0` to `7`.
pub open spec fn is_octal(text: Seq<u8>) -> bool {
    &&& text.len() > 0
    &&& forall|i: int| 0 <= i < text.len() ==> 48 <= #[trigger] text[i] <= 55
}

/// The number that a sequence of octal digits denotes.
pub open spec fn octal_value(text: Seq<u8>) -> nat
    decreases text.len(),
{
    if text.len() == 0 {
        0
    } else {
        (octal_value(text.drop_last()) * 8 + (text.last() - 48)) as nat
    }
}

/// The octal numeral of `n`, filled with zeros on the left to six digits.
pub open spec fn octal_digits_padded(n: nat) -> Seq<u8> {
    let digits = octal_digits(n);
    if digits.len() < 6 {
        Seq::new((6 - digits.len()) as nat, |i: int| 48u8) + digits
    } else {
        digits
    }
}

/// A decimal numeral is a decimal text and denotes the number it was
/// written for.
pub proof fn lemma_decimal_round_trip(n: nat)
    ensures
        is_decimal(decimal_digits(n)),
        decimal_value(decimal_digits(n)) == n,
    decreases n,
{
    if n >= 10 {
        lemma_decimal_round_trip(n / 10);
        let longer = decimal_digits(n);
        assert(longer.drop_last() =~= decimal_digits(n / 10));
    } else {
        let single = decimal_digits(n);
        assert(single.drop_last() =~= Seq::<u8>::empty());
        assert(decimal_value(single.drop_last()) == 0);
    }
}

/// An octal numeral is an octal text and denotes the number it was written
/// for.
pub proof fn lemma_octal_round_trip(n: nat)
    ensures
        is_octal(octal_digits(n)),
        octal_value(octal_digits(n)) == n,
    decreases n,
{
    if n >= 8 {
        lemma_octal_round_trip(n / 8);
        let longer = octal_digits(n);
        assert(longer.drop_last() =~= octal_digits(n / 8));
    } else {
        let single = octal_digits(n);
        assert(single.drop_last() =~= Seq::<u8>::empty());
        assert(octal_value(single.drop_last()) == 0);
    }
}

/// A longer prefix of octal digits denotes no smaller a number.
proof fn lemma_octal_value_grows(text: Seq<u8>, k: int)
    requires
        0 <= k <= text.len(),
        forall|i: int| 0 <= i < text.len() ==> 48 <= #[trigger] text[i] <= 55,
    ensures
        octal_value(text.take(k)) <= octal_value(text),
    decreases text.len() - k,
{
    if k < text.len() {
        lemma_octal_value_grows(text.drop_last(), k);
        assert(text.drop_last().take(k) =~= text.take(k));
    } else {
        assert(text.take(k) =~= text);
    }
}

/// Writes `n` in decimal.
pub fn format_decimal(n: usize) -> (text: Vec<u8>)
    ensures
        text@ == decimal_digits(n as nat),
{
    let mut text: Vec<u8> = Vec::new();
    text.push(48u8 + (n % 10) as u8);
    let mut rest: usize = n / 10;
    assert(text@ =~= seq![(48 + n % 10) as u8]);
    while rest > 0
        invariant
            decimal_digits(n as nat) == if rest == 0 {
                text@
            } else {
                decimal_digits(rest as nat) + text@
            },
        decreases rest,
    {
        let digit: u8 = 48u8 + (rest % 10) as u8;
        let ghost before = text@;
        text.insert(0, digit);
        assert(text@ =~= seq![digit] + before);
        proof {
            if rest >= 10 {
                assert(decimal_digits(rest as nat) + before =~= decimal_digits((rest / 10) as nat)
                    + text@);
            } else {
                assert(decimal_digits(rest as nat) + before =~= text@);
            }
        }
        rest = rest / 10;
    }
    text
}

/// Reads a decimal number. `None` for text that is not made of decimal
/// digits; a number too large for `usize` is given as `usize::MAX`.
pub fn parse_decimal(text: &[u8]) -> (res: Option<usize>)
    ensures
        res is Some <==> is_decimal(text@),
        res matches Some(n) ==> n == if decimal_value(text@) <= usize::MAX {
            decimal_value(text@)
        } else {
            usize::MAX as nat
        },
{
    if text.len() == 0 {
        return None;
    }
    let mut value: usize = 0;
    let mut saturated: bool = false;
    let mut i: usize = 0;
    while i < text.len()
        invariant
            i <= text.len(),
            forall|j: int| 0 <= j < i ==> 48 <= #[trigger] text@[j] <= 57,
            saturated ==> decimal_value(text@.take(i as int)) > usize::MAX,
            !saturated ==> value == decimal_value(text@.take(i as int)),
        decreases text.len() - i,
    {
        let c: u8 = text[i];
        if c < 48 || c > 57 {
            return None;
        }
        let digit: usize = (c - 48) as usize;
        assert(text@.take(i + 1).drop_last() =~= text@.take(i as int));
        if !saturated {
            match value.checked_mul(10) {
                Some(scaled) => match scaled.checked_add(digit) {
                    Some(next) => {
                        value = next;
                    },
                    None => {
                        saturated = true;
                    },
                },
                None => {
                    saturated = true;
                },
            }
        }
        i += 1;
    }
    assert(text@.take(i as int) =~= text@);
    if saturated {
        Some(usize::MAX)
    } else {
        Some(value)
    }
}

/// Writes `n` in octal.
pub fn format_octal(n: u32) -> (text: Vec<u8>)
    ensures
        text@ == octal_digits(n as nat),
{
    let mut text: Vec<u8> = Vec::new();
    text.push(48u8 + (n % 8) as u8);
    let mut rest: u32 = n / 8;
    assert(text@ =~= seq![(48 + n % 8) as u8]);
    while rest > 0
        invariant
            octal_digits(n as nat) == if rest == 0 {
                text@
            } else {
                octal_digits(rest as nat) + text@
            },
        decreases rest,
    {
        let digit: u8 = 48u8 + (rest % 8) as u8;
        let ghost before = text@;
        text.insert(0, digit);
        assert(text@ =~= seq![digit] + before);
        proof {
            if rest >= 8 {
                assert(octal_digits(rest as nat) + before =~= octal_digits((rest / 8) as nat)
                    + text@);
            } else {
                assert(octal_digits(rest as nat) + before =~= text@);
            }
        }
        rest = rest / 8;
    }
    text
}

/// Writes `n` in octal, filled with zeros on the left to six digits.
pub fn format_octal_padded(n: u32) -> (text: Vec<u8>)
    ensures
        text@ == octal_digits_padded(n as nat),
{
    let digits = format_octal(n);
    let mut text: Vec<u8> = Vec::new();
    let fill: usize = if digits.len() < 6 {
        6 - digits.len()
    } else {
        0
    };
    while text.len() < fill
        invariant
            text@.len() <= fill,
            forall|j: int| 0 <= j < text@.len() ==> text@[j] == 48u8,
        decreases fill - text.len(),
    {
        text.push(48u8);
    }
    let mut i: usize = 0;
    let ghost zeros = text@;
    while i < digits.len()
        invariant
            i <= digits@.len(),
            text@ == zeros + digits@.take(i as int),
        decreases digits.len() - i,
    {
        text.push(digits[i]);
        assert(digits@.take(i + 1) =~= digits@.take(i as int).push(digits@[i as int]));
        assert(text@ =~= zeros + digits@.take(i + 1));
        i += 1;
    }
    assert(digits@.take(i as int) =~= digits@);
    proof {
        if digits@.len() < 6 {
            assert(zeros =~= Seq::new((6 - digits@.len()) as nat, |i: int| 48u8));
        } else {
            assert(zeros + digits@ =~= digits@);
        }
    }
    text
}

/// Reads an octal number. `None` for text that is not made of octal digits
/// or that denotes more than a `u32` holds.
pub fn parse_octal(text: &[u8]) -> (res: Option<u32>)
    ensures
        res is Some <==> is_octal(text@) && octal_value(text@) <= u32::MAX,
        res matches Some(n) ==> n == octal_value(text@),
{
    if text.len() == 0 {
        return None;
    }
    let mut value: u32 = 0;
    let mut i: usize = 0;
    while i < text.len()
        invariant
            i <= text.len(),
            forall|j: int| 0 <= j < i ==> 48 <= #[trigger] text@[j] <= 55,
            value == octal_value(text@.take(i as int)),
        decreases text.len() - i,
    {
        let c: u8 = text[i];
        if c < 48 || c > 55 {
            return None;
        }
        let digit: u32 = (c - 48) as u32;
        assert(text@.take(i + 1).drop_last() =~= text@.take(i as int));
        let next: Option<u32> = match value.checked_mul(8) {
            Some(scaled) => scaled.checked_add(digit),
            None => None,
        };
        match next {
            Some(v) => {
                value = v;
            },
            None => {
                proof {
                    assert(octal_value(text@.take(i + 1)) > u32::MAX);
                    if is_octal(text@) {
                        lemma_octal_value_grows(text@, i + 1);
                    }
                }
                return None;
            },
        }
        i += 1;
    }
    assert(text@.take(i as int) =~= text@);
    Some(value)
}

} // verus!
