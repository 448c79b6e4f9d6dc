//! A rank as it stands in a stored entry: the eight bytes of an IEEE 754
//! double that counts visits. A double is a sign, an exponent of eleven bits
//! and a fraction of fifty-two; with a hidden leading one before the fraction
//! it holds fifty-three binary digits. A rank counts units of which
//! `RANK_ONE` are a visit, so the double of a rank has the leading digits of
//! the rank as its digits, and an exponent that places them.

use crate::dir::Rank;
use vstd::arithmetic::div_mod::*;
use vstd::arithmetic::mul::*;
use vstd::arithmetic::power2::*;
use vstd::bits::*;
use vstd::prelude::*;

verus! {

/// Two to the power of fifty-two: the hidden leading one of a double, and
/// the number of fractions that one exponent has.
pub const FRACTION_SPAN: u64 = 0x10_0000_0000_0000;

/// The exponent field of the doubles whose fifty-three digits, read as a
/// whole number, are a rank: the bias of 1023, fifty-two for the fraction,
/// less twenty for the units of a visit.
pub const UNIT_EXPONENT: u64 = 1_055;

/// The exponent field of the doubles that are no finite number.
pub const TOP_EXPONENT: u64 = 2_047;

/// The ranks from here on have more digits than a double holds.
pub const EXACT_RANKS: u64 = 0x20_0000_0000_0000;

/// The place of the highest binary digit of a number, counted from zero.
pub open spec fn top_bit(value: nat) -> nat
    decreases value,
{
    if value <= 1 {
        0
    } else {
        1 + top_bit(value / 2)
    }
}

/// The fifty-three leading binary digits of a number that is not zero, read
/// as a whole number: a shorter number is filled up with zeros, of a longer
/// one the digits behind them are left out.
pub open spec fn leading_digits(value: nat) -> nat {
    let top = top_bit(value);
    if top <= 52 {
        value * pow2((52 - top) as nat)
    } else {
        value / pow2((top - 52) as nat)
    }
}

/// The double of a rank, as its sixty-four bits: the rank in visits, rounded
/// towards zero where it has more digits than a double holds.
pub open spec fn bits_of_rank(rank: Rank) -> u64 {
    if rank == 0 {
        0
    } else {
        ((UNIT_EXPONENT - 52 + top_bit(rank as nat)) * FRACTION_SPAN + (leading_digits(
            rank as nat,
        ) - FRACTION_SPAN)) as u64
    }
}

/// The rank of a double, given as its sixty-four bits: the visits that the
/// double counts, in units, rounded down to a whole unit. What is below zero
/// or no number is no visit at all, and what is more than a rank can be is
/// the highest rank.
pub open spec fn rank_of_bits(bits: u64) -> Rank {
    let exponent = bits / FRACTION_SPAN;
    let fraction = bits % FRACTION_SPAN;
    if exponent == 0 || exponent > TOP_EXPONENT {
        0
    } else if exponent == TOP_EXPONENT {
        if fraction == 0 {
            u64::MAX
        } else {
            0
        }
    } else {
        let digits = FRACTION_SPAN + fraction;
        let units = if exponent >= UNIT_EXPONENT {
            digits * pow2((exponent - UNIT_EXPONENT) as nat)
        } else {
            digits / pow2((UNIT_EXPONENT - exponent) as nat) as int
        };
        if units > u64::MAX {
            u64::MAX
        } else {
            units as u64
        }
    }
}

/// A rank as its double holds it: what is read back of a rank that was
/// written.
pub open spec fn stored(rank: Rank) -> Rank {
    rank_of_bits(bits_of_rank(rank))
}

/// Whether a rank comes back from its double as it is.
pub open spec fn is_exact(rank: Rank) -> bool {
    stored(rank) == rank
}

/// The highest digit of a number stands at `top_bit`.
pub proof fn lemma_top_bit(value: nat)
    requires
        value > 0,
    ensures
        pow2(top_bit(value)) <= value < pow2(top_bit(value) + 1),
    decreases value,
{
    lemma2_to64();
    if value > 1 {
        lemma_top_bit(value / 2);
        lemma_pow2_unfold(top_bit(value));
        lemma_pow2_unfold(top_bit(value) + 1);
    }
}

/// A number below a power of two has its highest digit below that power.
pub proof fn lemma_top_bit_below(value: nat, power: nat)
    requires
        0 < value < pow2(power),
    ensures
        top_bit(value) < power,
{
    lemma_top_bit(value);
    if top_bit(value) > power {
        lemma_pow2_strictly_increases(power, top_bit(value));
    }
}

/// The leading digits of a number start with a one at the fifty-third place.
pub proof fn lemma_leading_digits(value: nat)
    requires
        value > 0,
    ensures
        FRACTION_SPAN <= leading_digits(value) < 2 * FRACTION_SPAN,
{
    lemma2_to64();
    lemma2_to64_rest();
    lemma_top_bit(value);
    let top = top_bit(value);
    if top <= 52 {
        let fill = pow2((52 - top) as nat);
        lemma_pow2_pos((52 - top) as nat);
        lemma_pow2_adds(top, (52 - top) as nat);
        lemma_pow2_adds(top + 1, (52 - top) as nat);
        assert(pow2(top) * fill <= value * fill < pow2(top + 1) * fill) by (nonlinear_arith)
            requires
                pow2(top) <= value < pow2(top + 1),
                fill > 0,
        ;
    } else {
        let cut = pow2((top - 52) as nat);
        lemma_pow2_pos((top - 52) as nat);
        lemma_pow2_adds(52, (top - 52) as nat);
        lemma_pow2_adds(53, (top - 52) as nat);
        let low = pow2(52) as int;
        let high = pow2(53) as int;
        let quotient = value as int / cut as int;
        assert(low <= quotient < high) by (nonlinear_arith)
            requires
                low * cut <= value < high * cut,
                cut > 0,
                quotient == value as int / cut as int,
        ;
    }
}

/// A number between a power of two and the next has its highest digit at
/// the place of that power.
pub proof fn lemma_top_bit_is(value: nat, place: nat)
    requires
        pow2(place) <= value < pow2(place + 1),
    ensures
        top_bit(value) == place,
{
    lemma_pow2_pos(place);
    lemma_top_bit(value);
    let top = top_bit(value);
    if top < place {
        if top + 1 < place {
            lemma_pow2_strictly_increases(top + 1, place);
        }
    } else if top > place {
        if top > place + 1 {
            lemma_pow2_strictly_increases(place + 1, top);
        }
    }
}

/// What a double holds of a rank: all of it where it has no more digits than
/// the double, else its leading digits with zeros behind them. It is never
/// more than the rank.
pub proof fn lemma_stored(rank: Rank)
    requires
        rank > 0,
    ensures
        top_bit(rank as nat) <= 63,
        top_bit(rank as nat) <= 52 ==> stored(rank) == rank,
        top_bit(rank as nat) > 52 ==> stored(rank) == leading_digits(rank as nat) * pow2(
            (top_bit(rank as nat) - 52) as nat,
        ),
        stored(rank) <= rank,
{
    lemma2_to64();
    lemma2_to64_rest();
    let value = rank as nat;
    lemma_top_bit(value);
    if top_bit(value) > 63 {
        lemma_pow2_strictly_increases(64, top_bit(value));
    }
    lemma_leading_digits(value);
    let top = top_bit(value);
    let digits = leading_digits(value);
    let bits = bits_of_rank(rank);
    let exponent = (UNIT_EXPONENT - 52 + top) as int;
    assert(bits == exponent * FRACTION_SPAN + (digits - FRACTION_SPAN));
    lemma_fundamental_div_mod_converse(
        bits as int,
        FRACTION_SPAN as int,
        exponent,
        digits - FRACTION_SPAN,
    );
    assert(bits / FRACTION_SPAN == exponent);
    assert(bits % FRACTION_SPAN == digits - FRACTION_SPAN);
    if top <= 52 {
        let fill = pow2((52 - top) as nat);
        assert(digits == value * fill);
        lemma_pow2_pos((52 - top) as nat);
        lemma_div_by_multiple(value as int, fill as int);
        if top == 52 {
            assert(digits * pow2(0) == value) by (nonlinear_arith)
                requires
                    digits == value * fill,
                    fill == 1,
                    pow2(0) == 1,
            ;
        } else {
            assert((UNIT_EXPONENT - exponent) as nat == (52 - top) as nat);
            assert(digits as int / fill as int == value);
        }
    } else {
        let cut = pow2((top - 52) as nat);
        lemma_pow2_pos((top - 52) as nat);
        assert((exponent - UNIT_EXPONENT) as nat == (top - 52) as nat);
        assert(digits == value / cut);
        lemma_fundamental_div_mod(value as int, cut as int);
        lemma_mod_bound(value as int, cut as int);
        assert(digits * cut <= value) by (nonlinear_arith)
            requires
                value == cut * digits + (value as int % cut as int),
                0 <= value as int % cut as int,
        ;
    }
}

/// A rank with no more digits than a double holds comes back from its
/// double as it is.
pub proof fn law_small_rank_is_exact(rank: Rank)
    requires
        rank < EXACT_RANKS,
    ensures
        is_exact(rank),
{
    lemma2_to64();
    lemma2_to64_rest();
    if rank > 0 {
        lemma_top_bit_below(rank as nat, 53);
        lemma_stored(rank);
    }
}

/// Fifty-three digits with zeros behind them are a rank that comes back
/// from its double as it is.
pub proof fn lemma_digits_with_zeros(digits: nat, zeros: nat)
    requires
        FRACTION_SPAN <= digits < 2 * FRACTION_SPAN,
        digits * pow2(zeros) <= u64::MAX,
    ensures
        is_exact((digits * pow2(zeros)) as u64),
{
    lemma2_to64();
    lemma2_to64_rest();
    let power = pow2(zeros);
    lemma_pow2_pos(zeros);
    let value = digits * power;
    lemma_pow2_adds(52, zeros);
    lemma_pow2_adds(53, zeros);
    assert(pow2(52) * power <= value < pow2(53) * power) by (nonlinear_arith)
        requires
            pow2(52) <= digits < pow2(53),
            power > 0,
            value == digits * power,
    ;
    lemma_top_bit_is(value, 52 + zeros);
    lemma_stored(value as u64);
    if zeros > 0 {
        assert((52 + zeros - 52) as nat == zeros);
        lemma_div_by_multiple(digits as int, power as int);
        assert(leading_digits(value) == digits);
    }
}

/// What a double holds of a rank comes back from its double as it is: to
/// write a rank and read it rounds it once and never again.
pub proof fn law_stored_is_exact(rank: Rank)
    ensures
        is_exact(stored(rank)),
{
    lemma2_to64();
    if rank == 0 {
        assert(stored(0) == 0);
    } else {
        lemma_stored(rank);
        if top_bit(rank as nat) > 52 {
            lemma_leading_digits(rank as nat);
            lemma_digits_with_zeros(
                leading_digits(rank as nat),
                (top_bit(rank as nat) - 52) as nat,
            );
        }
    }
}

/// Every rank that is read from a double comes back from its double as it
/// is, but for the highest rank, which stands for every double that is more
/// than a rank can be.
pub proof fn law_read_rank_is_exact(bits: u64)
    requires
        rank_of_bits(bits) != u64::MAX,
    ensures
        is_exact(rank_of_bits(bits)),
{
    lemma2_to64();
    lemma2_to64_rest();
    let exponent = bits / FRACTION_SPAN;
    let fraction = bits % FRACTION_SPAN;
    let rank = rank_of_bits(bits);
    if rank == 0 {
        assert(stored(0) == 0);
    } else {
        let digits = (FRACTION_SPAN + fraction) as nat;
        if exponent >= UNIT_EXPONENT {
            lemma_digits_with_zeros(digits, (exponent - UNIT_EXPONENT) as nat);
        } else {
            let cut = pow2((UNIT_EXPONENT - exponent) as nat);
            lemma_pow2_pos((UNIT_EXPONENT - exponent) as nat);
            lemma_div_nonincreasing(digits as int, cut as int);
            law_small_rank_is_exact(rank);
        }
    }
}

/// A rank that is a power of two has a double with an empty fraction.
pub proof fn law_power_of_two_is_exact(place: nat)
    requires
        place <= 63,
    ensures
        bits_of_rank(pow2(place) as u64) == (UNIT_EXPONENT - 52 + place) * FRACTION_SPAN,
{
    lemma2_to64();
    lemma2_to64_rest();
    lemma_pow2_pos(place);
    if place < 63 {
        lemma_pow2_strictly_increases(place, 63);
    }
    let value = pow2(place);
    lemma_top_bit(value);
    let top = top_bit(value);
    if top < place {
        lemma_pow2_strictly_increases(top, place);
        if top + 1 < place {
            lemma_pow2_strictly_increases(top + 1, place);
        }
    } else if top > place {
        lemma_pow2_strictly_increases(place, top);
    }
    assert(top == place);
    if place <= 52 {
        lemma_pow2_adds(place, (52 - place) as nat);
    } else {
        lemma_pow2_adds(52, (place - 52) as nat);
        lemma_pow2_pos((place - 52) as nat);
        lemma_div_by_multiple(pow2(52) as int, pow2((place - 52) as nat) as int);
    }
}

/// The double of a rank, as its sixty-four bits.
pub fn rank_to_bits(rank: Rank) -> (bits: u64)
    ensures
        bits == bits_of_rank(rank),
{
    if rank == 0 {
        return 0;
    }
    proof {
        lemma2_to64();
        lemma2_to64_rest();
        lemma_top_bit(rank as nat);
        lemma_leading_digits(rank as nat);
        if top_bit(rank as nat) > 63 {
            lemma_pow2_strictly_increases(64, top_bit(rank as nat));
        }
    }
    let mut top: u64 = 0;
    let mut rest: u64 = rank;
    while rest > 1
        invariant
            rest >= 1,
            top + top_bit(rest as nat) == top_bit(rank as nat),
            top_bit(rank as nat) <= 63,
        decreases rest,
    {
        rest = rest / 2;
        top = top + 1;
    }
    let digits: u64 = if top <= 52 {
        proof {
            lemma_u64_shl_is_mul(rank, (52 - top) as u64);
        }
        rank << (52 - top)
    } else {
        proof {
            lemma_u64_shr_is_div(rank, (top - 52) as u64);
        }
        rank >> (top - 52)
    };
    (UNIT_EXPONENT - 52 + top) * FRACTION_SPAN + (digits - FRACTION_SPAN)
}

/// The rank of a double, given as its sixty-four bits.
pub fn rank_from_bits(bits: u64) -> (rank: Rank)
    ensures
        rank == rank_of_bits(bits),
{
    let exponent: u64 = bits / FRACTION_SPAN;
    let fraction: u64 = bits % FRACTION_SPAN;
    if exponent == 0 || exponent > TOP_EXPONENT {
        return 0;
    }
    if exponent == TOP_EXPONENT {
        return if fraction == 0 {
            u64::MAX
        } else {
            0
        };
    }
    proof {
        lemma2_to64();
        lemma2_to64_rest();
    }
    let digits: u64 = FRACTION_SPAN + fraction;
    if exponent >= UNIT_EXPONENT {
        let shift: u64 = exponent - UNIT_EXPONENT;
        if shift >= 12 {
            proof {
                if shift > 12 {
                    lemma_pow2_strictly_increases(12, shift as nat);
                }
                let power = pow2(shift as nat) as int;
                assert(digits * power > u64::MAX) by (nonlinear_arith)
                    requires
                        digits >= 0x10_0000_0000_0000,
                        power >= 0x1000,
                ;
            }
            u64::MAX
        } else {
            proof {
                let power = pow2(shift as nat) as int;
                if shift < 11 {
                    lemma_pow2_strictly_increases(shift as nat, 11);
                }
                assert(0 <= digits * power <= u64::MAX) by (nonlinear_arith)
                    requires
                        0 <= digits < 0x20_0000_0000_0000,
                        0 <= power <= 0x800,
                ;
                lemma_u64_shl_is_mul(digits, shift);
            }
            digits << shift
        }
    } else {
        let shift: u64 = UNIT_EXPONENT - exponent;
        if shift >= 53 {
            proof {
                if shift > 53 {
                    lemma_pow2_strictly_increases(53, shift as nat);
                }
                lemma_basic_div(digits as int, pow2(shift as nat) as int);
            }
            0
        } else {
            proof {
                lemma_u64_shr_is_div(digits, shift);
            }
            digits >> shift
        }
    }
}

} // verus!
