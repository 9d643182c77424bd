//! What the numbers and the units promise.

use crate::double::{Double, INFINITY, SIGN, ZERO_BITS};
use crate::text::{has_suffix, trimmed};
use crate::units::{default_timescale, timescale_of, unit_split, TimeUnit, TimescaleView};
use vstd::arithmetic::power2::pow2;
use vstd::prelude::*;

verus! {

// ---- comparisons ---------------------------------------------------------------

/// Numbers of one sign are ordered by their patterns: the positive ones upwards, the
/// negative ones downwards.
pub proof fn patterns_order_the_numbers(a: Double, b: Double)
    requires
        !a.nan(),
        !b.nan(),
    ensures
        a.bits < SIGN && b.bits < SIGN ==> (a.below(b) <==> a.bits < b.bits),
        a.bits >= SIGN && b.bits >= SIGN ==> (a.below(b) <==> b.bits < a.bits),
        a.bits >= SIGN && b.bits < SIGN ==> (a.below(b) <==> !(a.bits == SIGN && b.bits == 0)),
        a.bits < SIGN && b.bits >= SIGN ==> !a.below(b),
        a.at_most(b) <==> !b.below(a),
{
}

/// What is above the pattern of an infinity, on either side, is not a number.
pub proof fn what_is_not_a_number(a: Double)
    ensures
        a.nan() <==> (INFINITY < a.bits < SIGN || a.bits > SIGN + INFINITY),
        INFINITY == 0x7ff0_0000_0000_0000,
        SIGN == 0x8000_0000_0000_0000,
{
}

/// A number is positive when zero is below it.
pub proof fn positive_is_above_zero(a: Double)
    ensures
        a.positive() <==> (Double { bits: ZERO_BITS }).below(a),
        a.positive() <==> 0 < a.bits <= INFINITY,
{
}

/// Without its sign a number is as far from zero, and not below it.
pub proof fn the_absolute_drops_the_sign(a: Double)
    ensures
        a.bits < SIGN ==> a.absolute() == a,
        a.bits >= SIGN ==> a.absolute().bits == a.bits - SIGN,
        !a.nan() ==> (Double { bits: ZERO_BITS }).at_most(a.absolute()),
{
}

// ---- whole numbers -------------------------------------------------------------

/// The value of a positive number with exponent field `e` is its significand times two
/// to the power of `e - 1075`. Truncated it is the greatest whole number that is not
/// above that value, as far as a `u64` goes.
pub proof fn truncation_rounds_down(a: Double)
    requires
        a.bits <= INFINITY,
    ensures
        ({
            let e = a.bits as int / 0x10_0000_0000_0000;
            let m = 0x10_0000_0000_0000 + a.bits as int % 0x10_0000_0000_0000;
            &&& e < 1023 ==> a.truncated() == 0
            &&& 1023 <= e < 1075 ==> a.truncated() * pow2((1075 - e) as nat) <= m < (a.truncated() + 1)
                * pow2((1075 - e) as nat)
            &&& 1075 <= e < 1087 ==> a.truncated() == m * pow2((e - 1075) as nat)
            &&& e >= 1087 ==> a.truncated() == u64::MAX
        }),
{
    let e = a.bits as int / 0x10_0000_0000_0000;
    let m = 0x10_0000_0000_0000 + a.bits as int % 0x10_0000_0000_0000;
    if 1023 <= e < 1075 {
        let k = (1075 - e) as nat;
        vstd::arithmetic::power2::lemma_pow2_pos(k);
        let p = pow2(k) as int;
        vstd::arithmetic::div_mod::lemma_fundamental_div_mod(m, p);
        vstd::arithmetic::div_mod::lemma_mod_bound(m, p);
        vstd::arithmetic::div_mod::lemma_div_is_ordered_by_denominator(m, 1, p);
        vstd::arithmetic::div_mod::lemma_div_pos_is_pos(m, p);
        assert(0 <= m / p <= m);
        assert(a.truncated() == m / p);
        assert((m / p) * p <= m < (m / p + 1) * p) by (nonlinear_arith)
            requires
                m == p * (m / p) + m % p,
                0 <= m % p < p,
        ;
    } else if 1075 <= e < 1087 {
        let k = (e - 1075) as nat;
        if k < 11 {
            vstd::arithmetic::power2::lemma_pow2_strictly_increases(k, 11);
        }
        vstd::arithmetic::power2::lemma2_to64();
        assert(0 <= m * pow2(k) <= u64::MAX) by (nonlinear_arith)
            requires
                0 <= m < 0x20_0000_0000_0000,
                0 <= pow2(k) <= 2048,
        ;
    }
}

/// What is negative or not a number counts nothing.
pub proof fn negative_numbers_truncate_to_zero(a: Double)
    requires
        a.bits > INFINITY,
    ensures
        a.truncated() == 0,
{
}

// ---- units ---------------------------------------------------------------------

proof fn lemma_ends_in(num: Seq<char>, unit: Seq<char>)
    ensures
        has_suffix(num + unit, unit),
        (num + unit).take((num + unit).len() - unit.len()) == num,
{
    let s = num + unit;
    assert(s.skip(s.len() - unit.len()) =~= unit);
    assert(s.take(s.len() - unit.len()) =~= num);
}

proof fn lemma_not_ending(s: Seq<char>, suffix: Seq<char>)
    requires
        suffix.len() == 2,
        s.len() < 2 || s[s.len() - 2] != suffix[0],
    ensures
        !has_suffix(s, suffix),
{
    if has_suffix(s, suffix) {
        assert(s.skip(s.len() - 2)[0] == suffix[0]);
    }
}

proof fn lemma_units()
    ensures
        "fs"@.len() == 2 && "fs"@[0] == 'f' && "fs"@[1] == 's',
        "ps"@.len() == 2 && "ps"@[0] == 'p' && "ps"@[1] == 's',
        "ns"@.len() == 2 && "ns"@[0] == 'n' && "ns"@[1] == 's',
        "us"@.len() == 2 && "us"@[0] == 'u' && "us"@[1] == 's',
        "ms"@.len() == 2 && "ms"@[0] == 'm' && "ms"@[1] == 's',
        "s"@.len() == 1 && "s"@[0] == 's',
{
    reveal_strlit("fs");
    reveal_strlit("ps");
    reveal_strlit("ns");
    reveal_strlit("us");
    reveal_strlit("ms");
    reveal_strlit("s");
}

/// A number and a unit of two letters behind it read as that number in that unit.
pub proof fn a_unit_is_read(num: Seq<char>)
    ensures
        unit_split(num + seq!['f', 's']) == Some((num, TimeUnit::Fs)),
        unit_split(num + seq!['p', 's']) == Some((num, TimeUnit::Ps)),
        unit_split(num + seq!['n', 's']) == Some((num, TimeUnit::Ns)),
        unit_split(num + seq!['u', 's']) == Some((num, TimeUnit::Us)),
        unit_split(num + seq!['m', 's']) == Some((num, TimeUnit::Ms)),
{
    lemma_units();
    assert("fs"@ =~= seq!['f', 's']);
    assert("ps"@ =~= seq!['p', 's']);
    assert("ns"@ =~= seq!['n', 's']);
    assert("us"@ =~= seq!['u', 's']);
    assert("ms"@ =~= seq!['m', 's']);
    lemma_ends_in(num, "fs"@);
    lemma_ends_in(num, "ps"@);
    lemma_ends_in(num, "ns"@);
    lemma_ends_in(num, "us"@);
    lemma_ends_in(num, "ms"@);
    lemma_not_ending(num + "ps"@, "fs"@);
    lemma_not_ending(num + "ns"@, "fs"@);
    lemma_not_ending(num + "ns"@, "ps"@);
    lemma_not_ending(num + "us"@, "fs"@);
    lemma_not_ending(num + "us"@, "ps"@);
    lemma_not_ending(num + "us"@, "ns"@);
    lemma_not_ending(num + "ms"@, "fs"@);
    lemma_not_ending(num + "ms"@, "ps"@);
    lemma_not_ending(num + "ms"@, "ns"@);
    lemma_not_ending(num + "ms"@, "us"@);
}

/// An `s` that ends none of these is a second; a text that does not end in `s` has no
/// unit.
pub proof fn a_second_is_read(num: Seq<char>)
    ensures
        num.len() == 0 || (num.last() != 'f' && num.last() != 'p' && num.last() != 'n' && num.last()
            != 'u' && num.last() != 'm') ==> unit_split(num + seq!['s']) == Some((num, TimeUnit::S)),
        num.len() == 0 || num.last() != 's' ==> unit_split(num) is None,
{
    lemma_units();
    assert("s"@ =~= seq!['s']);
    lemma_ends_in(num, "s"@);
    let s = num + seq!['s'];
    if num.len() == 0 || (num.last() != 'f' && num.last() != 'p' && num.last() != 'n' && num.last()
        != 'u' && num.last() != 'm') {
        assert(num.len() > 0 ==> s[s.len() - 2] == num.last());
        lemma_not_ending(s, "fs"@);
        lemma_not_ending(s, "ps"@);
        lemma_not_ending(s, "ns"@);
        lemma_not_ending(s, "us"@);
        lemma_not_ending(s, "ms"@);
    }
    if num.len() == 0 || num.last() != 's' {
        assert forall|u: Seq<char>| u.len() > 0 && u.last() == 's' implies !#[trigger] has_suffix(
            num,
            u,
        ) by {
            if has_suffix(num, u) {
                assert(num.skip(num.len() - u.len())[u.len() - 1] == u.last());
            }
        }
        assert("fs"@.last() == 's' && "ps"@.last() == 's' && "ns"@.last() == 's' && "us"@.last() == 's'
            && "ms"@.last() == 's' && "s"@.last() == 's');
    }
}

/// A time scale is its number, without white space around it, and its unit; one
/// without a unit is that of a dump that gives none.
pub proof fn a_time_scale_has_a_number_and_a_unit(s: Seq<char>)
    ensures
        unit_split(s) matches Some((num, unit)) ==> timescale_of(s) == (TimescaleView {
            mantissa: trimmed(num),
            unit: Some(unit),
        }),
        unit_split(s) is None ==> timescale_of(s) == default_timescale(),
        default_timescale() == (TimescaleView { mantissa: Seq::empty(), unit: None }),
{
}

} // verus!
