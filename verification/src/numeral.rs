//! What the numerals in literals denote.

use vstd::arithmetic::power::pow;
use vstd::arithmetic::power2::{lemma_pow2_pos, lemma_pow2_unfold, pow2};
use vstd::prelude::*;

use crate::literal::{
    digit_value, digits_value, is_white_space, literal_value, numeral_value, radix_digit,
    width_value,
};

verus! {

/// Law: white space is what Unicode calls so: tab to carriage return, the space, next line, the
/// no-break space, the Ogham space mark, the spaces from en quad to hair space, the line and
/// paragraph separators, the narrow no-break space, the medium mathematical space and the
/// ideographic space.
pub proof fn law_white_space(c: char)
    ensures
        is_white_space(c) <==> {
            let code = c as int;
            9 <= code <= 13 || 8192 <= code <= 8202 || set![
                32int,
                133,
                160,
                5760,
                8232,
                8233,
                8239,
                8287,
                12288,
            ].contains(code)
        },
{
}

/// Law: a character is a digit of a base if and only if it is the digit of a number below the base:
/// a decimal digit, or one of the letters from `a` on for ten and more.
pub proof fn law_digit(c: char, radix: nat, d: nat)
    requires
        d < 36,
    ensures
        digit_value(c, radix) == Some(d) <==> d < radix && c == radix_digit(d),
{
    if d < radix && c == radix_digit(d) {
        if d < 10 {
            assert(c as int == '0' as int + d);
        } else {
            assert(c as int == 'a' as int + d - 10);
        }
    }
    if digit_value(c, radix) == Some(d) {
        if d < 10 {
            assert(c as int == '0' as int + d);
        } else {
            assert(c as int == 'a' as int + d - 10);
        }
    }
}

/// Whether all characters are digits of a base.
pub open spec fn all_digits(s: Seq<char>, radix: nat) -> bool {
    forall|i: int| 0 <= i < s.len() ==> digit_value(#[trigger] s[i], radix) is Some
}

/// The number that digits denote: each counts by the power of the base that its place stands for.
pub open spec fn positional(s: Seq<char>, radix: nat) -> int
    decreases s.len(),
{
    if s.len() == 0 {
        0
    } else {
        digit_value(s.first(), radix)->0 * pow(radix as int, (s.len() - 1) as nat) + positional(
            s.drop_first(),
            radix,
        )
    }
}

proof fn lemma_positional_last(s: Seq<char>, radix: nat)
    requires
        s.len() > 0,
    ensures
        positional(s, radix) == positional(s.drop_last(), radix) * radix + digit_value(
            s.last(),
            radix,
        )->0,
    decreases s.len(),
{
    let r = radix as int;
    if s.len() == 1 {
        assert(s.drop_first() == Seq::<char>::empty());
        assert(s.drop_last() == Seq::<char>::empty());
        vstd::arithmetic::power::lemma_pow0(r);
        assert(positional(s.drop_first(), radix) == 0);
        assert(positional(s.drop_last(), radix) == 0);
        assert(s.first() == s.last());
    } else {
        let t = s.drop_first();
        lemma_positional_last(t, radix);
        assert(t.last() == s.last());
        assert(s.drop_last().drop_first() == t.drop_last());
        assert(s.drop_last().first() == s.first());
        let d = digit_value(s.first(), radix)->0 as int;
        let p = pow(r, (s.len() - 2) as nat);
        vstd::arithmetic::power::lemma_pow_adds(r, (s.len() - 2) as nat, 1);
        vstd::arithmetic::power::lemma_pow1(r);
        let x = positional(t.drop_last(), radix);
        assert(d * (p * r) + x * r == (d * p + x) * r) by (nonlinear_arith);
    }
}

proof fn lemma_positional_nonnegative(s: Seq<char>, radix: nat)
    requires
        all_digits(s, radix),
    ensures
        positional(s, radix) >= 0,
    decreases s.len(),
{
    if s.len() > 0 {
        let t = s.drop_last();
        assert forall|i: int| 0 <= i < t.len() implies digit_value(
            #[trigger] t[i],
            radix,
        ) is Some by {
            assert(digit_value(s[i], radix) is Some);
        }
        lemma_positional_nonnegative(t, radix);
        lemma_positional_last(s, radix);
        let x = positional(t, radix);
        assert(x * radix >= 0) by (nonlinear_arith)
            requires
                x >= 0,
                radix >= 0,
        ;
    }
}

/// Law: digits are read if and only if all of them are digits of the base and the number that they
/// denote is in range; it is then what is read.
pub proof fn law_digits_value(s: Seq<char>, radix: nat, max: nat)
    requires
        radix > 0,
    ensures
        digits_value(s, radix, max) is Ok <==> all_digits(s, radix) && positional(s, radix) <= max,
        digits_value(s, radix, max) matches Ok(n) ==> n == positional(s, radix),
    decreases s.len(),
{
    if s.len() > 0 {
        let t = s.drop_last();
        law_digits_value(t, radix, max);
        lemma_positional_last(s, radix);
        let last = s.len() - 1;
        assert(s[last] == s.last());
        assert(all_digits(s, radix) <==> all_digits(t, radix) && digit_value(
            s.last(),
            radix,
        ) is Some) by {
            if all_digits(s, radix) {
                assert forall|i: int| 0 <= i < t.len() implies digit_value(
                    #[trigger] t[i],
                    radix,
                ) is Some by {
                    assert(digit_value(s[i], radix) is Some);
                }
                assert(digit_value(s[last], radix) is Some);
            }
            if all_digits(t, radix) && digit_value(s.last(), radix) is Some {
                assert forall|i: int| 0 <= i < s.len() implies digit_value(
                    #[trigger] s[i],
                    radix,
                ) is Some by {
                    if i < last {
                        assert(digit_value(t[i], radix) is Some);
                    }
                }
            }
        }
        if all_digits(s, radix) {
            lemma_positional_nonnegative(t, radix);
            let x = positional(t, radix);
            assert(x * radix >= x) by (nonlinear_arith)
                requires
                    x >= 0,
                    radix > 0,
            ;
        }
    }
}

/// Law: digits of which some first ones are refused are refused for the same reason.
pub proof fn law_first_digit_refused(a: Seq<char>, b: Seq<char>, radix: nat, max: nat)
    requires
        digits_value(a, radix, max) is Err,
    ensures
        digits_value(a + b, radix, max) == digits_value(a, radix, max),
    decreases b.len(),
{
    if b.len() == 0 {
        assert(a + b == a);
    } else {
        law_first_digit_refused(a, b.drop_last(), radix, max);
        assert((a + b).drop_last() == a + b.drop_last());
    }
}

/// Law: a numeral may start with one plus sign, which changes nothing. Neither no character at all
/// nor a sign alone is a numeral.
pub proof fn law_numeral(s: Seq<char>, radix: nat, max: nat)
    requires
        0 < radix <= 36,
        s.len() == 0 || s.first() != '+',
    ensures
        numeral_value(Seq::empty(), radix, max) is Err,
        numeral_value(seq!['+'], radix, max) is Err,
        s.len() > 0 ==> {
            &&& numeral_value(s, radix, max) is Ok <==> all_digits(s, radix) && positional(s, radix)
                <= max
            &&& numeral_value(s, radix, max) matches Ok(n) ==> n == positional(s, radix)
            &&& numeral_value(seq!['+'] + s, radix, max) == numeral_value(s, radix, max)
        },
        numeral_value(seq!['+', '+'] + s, radix, max) is Err,
{
    law_digits_value(s, radix, max);
    if s.len() > 0 {
        let t = seq!['+'] + s;
        assert(t.drop_first() == s);
        assert(t.len() != seq!['+'].len());
        assert(s != seq!['+']) by {
            if s == seq!['+'] {
                assert(s.first() == '+');
            }
        }
    }
    let u = seq!['+', '+'] + s;
    let v = u.drop_first();
    assert(u.len() != seq!['+'].len());
    assert(v[0] == '+');
    assert(digit_value(v[0], radix) is None);
    law_digits_value(v, radix, max);
}

/// Law: a literal has a width if and only if what stands in front of the quote is a decimal numeral
/// in the range of widths.
pub proof fn law_width(width: Seq<char>, w: nat)
    ensures
        width_value(width) == Some(w) <==> numeral_value(width, 10, u32::MAX as nat) == Ok::<
            nat,
            Seq<char>,
        >(w),
{
}

/// Law: the bits of a signed literal of 1 to 128 bits with its sign bit set stand for the negative
/// number of that width that they are up to a multiple of its range, whatever bits lie beyond the
/// width.
pub proof fn law_negative_literal(bits: nat, w: nat)
    requires
        1 <= w <= 128,
        (bits / pow2((w - 1) as nat)) % 2 == 1,
    ensures
        -pow2((w - 1) as nat) <= literal_value(bits, true, Some(w)) < 0,
        (bits - literal_value(bits, true, Some(w))) % (pow2(w) as int) == 0,
{
    let half = pow2((w - 1) as nat) as int;
    let full = pow2(w) as int;
    let b = bits as int;
    lemma_pow2_unfold(w);
    lemma_pow2_pos((w - 1) as nat);
    let r = b % full;
    let k = b / full;
    assert(full == 2 * half);
    vstd::arithmetic::div_mod::lemma_fundamental_div_mod(b, full);
    vstd::arithmetic::div_mod::lemma_mod_bound(b, full);
    let q = b / half;
    let m = b % half;
    vstd::arithmetic::div_mod::lemma_fundamental_div_mod(b, half);
    vstd::arithmetic::div_mod::lemma_mod_bound(b, half);
    let j = q / 2;
    assert(q == 2 * j + 1);
    assert(b == full * j + (half + m)) by (nonlinear_arith)
        requires
            b == half * q + m,
            q == 2 * j + 1,
            full == 2 * half,
    ;
    vstd::arithmetic::div_mod::lemma_fundamental_div_mod_converse(b, full, j, half + m);
    assert(r == half + m);
    let n = literal_value(bits, true, Some(w));
    assert(n == r - full);
    assert(b - n == full * (k + 1)) by (nonlinear_arith)
        requires
            b == full * k + r,
            n == r - full,
    ;
    vstd::arithmetic::div_mod::lemma_mod_multiples_basic(k + 1, full);
    assert(full * (k + 1) == (k + 1) * full) by (nonlinear_arith);
}

/// Law: the bits of any other literal stand for a number of 128 bits in two's complement: those of
/// an unsigned one, of one without a width or with a greater one, and of one whose sign bit is
/// clear.
pub proof fn law_other_literal(bits: nat, signed: bool, width: Option<nat>)
    requires
        bits < pow2(128),
        width matches Some(w) ==> !signed || w == 0 || w > 128 || (bits / pow2((w - 1) as nat)) % 2
            == 0,
    ensures
        -pow2(127) <= literal_value(bits, signed, width) < pow2(127),
        literal_value(bits, signed, width) == bits || literal_value(bits, signed, width) == bits
            - pow2(128),
{
    lemma_pow2_unfold(128);
}

} // verus!
