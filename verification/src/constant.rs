//! Constants in CSS.

use vstd::arithmetic::power2::pow2;
use vstd::prelude::*;

use crate::error::{text_outcome, Error};
use crate::literal::{
    based_literal, digit_value, digits_value, has_unknown, is_plain, law_unknown_literal,
    lemma_plain_head_stays, literal_css, literal_to_css_int, literal_value, normalized,
    numeral_value, BasedLiteral,
};
use crate::text::{digit_char, int_text, lemma_nat_text_digits, nat_text};
use crate::value::{format_value, hex_digits, hex_run, literal_head, low_bits, value_text, Value};

verus! {

/// The CSS integer for a constant, or why it has none.
pub open spec fn value_css(value: Value) -> Result<Seq<char>, Seq<char>> {
    literal_css(value_text(value))
}

/// Writes a constant as a CSS integer.
pub fn value_to_css_int(value: &Value) -> (r: Result<String, Error>)
    ensures
        text_outcome(r) == value_css(*value),
{
    let text = format_value(value);
    literal_to_css_int(&text)
}

/// A literal with a sized hexadecimal head is split right after that head's width.
proof fn lemma_headed_literal(text: Seq<char>, width: nat, signed: bool)
    requires
        literal_head(width, signed).is_prefix_of(text),
    ensures
        literal_head(width, signed).is_prefix_of(normalized(text)),
        based_literal(normalized(text)) == Some(
            BasedLiteral {
                width: nat_text(width),
                signed,
                rest: normalized(text).skip(literal_head(width, signed).len() - 1),
            },
        ),
        normalized(text)[literal_head(width, signed).len() - 1] == 'h',
{
    let head = literal_head(width, signed);
    let numeral = nat_text(width);
    let k = numeral.len() as int;
    lemma_nat_text_digits(width);
    assert forall|i: int| 0 <= i < head.len() implies is_plain(#[trigger] head[i]) by {
        if i < k {
            assert(head[i] == numeral[i]);
        }
    }
    lemma_plain_head_stays(text, head);
    let s = normalized(text);
    assert forall|i: int| 0 <= i < head.len() implies s[i] == #[trigger] head[i] by {}
    assert(s[k] == head[k] && head[k] == '\'');
    assert(s[k + 1] == head[k + 1]);
    assert forall|i: int| 0 <= i < k implies #[trigger] s[i] != '\'' by {
        assert(s[i] == head[i]);
        assert(head[i] == numeral[i]);
    }
    s.index_of_first_ensures('\'');
    let quote = s.index_of_first('\'')->0;
    assert(s.contains('\''));
    assert(quote == k) by {
        if quote < k {
            assert(s[quote] != '\'');
        }
    }
    assert(s.take(k) == numeral) by {
        assert forall|i: int| 0 <= i < k implies s[i] == numeral[i] by {
            assert(s[i] == head[i]);
        }
    }
    let after = s.skip(k + 1);
    assert(after.first() == s[k + 1]);
    if signed {
        assert(s[k + 2] == head[k + 2]);
        assert(after.skip(1) == s.skip(head.len() - 1));
    } else {
        assert(after == s.skip(head.len() - 1));
    }
}

/// The integer that a constant stands for: two's complement where it is signed.
pub open spec fn constant_value(value: Value) -> int {
    if value.signed && value.bits() >= pow2((value.width - 1) as nat) {
        value.bits() - pow2(value.width as nat)
    } else {
        value.bits() as int
    }
}

/// The decimal numeral of a number reads back as that number.
pub proof fn lemma_numeral_reads_back(n: nat, max: nat)
    requires
        n <= max,
    ensures
        numeral_value(nat_text(n), 10, max) == Ok::<nat, Seq<char>>(n),
{
    lemma_digits_read_back(n, max);
    lemma_nat_text_digits(n);
    let s = nat_text(n);
    assert('0' <= s[0]);
}

proof fn lemma_digits_read_back(n: nat, max: nat)
    requires
        n <= max,
    ensures
        digits_value(nat_text(n), 10, max) == Ok::<nat, Seq<char>>(n),
    decreases n,
{
    let s = nat_text(n);
    if n < 10 {
        assert(s.drop_last() == Seq::<char>::empty());
        assert(digits_value(s.drop_last(), 10, max) == Ok::<nat, Seq<char>>(0));
        assert(s.last() == digit_char(n));
    } else {
        lemma_digits_read_back(n / 10, max);
        assert(s.drop_last() == nat_text(n / 10));
        assert(s.last() == digit_char(n % 10));
    }
}

/// A run of known hexadecimal digits reads back as the number it was made from.
proof fn lemma_hex_reads_back(bits: nat, len: nat, top: nat, max: nat)
    requires
        bits < pow2(4 * len),
    ensures
        hex_run(bits, 0, len, top).len() == len,
        digits_value(hex_run(bits, 0, len, top), 16, max) == (if bits <= max {
            Ok::<nat, Seq<char>>(bits)
        } else {
            Err("number too large to fit in target type"@)
        }),
        forall|i: int|
            0 <= i < len ==> ('0' <= #[trigger] hex_run(bits, 0, len, top)[i] <= '9' || 'a'
                <= hex_run(bits, 0, len, top)[i] <= 'f'),
    decreases len,
{
    let s = hex_run(bits, 0, len, top);
    if len == 0 {
        vstd::arithmetic::power2::lemma2_to64();
    } else {
        assert(bits / 16 < pow2(4 * (len - 1) as nat)) by {
            vstd::arithmetic::power2::lemma_pow2_adds(4, 4 * (len - 1) as nat);
            vstd::arithmetic::power2::lemma2_to64();
        }
        lemma_hex_reads_back(bits / 16, (len - 1) as nat, top, max);
        let high = hex_run(bits / 16, 0, (len - 1) as nat, top);
        assert(s.drop_last() == high);
        let digit = (bits % 16) as u8;
        assert(0u8 & !digit == 0 && 0u8 & digit == 0) by (bit_vector);
        assert(digit_value(s.last(), 16) == Some(bits % 16));
        assert(bits == (bits / 16) * 16 + bits % 16);
        assert forall|i: int| 0 <= i < len implies ('0' <= #[trigger] s[i] <= '9' || 'a' <= s[i]
            <= 'f') by {
            if i < len - 1 {
                assert(s[i] == high[i]);
            }
        }
    }
}

/// Law: a constant whose bits are all known, none beyond its width, and that fits in 128 bits
/// becomes the numeral of the integer that its bits stand for; one that is larger is refused.
pub proof fn law_known_constant(value: Value)
    requires
        value.width > 0,
        value.fits(),
        value.unknown() == 0,
    ensures
        value_css(value) == (if value.bits() <= u128::MAX {
            Ok::<Seq<char>, Seq<char>>(
                int_text(literal_value(value.bits(), value.signed, Some(value.width as nat))),
            )
        } else {
            Err("number too large to fit in target type"@)
        }),
{
    let text = value_text(value);
    let width = value.width as nat;
    let head = literal_head(width, value.signed);
    let len = (width + 3) / 4;
    let digits = hex_digits(value.bits(), value.unknown(), width);
    assert(value.bits() < pow2(4 * len)) by {
        if width < 4 * len {
            vstd::arithmetic::power2::lemma_pow2_strictly_increases(width, 4 * len);
        }
    }
    let top: nat = if width % 4 == 0 {
        15
    } else if width % 4 == 1 {
        1
    } else if width % 4 == 2 {
        3
    } else {
        7
    };
    lemma_hex_reads_back(value.bits(), len, top, u128::MAX as nat);
    assert(digits == hex_run(value.bits(), 0, len, top));
    assert(text == head + digits);
    lemma_headed_literal(text, width, value.signed);
    lemma_nat_text_digits(width);
    assert forall|i: int| 0 <= i < text.len() implies is_plain(#[trigger] text[i]) && text[i] != 'x'
        && text[i] != 'z' by {
        if i < nat_text(width).len() {
            assert(text[i] == nat_text(width)[i]);
        } else if i >= head.len() {
            assert(text[i] == digits[i - head.len()]);
        }
    }
    assert(text.is_prefix_of(text));
    lemma_plain_head_stays(text, text);
    assert(!has_unknown(text));
    let literal = based_literal(text)->0;
    assert(literal.rest == text.skip(head.len() - 1));
    assert(literal.rest.first() == 'h');
    assert(literal.rest.drop_first() == digits);
    assert(digits.len() > 0);
    assert(digits[0] != '+');
    lemma_numeral_reads_back(width, u32::MAX as nat);
}

proof fn lemma_hex_run_len(bits: nat, unknown: nat, len: nat, top: nat)
    ensures
        hex_run(bits, unknown, len, top).len() == len,
    decreases len,
{
    if len > 0 {
        lemma_hex_run_len(bits / 16, unknown / 16, (len - 1) as nat, top);
    }
}

/// An unknown bit shows in the digits.
proof fn lemma_hex_shows_unknown(bits: nat, unknown: nat, len: nat, top: nat)
    requires
        0 < unknown < pow2(4 * len),
    ensures
        hex_run(bits, unknown, len, top).len() == len,
        exists|i: int|
            0 <= i < len && ({
                let c = #[trigger] hex_run(bits, unknown, len, top)[i];
                c == 'x' || c == 'X' || c == 'z' || c == 'Z'
            }),
    decreases len,
{
    vstd::arithmetic::power2::lemma2_to64();
    lemma_hex_run_len(bits, unknown, len, top);
    let s = hex_run(bits, unknown, len, top);
    let high = hex_run(bits / 16, unknown / 16, (len - 1) as nat, top);
    if unknown % 16 != 0 {
        let u = (unknown % 16) as u8;
        let b = (bits % 16) as u8;
        assert(u != 0 ==> u & !b != 0 || u & b != 0) by (bit_vector);
        let c = s[len - 1];
        assert(c == 'x' || c == 'X' || c == 'z' || c == 'Z');
    } else {
        assert(unknown / 16 < pow2(4 * (len - 1) as nat)) by {
            vstd::arithmetic::power2::lemma_pow2_adds(4, 4 * (len - 1) as nat);
        }
        lemma_hex_shows_unknown(bits / 16, unknown / 16, (len - 1) as nat, top);
        let i = choose|i: int|
            0 <= i < len - 1 && ({
                let c = #[trigger] high[i];
                c == 'x' || c == 'X' || c == 'z' || c == 'Z'
            });
        assert(s[i] == high[i]);
    }
}

/// Law: a constant with an unknown or high-impedance bit is refused, whatever its other bits.
pub proof fn law_unknown_constant(value: Value)
    requires
        value.is_fill() || value.fits(),
        if value.is_fill() {
            low_bits(value.unknown()) != 0
        } else {
            value.unknown() != 0
        },
    ensures
        value_css(value) == Err::<Seq<char>, Seq<char>>(
            "x/z literal is unsupported: "@ + value_text(value),
        ),
{
    let text = value_text(value);
    if value.is_fill() {
        assert(text[1] == 'x' || text[1] == 'z');
        law_unknown_literal(text, 1);
    } else {
        let width = value.width as nat;
        let head = literal_head(width, value.signed);
        let len = (width + 3) / 4;
        let top: nat = if width % 4 == 0 {
            15
        } else if width % 4 == 1 {
            1
        } else if width % 4 == 2 {
            3
        } else {
            7
        };
        let digits = hex_run(value.bits(), value.unknown(), len, top);
        assert(value.unknown() < pow2(4 * len)) by {
            if width < 4 * len {
                vstd::arithmetic::power2::lemma_pow2_strictly_increases(width, 4 * len);
            }
        }
        lemma_hex_shows_unknown(value.bits(), value.unknown(), len, top);
        assert(text == head + digits);
        let i = choose|i: int|
            0 <= i < len && ({
                let c = #[trigger] digits[i];
                c == 'x' || c == 'X' || c == 'z' || c == 'Z'
            });
        assert(text[head.len() + i] == digits[i]);
        law_unknown_literal(text, head.len() + i);
    }
}

/// Whether the numeral of a constant is that of the integer it stands for: its bits are known, none
/// lies beyond its width, and it is signed and at most 128 bits wide or below the 128th bit.
pub open spec fn is_exact(value: Value) -> bool {
    &&& value.width > 0
    &&& value.fits()
    &&& value.unknown() == 0
    &&& (value.signed && value.width <= 128) || value.bits() < pow2(127)
}

/// Law: the numeral of an exact constant is that of its two's complement value.
pub proof fn law_constant_value(value: Value)
    requires
        is_exact(value),
    ensures
        value_css(value) == Ok::<Seq<char>, Seq<char>>(int_text(constant_value(value))),
{
    law_known_constant(value);
    let w = value.width as nat;
    let bits = value.bits();
    let half = pow2((w - 1) as nat);
    vstd::arithmetic::power2::lemma_pow2_unfold(w);
    vstd::arithmetic::power2::lemma_pow2_pos((w - 1) as nat);
    vstd::arithmetic::power2::lemma_pow2_unfold(128);
    assert(pow2(128) == u128::MAX + 1) by {
        vstd::arithmetic::power2::lemma2_to64_rest();
        vstd::arithmetic::power2::lemma2_to64();
        vstd::arithmetic::power2::lemma_pow2_adds(64, 64);
    }
    if w < 128 {
        vstd::arithmetic::power2::lemma_pow2_strictly_increases(w, 128);
    }
    if w > 128 {
        vstd::arithmetic::power2::lemma_pow2_strictly_increases(127, (w - 1) as nat);
    }
    if value.signed && w <= 128 {
        if bits < half {
            vstd::arithmetic::div_mod::lemma_basic_div(bits as int, half as int);
            if w < 128 {
                vstd::arithmetic::power2::lemma_pow2_strictly_increases((w - 1) as nat, 127);
            }
        } else {
            assert(bits / half == 1) by (nonlinear_arith)
                requires
                    half <= bits < 2 * half,
                    half > 0,
            ;
            vstd::arithmetic::div_mod::lemma_small_mod(bits, pow2(w));
        }
    }
}

/// Law: a value that stands for any number of equal bits has no integer and is refused.
pub proof fn law_fill_refused(value: Value)
    requires
        value.is_fill(),
    ensures
        value_css(value) is Err,
{
    let text = value_text(value);
    if low_bits(value.unknown()) != 0 {
        law_unknown_constant(value);
    } else {
        assert(text[0] == '\'' && (text[1] == '0' || text[1] == '1'));
        assert(crate::literal::all_plain(text));
        assert(text.is_prefix_of(text));
        lemma_plain_head_stays(text, text);
        text.index_of_first_ensures('\'');
        assert(text.contains('\''));
        assert(text.index_of_first('\'') == Some(0int));
        assert(text.skip(1).first() == text[1]);
    }
}

} // verus!
