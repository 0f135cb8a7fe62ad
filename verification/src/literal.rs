//! Integer literals: from Veryl notation to CSS integers.

use vstd::arithmetic::power2::pow2;
use vstd::prelude::*;

use crate::error::{text_outcome, Error};
use crate::text::{chars_of, int_text, lemma_nat_text_digits, nat_text, string_of, u128_text};

verus! {

/// Whether a character has the Unicode property `White_Space`.
pub open spec fn is_white_space(c: char) -> bool {
    ||| '\u{9}' <= c <= '\u{d}'
    ||| c == '\u{20}'
    ||| c == '\u{85}'
    ||| c == '\u{a0}'
    ||| c == '\u{1680}'
    ||| '\u{2000}' <= c <= '\u{200a}'
    ||| c == '\u{2028}'
    ||| c == '\u{2029}'
    ||| c == '\u{202f}'
    ||| c == '\u{205f}'
    ||| c == '\u{3000}'
}

/// A text without its leading white space.
pub open spec fn trim_start(s: Seq<char>) -> Seq<char>
    decreases s.len(),
{
    if s.len() > 0 && is_white_space(s.first()) {
        trim_start(s.drop_first())
    } else {
        s
    }
}

/// A text without its trailing white space.
pub open spec fn trim_end(s: Seq<char>) -> Seq<char>
    decreases s.len(),
{
    if s.len() > 0 && is_white_space(s.last()) {
        trim_end(s.drop_last())
    } else {
        s
    }
}

/// The lower-case form of an ASCII letter; any other character as it is.
pub open spec fn lower(c: char) -> char {
    if 'A' <= c <= 'Z' {
        (c as int + 32) as char
    } else {
        c
    }
}

/// A literal's text without surrounding white space and without `_`, in lower case.
pub open spec fn normalized(text: Seq<char>) -> Seq<char> {
    trim_end(trim_start(text)).filter(|c: char| c != '_').map_values(|c: char| lower(c))
}

fn white_space(c: char) -> (b: bool)
    ensures
        b == is_white_space(c),
{
    ('\u{9}' <= c && c <= '\u{d}') || c == '\u{20}' || c == '\u{85}' || c == '\u{a0}' || c
        == '\u{1680}' || ('\u{2000}' <= c && c <= '\u{200a}') || c == '\u{2028}' || c == '\u{2029}'
        || c == '\u{202f}' || c == '\u{205f}' || c == '\u{3000}'
}

fn to_lower(c: char) -> (r: char)
    ensures
        r == lower(c),
{
    if 'A' <= c && c <= 'Z' {
        (c as u8 + 32u8) as char
    } else {
        c
    }
}

/// Strips, cleans and lower-cases the text of a literal.
fn normalize(text: &Vec<char>) -> (r: Vec<char>)
    ensures
        r@ == normalized(text@),
{
    let mut start: usize = 0;
    assert(text@.skip(0) == text@);
    while start < text.len() && white_space(text[start])
        invariant
            start <= text.len(),
            trim_start(text@.skip(start as int)) == trim_start(text@),
        decreases text.len() - start,
    {
        assert(text@.skip(start as int).drop_first() == text@.skip(start + 1));
        start += 1;
    }
    let ghost front = text@.skip(start as int);
    assert(trim_start(text@) == front);
    let mut end: usize = text.len();
    assert(text@.subrange(start as int, end as int) == front);
    while end > start && white_space(text[end - 1])
        invariant
            start <= end <= text.len(),
            front == text@.skip(start as int),
            trim_end(text@.subrange(start as int, end as int)) == trim_end(front),
        decreases end,
    {
        assert(text@.subrange(start as int, end as int).drop_last() == text@.subrange(
            start as int,
            end - 1,
        ));
        end -= 1;
    }
    let ghost body = text@.subrange(start as int, end as int);
    assert(trim_end(trim_start(text@)) == body);
    let mut r: Vec<char> = Vec::new();
    let mut i: usize = start;
    let ghost keep = |c: char| c != '_';
    let ghost low = |c: char| lower(c);
    proof {
        reveal(Seq::filter);
    }
    while i < end
        invariant
            start <= i <= end <= text.len(),
            body == text@.subrange(start as int, end as int),
            keep == (|c: char| c != '_'),
            low == (|c: char| lower(c)),
            r@ == body.take(i - start).filter(keep).map_values(low),
        decreases end - i,
    {
        proof {
            reveal(Seq::filter);
            assert(body.take(i + 1 - start).drop_last() == body.take(i - start));
        }
        let c = text[i];
        if c != '_' {
            r.push(to_lower(c));
        }
        i += 1;
        assert(r@ == body.take(i - start).filter(keep).map_values(low));
    }
    assert(body.take(end - start) == body);
    r
}

/// The value of a digit in a base, letters standing for ten and up.
pub open spec fn digit_value(c: char, radix: nat) -> Option<nat> {
    let digit = if '0' <= c <= '9' {
        (c as int - '0' as int) as nat
    } else if 'a' <= c <= 'z' {
        (c as int - 'a' as int + 10) as nat
    } else {
        36
    };
    if digit < radix {
        Some(digit)
    } else {
        None
    }
}

/// The number that a run of digits denotes, the first bad digit or overflow deciding the error.
pub open spec fn digits_value(s: Seq<char>, radix: nat, max: nat) -> Result<nat, Seq<char>>
    decreases s.len(),
{
    if s.len() == 0 {
        Ok(0)
    } else {
        match digits_value(s.drop_last(), radix, max) {
            Err(message) => Err(message),
            Ok(high) => match digit_value(s.last(), radix) {
                None => Err("invalid digit found in string"@),
                Some(digit) => if high * radix + digit > max {
                    Err("number too large to fit in target type"@)
                } else {
                    Ok(high * radix + digit)
                },
            },
        }
    }
}

/// The number that a numeral denotes: digits, after one optional `+`.
pub open spec fn numeral_value(s: Seq<char>, radix: nat, max: nat) -> Result<nat, Seq<char>> {
    if s.len() == 0 {
        Err("cannot parse integer from empty string"@)
    } else if s == seq!['+'] {
        Err("invalid digit found in string"@)
    } else if s.first() == '+' {
        digits_value(s.drop_first(), radix, max)
    } else {
        digits_value(s, radix, max)
    }
}

/// The two's complement reading of a 128-bit pattern.
pub open spec fn as_signed(bits: nat) -> int {
    if bits < pow2(127) {
        bits as int
    } else {
        bits - pow2(128)
    }
}

/// The integer that a bit pattern stands for. A signed literal of a known width is extended from
/// its most significant bit; any other pattern is read as 128 bits.
pub open spec fn literal_value(bits: nat, signed: bool, width: Option<nat>) -> int {
    match width {
        Some(w) => if signed && 1 <= w <= 128 && (bits / pow2((w - 1) as nat)) % 2 == 1 {
            (bits % pow2(w)) - pow2(w)
        } else {
            as_signed(bits)
        },
        None => as_signed(bits),
    }
}

/// A based literal, taken apart at its quote.
pub struct BasedLiteral {
    /// What stands before the quote.
    pub width: Seq<char>,
    /// Whether an `s` follows the quote.
    pub signed: bool,
    /// The base letter and the digits.
    pub rest: Seq<char>,
}

/// The parts of a normalized literal that has a quote.
pub open spec fn based_literal(s: Seq<char>) -> Option<BasedLiteral> {
    match s.index_of_first('\'') {
        None => None,
        Some(quote) => {
            let after = s.skip(quote + 1);
            let signed = after.len() > 0 && after.first() == 's';
            Some(
                BasedLiteral {
                    width: s.take(quote),
                    signed,
                    rest: if signed {
                        after.skip(1)
                    } else {
                        after
                    },
                },
            )
        },
    }
}

/// The number base that a letter selects.
pub open spec fn radix_of(base: char) -> Option<nat> {
    match base {
        'h' => Some(16),
        'd' => Some(10),
        'b' => Some(2),
        'o' => Some(8),
        _ => None,
    }
}

/// The width that a literal states, if it states one.
pub open spec fn width_value(width: Seq<char>) -> Option<nat> {
    match numeral_value(width, 10, u32::MAX as nat) {
        Ok(w) => Some(w),
        Err(_) => None,
    }
}

/// Whether a normalized literal has a digit that is unknown or high-impedance.
pub open spec fn has_unknown(s: Seq<char>) -> bool {
    s.contains('x') || s.contains('z')
}

/// Whether a text is a CSS integer: an optional `-`, then one or more decimal digits.
pub open spec fn is_css_integer(s: Seq<char>) -> bool {
    let start: int = if s.len() > 0 && s.first() == '-' {
        1
    } else {
        0
    };
    &&& start < s.len()
    &&& forall|i: int| start <= i < s.len() ==> '0' <= #[trigger] s[i] <= '9'
}

/// The base that a literal states behind its quote.
pub open spec fn stated_radix(literal: BasedLiteral) -> Option<nat> {
    if literal.rest.len() == 0 {
        None
    } else {
        radix_of(literal.rest.first())
    }
}

/// The integer that a literal denotes, in CSS notation, or why it has none.
pub open spec fn literal_css(text: Seq<char>) -> Result<Seq<char>, Seq<char>> {
    let s = normalized(text);
    if has_unknown(s) {
        Err("x/z literal is unsupported: "@ + text)
    } else {
        match based_literal(s) {
            Some(literal) => match stated_radix(literal) {
                None => Err("unsupported literal base in: "@ + text),
                Some(radix) => match numeral_value(
                    literal.rest.drop_first(),
                    radix,
                    u128::MAX as nat,
                ) {
                    Err(message) => Err(message),
                    Ok(bits) => Ok(
                        int_text(literal_value(bits, literal.signed, width_value(literal.width))),
                    ),
                },
            },
            None => if is_css_integer(s) {
                Ok(s)
            } else {
                Err("unsupported literal syntax: "@ + text)
            },
        }
    }
}

/// Whether a character stays as it is, wherever it stands, when a literal is normalized.
pub open spec fn is_plain(c: char) -> bool {
    !is_white_space(c) && c != '_' && lower(c) == c
}

/// Whether all characters stay as they are.
pub open spec fn all_plain(s: Seq<char>) -> bool {
    forall|i: int| 0 <= i < s.len() ==> is_plain(#[trigger] s[i])
}

proof fn lemma_trim_end_keeps(s: Seq<char>, k: int)
    requires
        0 < k <= s.len(),
        !is_white_space(s[k - 1]),
    ensures
        k <= trim_end(s).len() <= s.len(),
        trim_end(s) == s.take(trim_end(s).len() as int),
    decreases s.len(),
{
    if is_white_space(s.last()) {
        lemma_trim_end_keeps(s.drop_last(), k);
        assert(s.drop_last().take(trim_end(s).len() as int) == s.take(trim_end(s).len() as int));
    } else {
        assert(s.take(s.len() as int) == s);
    }
}

proof fn lemma_filter_keeps_plain(s: Seq<char>)
    requires
        all_plain(s),
    ensures
        s.filter(|c: char| c != '_') == s,
    decreases s.len(),
{
    reveal(Seq::filter);
    if s.len() > 0 {
        assert forall|i: int| 0 <= i < s.drop_last().len() implies is_plain(
            #[trigger] s.drop_last()[i],
        ) by {
            assert(is_plain(s[i]));
        }
        lemma_filter_keeps_plain(s.drop_last());
        assert(is_plain(s[s.len() - 1]));
        assert(s.drop_last().push(s.last()) == s);
    }
}

/// A plain beginning of a literal is also the beginning of the normalized literal.
pub proof fn lemma_plain_head_stays(text: Seq<char>, head: Seq<char>)
    requires
        head.len() > 0,
        head.is_prefix_of(text),
        all_plain(head),
    ensures
        head.is_prefix_of(normalized(text)),
        head == text ==> normalized(text) == text,
{
    let k = head.len() as int;
    let keep = |c: char| c != '_';
    let low = |c: char| lower(c);
    assert(is_plain(head[0]));
    assert(is_plain(head[k - 1]));
    assert(text[0] == head[0] && text[k - 1] == head[k - 1]);
    assert(trim_start(text) == text);
    lemma_trim_end_keeps(text, k);
    let body = trim_end(text);
    let tail = body.skip(k);
    assert(body == head + tail);
    Seq::filter_distributes_over_add(head, tail, keep);
    lemma_filter_keeps_plain(head);
    let kept = body.filter(keep);
    assert(kept == head + tail.filter(keep));
    assert forall|i: int| 0 <= i < k implies #[trigger] normalized(text)[i] == head[i] by {
        assert(is_plain(head[i]));
        assert(kept[i] == head[i]);
    }
    if head == text {
        assert(tail == Seq::<char>::empty());
        assert(tail.filter(keep) == Seq::<char>::empty()) by {
            reveal(Seq::filter);
        }
    }
}

proof fn lemma_trim_keeps_char(s: Seq<char>, c: char)
    requires
        s.contains(c),
        !is_white_space(c),
    ensures
        trim_start(s).contains(c),
        trim_end(s).contains(c),
    decreases s.len(),
{
    let i = s.index_of(c);
    if is_white_space(s.first()) {
        assert(s.drop_first()[i - 1] == c);
        lemma_trim_keeps_char(s.drop_first(), c);
    }
    if is_white_space(s.last()) {
        assert(s.drop_last()[i] == c);
        lemma_trim_keeps_char(s.drop_last(), c);
    }
}

/// Law: a literal with an unknown or high-impedance digit anywhere is refused.
pub proof fn law_unknown_literal(text: Seq<char>, at: int)
    requires
        0 <= at < text.len(),
        text[at] == 'x' || text[at] == 'X' || text[at] == 'z' || text[at] == 'Z',
    ensures
        literal_css(text) == Err::<Seq<char>, Seq<char>>("x/z literal is unsupported: "@ + text),
{
    let c = text[at];
    let keep = |c: char| c != '_';
    assert(text.contains(c));
    lemma_trim_keeps_char(text, c);
    lemma_trim_keeps_char(trim_start(text), c);
    let body = trim_end(trim_start(text));
    let kept = body.filter(keep);
    body.lemma_filter_contains(keep, body.index_of(c));
    let i = kept.index_of(c);
    assert(kept[i] == c);
    let s = normalized(text);
    assert(s[i] == lower(c));
    assert(s.contains(lower(c)));
}

/// Law: a plain decimal, which is digits after an optional sign, is kept as it is.
pub proof fn law_plain_decimal(text: Seq<char>)
    requires
        is_css_integer(text),
    ensures
        literal_css(text) == Ok::<Seq<char>, Seq<char>>(text),
{
    assert forall|i: int| 0 <= i < text.len() implies is_plain(#[trigger] text[i]) && text[i] != 'x'
        && text[i] != 'z' && text[i] != '\'' by {
        if i == 0 {
            assert(text.first() == '-' || '0' <= text[0] <= '9');
        }
    }
    assert(text.is_prefix_of(text));
    lemma_plain_head_stays(text, text);
    text.index_of_first_ensures('\'');
}

/// Law: what an accepted literal becomes is a CSS integer.
pub proof fn law_css_integer(text: Seq<char>)
    ensures
        literal_css(text) matches Ok(numeral) ==> is_css_integer(numeral),
{
    let s = normalized(text);
    if literal_css(text) is Ok {
        if let Some(literal) = based_literal(s) {
            let bits = numeral_value(
                literal.rest.drop_first(),
                stated_radix(literal)->0,
                u128::MAX as nat,
            )->Ok_0;
            let n = literal_value(bits, literal.signed, width_value(literal.width));
            let magnitude = if n < 0 {
                nat_text((-n) as nat)
            } else {
                nat_text(n as nat)
            };
            lemma_nat_text_digits((-n) as nat);
            lemma_nat_text_digits(n as nat);
            let numeral = int_text(n);
            if n < 0 {
                assert forall|i: int| 1 <= i < numeral.len() implies '0' <= #[trigger] numeral[i]
                    <= '9' by {
                    assert(numeral[i] == magnitude[i - 1]);
                }
            } else {
                assert('0' <= numeral[0] <= '9');
            }
        }
    }
}

/// Law: a literal with no ASCII character behind its quote is refused.
pub proof fn law_base_needed(text: Seq<char>)
    requires
        !has_unknown(normalized(text)),
        based_literal(normalized(text)) matches Some(literal) && (literal.rest.len() == 0
            || literal.rest.first() > '\u{7f}'),
    ensures
        literal_css(text) == Err::<Seq<char>, Seq<char>>("unsupported literal base in: "@ + text),
{
}

/// An error in a prefix of the digits is the error of all of them.
proof fn lemma_first_error_decides(s: Seq<char>, k: int, radix: nat, max: nat)
    requires
        0 <= k <= s.len(),
        digits_value(s.take(k), radix, max) is Err,
    ensures
        digits_value(s, radix, max) == digits_value(s.take(k), radix, max),
    decreases s.len(),
{
    if k == s.len() {
        assert(s.take(k) == s);
    } else {
        assert(s.drop_last().take(k) == s.take(k));
        lemma_first_error_decides(s.drop_last(), k, radix, max);
    }
}

fn digit_of(c: char, radix: u128) -> (d: Option<u128>)
    requires
        radix <= 36,
    ensures
        match digit_value(c, radix as nat) {
            Some(v) => d == Some(v as u128) && v < 36,
            None => d is None,
        },
{
    let digit: u128 = if '0' <= c && c <= '9' {
        (c as u32 - 48u32) as u128
    } else if 'a' <= c && c <= 'z' {
        (c as u32 - 97u32) as u128 + 10
    } else {
        36
    };
    if digit < radix {
        Some(digit)
    } else {
        None
    }
}

/// Reads a run of digits.
fn parse_digits(s: &Vec<char>, from: usize, to: usize, radix: u128, max: u128) -> (r: Result<
    u128,
    Error,
>)
    requires
        from <= to <= s.len(),
        radix <= 36,
    ensures
        match digits_value(s@.subrange(from as int, to as int), radix as nat, max as nat) {
            Ok(v) => r matches Ok(n) && n == v,
            Err(message) => r matches Err(error) && error.message@ == message,
        },
{
    let ghost digits = s@.subrange(from as int, to as int);
    let mut value: u128 = 0;
    let mut i: usize = from;
    while i < to
        invariant
            from <= i <= to <= s.len(),
            radix <= 36,
            digits == s@.subrange(from as int, to as int),
            digits_value(digits.take(i - from), radix as nat, max as nat) == Ok::<nat, Seq<char>>(
                value as nat,
            ),
        decreases to - i,
    {
        let ghost k = i + 1 - from;
        proof {
            assert(digits.take(k).drop_last() == digits.take(i - from));
            assert(digits.take(k).last() == s@[i as int]);
            if digits_value(digits.take(k), radix as nat, max as nat) is Err {
                lemma_first_error_decides(digits, k, radix as nat, max as nat);
            }
        }
        match digit_of(s[i], radix) {
            None => {
                return Err(Error::new("invalid digit found in string"));
            },
            Some(digit) => match value.checked_mul(radix) {
                None => {
                    return Err(Error::new("number too large to fit in target type"));
                },
                Some(high) => match high.checked_add(digit) {
                    None => {
                        return Err(Error::new("number too large to fit in target type"));
                    },
                    Some(sum) => {
                        if sum > max {
                            return Err(Error::new("number too large to fit in target type"));
                        }
                        value = sum;
                    },
                },
            },
        }
        i += 1;
    }
    assert(digits.take(to - from) == digits);
    Ok(value)
}

/// Reads a numeral.
fn parse_numeral(s: &Vec<char>, from: usize, to: usize, radix: u128, max: u128) -> (r: Result<
    u128,
    Error,
>)
    requires
        from <= to <= s.len(),
        radix <= 36,
    ensures
        match numeral_value(s@.subrange(from as int, to as int), radix as nat, max as nat) {
            Ok(v) => r matches Ok(n) && n == v,
            Err(message) => r matches Err(error) && error.message@ == message,
        },
{
    let ghost numeral = s@.subrange(from as int, to as int);
    if from == to {
        return Err(Error::new("cannot parse integer from empty string"));
    }
    if s[from] == '+' {
        if to - from == 1 {
            assert(numeral == seq!['+']);
            return Err(Error::new("invalid digit found in string"));
        }
        assert(numeral.len() > 1);
        assert(numeral.drop_first() == s@.subrange(from + 1, to as int));
        parse_digits(s, from + 1, to, radix, max)
    } else {
        assert(numeral.first() == s@[from as int]);
        parse_digits(s, from, to, radix, max)
    }
}

/// Two to the power of `k`.
fn power_of_two(k: u32) -> (p: u128)
    requires
        k < 128,
    ensures
        p == pow2(k as nat),
{
    proof {
        vstd::arithmetic::power2::lemma2_to64();
    }
    let mut p: u128 = 1;
    let mut i: u32 = 0;
    while i < k
        invariant
            i <= k < 128,
            p == pow2(i as nat),
        decreases k - i,
    {
        proof {
            vstd::arithmetic::power2::lemma_pow2_unfold((i + 1) as nat);
            lemma_pow2_127();
            if i + 1 < 127 {
                vstd::arithmetic::power2::lemma_pow2_strictly_increases((i + 1) as nat, 127);
            }
        }
        p = p * 2;
        i += 1;
    }
    p
}

/// The powers of two at the end of the 128-bit range.
proof fn lemma_pow2_127()
    ensures
        pow2(127) == 0x8000_0000_0000_0000_0000_0000_0000_0000,
        pow2(128) == u128::MAX + 1,
{
    vstd::arithmetic::power2::lemma2_to64();
    vstd::arithmetic::power2::lemma2_to64_rest();
    vstd::arithmetic::power2::lemma_pow2_adds(63, 64);
    vstd::arithmetic::power2::lemma_pow2_unfold(128);
}

/// Writes the integer that a bit pattern stands for.
fn literal_value_text(bits: u128, signed: bool, width: Option<u32>) -> (s: String)
    ensures
        s@ == int_text(
            literal_value(
                bits as nat,
                signed,
                match width {
                    Some(w) => Some(w as nat),
                    None => None,
                },
            ),
        ),
{
    proof {
        lemma_pow2_127();
    }
    if signed {
        if let Some(w) = width {
            if 1 <= w && w <= 128 {
                let half = power_of_two(w - 1);
                proof {
                    vstd::arithmetic::power2::lemma_pow2_unfold(w as nat);
                    vstd::arithmetic::power2::lemma_pow2_pos((w - 1) as nat);
                    if w < 128 {
                        vstd::arithmetic::power2::lemma_pow2_strictly_increases(
                            (w - 1) as nat,
                            127,
                        );
                    }
                }
                if (bits / half) % 2 == 1 {
                    // The pattern's high bits are all ones once it is extended.
                    let ones: u128 = half - 1 + half;
                    let low: u128 = if w == 128 {
                        bits
                    } else {
                        bits % (ones + 1)
                    };
                    assert(low < pow2(w as nat));
                    assert(low == bits as nat % pow2(w as nat)) by {
                        if w == 128 {
                            vstd::arithmetic::div_mod::lemma_small_mod(
                                bits as nat,
                                pow2(128),
                            );
                        }
                    }
                    let mut s = String::new();
                    s.push('-');
                    let magnitude = u128_text(ones - low + 1);
                    s.append(&magnitude);
                    return s;
                }
            }
        }
    }
    if bits < 0x8000_0000_0000_0000_0000_0000_0000_0000 {
        u128_text(bits)
    } else {
        let mut s = String::new();
        s.push('-');
        let magnitude = u128_text(u128::MAX - bits + 1);
        s.append(&magnitude);
        s
    }
}

/// Whether a character occurs.
fn has_char(s: &Vec<char>, c: char) -> (b: bool)
    ensures
        b == s@.contains(c),
{
    for i in 0..s.len()
        invariant
            forall|j: int| 0 <= j < i ==> s@[j] != c,
    {
        if s[i] == c {
            return true;
        }
    }
    false
}

/// The position of the first quote.
fn find_quote(s: &Vec<char>) -> (r: Option<usize>)
    ensures
        match s@.index_of_first('\'') {
            Some(quote) => r matches Some(i) && i == quote && 0 <= quote < s@.len(),
            None => r is None,
        },
{
    proof {
        s@.index_of_first_ensures('\'');
    }
    for i in 0..s.len()
        invariant
            forall|j: int| 0 <= j < i ==> s@[j] != '\'',
            match s@.index_of_first('\'') {
                Some(index) => {
                    &&& 0 <= index < s@.len()
                    &&& s@[index] == '\''
                    &&& forall|j: int| 0 <= j < index < s@.len() ==> s@[j] != '\''
                },
                None => !s@.contains('\''),
            },
    {
        if s[i] == '\'' {
            return Some(i);
        }
    }
    None
}

/// Whether the characters are those of a CSS integer.
fn css_integer(s: &Vec<char>) -> (b: bool)
    ensures
        b == is_css_integer(s@),
{
    let start: usize = if s.len() > 0 && s[0] == '-' {
        1
    } else {
        0
    };
    let mut i: usize = start;
    while i < s.len()
        invariant
            start <= i <= s.len(),
            start == (if s@.len() > 0 && s@.first() == '-' {
                1int
            } else {
                0
            }),
            forall|j: int| start <= j < i ==> '0' <= #[trigger] s@[j] <= '9',
        decreases s.len() - i,
    {
        if !('0' <= s[i] && s[i] <= '9') {
            return false;
        }
        i += 1;
    }
    start < s.len()
}

/// Turns a Veryl literal or a plain decimal integer into a CSS integer.
///
/// Accepts:
/// - Plain decimal: `"42"`, `"-1"`
/// - Veryl literal: `"32'sh00000001"`, `"8'b10101010"`, etc.
///
/// Rejects 4-value logic (x/z) literals.
pub fn literal_to_css_int(text: &str) -> (r: Result<String, Error>)
    ensures
        text_outcome(r) == literal_css(text@),
{
    let chars = chars_of(text);
    let s = normalize(&chars);
    if has_char(&s, 'x') || has_char(&s, 'z') {
        return Err(Error::about("x/z literal is unsupported: ", text));
    }
    if let Some(quote) = find_quote(&s) {
        let signed = quote + 1 < s.len() && s[quote + 1] == 's';
        let base_at: usize = if signed {
            quote + 2
        } else {
            quote + 1
        };
        let ghost literal = based_literal(s@)->0;
        assert(literal.signed == signed);
        assert(literal.rest == s@.skip(base_at as int));
        if base_at == s.len() {
            return Err(Error::about("unsupported literal base in: ", text));
        }
        let radix: u128 = match s[base_at] {
            'h' => 16,
            'd' => 10,
            'b' => 2,
            'o' => 8,
            _ => {
                return Err(Error::about("unsupported literal base in: ", text));
            },
        };
        let width: Option<u32> = match parse_numeral(&s, 0, quote, 10, u32::MAX as u128) {
            Ok(w) => Some(w as u32),
            Err(_) => None,
        };
        assert(s@.subrange(0, quote as int) == literal.width);
        assert(s@.subrange(base_at + 1, s@.len() as int) == literal.rest.drop_first());
        return match parse_numeral(&s, base_at + 1, s.len(), radix, u128::MAX) {
            Ok(bits) => Ok(literal_value_text(bits, signed, width)),
            Err(error) => Err(error),
        };
    }
    if css_integer(&s) {
        return Ok(string_of(&s));
    }
    Err(Error::about("unsupported literal syntax: ", text))
}

/// Law: surrounding white space does not count.
pub proof fn law_white_space_ignored(text: Seq<char>, c: char)
    requires
        is_white_space(c),
    ensures
        normalized(seq![c] + text) == normalized(text),
        normalized(text.push(c)) == normalized(text),
{
    assert((seq![c] + text).drop_first() == text);
    lemma_trim_push(text, c);
}

proof fn lemma_trim_push(text: Seq<char>, c: char)
    requires
        is_white_space(c),
    ensures
        trim_end(trim_start(text.push(c))) == trim_end(trim_start(text)),
    decreases text.len(),
{
    let longer = text.push(c);
    if text.len() > 0 && is_white_space(text.first()) {
        assert(longer.drop_first() == text.drop_first().push(c));
        lemma_trim_push(text.drop_first(), c);
    } else if text.len() == 0 {
        assert(longer.drop_first() == text);
        assert(trim_start(longer) == trim_start(text));
    } else {
        assert(longer.first() == text.first());
        assert(longer.drop_last() == text);
    }
}

/// Law: upper-case ASCII letters count as lower-case ones.
pub proof fn law_case_ignored(text: Seq<char>)
    ensures
        normalized(text.map_values(|c: char| lower(c))) == normalized(text),
{
    let low = |c: char| lower(c);
    let keep = |c: char| c != '_';
    lemma_trim_map(text);
    let body = trim_end(trim_start(text));
    lemma_filter_map(body);
    let kept = body.filter(keep);
    assert(kept.map_values(low).map_values(low) == kept.map_values(low));
}

proof fn lemma_trim_map(text: Seq<char>)
    ensures
        trim_end(trim_start(text.map_values(|c: char| lower(c)))) == trim_end(
            trim_start(text),
        ).map_values(|c: char| lower(c)),
    decreases text.len(),
{
    let low = |c: char| lower(c);
    let mapped = text.map_values(low);
    if text.len() > 0 && is_white_space(text.first()) {
        assert(mapped.drop_first() == text.drop_first().map_values(low));
        lemma_trim_map(text.drop_first());
    } else {
        lemma_trim_end_map(text);
    }
}

proof fn lemma_trim_end_map(text: Seq<char>)
    ensures
        trim_end(text.map_values(|c: char| lower(c))) == trim_end(text).map_values(
            |c: char| lower(c),
        ),
    decreases text.len(),
{
    let low = |c: char| lower(c);
    let mapped = text.map_values(low);
    if text.len() > 0 && is_white_space(text.last()) {
        assert(mapped.drop_last() == text.drop_last().map_values(low));
        lemma_trim_end_map(text.drop_last());
    }
}

proof fn lemma_filter_map(s: Seq<char>)
    ensures
        s.map_values(|c: char| lower(c)).filter(|c: char| c != '_') == s.filter(
            |c: char| c != '_',
        ).map_values(|c: char| lower(c)),
    decreases s.len(),
{
    reveal(Seq::filter);
    let low = |c: char| lower(c);
    let keep = |c: char| c != '_';
    let mapped = s.map_values(low);
    if s.len() > 0 {
        let rest = s.drop_last();
        lemma_filter_map(rest);
        assert(mapped.drop_last() == rest.map_values(low));
        assert(mapped.last() == lower(s.last()));
        let kept = rest.filter(keep);
        assert(kept.push(s.last()).map_values(low) == kept.map_values(low).push(lower(s.last())));
    } else {
        assert(mapped == s);
        assert(s.filter(keep).map_values(low) == s.filter(keep));
    }
}

/// Law: an underscore inside a literal does not count.
pub proof fn law_underscore_ignored(a: Seq<char>, b: Seq<char>)
    requires
        a.len() > 0,
        b.len() > 0,
        !is_white_space(a.first()),
        !is_white_space(b.last()),
    ensures
        normalized(a + seq!['_'] + b) == normalized(a + b),
{
    let keep = |c: char| c != '_';
    let with = a + seq!['_'] + b;
    let without = a + b;
    assert(with.first() == a.first() && without.first() == a.first());
    assert(with.last() == b.last() && without.last() == b.last());
    Seq::filter_distributes_over_add(a + seq!['_'], b, keep);
    Seq::filter_distributes_over_add(a, seq!['_'], keep);
    Seq::filter_distributes_over_add(a, b, keep);
    assert(seq!['_'].filter(keep) == Seq::<char>::empty()) by {
        reveal(Seq::filter);
        let none = Seq::<char>::empty();
        assert(none.filter(keep) == none);
        assert(seq!['_'].drop_last() == none);
        assert(!keep(seq!['_'].last()));
    }
    assert(a.filter(keep) + Seq::<char>::empty() == a.filter(keep));
}

/// Law: what is left of a literal has neither underscores nor upper-case ASCII letters, and no
/// character is put in or moved: without surrounding white space, underscores and upper case a
/// literal stays as it is.
pub proof fn law_normalized(text: Seq<char>, i: int)
    ensures
        0 <= i < normalized(text).len() ==> normalized(text)[i] != '_' && !('A' <= normalized(
            text,
        )[i] <= 'Z'),
        all_plain(text) ==> normalized(text) == text,
{
    let keep = |c: char| c != '_';
    let body = trim_end(trim_start(text));
    if 0 <= i < normalized(text).len() {
        body.lemma_filter_pred(keep, i);
        assert(keep(body.filter(keep)[i]));
    }
    if all_plain(text) {
        if text.len() > 0 {
            assert(text.is_prefix_of(text));
            lemma_plain_head_stays(text, text);
        } else {
            reveal(Seq::filter);
            assert(normalized(text) == text);
        }
    }
}

/// Law: the integer that a bit pattern stands for is the pattern up to a multiple of a power of
/// two, in the range of a two's complement number: of the width that a signed literal states, where
/// the pattern fits in it, of 128 bits otherwise.
pub proof fn law_literal_value(bits: nat, signed: bool, width: Option<nat>)
    requires
        bits < pow2(128),
    ensures
        ({
            let n = literal_value(bits, signed, width);
            match width {
                Some(w) => if signed && 1 <= w <= 128 && bits < pow2(w) {
                    &&& n == bits || n == bits - pow2(w)
                    &&& -pow2((w - 1) as nat) <= n < pow2((w - 1) as nat)
                } else {
                    signed && 1 <= w <= 128 || ((n == bits || n == bits - pow2(128)) && -pow2(127)
                        <= n < pow2(127))
                },
                None => (n == bits || n == bits - pow2(128)) && -pow2(127) <= n < pow2(127),
            }
        }),
{
    lemma_pow2_127();
    if let Some(w) = width {
        if signed && 1 <= w <= 128 && bits < pow2(w) {
            let half = pow2((w - 1) as nat);
            vstd::arithmetic::power2::lemma_pow2_unfold(w);
            vstd::arithmetic::power2::lemma_pow2_pos((w - 1) as nat);
            if bits < half {
                vstd::arithmetic::div_mod::lemma_basic_div(bits as int, half as int);
                if w < 128 {
                    vstd::arithmetic::power2::lemma_pow2_strictly_increases((w - 1) as nat, 127);
                }
            } else {
                assert(bits / half == 1) by (nonlinear_arith)
                    requires
                        half <= bits < 2 * half,
                        half > 0,
                ;
                vstd::arithmetic::div_mod::lemma_small_mod(bits, pow2(w));
            }
        }
    }
}

/// The digit of a number below sixteen.
pub open spec fn radix_digit(d: nat) -> char {
    if d < 10 {
        ('0' as int + d) as char
    } else {
        ('a' as int + d - 10) as char
    }
}

/// The numeral of a number in a base, with a given number of leading zeros.
pub open spec fn radix_text(n: nat, radix: nat, zeros: nat) -> Seq<char>
    decreases n,
{
    if radix < 2 || n < radix {
        Seq::new(zeros, |i: int| '0').push(radix_digit(n))
    } else {
        proof {
            vstd::arithmetic::div_mod::lemma_div_decreases(n as int, radix as int);
        }
        radix_text(n / radix, radix, zeros).push(radix_digit(n % radix))
    }
}

proof fn lemma_zeros_value(zeros: nat, radix: nat, max: nat)
    requires
        2 <= radix <= 16,
    ensures
        digits_value(Seq::new(zeros, |i: int| '0'), radix, max) == Ok::<nat, Seq<char>>(0),
    decreases zeros,
{
    let s = Seq::new(zeros, |i: int| '0');
    if zeros > 0 {
        lemma_zeros_value((zeros - 1) as nat, radix, max);
        assert(s.drop_last() == Seq::new((zeros - 1) as nat, |i: int| '0'));
        assert(digit_value(s.last(), radix) == Some(0nat));
        assert(0 * radix == 0) by (nonlinear_arith);
    }
}

proof fn lemma_radix_reads_back(n: nat, radix: nat, zeros: nat, max: nat)
    requires
        2 <= radix <= 16,
        n <= max,
    ensures
        digits_value(radix_text(n, radix, zeros), radix, max) == Ok::<nat, Seq<char>>(n),
        radix_text(n, radix, zeros).len() > 0,
        forall|i: int|
            0 <= i < radix_text(n, radix, zeros).len() ==> ('0' <= #[trigger] radix_text(
                n,
                radix,
                zeros,
            )[i] <= '9' || 'a' <= radix_text(n, radix, zeros)[i] <= 'f'),
    decreases n,
{
    let s = radix_text(n, radix, zeros);
    if n < radix {
        lemma_zeros_value(zeros, radix, max);
        assert(s.drop_last() == Seq::new(zeros, |i: int| '0'));
        assert(digit_value(s.last(), radix) == Some(n));
        assert(0 * radix == 0) by (nonlinear_arith);
    } else {
        assert(n / radix < n && n == (n / radix) * radix + n % radix && n % radix < radix) by {
            vstd::arithmetic::div_mod::lemma_fundamental_div_mod(n as int, radix as int);
            vstd::arithmetic::div_mod::lemma_mod_bound(n as int, radix as int);
            vstd::arithmetic::div_mod::lemma_div_decreases(n as int, radix as int);
            vstd::arithmetic::mul::lemma_mul_is_commutative((n / radix) as int, radix as int);
        }
        lemma_radix_reads_back(n / radix, radix, zeros, max);
        let high = radix_text(n / radix, radix, zeros);
        assert(s.drop_last() == high);
        assert(digit_value(s.last(), radix) == Some(n % radix));
        assert forall|i: int| 0 <= i < s.len() implies ('0' <= #[trigger] s[i] <= '9' || 'a' <= s[i]
            <= 'f') by {
            if i < high.len() {
                assert(s[i] == high[i]);
            }
        }
    }
}

/// Law: a literal of a number in hexadecimal, decimal, binary or octal, with any leading zeros and
/// of any stated width, becomes the numeral of the integer that the number's bits stand for.
pub proof fn law_based_literal(n: nat, width: nat, signed: bool, base: char, zeros: nat)
    requires
        n <= u128::MAX,
        width <= u32::MAX,
        base == 'h' || base == 'd' || base == 'b' || base == 'o',
    ensures
        ({
            let radix: nat = if base == 'h' {
                16
            } else if base == 'd' {
                10
            } else if base == 'b' {
                2
            } else {
                8
            };
            let mark = if signed {
                seq!['\'', 's', base]
            } else {
                seq!['\'', base]
            };
            literal_css(nat_text(width) + mark + radix_text(n, radix, zeros)) == Ok::<
                Seq<char>,
                Seq<char>,
            >(int_text(literal_value(n, signed, Some(width))))
        }),
{
    let radix: nat = if base == 'h' {
        16
    } else if base == 'd' {
        10
    } else if base == 'b' {
        2
    } else {
        8
    };
    let mark = if signed {
        seq!['\'', 's', base]
    } else {
        seq!['\'', base]
    };
    let digits = radix_text(n, radix, zeros);
    lemma_radix_reads_back(n, radix, zeros, u128::MAX as nat);
    lemma_based_parts(width, signed, base, digits);
    lemma_radix_ten(width, u32::MAX as nat);
    lemma_nat_text_digits(width);
    assert('0' <= nat_text(width)[0] <= '9');
    assert('0' <= digits[0] <= '9' || 'a' <= digits[0] <= 'f');
    let literal = BasedLiteral { width: nat_text(width), signed, rest: seq![base] + digits };
    assert(literal.rest.first() == base);
    assert(literal.rest.drop_first() == digits);
}

/// How a literal with a width and a base is taken apart.
proof fn lemma_based_parts(width: nat, signed: bool, base: char, digits: Seq<char>)
    requires
        base == 'h' || base == 'd' || base == 'b' || base == 'o',
        forall|i: int|
            0 <= i < digits.len() ==> ('0' <= #[trigger] digits[i] <= '9' || 'a' <= digits[i]
                <= 'f'),
    ensures
        ({
            let mark = if signed {
                seq!['\'', 's', base]
            } else {
                seq!['\'', base]
            };
            let text = nat_text(width) + mark + digits;
            &&& normalized(text) == text
            &&& !has_unknown(text)
            &&& based_literal(text) == Some(
                BasedLiteral { width: nat_text(width), signed, rest: seq![base] + digits },
            )
        }),
{
    let mark = if signed {
        seq!['\'', 's', base]
    } else {
        seq!['\'', base]
    };
    let numeral = nat_text(width);
    let head = numeral + mark;
    let text = head + digits;
    let k = numeral.len() as int;
    lemma_nat_text_digits(width);
    assert forall|i: int| 0 <= i < text.len() implies is_plain(#[trigger] text[i]) && text[i] != 'x'
        && text[i] != 'z' && (text[i] == '\'' ==> i == k) by {
        if i < k {
            assert(text[i] == numeral[i]);
        } else if i < head.len() {
            assert(text[i] == mark[i - k]);
        } else {
            assert(text[i] == digits[i - head.len()]);
        }
    }
    assert(normalized(text) == text) by {
        assert(text.is_prefix_of(text));
        lemma_plain_head_stays(text, text);
    }
    assert(!has_unknown(text)) by {
        if text.contains('x') {
            assert(text[text.index_of('x')] == 'x');
        }
        if text.contains('z') {
            assert(text[text.index_of('z')] == 'z');
        }
    }
    assert(text[k] == mark[0]);
    lemma_quote_found(text, k);
    assert(text.take(k) == numeral);
    let after = text.skip(k + 1);
    assert(after.first() == text[k + 1]);
    assert(text[k + 1] == mark[1]);
    if signed {
        assert(after.skip(1) == seq![base] + digits);
    } else {
        assert(after == seq![base] + digits);
    }
}

/// The only quote in a text is found.
proof fn lemma_quote_found(text: Seq<char>, k: int)
    requires
        0 <= k < text.len(),
        text[k] == '\'',
        forall|i: int| 0 <= i < text.len() && #[trigger] text[i] == '\'' ==> i == k,
    ensures
        text.index_of_first('\'') == Some(k),
{
    text.index_of_first_ensures('\'');
    assert(text.contains('\''));
}

proof fn lemma_radix_ten(n: nat, max: nat)
    requires
        n <= max,
    ensures
        digits_value(nat_text(n), 10, max) == Ok::<nat, Seq<char>>(n),
    decreases n,
{
    let s = nat_text(n);
    if n < 10 {
        assert(s.drop_last() == Seq::<char>::empty());
        assert(digits_value(s.drop_last(), 10, max) == Ok::<nat, Seq<char>>(0));
    } else {
        lemma_radix_ten(n / 10, max);
        assert(s.drop_last() == nat_text(n / 10));
    }
}

} // verus!
