//! Constant values and their Veryl notation.

use vstd::arithmetic::power2::pow2;
use vstd::prelude::*;

use crate::text::{digit_char, nat_text};

verus! {

/// A constant: a bit pattern of a given width, some bits of which may be unknown.
pub struct Value {
    /// The bits, in 32-bit limbs, the lowest first.
    pub payload: Vec<u32>,
    /// The bits that are unknown (payload bit 0) or high-impedance (payload bit 1).
    pub mask_xz: Vec<u32>,
    pub width: u32,
    pub signed: bool,
    /// Whether the value is held as a big number, whatever its width.
    pub big: bool,
}

/// The number that a sequence of 32-bit limbs stands for, the lowest first.
pub open spec fn limbs_value(limbs: Seq<u32>) -> nat
    decreases limbs.len(),
{
    if limbs.len() == 0 {
        0
    } else {
        limbs.first() as nat + 0x1_0000_0000 * limbs_value(limbs.drop_first())
    }
}

/// The low 64 bits of a number.
pub open spec fn low_bits(n: nat) -> u64 {
    (n % 0x1_0000_0000_0000_0000) as u64
}

impl Value {
    /// The bit pattern as a number.
    pub open spec fn bits(self) -> nat {
        limbs_value(self.payload@)
    }

    /// The unknown and high-impedance bits as a number.
    pub open spec fn unknown(self) -> nat {
        limbs_value(self.mask_xz@)
    }

    /// Whether the value has no bits of its own and stands for any number of equal bits.
    pub open spec fn is_fill(self) -> bool {
        self.width == 0 && !self.big
    }

    /// Whether no bit lies beyond the width.
    pub open spec fn fits(self) -> bool {
        self.bits() < pow2(self.width as nat) && self.unknown() < pow2(self.width as nat)
    }
}

/// What precedes the digits of a sized literal: its width, a quote, its sign and its base.
pub open spec fn literal_head(width: nat, signed: bool) -> Seq<char> {
    nat_text(width) + (if signed {
        seq!['\'', 's', 'h']
    } else {
        seq!['\'', 'h']
    })
}

/// The hexadecimal digit for four bits. A digit with unknown bits is `x`, or `X` where only some
/// of its `full` bits are unknown; one with high-impedance bits is `z` or `Z`.
pub open spec fn hex_digit(bits: nat, unknown: nat, full: nat) -> char {
    let x = (unknown as u8) & !(bits as u8);
    let z = (unknown as u8) & (bits as u8);
    if x != 0 {
        if x == full {
            'x'
        } else {
            'X'
        }
    } else if z != 0 {
        if z == full {
            'z'
        } else {
            'Z'
        }
    } else if bits < 10 {
        digit_char(bits)
    } else {
        ('a' as int + bits - 10) as char
    }
}

/// The lowest `len` hexadecimal digits, the first of which has the bits `top`.
pub open spec fn hex_run(bits: nat, unknown: nat, len: nat, top: nat) -> Seq<char>
    decreases len,
{
    if len == 0 {
        Seq::empty()
    } else {
        hex_run(bits / 16, unknown / 16, (len - 1) as nat, top).push(
            hex_digit(
                bits % 16,
                unknown % 16,
                if len == 1 {
                    top
                } else {
                    15
                },
            ),
        )
    }
}

/// The digits of a sized hexadecimal literal.
pub open spec fn hex_digits(bits: nat, unknown: nat, width: nat) -> Seq<char> {
    hex_run(
        bits,
        unknown,
        (width + 3) / 4,
        if width % 4 == 0 {
            15
        } else if width % 4 == 1 {
            1
        } else if width % 4 == 2 {
            3
        } else {
            7
        },
    )
}

/// The character for a value without bits of its own, which stands for any number of equal bits.
pub open spec fn fill_char(payload: u64, mask_xz: u64) -> char {
    if mask_xz == 0 {
        if payload == 0 {
            '0'
        } else {
            '1'
        }
    } else if payload == 0 {
        'x'
    } else {
        'z'
    }
}

/// What `veryl_analyzer` writes for a value held in 64 bits in the format `{:x}`.
pub uninterp spec fn value_u64_hex(payload: u64, mask_xz: u64, width: u32, signed: bool) -> Seq<
    char,
>;

/// What `veryl_analyzer` writes for a value held as a big number in the format `{:x}`.
pub uninterp spec fn value_biguint_hex(
    payload: Seq<u32>,
    mask_xz: Seq<u32>,
    width: u32,
    signed: bool,
) -> Seq<char>;

/// The `LowerHex` format of `veryl_analyzer::value::Value::U64`. A value of width zero is written
/// as one of `'0`, `'1`, `'x` and `'z`. Any other text starts with the width, a quote, an `s`
/// where the value is signed, and `h`; where no bit lies beyond the width, the digits of all the
/// bits follow. What follows for bits beyond the width is only named.
#[verifier::external_body]
fn format_u64(payload: u64, mask_xz: u64, width: u32, signed: bool) -> (text: String)
    requires
        width <= 64,
    ensures
        text@ == value_u64_hex(payload, mask_xz, width, signed),
        width == 0 ==> text@ == seq!['\'', fill_char(payload, mask_xz)],
        width > 0 ==> literal_head(width as nat, signed).is_prefix_of(text@),
        width > 0 && payload < pow2(width as nat) && mask_xz < pow2(width as nat) ==> text@
            == literal_head(width as nat, signed) + hex_digits(
            payload as nat,
            mask_xz as nat,
            width as nat,
        ),
{
    let value = veryl_analyzer::value::ValueU64 { payload, mask_xz, width, signed };
    format!("{:x}", veryl_analyzer::value::Value::U64(value))
}

/// The `LowerHex` format of `veryl_analyzer::value::Value::BigUint`. The text starts with the
/// width, a quote, an `s` where the value is signed, and `h`; where no bit lies beyond the width,
/// the digits of all the bits follow. What follows for bits beyond the width is only named.
#[verifier::external_body]
fn format_biguint(payload: &Vec<u32>, mask_xz: &Vec<u32>, width: u32, signed: bool) -> (text:
    String)
    ensures
        text@ == value_biguint_hex(payload@, mask_xz@, width, signed),
        literal_head(width as nat, signed).is_prefix_of(text@),
        limbs_value(payload@) < pow2(width as nat) && limbs_value(mask_xz@) < pow2(width as nat)
            ==> text@ == literal_head(width as nat, signed) + hex_digits(
            limbs_value(payload@),
            limbs_value(mask_xz@),
            width as nat,
        ),
{
    let mut value = veryl_analyzer::value::ValueBigUint::new(0, width as usize, signed);
    value.payload.assign_from_slice(payload);
    value.mask_xz.assign_from_slice(mask_xz);
    format!("{:x}", veryl_analyzer::value::Value::BigUint(value))
}

/// The Veryl notation of a value. A value with bits beyond its width has the text that
/// `veryl_analyzer` gives it.
pub open spec fn value_text(value: Value) -> Seq<char> {
    if value.is_fill() {
        seq!['\'', fill_char(low_bits(value.bits()), low_bits(value.unknown()))]
    } else if value.fits() {
        literal_head(value.width as nat, value.signed) + hex_digits(
            value.bits(),
            value.unknown(),
            value.width as nat,
        )
    } else if value.width <= 64 && !value.big {
        value_u64_hex(
            low_bits(value.bits()),
            low_bits(value.unknown()),
            value.width,
            value.signed,
        )
    } else {
        value_biguint_hex(value.payload@, value.mask_xz@, value.width, value.signed)
    }
}

/// The low 64 bits of a sequence of limbs.
fn low_u64(limbs: &Vec<u32>) -> (r: u64)
    ensures
        r == low_bits(limbs_value(limbs@)),
{
    let low: u64 = if limbs.len() > 0 {
        limbs[0] as u64
    } else {
        0
    };
    let high: u64 = if limbs.len() > 1 {
        limbs[1] as u64
    } else {
        0
    };
    proof {
        reveal_with_fuel(limbs_value, 3);
        if limbs.len() > 1 {
            let rest = limbs_value(limbs@.drop_first().drop_first());
            assert(limbs_value(limbs@) == low + 0x1_0000_0000 * high + 0x1_0000_0000_0000_0000
                * rest);
            vstd::arithmetic::div_mod::lemma_mod_multiples_vanish(
                rest as int,
                low + 0x1_0000_0000 * high,
                0x1_0000_0000_0000_0000,
            );
        }
    }
    low + 0x1_0000_0000 * high
}

/// Writes a value in Veryl notation.
pub fn format_value(value: &Value) -> (text: String)
    ensures
        text@ == value_text(*value),
        !value.is_fill() ==> literal_head(value.width as nat, value.signed).is_prefix_of(text@),
{
    if value.width <= 64 && !value.big {
        let payload = low_u64(&value.payload);
        let mask_xz = low_u64(&value.mask_xz);
        proof {
            lemma_low_bits_of_narrow(value.bits(), value.width as nat);
            lemma_low_bits_of_narrow(value.unknown(), value.width as nat);
        }
        format_u64(payload, mask_xz, value.width, value.signed)
    } else {
        format_biguint(&value.payload, &value.mask_xz, value.width, value.signed)
    }
}

/// A number of at most 64 bits is its own low 64 bits.
proof fn lemma_low_bits_of_narrow(n: nat, width: nat)
    requires
        width <= 64,
    ensures
        n < pow2(width) ==> low_bits(n) == n,
{
    vstd::arithmetic::power2::lemma2_to64();
    vstd::arithmetic::power2::lemma2_to64_rest();
    if width < 64 {
        vstd::arithmetic::power2::lemma_pow2_strictly_increases(width, 64);
    }
}

/// Law: each further limb counts for 32 bits more than the one before it.
pub proof fn law_limbs(limbs: Seq<u32>, limb: u32)
    ensures
        limbs_value(Seq::empty()) == 0,
        limbs_value(limbs.push(limb)) == limbs_value(limbs) + limb * pow2(32 * limbs.len()),
    decreases limbs.len(),
{
    let all = limbs.push(limb);
    let base: int = 0x1_0000_0000;
    vstd::arithmetic::power2::lemma2_to64();
    assert(pow2(0) == 1 && pow2(32) == base);
    if limbs.len() == 0 {
        assert(all.drop_first() == Seq::<u32>::empty());
        assert(limbs_value(Seq::<u32>::empty()) == 0);
        assert(all.first() == limb);
        assert(limb * pow2(32 * limbs.len()) == limb) by {
            assert(32 * limbs.len() == 0);
        }
    } else {
        let rest = limbs.drop_first();
        law_limbs(rest, limb);
        assert(all.drop_first() == rest.push(limb));
        assert(all.first() == limbs.first());
        let p = pow2(32 * rest.len()) as int;
        let v = limbs_value(rest) as int;
        vstd::arithmetic::power2::lemma_pow2_adds(32, 32 * rest.len());
        assert(32 + 32 * rest.len() == 32 * limbs.len());
        assert(pow2(32 * limbs.len()) == base * p);
        assert(base * (v + limb * p) == base * v + limb * (base * p)) by (nonlinear_arith);
    }
}

} // verus!
