//! Reading and writing fields of bits inside a 64-bit word.
//!
//! A field is named by its `width` (how many bits) and its `lsb` (the index
//! of its least significant bit). Unsigned fields hold a value in
//! `[0, 2^width)`, signed fields a two's-complement value in
//! `[-2^(width-1), 2^(width-1))`.

use vstd::prelude::*;

verus! {

use vstd::arithmetic::power2::{pow2, lemma_pow2_pos, lemma2_to64, lemma_pow2_adds};
use vstd::bits::{lemma_u64_shl_is_mul, lemma_u64_pow2_no_overflow};
use crate::word_math::{lemma_split, lemma_replace, lemma_room_above};

/// `n` can be written with `width` unsigned bits.
pub open spec fn fits_unsigned(n: int, width: nat) -> bool {
    0 <= n < pow2(width)
}

/// `n` can be written with `width` signed (two's-complement) bits.
/// Zero bits hold the value 0 only.
pub open spec fn fits_signed(n: int, width: nat) -> bool {
    if width == 0 {
        n == 0
    } else {
        -pow2((width - 1) as nat) <= n < pow2((width - 1) as nat)
    }
}

/// The unsigned value held by the `width` bits of `word` that begin at
/// bit `lsb`.
pub open spec fn field_bits(word: u64, width: nat, lsb: nat) -> nat {
    (word as nat / pow2(lsb)) % pow2(width)
}

/// The signed (two's-complement) value held by the `width` bits of `word`
/// that begin at bit `lsb`.
pub open spec fn signed_field(word: u64, width: nat, lsb: nat) -> int {
    let bits = field_bits(word, width, lsb);
    if width > 0 && bits >= pow2((width - 1) as nat) {
        bits - pow2(width)
    } else {
        bits as int
    }
}

/// `word` with the `width` bits that begin at bit `lsb` replaced by `bits`:
/// the bits above the field and the bits below it are those of `word`.
pub open spec fn with_field(word: u64, width: nat, lsb: nat, bits: nat) -> int {
    let x = word as int;
    (x / pow2(lsb + width) as int) * pow2(lsb + width) + bits * pow2(lsb) + x % pow2(lsb) as int
}

/// The facts about `with_field` that its users need: it stays a `u64`, the
/// field reads back as `bits`, and the bits outside the field are kept.
pub proof fn lemma_with_field(word: u64, width: nat, lsb: nat, bits: nat)
    requires
        width + lsb <= 64,
        bits < pow2(width),
    ensures
        0 <= with_field(word, width, lsb, bits) <= u64::MAX,
        field_bits(with_field(word, width, lsb, bits) as u64, width, lsb) == bits,
        with_field(word, width, lsb, bits) % pow2(lsb) as int == word as nat % pow2(lsb),
        with_field(word, width, lsb, bits) / pow2(lsb + width) as int == word as nat / pow2(
            lsb + width,
        ),
{
    let p = pow2(lsb) as int;
    let q = pow2(width) as int;
    lemma_pow2_pos(lsb);
    lemma_pow2_pos(width);
    lemma_pow2_adds(lsb, width);
    lemma_replace(word as int, p, q, bits as int);
    let m = pow2((64 - (lsb + width)) as nat) as int;
    lemma_pow2_pos((64 - (lsb + width)) as nat);
    lemma_pow2_adds(lsb + width, (64 - (lsb + width)) as nat);
    lemma2_to64();
    lemma_room_above(word as int, p * q, m);
}

/// Writing back the value just read leaves the word as it was.
pub proof fn law_rewrite_same_field(word: u64, width: nat, lsb: nat)
    ensures
        with_field(word, width, lsb, field_bits(word, width, lsb)) == word,
{
    lemma_pow2_pos(lsb);
    lemma_pow2_pos(width);
    lemma_pow2_adds(lsb, width);
    lemma_split(word as int, pow2(lsb) as int, pow2(width) as int);
}

/// Every value read from a field fits in the field's width, unsigned and
/// signed.
pub proof fn law_fields_fit(word: u64, width: nat, lsb: nat)
    ensures
        fits_unsigned(field_bits(word, width, lsb) as int, width),
        fits_signed(signed_field(word, width, lsb), width),
{
    lemma_pow2_pos(width);
    vstd::arithmetic::div_mod::lemma_mod_bound(
        (word as nat / pow2(lsb)) as int,
        pow2(width) as int,
    );
    if width > 0 {
        vstd::arithmetic::power2::lemma_pow2_unfold(width);
    } else {
        lemma2_to64();
    }
}

/// Reading the field that `newu` just wrote gives back the value written.
pub proof fn law_getu_newu(word: u64, width: nat, lsb: nat, value: nat)
    requires
        width + lsb <= 64,
        fits_unsigned(value as int, width),
    ensures
        field_bits(with_field(word, width, lsb, value) as u64, width, lsb) == value,
{
    lemma_with_field(word, width, lsb, value);
}

/// Reading the signed field that `news` just wrote gives back the value
/// written.
pub proof fn law_gets_news(word: u64, width: nat, lsb: nat, value: int)
    requires
        width + lsb <= 64,
        fits_signed(value, width),
    ensures
        signed_field(
            with_field(word, width, lsb, (value % (pow2(width) as int)) as nat) as u64,
            width,
            lsb,
        ) == value,
{
    let q = pow2(width) as int;
    lemma_pow2_pos(width);
    vstd::arithmetic::div_mod::lemma_mod_bound(value, q);
    let bits = value % q;
    lemma_with_field(word, width, lsb, bits as nat);
    if width == 0 {
        lemma2_to64();
    } else {
        vstd::arithmetic::power2::lemma_pow2_unfold(width);
        if value >= 0 {
            vstd::arithmetic::div_mod::lemma_fundamental_div_mod_converse(value, q, 0, value);
        } else {
            vstd::arithmetic::div_mod::lemma_fundamental_div_mod_converse(value, q, -1, value + q);
        }
    }
}

/// Writing a field leaves every field that does not overlap it unchanged.
pub proof fn law_disjoint_fields(
    word: u64,
    width: nat,
    lsb: nat,
    bits: nat,
    width2: nat,
    lsb2: nat,
)
    requires
        width + lsb <= 64,
        width2 + lsb2 <= 64,
        bits < pow2(width),
        lsb2 >= lsb + width || lsb2 + width2 <= lsb,
    ensures
        field_bits(with_field(word, width, lsb, bits) as u64, width2, lsb2) == field_bits(
            word,
            width2,
            lsb2,
        ),
        signed_field(with_field(word, width, lsb, bits) as u64, width2, lsb2) == signed_field(
            word,
            width2,
            lsb2,
        ),
{
    lemma_with_field(word, width, lsb, bits);
    let r = with_field(word, width, lsb, bits);
    let x = word as int;
    if lsb2 >= lsb + width {
        let h = lsb + width;
        let d = (lsb2 - h) as nat;
        lemma_pow2_pos(h);
        lemma_pow2_pos(d);
        lemma_pow2_adds(h, d);
        vstd::arithmetic::div_mod::lemma_div_denominator(r, pow2(h) as int, pow2(d) as int);
        vstd::arithmetic::div_mod::lemma_div_denominator(x, pow2(h) as int, pow2(d) as int);
    } else {
        let e = (lsb - lsb2 - width2) as nat;
        lemma_pow2_pos(lsb2);
        lemma_pow2_pos(width2);
        lemma_pow2_pos(e);
        lemma_pow2_adds(width2, e);
        lemma_pow2_adds(lsb2, width2 + e);
        crate::word_math::lemma_digit_below(r, pow2(lsb2) as int, pow2(width2) as int, pow2(e) as int);
        crate::word_math::lemma_digit_below(x, pow2(lsb2) as int, pow2(width2) as int, pow2(e) as int);
    }
}

/// `1 << k` is `2^k` for every shift that stays inside a `u64`.
proof fn lemma_one_shl(k: u64)
    requires
        k < 64,
    ensures
        (1u64 << k) == pow2(k as nat),
        0 < pow2(k as nat) <= 0x8000_0000_0000_0000,
{
    lemma_u64_pow2_no_overflow(k as nat);
    lemma_pow2_pos(k as nat);
    assert(1u64 * pow2(k as nat) == pow2(k as nat));
    lemma_u64_shl_is_mul(1, k);
    lemma2_to64();
    vstd::arithmetic::power2::lemma2_to64_rest();
    if k < 63 {
        vstd::arithmetic::power2::lemma_pow2_strictly_increases(k as nat, 63);
    }
}

/// The mask of the `width` low bits, `!(MAX << width)`, is `2^width - 1`.
proof fn lemma_low_mask(width: u64)
    requires
        width < 64,
    ensures
        !(u64::MAX << width) == pow2(width as nat) - 1,
        !(u64::MAX << width) == vstd::bits::low_bits_mask(width as nat),
{
    lemma_one_shl(width);
    assert(!(u64::MAX << width) + 1 == (1u64 << width)) by (bit_vector)
        requires
            width < 64,
    ;
}

/// Shifting right and masking reads the field.
proof fn lemma_shr_mask_is_field(word: u64, width: u64, lsb: u64)
    requires
        width < 64,
        lsb < 64,
    ensures
        ((word >> lsb) & !(u64::MAX << width)) == field_bits(word, width as nat, lsb as nat),
{
    lemma_low_mask(width);
    vstd::bits::lemma_u64_shr_is_div(word, lsb);
    lemma_one_shl(width);
    vstd::bits::lemma_u64_low_bits_mask_is_mod(word >> lsb, width as nat);
}

/// Returns true iff the unsigned value `n` fits into `width` unsigned bits.
pub fn fitsu(n: u64, width: u64) -> (fits: bool)
    ensures
        fits == fits_unsigned(n as int, width as nat),
{
    if width >= 64 {
        proof {
            lemma2_to64();
            if width > 64 {
                vstd::arithmetic::power2::lemma_pow2_strictly_increases(64, width as nat);
            }
        }
        true
    } else {
        proof {
            lemma_one_shl(width);
        }
        let max: u64 = (1u64 << width) - 1;
        n <= max
    }
}

/// Returns true iff the signed value `n` fits into `width` signed bits.
pub fn fitss(n: i64, width: u64) -> (fits: bool)
    ensures
        fits == fits_signed(n as int, width as nat),
{
    if width == 0 {
        n == 0
    } else if width >= 64 {
        proof {
            vstd::arithmetic::power2::lemma2_to64_rest();
            if width > 64 {
                vstd::arithmetic::power2::lemma_pow2_strictly_increases(63, (width - 1) as nat);
            }
        }
        true
    } else {
        proof {
            lemma_one_shl((width - 1) as u64);
            lemma_one_shl(63);
            vstd::arithmetic::power2::lemma_pow2_strictly_increases((width - 1) as nat, 63);
        }
        let half: i64 = (1u64 << (width - 1)) as i64;
        assert(half == pow2((width - 1) as nat));
        -half <= n && n < half
    }
}

/// Retrieve an unsigned value from `word`, represented by `width` bits
/// beginning at least-significant bit `lsb`.
#[verifier::rlimit(100)]
pub fn getu(word: u64, width: u64, lsb: u64) -> (value: u64)
    requires
        width + lsb <= 64,
    ensures
        value == field_bits(word, width as nat, lsb as nat),
{
    if width == 0 {
        proof {
            vstd::arithmetic::power2::lemma2_to64();
        }
        return 0;
    }
    let left: u64 = 64 - (lsb + width);
    let right: u64 = 64 - width;
    let value = word << left >> right;
    proof {
        if width == 64 {
            assert(left == 0 && right == 0);
            assert(word << 0u64 >> 0u64 == word) by (bit_vector);
            vstd::arithmetic::power2::lemma2_to64();
            assert(value == word);
            assert(pow2(0) == 1 && pow2(64) == 0x1_0000_0000_0000_0000);
            assert(word as nat / 1 == word);
            assert(field_bits(word, 64, 0) == word);
        } else {
            assert((word << left) >> right == (word >> lsb) & !(u64::MAX << width)) by (bit_vector)
                requires
                    1 <= width < 64,
                    left + lsb + width == 64,
                    right + width == 64,
            ;
            lemma_shr_mask_is_field(word, width, lsb);
        }
    }
    value
}

/// Retrieve a signed value from `word`, represented by `width` bits
/// beginning at least-significant bit `lsb`.
pub fn gets(word: u64, width: u64, lsb: u64) -> (value: i64)
    requires
        width + lsb <= 64,
    ensures
        value == signed_field(word, width as nat, lsb as nat),
{
    if width == 0 {
        proof {
            vstd::arithmetic::power2::lemma2_to64();
        }
        return 0;
    }
    let bits = getu(word, width, lsb);
    proof {
        lemma_one_shl((width - 1) as u64);
        vstd::arithmetic::power2::lemma_pow2_unfold(width as nat);
        vstd::arithmetic::power2::lemma2_to64_rest();
        lemma_pow2_pos(width as nat);
        vstd::arithmetic::div_mod::lemma_mod_bound(
            (word as nat / pow2(lsb as nat)) as int,
            pow2(width as nat) as int,
        );
    }
    let half: u64 = 1u64 << (width - 1);
    if bits < half {
        bits as i64
    } else {
        ((bits as i128) - 2 * (half as i128)) as i64
    }
}

/// Puts `bits`, which fit in `width` bits, into the field of `word` that
/// begins at bit `lsb`.
fn replace_field(word: u64, width: u64, lsb: u64, bits: u64) -> (result: u64)
    requires
        width + lsb <= 64,
        bits < pow2(width as nat),
    ensures
        result == with_field(word, width as nat, lsb as nat, bits as nat),
{
    proof {
        lemma_with_field(word, width as nat, lsb as nat, bits as nat);
    }
    if width == 0 {
        proof {
            lemma_pow2_pos(lsb as nat);
            lemma2_to64();
            lemma_split(word as int, pow2(lsb as nat) as int, 1);
        }
        return word;
    }
    let field = getu(word, width, lsb);
    proof {
        let p = pow2(lsb as nat) as int;
        let q = pow2(width as nat) as int;
        let x = word as int;
        lemma_pow2_pos(lsb as nat);
        lemma_pow2_pos(width as nat);
        lemma_pow2_adds(lsb as nat, width as nat);
        lemma_split(word as int, p, q);
        assert(field * p <= x) by (nonlinear_arith)
            requires
                x == (x / (p * q)) * (p * q) + field * p + x % p,
                0 <= x / (p * q),
                0 < p * q,
                0 <= x % p,
        ;
        assert(bits * p <= with_field(word, width as nat, lsb as nat, bits as nat)) by (nonlinear_arith)
            requires
                with_field(word, width as nat, lsb as nat, bits as nat)
                    == (x / (p * q)) * (p * q) + bits * p + x % p,
                0 <= x / (p * q),
                0 < p * q,
                0 <= x % p,
        ;
        lemma_u64_shl_is_mul(field, lsb);
        lemma_u64_shl_is_mul(bits, lsb);
    }
    word - (field << lsb) + (bits << lsb)
}

/// Return a modified version of the unsigned `word`, which has been updated
/// so that the `width` bits beginning at least-significant bit `lsb` now
/// contain the unsigned `value`. Returns `None` iff the value does not fit in
/// `width` unsigned bits.
pub fn newu(word: u64, width: u64, lsb: u64, value: u64) -> (result: Option<u64>)
    requires
        width + lsb <= 64,
    ensures
        result is Some <==> fits_unsigned(value as int, width as nat),
        result matches Some(w) ==> w == with_field(word, width as nat, lsb as nat, value as nat),
{
    if !fitsu(value, width) {
        return None;
    }
    Some(replace_field(word, width, lsb, value))
}

/// The two's-complement bits of `value` in a `u64` are `value mod 2^64`.
proof fn lemma_i64_as_u64(value: i64)
    ensures
        (value as u64) as int == (value as int) % 0x1_0000_0000_0000_0000int,
{
    let raw = value as u64;
    if value >= 0 {
        assert(value >= 0 ==> raw as int == value as int) by (bit_vector)
            requires
                raw == value as u64,
        ;
        vstd::arithmetic::div_mod::lemma_fundamental_div_mod_converse(
            value as int,
            0x1_0000_0000_0000_0000int,
            0,
            value as int,
        );
    } else {
        assert(value < 0 ==> raw as int == value as int + 0x1_0000_0000_0000_0000int) by (bit_vector)
            requires
                raw == value as u64,
        ;
        vstd::arithmetic::div_mod::lemma_fundamental_div_mod_converse(
            value as int,
            0x1_0000_0000_0000_0000int,
            -1,
            raw as int,
        );
    }
}

/// Return a modified version of the unsigned `word`, which has been updated
/// so that the `width` bits beginning at least-significant bit `lsb` now
/// contain the signed `value`. Returns `None` iff the value does not fit in
/// `width` signed bits.
pub fn news(word: u64, width: u64, lsb: u64, value: i64) -> (result: Option<u64>)
    requires
        width + lsb <= 64,
    ensures
        result is Some <==> fits_signed(value as int, width as nat),
        result matches Some(w) ==> w == with_field(
            word,
            width as nat,
            lsb as nat,
            ((value as int) % (pow2(width as nat) as int)) as nat,
        ),
{
    if !fitss(value, width) {
        return None;
    }
    let raw: u64 = value as u64;
    proof {
        lemma_i64_as_u64(value);
        lemma2_to64();
        lemma_pow2_pos(width as nat);
    }
    let bits: u64 = if width >= 64 {
        raw
    } else {
        proof {
            let q = pow2(width as nat) as int;
            let m = pow2((64 - width) as nat) as int;
            lemma_low_mask(width);
            lemma_one_shl(width);
            vstd::bits::lemma_u64_low_bits_mask_is_mod(raw, width as nat);
            lemma_pow2_pos((64 - width) as nat);
            lemma_pow2_adds(width as nat, (64 - width) as nat);
            vstd::arithmetic::div_mod::lemma_mod_mod(value as int, q, m);
        }
        raw & !(u64::MAX << width)
    };
    proof {
        vstd::arithmetic::div_mod::lemma_mod_bound(value as int, pow2(width as nat) as int);
    }
    Some(replace_field(word, width, lsb, bits))
}

} // verus!
