//! Whole numbers as a property list stores them.

use vstd::arithmetic::power2::{
    lemma2_to64, lemma2_to64_rest, lemma_pow2_adds, lemma_pow2_pos,
    lemma_pow2_strictly_increases, pow2,
};
use vstd::prelude::*;
use vstd::std_specs::convert::FromSpec;
use vstd::std_specs::convert::FromSpecImpl;

verus! {

/// A whole number between the least `i64` and the greatest `u64`.
#[derive(Clone, Copy, Debug, PartialEq, Eq, Structural, Hash)]
pub struct Integer {
    value: i128,
}

impl View for Integer {
    type V = int;

    closed spec fn view(&self) -> int {
        self.value as int
    }
}

impl Integer {
    #[verifier::type_invariant]
    spec fn in_range(self) -> bool {
        i64::MIN <= self.value <= u64::MAX
    }

    /// The `Integer` that equals `value`.
    pub fn from_signed(value: i64) -> (r: Integer)
        ensures
            r@ == value,
    {
        Integer { value: value as i128 }
    }

    /// The `Integer` that equals `value`.
    pub fn from_unsigned(value: u64) -> (r: Integer)
        ensures
            r@ == value,
    {
        Integer { value: value as i128 }
    }

    /// The number as an `i64`, where it is one.
    pub fn as_signed(&self) -> (r: Option<i64>)
        ensures
            i64::MIN <= self@ <= u64::MAX,
            r == (if self@ <= i64::MAX { Some(self@ as i64) } else { None::<i64> }),
    {
        proof {
            use_type_invariant(self);
        }
        if self.value <= 0x7fff_ffff_ffff_ffffi128 {
            Some(self.value as i64)
        } else {
            None
        }
    }

    /// The number as a `u64`, where it is one.
    pub fn as_unsigned(&self) -> (r: Option<u64>)
        ensures
            i64::MIN <= self@ <= u64::MAX,
            r == (if self@ >= 0 { Some(self@ as u64) } else { None::<u64> }),
    {
        proof {
            use_type_invariant(self);
        }
        if self.value >= 0 {
            Some(self.value as u64)
        } else {
            None
        }
    }

    /// Two `Integer`s that stand for one number are one value.
    pub proof fn lemma_view_injective(a: Integer, b: Integer)
        requires
            a@ == b@,
        ensures
            a == b,
    {
    }

    /// What `Integer::from` gives stands for the number it was given.
    pub proof fn lemma_from_views(signed: i64, unsigned: u64)
        ensures
            <Integer as FromSpec<i64>>::from_spec(signed)@ == signed,
            <Integer as FromSpec<u64>>::from_spec(unsigned)@ == unsigned,
    {
    }
}

impl From<i64> for Integer {
    fn from(value: i64) -> (r: Integer) {
        Integer { value: value as i128 }
    }
}

impl FromSpecImpl<i64> for Integer {
    open spec fn obeys_from_spec() -> bool {
        true
    }

    closed spec fn from_spec(value: i64) -> Integer {
        Integer { value: value as i128 }
    }
}

impl From<u64> for Integer {
    fn from(value: u64) -> (r: Integer) {
        Integer { value: value as i128 }
    }
}

impl FromSpecImpl<u64> for Integer {
    open spec fn obeys_from_spec() -> bool {
        true
    }

    closed spec fn from_spec(value: u64) -> Integer {
        Integer { value: value as i128 }
    }
}

/// The place of the highest bit that is set in `m`, the lowest place being 0.
pub open spec fn highest_bit(m: nat) -> nat
    decreases m,
{
    if m <= 1 {
        0
    } else {
        1 + highest_bit(m / 2)
    }
}

/// The binary64 encoding of the number that `bits` encode in binary32.
///
/// A binary32 number is a sign, eight bits of exponent and twenty-three bits
/// of fraction; a binary64 number a sign, eleven bits of exponent and
/// fifty-two of fraction. Zeros and infinities keep their sign. Of something
/// that is not a number the sign and the fraction are kept, and the fraction's
/// highest bit is set. A number too small for a binary32 exponent gets the
/// exponent that its highest fraction bit calls for.
pub open spec fn widen_single(bits: u32) -> u64 {
    let sign: int = (bits / 0x8000_0000) as int;
    let exponent: int = ((bits / 0x80_0000) % 0x100) as int;
    let fraction: int = (bits % 0x80_0000) as int;
    let magnitude: int = if exponent == 0xff {
        if fraction == 0 {
            0x7ff0_0000_0000_0000
        } else {
            0x7ff8_0000_0000_0000 + (fraction % 0x40_0000) * 0x2000_0000
        }
    } else if exponent == 0 {
        if fraction == 0 {
            0
        } else {
            let top = highest_bit(fraction as nat);
            (874 + top) * pow2(52) + (fraction - pow2(top)) * pow2((52 - top) as nat)
        }
    } else {
        (exponent + 896) * 0x10_0000_0000_0000 + fraction * 0x2000_0000
    };
    (sign * 0x8000_0000_0000_0000 + magnitude) as u64
}

/// A number between two neighbouring powers of two has its highest bit at the
/// place of the lower one.
pub proof fn lemma_highest_bit(m: nat, top: nat)
    requires
        pow2(top) <= m < pow2(top + 1),
    ensures
        highest_bit(m) == top,
    decreases top,
{
    lemma2_to64();
    if top == 0 {
    } else {
        lemma_pow2_adds((top - 1) as nat, 1);
        lemma_pow2_adds(top, 1);
        lemma_pow2_pos((top - 1) as nat);
        assert(m >= 2);
        lemma_highest_bit(m / 2, (top - 1) as nat);
    }
}

/// A number that is at least one lies between the power of two at the place
/// of its highest bit and the next one.
pub proof fn lemma_highest_bit_bounds(m: nat)
    requires
        m >= 1,
    ensures
        pow2(highest_bit(m)) <= m < pow2(highest_bit(m) + 1),
    decreases m,
{
    lemma2_to64();
    if m > 1 {
        lemma_highest_bit_bounds(m / 2);
        let top = highest_bit(m / 2);
        lemma_pow2_adds(top, 1);
        lemma_pow2_adds(top + 1, 1);
        assert(highest_bit(m) == top + 1);
    }
}

/// How far from zero the number lies that `bits` encode in binary32, counted
/// in units of two to the power -149, the least distance that binary32 can
/// tell; `None` for an infinity and for what is not a number.
pub open spec fn single_magnitude(bits: u32) -> Option<int> {
    let exponent: int = ((bits / 0x80_0000) % 0x100) as int;
    let fraction: int = (bits % 0x80_0000) as int;
    if exponent == 0xff {
        None
    } else if exponent == 0 {
        Some(fraction)
    } else {
        Some((fraction + 0x80_0000) * pow2((exponent - 1) as nat))
    }
}

/// How far from zero the number lies that `bits` encode in binary64, counted
/// in units of two to the power -1074, the least distance that binary64 can
/// tell; `None` for an infinity and for what is not a number.
pub open spec fn double_magnitude(bits: u64) -> Option<int> {
    let exponent: int = ((bits / 0x10_0000_0000_0000) % 0x800) as int;
    let fraction: int = (bits % 0x10_0000_0000_0000) as int;
    if exponent == 0x7ff {
        None
    } else if exponent == 0 {
        Some(fraction)
    } else {
        Some((fraction + 0x10_0000_0000_0000) * pow2((exponent - 1) as nat))
    }
}

/// Widening keeps the number: the sign stays, a number stays as far from zero
/// as it was, an infinity stays an infinity, and what is not a number stays
/// so.
pub proof fn lemma_widen_keeps_the_number(bits: u32)
    ensures
        widen_single(bits) / 0x8000_0000_0000_0000 == bits / 0x8000_0000,
        match single_magnitude(bits) {
            Some(distance) => double_magnitude(widen_single(bits)) == Some(distance * pow2(925)),
            None => double_magnitude(widen_single(bits)) is None && ((widen_single(bits)
                % 0x10_0000_0000_0000 == 0) <==> (bits % 0x80_0000 == 0)),
        },
{
    lemma2_to64();
    lemma2_to64_rest();
    let sign: int = (bits / 0x8000_0000) as int;
    let exponent: int = ((bits / 0x80_0000) % 0x100) as int;
    let fraction: int = (bits % 0x80_0000) as int;
    if exponent == 0xff {
    } else if exponent == 0 {
        if fraction == 0 {
            assert(0 * pow2(925) == 0);
        } else {
            let top = highest_bit(fraction as nat);
            lemma_highest_bit_bounds(fraction as nat);
            if top > 23 {
                lemma_pow2_strictly_increases(23, top);
            }
            assert(top <= 22);
            lemma_pow2_adds(top, 1);
            let rest = fraction - pow2(top);
            let unit = pow2((52 - top) as nat);
            lemma_pow2_adds(top, (52 - top) as nat);
            lemma_pow2_adds(top + 1, (52 - top) as nat);
            lemma_pow2_adds((52 - top) as nat, 873 + top);
            lemma_pow2_pos((52 - top) as nat);
            assert(0 <= rest * unit < 0x10_0000_0000_0000) by (nonlinear_arith)
                requires
                    0 <= rest,
                    rest + pow2(top) < pow2(top + 1),
                    pow2(top + 1) == 2 * pow2(top),
                    pow2(top) * unit == 0x10_0000_0000_0000,
                    unit > 0,
            ;
            let wide = sign * 0x8000_0000_0000_0000 + (874 + top) * 0x10_0000_0000_0000 + rest
                * unit;
            assert(widen_single(bits) == wide);
            assert((wide / 0x10_0000_0000_0000) % 0x800 == 874 + top);
            assert(wide % 0x10_0000_0000_0000 == rest * unit);
            assert((rest * unit + 0x10_0000_0000_0000) * pow2(873 + top) == fraction * pow2(925))
                by (nonlinear_arith)
                requires
                    rest + pow2(top) == fraction,
                    pow2(top) * unit == 0x10_0000_0000_0000,
                    unit * pow2(873 + top) == pow2(925),
            ;
        }
    } else {
        let wide = sign * 0x8000_0000_0000_0000 + (exponent + 896) * 0x10_0000_0000_0000
            + fraction * 0x2000_0000;
        assert(widen_single(bits) == wide);
        assert((wide / 0x10_0000_0000_0000) % 0x800 == exponent + 896);
        assert(wide % 0x10_0000_0000_0000 == fraction * 0x2000_0000);
        lemma_pow2_adds(29, (exponent + 895) as nat);
        lemma_pow2_adds((exponent - 1) as nat, 925);
        assert((fraction * 0x2000_0000 + 0x10_0000_0000_0000) * pow2((exponent + 895) as nat) == (
        fraction + 0x80_0000) * pow2((exponent - 1) as nat) * pow2(925)) by (nonlinear_arith)
            requires
                0x2000_0000 * pow2((exponent + 895) as nat) == pow2((exponent - 1) as nat) * pow2(
                    925,
                ),
        ;
    }
}

/// The binary64 exponent and fraction of a number that is too small for a
/// binary32 exponent, `fraction` being its binary32 fraction.
fn subnormal_magnitude(fraction: u32) -> (magnitude: u64)
    requires
        0 < fraction < 0x80_0000,
    ensures
        magnitude == (874 + highest_bit(fraction as nat)) * pow2(52) + (fraction - pow2(
            highest_bit(fraction as nat),
        )) * pow2((52 - highest_bit(fraction as nat)) as nat),
        magnitude < 0x7ff0_0000_0000_0000,
{
    let mut scaled: u32 = fraction;
    let mut shifts: u32 = 0;
    proof {
        lemma2_to64();
        assert(fraction * 1 == fraction);
    }
    while scaled < 0x80_0000
        invariant
            shifts <= 23,
            0 < scaled < 0x100_0000,
            scaled == fraction * pow2(shifts as nat),
            scaled < 0x80_0000 ==> shifts < 23,
            0 < fraction < 0x80_0000,
        decreases 0x100_0000 - scaled,
    {
        proof {
            lemma_pow2_adds(shifts as nat, 1);
            lemma2_to64();
            assert(fraction * (pow2(shifts as nat) * 2) == (fraction * pow2(
                shifts as nat,
            )) * 2) by (nonlinear_arith);
            if shifts == 22 {
                assert(pow2(23) == 0x80_0000);
                assert(fraction * pow2(23) >= pow2(23)) by (nonlinear_arith)
                    requires
                        fraction >= 1,
                ;
            }
        }
        scaled = scaled * 2;
        shifts = shifts + 1;
    }
    proof {
        let top = (23 - shifts) as nat;
        let unit = pow2(shifts as nat);
        lemma2_to64();
        lemma2_to64_rest();
        lemma_pow2_pos(shifts as nat);
        lemma_pow2_adds(top, shifts as nat);
        lemma_pow2_adds(top + 1, shifts as nat);
        lemma_pow2_adds((52 - top) as nat, top);
        lemma_pow2_adds(29, shifts as nat);
        assert(pow2(top) <= fraction) by (nonlinear_arith)
            requires
                pow2(top) * unit <= fraction * unit,
                unit > 0,
        ;
        assert(fraction < pow2(top + 1)) by (nonlinear_arith)
            requires
                fraction * unit < pow2(top + 1) * unit,
                unit > 0,
        ;
        lemma_highest_bit(fraction as nat, top);
        assert((fraction - pow2(top)) * pow2((52 - top) as nat) == (scaled - 0x80_0000)
            * 0x2000_0000) by (nonlinear_arith)
            requires
                scaled == fraction * unit,
                pow2(top) * unit == 0x80_0000,
                pow2((52 - top) as nat) == 0x2000_0000 * unit,
        ;
    }
    (897 - shifts) as u64 * 0x10_0000_0000_0000 + (scaled - 0x80_0000) as u64
        * 0x2000_0000
}

/// A binary64 floating-point number, held as its sixty-four bits. Two of them
/// are equal where their bits are: a zero differs from the zero of the other
/// sign, and what is not a number equals what has the same bits.
#[derive(Clone, Copy, Debug, PartialEq, Eq, Structural, Hash)]
pub struct Real {
    bits: u64,
}

impl View for Real {
    type V = u64;

    closed spec fn view(&self) -> u64 {
        self.bits
    }
}

impl Real {
    /// The number whose binary64 encoding is `bits`.
    pub fn from_bits(bits: u64) -> (r: Real)
        ensures
            r@ == bits,
    {
        Real { bits }
    }

    /// The number whose binary32 encoding is `bits`.
    pub fn from_single_bits(bits: u32) -> (r: Real)
        ensures
            r@ == widen_single(bits),
    {
        let sign: u64 = (bits / 0x8000_0000) as u64;
        let exponent: u32 = (bits / 0x80_0000) % 0x100;
        let fraction: u32 = bits % 0x80_0000;
        let magnitude: u64 = if exponent == 0xff {
            if fraction == 0 {
                0x7ff0_0000_0000_0000
            } else {
                0x7ff8_0000_0000_0000 + (fraction % 0x40_0000) as u64 * 0x2000_0000
            }
        } else if exponent == 0 {
            if fraction == 0 {
                0
            } else {
                subnormal_magnitude(fraction)
            }
        } else {
            (exponent + 896) as u64 * 0x10_0000_0000_0000 + fraction as u64 * 0x2000_0000
        };
        proof {
            lemma2_to64();
            lemma2_to64_rest();
        }
        Real { bits: sign * 0x8000_0000_0000_0000 + magnitude }
    }

    /// The binary64 encoding of the number.
    pub fn to_bits(&self) -> (bits: u64)
        ensures
            bits == self@,
    {
        self.bits
    }

    /// Two `Real`s with the same encoding are one value.
    pub proof fn lemma_view_injective(a: Real, b: Real)
        requires
            a@ == b@,
        ensures
            a == b,
    {
    }
}

} // verus!
