//! Points in time as a property list stores them.

use vstd::arithmetic::power2::{
    lemma2_to64, lemma2_to64_rest, lemma_pow2_adds, lemma_pow2_pos, lemma_pow2_strictly_increases,
    pow2,
};
use vstd::bits::{lemma_u128_shr_is_div, lemma_u64_shl_is_mul};
use vstd::prelude::*;

verus! {

/// Nanoseconds in a second.
pub const NANOS_PER_SECOND: u32 = 1_000_000_000;

/// Seconds from 1970-01-01T00:00:00Z to 2001-01-01T00:00:00Z, the instant that
/// property lists count from.
pub const PLIST_EPOCH_UNIX_SECONDS: i64 = 978_307_200;

/// A point in time: whole seconds from 1970-01-01T00:00:00Z, which may be
/// negative, and the nanoseconds that follow them.
#[derive(Clone, Copy, Debug, PartialEq, Eq, Structural, Hash)]
pub struct Date {
    seconds: i64,
    nanos: u32,
}

impl View for Date {
    type V = int;

    /// Nanoseconds from 1970-01-01T00:00:00Z to this instant.
    closed spec fn view(&self) -> int {
        self.seconds * 1_000_000_000 + self.nanos
    }
}

/// Whether an instant, in nanoseconds from 1970-01-01T00:00:00Z, is one that a
/// [`Date`] can hold: its whole seconds fit in an `i64`.
pub open spec fn representable(nanos_since_unix_epoch: int) -> bool {
    i64::MIN * 1_000_000_000 <= nanos_since_unix_epoch < (i64::MAX + 1) * 1_000_000_000
}

/// How far a number of seconds lies from zero, in nanoseconds rounded down,
/// the number being given by its binary64 encoding; `None` where the encoding
/// is that of an infinity or of something that is not a number.
///
/// A binary64 number is a sign, eleven bits of exponent and fifty-two bits of
/// fraction, and stands for its fifty-three bit mantissa times a power of two.
pub open spec fn offset_nanos(bits: u64) -> Option<int> {
    let exponent: int = ((bits / 0x10_0000_0000_0000) % 0x800) as int;
    let fraction: int = (bits % 0x10_0000_0000_0000) as int;
    if exponent == 0x7ff {
        None
    } else {
        let mantissa: int = if exponent == 0 {
            fraction
        } else {
            fraction + 0x10_0000_0000_0000
        };
        let scale: int = (if exponent == 0 {
            1
        } else {
            exponent
        }) - 1075;
        Some(
            if scale >= 0 {
                mantissa * pow2(scale as nat) * 1_000_000_000
            } else {
                (mantissa * 1_000_000_000) / (pow2((-scale) as nat) as int)
            },
        )
    }
}

/// The instant, in nanoseconds from 1970-01-01T00:00:00Z, that lies a number
/// of seconds after 2001-01-01T00:00:00Z, or before it where the number is
/// negative, the number being given by its binary64 encoding; `None` where
/// there is no such instant that a [`Date`] can hold.
pub open spec fn instant_from_offset(bits: u64) -> Option<int> {
    match offset_nanos(bits) {
        None => None,
        Some(distance) => {
            let instant = if bits >= 0x8000_0000_0000_0000 {
                PLIST_EPOCH_UNIX_SECONDS * 1_000_000_000 - distance
            } else {
                PLIST_EPOCH_UNIX_SECONDS * 1_000_000_000 + distance
            };
            if representable(instant) {
                Some(instant)
            } else {
                None
            }
        },
    }
}

/// Whole seconds and nanoseconds of [`offset_nanos`], where the whole seconds
/// fit in a `u64`.
fn split_offset(bits: u64) -> (r: Option<(u64, u32)>)
    ensures
        match r {
            Some((seconds, nanos)) => {
                &&& nanos < 1_000_000_000
                &&& offset_nanos(bits) == Some(seconds * 1_000_000_000 + nanos)
            },
            None => match offset_nanos(bits) {
                Some(distance) => distance >= 0x1_0000_0000_0000_0000 * 1_000_000_000,
                None => true,
            },
        },
{
    let exponent: u64 = (bits / 0x10_0000_0000_0000) % 0x800;
    let fraction: u64 = bits % 0x10_0000_0000_0000;
    if exponent == 0x7ff {
        return None;
    }
    let mantissa: u64 = if exponent == 0 {
        fraction
    } else {
        fraction + 0x10_0000_0000_0000
    };
    let biased: u64 = if exponent == 0 {
        1
    } else {
        exponent
    };
    proof {
        lemma2_to64();
        lemma2_to64_rest();
    }
    if biased >= 1075 {
        let up: u64 = biased - 1075;
        if up > 11 {
            proof {
                if up > 12 {
                    lemma_pow2_strictly_increases(12, up as nat);
                }
                assert(mantissa * pow2(up as nat) >= 0x10_0000_0000_0000 * 4096)
                    by (nonlinear_arith)
                    requires
                        mantissa >= 0x10_0000_0000_0000,
                        pow2(up as nat) >= 4096,
                ;
                assert(mantissa * pow2(up as nat) * 1_000_000_000 >= 0x1_0000_0000_0000_0000
                    * 1_000_000_000) by (nonlinear_arith)
                    requires
                        mantissa * pow2(up as nat) >= 0x1_0000_0000_0000_0000,
                ;
            }
            return None;
        }
        proof {
            if up < 11 {
                lemma_pow2_strictly_increases(up as nat, 11);
            }
            lemma_pow2_pos(up as nat);
            assert(mantissa * pow2(up as nat) <= 0x1f_ffff_ffff_ffff * 2048) by (nonlinear_arith)
                requires
                    0 <= mantissa <= 0x1f_ffff_ffff_ffff,
                    0 < pow2(up as nat) <= 2048,
            ;
            lemma_u64_shl_is_mul(mantissa, up);
        }
        Some((mantissa << up, 0))
    } else {
        let down: u64 = 1075 - biased;
        let product: u128 = mantissa as u128 * 1_000_000_000;
        if down >= 83 {
            proof {
                lemma_pow2_adds(64, 19);
                if down > 83 {
                    lemma_pow2_strictly_increases(83, down as nat);
                }
                assert(product < pow2(down as nat));
                assert(product as int / (pow2(down as nat) as int) == 0) by (nonlinear_arith)
                    requires
                        0 <= product < pow2(down as nat),
                ;
            }
            return Some((0, 0));
        }
        let total: u128 = product >> (down as u128);
        proof {
            lemma_u128_shr_is_div(product, down as u128);
            lemma_pow2_pos(down as nat);
            assert(product as int / (pow2(down as nat) as int) <= product) by (nonlinear_arith)
                requires
                    0 <= product,
                    pow2(down as nat) >= 1,
            ;
        }
        let seconds: u64 = (total / 1_000_000_000) as u64;
        let nanos: u32 = (total % 1_000_000_000) as u32;
        Some((seconds, nanos))
    }
}

impl Date {
    /// The instant that lies a number of seconds after 2001-01-01T00:00:00Z,
    /// or before it where the number is negative, `bits` being the number's
    /// binary64 encoding. Parts of a nanosecond are cut off the distance.
    pub fn from_seconds_since_plist_epoch(bits: u64) -> (r: Option<Date>)
        ensures
            match r {
                Some(date) => instant_from_offset(bits) == Some(date@),
                None => instant_from_offset(bits) is None,
            },
    {
        let (seconds, nanos) = match split_offset(bits) {
            Some(parts) => parts,
            None => {
                return None;
            },
        };
        if bits < 0x8000_0000_0000_0000 {
            if seconds > 0x7fff_ffff_ffff_ffff - PLIST_EPOCH_UNIX_SECONDS as u64 {
                return None;
            }
            Some(Date { seconds: PLIST_EPOCH_UNIX_SECONDS + seconds as i64, nanos })
        } else {
            let whole: i128 = if nanos == 0 {
                PLIST_EPOCH_UNIX_SECONDS as i128 - seconds as i128
            } else {
                PLIST_EPOCH_UNIX_SECONDS as i128 - seconds as i128 - 1
            };
            let rest: u32 = if nanos == 0 {
                0
            } else {
                NANOS_PER_SECOND - nanos
            };
            if whole < -0x8000_0000_0000_0000i128 {
                return None;
            }
            Some(Date { seconds: whole as i64, nanos: rest })
        }
    }

    #[verifier::type_invariant]
    spec fn nanos_in_range(self) -> bool {
        self.nanos < 1_000_000_000
    }

    /// The instant `nanos` nanoseconds after the whole second `seconds`.
    pub fn from_unix(seconds: i64, nanos: u32) -> (r: Option<Date>)
        ensures
            nanos < NANOS_PER_SECOND ==> r is Some && r.unwrap()@ == seconds * 1_000_000_000
                + nanos,
            nanos >= NANOS_PER_SECOND ==> r is None,
    {
        if nanos < NANOS_PER_SECOND {
            Some(Date { seconds, nanos })
        } else {
            None
        }
    }

    /// Whether two dates are one instant.
    pub fn same_instant(&self, other: &Date) -> (r: bool)
        ensures
            r == (self@ == other@),
            r == (*self == *other),
    {
        proof {
            use_type_invariant(self);
            use_type_invariant(other);
        }
        self.seconds == other.seconds && self.nanos == other.nanos
    }

    /// Whole seconds from 1970-01-01T00:00:00Z, rounded down.
    pub fn unix_seconds(&self) -> (s: i64)
        ensures
            representable(self@),
            s == self@ / 1_000_000_000,
    {
        proof {
            use_type_invariant(self);
        }
        self.seconds
    }

    /// The nanoseconds after the whole second.
    pub fn subsec_nanos(&self) -> (n: u32)
        ensures
            n == self@ % 1_000_000_000,
    {
        proof {
            use_type_invariant(self);
        }
        self.nanos
    }
}

} // verus!
