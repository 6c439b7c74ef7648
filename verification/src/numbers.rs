//! Doubles, which this library holds as the bits of their IEEE 754
//! representation, and a table of their decimal notations.

use std::collections::HashMap;
use vstd::arithmetic::power2::pow2;
use vstd::hash_map::StringHashMap;
use vstd::prelude::*;

verus! {

/// The fraction field of a double.
pub open spec fn fraction(bits: u64) -> int {
    bits as int % 0x10_0000_0000_0000
}

/// The biased exponent of a double.
pub open spec fn exponent(bits: u64) -> int {
    (bits as int / 0x10_0000_0000_0000) % 2048
}

/// Whether a double's sign bit is set.
pub open spec fn negative(bits: u64) -> bool {
    bits >= 0x8000_0000_0000_0000
}

/// The integer part of a normal double's magnitude: its significand, scaled by
/// its exponent.
pub open spec fn magnitude(bits: u64) -> int {
    let significand = 0x10_0000_0000_0000 + fraction(bits);
    let shift = exponent(bits) - 1075;
    if shift >= 0 {
        significand * pow2(shift as nat)
    } else {
        significand / pow2((-shift) as nat) as int
    }
}

/// A double cut down to an integer: rounded towards zero, saturated at the ends
/// of the range of `i64`, and zero where the double is not a number.
pub open spec fn truncated_double(bits: u64) -> i64 {
    if is_nan(bits) {
        0
    } else if exponent(bits) < 1023 {
        0
    } else if exponent(bits) == 2047 || magnitude(bits) > i64::MAX {
        if negative(bits) {
            i64::MIN
        } else {
            i64::MAX
        }
    } else if negative(bits) {
        (-magnitude(bits)) as i64
    } else {
        magnitude(bits) as i64
    }
}

/// Whether a double is not a number.
pub open spec fn is_nan(bits: u64) -> bool {
    exponent(bits) == 2047 && fraction(bits) != 0
}

/// Whether a double is zero, of either sign.
pub open spec fn is_zero(bits: u64) -> bool {
    bits == 0 || bits == 0x8000_0000_0000_0000
}

/// Whether two doubles are equal as numbers: zeros of either sign are, and what
/// is not a number equals nothing.
pub open spec fn equal_doubles(a: u64, b: u64) -> bool {
    !is_nan(a) && !is_nan(b) && (a == b || (is_zero(a) && is_zero(b)))
}

/// Whether two doubles are equal as numbers.
pub fn doubles_equal(a: u64, b: u64) -> (r: bool)
    ensures
        r == equal_doubles(a, b),
{
    let a_nan = (a / 0x10_0000_0000_0000) % 2048 == 2047 && a % 0x10_0000_0000_0000 != 0;
    let b_nan = (b / 0x10_0000_0000_0000) % 2048 == 2047 && b % 0x10_0000_0000_0000 != 0;
    let a_zero = a == 0 || a == 0x8000_0000_0000_0000;
    let b_zero = b == 0 || b == 0x8000_0000_0000_0000;
    !a_nan && !b_nan && (a == b || (a_zero && b_zero))
}

/// Two to a small power.
fn power_of_two(k: u32) -> (r: u64)
    requires
        k <= 52,
    ensures
        r == pow2(k as nat),
        0 < r <= 0x10_0000_0000_0000,
{
    let mut p: u64 = 1;
    let mut i: u32 = 0;
    proof {
        vstd::arithmetic::power2::lemma2_to64();
        vstd::arithmetic::power2::lemma2_to64_rest();
    }
    while i < k
        invariant
            i <= k <= 52,
            p == pow2(i as nat),
            pow2(52) == 0x10_0000_0000_0000,
        decreases k - i,
    {
        proof {
            vstd::arithmetic::power2::lemma_pow2_unfold((i + 1) as nat);
            if i + 1 < 52 {
                vstd::arithmetic::power2::lemma_pow2_strictly_increases((i + 1) as nat, 52);
            }
        }
        p = p * 2;
        i += 1;
    }
    proof {
        vstd::arithmetic::power2::lemma_pow2_pos(k as nat);
        if k < 52 {
            vstd::arithmetic::power2::lemma_pow2_strictly_increases(k as nat, 52);
        }
    }
    p
}

/// Cuts a double down to an integer.
pub fn truncate_double(bits: u64) -> (r: i64)
    ensures
        r == truncated_double(bits),
{
    let frac: u64 = bits % 0x10_0000_0000_0000;
    let exp: u64 = (bits / 0x10_0000_0000_0000) % 2048;
    let neg = bits >= 0x8000_0000_0000_0000;
    if exp == 2047 && frac != 0 {
        return 0;
    }
    if exp < 1023 {
        return 0;
    }
    if exp == 2047 {
        return if neg {
            i64::MIN
        } else {
            i64::MAX
        };
    }
    let significand: u64 = 0x10_0000_0000_0000 + frac;
    if exp >= 1086 {
        proof {
            let shift = (exp - 1075) as nat;
            vstd::arithmetic::power2::lemma2_to64();
            if shift > 11 {
                vstd::arithmetic::power2::lemma_pow2_strictly_increases(11, shift);
            }
            assert(pow2(shift) >= 2048);
            assert(significand * pow2(shift) >= 0x10_0000_0000_0000 * 2048) by (nonlinear_arith)
                requires
                    significand >= 0x10_0000_0000_0000,
                    pow2(shift) >= 2048,
            ;
        }
        return if neg {
            i64::MIN
        } else {
            i64::MAX
        };
    }
    let whole: u64 = if exp >= 1075 {
        let scale: u64 = power_of_two((exp - 1075) as u32);
        proof {
            vstd::arithmetic::power2::lemma2_to64();
            if exp - 1075 < 10 {
                vstd::arithmetic::power2::lemma_pow2_strictly_increases((exp - 1075) as nat, 10);
            }
            assert(significand * scale <= (0x20_0000_0000_0000 - 1) * 1024) by (nonlinear_arith)
                requires
                    0 <= significand <= 0x20_0000_0000_0000 - 1,
                    0 <= scale <= 1024,
            ;
        }
        significand * scale
    } else {
        let scale: u64 = power_of_two((1075 - exp) as u32);
        proof {
            assert(significand / scale <= significand) by (nonlinear_arith)
                requires
                    scale > 0,
            ;
        }
        significand / scale
    };
    assert(whole == magnitude(bits));
    if neg {
        -(whole as i64)
    } else {
        whole as i64
    }
}

/// What is known of the decimal notations of doubles. Rounding between decimal
/// notation and binary fractions is floating point, which the program around
/// this library does; it enters here what it found.
pub struct Numbers {
    readings: StringHashMap<Option<u64>>,
    notations: HashMap<u64, String>,
}

impl Numbers {
    /// What each literal that was entered reads as: the bits of a double, or
    /// `None` where the literal is not one.
    pub closed spec fn readings(&self) -> Map<Seq<char>, Option<u64>> {
        self.readings@
    }

    /// The notation that each double that was entered is printed in.
    pub closed spec fn notations(&self) -> Map<u64, Seq<char>> {
        self.notations@.map_values(|s: String| s@)
    }

    /// Nothing is known yet.
    pub fn new() -> (r: Numbers)
        ensures
            r.readings() == Map::<Seq<char>, Option<u64>>::empty(),
            r.notations() == Map::<u64, Seq<char>>::empty(),
    {
        broadcast use vstd::std_specs::hash::group_hash_axioms;

        let r = Numbers { readings: StringHashMap::new(), notations: HashMap::new() };
        assert(r.notations() =~= Map::<u64, Seq<char>>::empty());
        r
    }

    /// Enters what a literal reads as.
    pub fn add_reading(&mut self, literal: &str, bits: Option<u64>)
        ensures
            final(self).readings() == old(self).readings().insert(literal@, bits),
            final(self).notations() == old(self).notations(),
    {
        self.readings.insert(literal.to_string(), bits);
    }

    /// Enters how a double is printed.
    pub fn add_notation(&mut self, bits: u64, notation: &str)
        ensures
            final(self).readings() == old(self).readings(),
            final(self).notations() == old(self).notations().insert(bits, notation@),
    {
        broadcast use vstd::std_specs::hash::group_hash_axioms;

        self.notations.insert(bits, notation.to_string());
        assert(self.notations() =~= old(self).notations().insert(bits, notation@));
    }

    /// What a literal reads as, where that was entered.
    pub fn reading(&self, literal: &str) -> (r: Option<Option<u64>>)
        ensures
            match r {
                Some(bits) => self.readings().contains_pair(literal@, bits),
                None => !self.readings().contains_key(literal@),
            },
    {
        match self.readings.get(literal) {
            Some(bits) => Some(*bits),
            None => None,
        }
    }

    /// How a double is printed, where that was entered.
    pub fn notation(&self, bits: u64) -> (r: Option<&str>)
        ensures
            match r {
                Some(s) => self.notations().contains_pair(bits, s@),
                None => !self.notations().contains_key(bits),
            },
    {
        broadcast use vstd::std_specs::hash::group_hash_axioms;

        match self.notations.get(&bits) {
            Some(s) => Some(s.as_str()),
            None => None,
        }
    }
}

/// A double is no number if and only if its bits, without the sign, lie behind those of
/// infinity, and a zero if and only if there are none but the sign.
pub proof fn law_zeros_and_what_is_no_number(bits: u64)
    ensures
        is_nan(bits) <==> bits % 0x8000_0000_0000_0000 > 0x7ff0_0000_0000_0000,
        is_zero(bits) <==> bits % 0x8000_0000_0000_0000 == 0,
{
}

/// A double with a whole part is cut down to it: the integer is the largest whose
/// magnitude the double's is not below, with the double's sign. The double's magnitude
/// is its significand times two to the power of its exponent.
pub proof fn law_doubles_are_cut_down(bits: u64)
    ensures
        ({
            let e = (bits / 0x10_0000_0000_0000) % 2048;
            let significand = 0x10_0000_0000_0000 + bits % 0x10_0000_0000_0000;
            let minus = bits >= 0x8000_0000_0000_0000;
            let n = truncated_double(bits) as int;
            let m = if n < 0 {
                -n
            } else {
                n
            };
            &&& e < 1023 ==> n == 0
            &&& e == 2047 && bits % 0x10_0000_0000_0000 != 0 ==> n == 0
            &&& e == 2047 && bits % 0x10_0000_0000_0000 == 0 ==> n == (if minus {
                i64::MIN as int
            } else {
                i64::MAX as int
            })
            &&& 1023 <= e < 1075 ==> m * pow2((1075 - e) as nat) <= significand < (m + 1) * pow2(
                (1075 - e) as nat,
            ) && (minus ==> n < 0) && (!minus ==> n > 0)
            &&& 1075 <= e < 1086 ==> m == significand * pow2((e - 1075) as nat) && (minus ==> n < 0)
                && (!minus ==> n > 0)
            &&& 1086 <= e < 2047 ==> n == (if minus {
                i64::MIN as int
            } else {
                i64::MAX as int
            })
        }),
{
    let e = (bits / 0x10_0000_0000_0000) % 2048;
    let significand = 0x10_0000_0000_0000 + bits % 0x10_0000_0000_0000;
    vstd::arithmetic::power2::lemma2_to64();
    vstd::arithmetic::power2::lemma2_to64_rest();
    if 1023 <= e < 1075 {
        let scale = pow2((1075 - e) as nat) as int;
        vstd::arithmetic::power2::lemma_pow2_pos((1075 - e) as nat);
        if 1075 - e < 52 {
            vstd::arithmetic::power2::lemma_pow2_strictly_increases((1075 - e) as nat, 52);
        }
        let q = significand / scale;
        assert(q * scale <= significand < (q + 1) * scale && 0 < q <= significand) by (
        nonlinear_arith)
            requires
                0 < scale <= 0x10_0000_0000_0000,
                significand >= 0x10_0000_0000_0000,
                q == significand / scale,
        ;
    } else if 1075 <= e < 1086 {
        let scale = pow2((e - 1075) as nat) as int;
        vstd::arithmetic::power2::lemma_pow2_pos((e - 1075) as nat);
        if e - 1075 < 10 {
            vstd::arithmetic::power2::lemma_pow2_strictly_increases((e - 1075) as nat, 10);
        }
        assert(0 < significand * scale <= (0x20_0000_0000_0000 - 1) * 1024) by (nonlinear_arith)
            requires
                0 < significand <= 0x20_0000_0000_0000 - 1,
                0 < scale <= 1024,
        ;
    } else if 1086 <= e < 2047 {
        let shift = (e - 1075) as nat;
        if shift > 11 {
            vstd::arithmetic::power2::lemma_pow2_strictly_increases(11, shift);
        }
        assert(significand * pow2(shift) >= 0x10_0000_0000_0000 * 2048) by (nonlinear_arith)
            requires
                significand >= 0x10_0000_0000_0000,
                pow2(shift) >= 2048,
        ;
    }
}

} // verus!
