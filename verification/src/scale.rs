//! The factor by which a source image is scaled.
//!
//! A scale factor is given as the bit pattern of an IEEE 754 single
//! precision number and is read as the exact rational number that the
//! pattern stands for. All arithmetic on it is integer arithmetic.

use vstd::prelude::*;
use vstd::arithmetic::power2::{lemma2_to64, lemma_pow2_pos, lemma_pow2_strictly_increases, lemma_pow2_unfold, pow2};

verus! {

/// A non-negative rational number of the form `mantissa * 2^exponent`.
pub struct Dyadic {
    pub mantissa: nat,
    pub exponent: int,
}

impl Dyadic {
    /// The numerator of the number as a fraction.
    pub open spec fn numerator(self) -> nat {
        if self.exponent >= 0 {
            self.mantissa * pow2(self.exponent as nat)
        } else {
            self.mantissa
        }
    }

    /// The denominator of the number as a fraction.
    pub open spec fn denominator(self) -> nat {
        if self.exponent >= 0 {
            1
        } else {
            pow2((-self.exponent) as nat)
        }
    }

    /// The number is at least one tenth.
    pub open spec fn at_least_tenth(self) -> bool {
        10 * self.numerator() >= self.denominator()
    }

    /// The number is one.
    pub open spec fn is_one(self) -> bool {
        self.numerator() == self.denominator()
    }

    /// `len` times the number, rounded to the nearest integer, halves
    /// rounded up.
    pub open spec fn scaled(self, len: nat) -> nat {
        (2 * (len * self.numerator()) + self.denominator()) / (2 * self.denominator())
    }
}

/// The number of bits of the fraction field.
pub const FRACTION_RANGE: u32 = 0x80_0000;

/// The bit pattern of the number one.
pub const ONE_BITS: u32 = 0x3f80_0000;

/// The sign bit of a single precision bit pattern.
pub open spec fn sign_bit(bits: u32) -> nat {
    (bits / 0x8000_0000) as nat
}

/// The exponent field of a single precision bit pattern.
pub open spec fn biased_exponent(bits: u32) -> nat {
    ((bits / 0x80_0000) % 256) as nat
}

/// The fraction field of a single precision bit pattern.
pub open spec fn fraction(bits: u32) -> nat {
    (bits % 0x80_0000) as nat
}

/// The number that a single precision bit pattern stands for, if it has the
/// sign bit clear and is neither an infinity nor a NaN.
pub open spec fn decode(bits: u32) -> Option<Dyadic> {
    if sign_bit(bits) != 0 || biased_exponent(bits) == 255 {
        None
    } else if biased_exponent(bits) == 0 {
        Some(Dyadic { mantissa: fraction(bits), exponent: -149 })
    } else {
        Some(
            Dyadic {
                mantissa: 0x80_0000 + fraction(bits),
                exponent: biased_exponent(bits) - 150,
            },
        )
    }
}

/// The powers of two grow with the exponent.
proof fn lemma_pow2_monotone(a: nat, b: nat)
    requires
        a <= b,
    ensures
        pow2(a) <= pow2(b),
{
    if a < b {
        lemma_pow2_strictly_increases(a, b);
    }
}

/// Which bit patterns stand for a number of at least one tenth.
pub proof fn lemma_at_least_tenth(bits: u32)
    requires
        decode(bits) is Some,
    ensures
        decode(bits)->0.at_least_tenth() <==> (biased_exponent(bits) >= 124 || (biased_exponent(
            bits,
        ) == 123 && fraction(bits) >= 5033165)),
{
    let d: Dyadic = decode(bits)->0;
    let be: nat = biased_exponent(bits);
    lemma2_to64();
    if be >= 150 {
        let p: nat = pow2(d.exponent as nat);
        lemma_pow2_pos(d.exponent as nat);
        assert(d.mantissa * p >= 1) by (nonlinear_arith)
            requires
                d.mantissa >= 1,
                p >= 1,
        ;
    } else if be >= 124 {
        lemma_pow2_monotone((150 - be) as nat, 26);
    } else if be == 123 {
    } else if be >= 1 {
        lemma_pow2_monotone(28, (150 - be) as nat);
    } else {
        lemma_pow2_monotone(28, 149);
    }
}

/// The only bit pattern that stands for the number one.
pub proof fn lemma_is_one(bits: u32)
    requires
        decode(bits) is Some,
    ensures
        decode(bits)->0.is_one() <==> bits == ONE_BITS,
{
    let d: Dyadic = decode(bits)->0;
    let be: nat = biased_exponent(bits);
    lemma2_to64();
    if be >= 150 {
        let p: nat = pow2(d.exponent as nat);
        lemma_pow2_pos(d.exponent as nat);
        assert(d.mantissa * p >= 2) by (nonlinear_arith)
            requires
                d.mantissa >= 2,
                p >= 1,
        ;
    } else if be >= 128 {
        lemma_pow2_monotone((150 - be) as nat, 22);
    } else if be == 127 {
    } else if be >= 1 {
        lemma_pow2_monotone(24, (150 - be) as nat);
    } else {
        lemma_pow2_monotone(24, 149);
    }
}

/// A scale factor.
#[derive(Clone, Copy, Debug)]
pub struct Scale {
    bits: u32,
}

impl View for Scale {
    type V = Option<Dyadic>;

    closed spec fn view(&self) -> Option<Dyadic> {
        decode(self.bits)
    }
}

/// Two to the power of `k`.
fn power_of_two(k: u32) -> (p: u64)
    requires
        k <= 32,
    ensures
        p == pow2(k as nat),
        1 <= p <= 0x1_0000_0000,
{
    let mut p: u64 = 1;
    let mut i: u32 = 0;
    proof {
        lemma2_to64();
    }
    while i < k
        invariant
            i <= k <= 32,
            p == pow2(i as nat),
            1 <= p,
            pow2(32) == 0x1_0000_0000,
        decreases k - i,
    {
        proof {
            lemma_pow2_unfold((i + 1) as nat);
            lemma_pow2_monotone((i + 1) as nat, 32);
        }
        p = p * 2;
        i = i + 1;
    }
    proof {
        lemma_pow2_monotone(k as nat, 32);
    }
    p
}

impl Scale {
    /// The scale factor with the bit pattern `bits`, which is what
    /// `f32::to_bits` returns for it.
    pub fn from_bits(bits: u32) -> (s: Scale)
        ensures
            s@ == decode(bits),
    {
        Scale { bits }
    }

    /// The factor is a number of at least one tenth.
    pub open spec fn valid(&self) -> bool {
        self@ is Some && self@->0.at_least_tenth()
    }

    /// The factor is the number one.
    pub open spec fn is_one(&self) -> bool {
        self@ is Some && self@->0.is_one()
    }

    /// The length that `len` is scaled to.
    pub open spec fn scaled(&self, len: nat) -> nat {
        self@->0.scaled(len)
    }

    /// Whether the factor is a number of at least one tenth. Negative
    /// numbers, infinities and NaNs are not.
    pub fn is_valid(&self) -> (ok: bool)
        ensures
            ok == self.valid(),
    {
        if self.bits >= 0x8000_0000 {
            return false;
        }
        let be: u32 = (self.bits / FRACTION_RANGE) % 256;
        let frac: u32 = self.bits % FRACTION_RANGE;
        if be == 255 {
            return false;
        }
        proof {
            lemma_at_least_tenth(self.bits);
        }
        be >= 124 || (be == 123 && frac >= 5033165)
    }

    /// Whether the factor is the number one.
    pub fn is_identity(&self) -> (one: bool)
        ensures
            one == self.is_one(),
    {
        proof {
            if decode(self.bits) is Some {
                lemma_is_one(self.bits);
            }
        }
        self.bits == ONE_BITS
    }

    /// `len` times the factor, rounded to the nearest integer, halves
    /// rounded up; `None` if that is more than a `u32` holds.
    pub fn scaled_len(&self, len: u32) -> (res: Option<u32>)
        requires
            self.valid(),
        ensures
            res == if self.scaled(len as nat) <= u32::MAX {
                Some(self.scaled(len as nat) as u32)
            } else {
                None
            },
    {
        let be: u32 = (self.bits / FRACTION_RANGE) % 256;
        let frac: u32 = self.bits % FRACTION_RANGE;
        let m: u64 = 0x80_0000 + frac as u64;
        let ghost d: Dyadic = self@->0;
        proof {
            lemma_at_least_tenth(self.bits);
            lemma2_to64();
        }
        if be >= 150 {
            let e: u32 = be - 150;
            assert(d.denominator() == 1);
            if len == 0 {
                assert((len as nat) * d.numerator() == 0) by (nonlinear_arith)
                    requires
                        len == 0,
                ;
                assert(d.scaled(len as nat) == (2 * 0 + 1) / 2);
                return Some(0);
            }
            if e >= 9 {
                proof {
                    lemma_pow2_monotone(9, e as nat);
                    let p: nat = pow2(e as nat);
                    assert(len * (m * p) >= 0x1_0000_0000) by (nonlinear_arith)
                        requires
                            len >= 1,
                            m >= 0x80_0000,
                            p >= 0x200,
                    ;
                }
                return None;
            }
            let p: u64 = power_of_two(e);
            proof {
                lemma_pow2_monotone(e as nat, 8);
            }
            assert(m * p < 0x1_0000_0000) by (nonlinear_arith)
                requires
                    m < 0x100_0000,
                    p <= 0x100,
            ;
            let num: u64 = m * p;
            assert(len * num <= 0xffff_ffff * 0xffff_ffff) by (nonlinear_arith)
                requires
                    len <= 0xffff_ffff,
                    num <= 0xffff_ffff,
            ;
            let v: u64 = len as u64 * num;
            if v <= u32::MAX as u64 {
                Some(v as u32)
            } else {
                None
            }
        } else {
            let k: u32 = 150 - be;
            let den: u64 = power_of_two(k);
            proof {
                lemma_pow2_monotone(k as nat, 27);
            }
            assert(len * m <= 0xffff_ffff * 0xff_ffff) by (nonlinear_arith)
                requires
                    len <= 0xffff_ffff,
                    m <= 0xff_ffff,
            ;
            let n: u64 = len as u64 * m;
            let r: u64 = (2 * n + den) / (2 * den);
            if r <= u32::MAX as u64 {
                Some(r as u32)
            } else {
                None
            }
        }
    }
}

} // verus!
