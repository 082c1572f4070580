//! Unsigned 256-bit integers, represented as four 64-bit limbs, least
//! significant first. Fees and nonces of user operations are values of this
//! type; the replacement rule compares scaled fees, so a widening
//! multiplication by a small factor is provided as well.

use vstd::prelude::*;

verus! {

/// 2^64, as a u128 value.
pub const LIMB_BASE: u128 = 0x1_0000_0000_0000_0000;

/// An unsigned 256-bit integer; `w0` is the least significant limb.
#[derive(Clone, Copy, PartialEq, Eq, Structural, Debug)]
pub struct U256 {
    pub w0: u64,
    pub w1: u64,
    pub w2: u64,
    pub w3: u64,
}

impl U256 {
    /// The mathematical value of this 256-bit integer.
    pub open spec fn as_nat(self) -> nat {
        self.w0 as nat + self.w1 as nat * 0x1_0000_0000_0000_0000 + self.w2 as nat
            * 0x1_0000_0000_0000_0000_0000_0000_0000_0000 + self.w3 as nat
            * 0x1_0000_0000_0000_0000_0000_0000_0000_0000_0000_0000_0000_0000
    }

    pub fn zero() -> (r: U256)
        ensures
            r.as_nat() == 0,
    {
        U256 { w0: 0, w1: 0, w2: 0, w3: 0 }
    }

    pub fn from_u64(v: u64) -> (r: U256)
        ensures
            r.as_nat() == v,
    {
        U256 { w0: v, w1: 0, w2: 0, w3: 0 }
    }

    /// Whether `self < other` as mathematical integers.
    pub fn lt(&self, other: &U256) -> (r: bool)
        ensures
            r == (self.as_nat() < other.as_nat()),
    {
        if self.w3 != other.w3 {
            self.w3 < other.w3
        } else if self.w2 != other.w2 {
            self.w2 < other.w2
        } else if self.w1 != other.w1 {
            self.w1 < other.w1
        } else {
            self.w0 < other.w0
        }
    }

    /// Whether `self <= other` as mathematical integers.
    pub fn le(&self, other: &U256) -> (r: bool)
        ensures
            r == (self.as_nat() <= other.as_nat()),
    {
        !other.lt(self)
    }

    /// `self - other`, clamped at zero.
    pub fn saturating_sub(&self, other: &U256) -> (r: U256)
        ensures
            r.as_nat() == if self.as_nat() >= other.as_nat() {
                self.as_nat() - other.as_nat()
            } else {
                0
            },
    {
        if self.lt(other) {
            U256::zero()
        } else {
            let (d0, b0) = sub_borrow(self.w0, other.w0, false);
            let (d1, b1) = sub_borrow(self.w1, other.w1, b0);
            let (d2, b2) = sub_borrow(self.w2, other.w2, b1);
            let (d3, b3) = sub_borrow(self.w3, other.w3, b2);
            let r = U256 { w0: d0, w1: d1, w2: d2, w3: d3 };
            proof {
                assert(!b3) by {
                    if b3 {
                        assert(self.as_nat() < other.as_nat());
                    }
                }
            }
            r
        }
    }

    /// The smaller of the two values.
    pub fn min(&self, other: &U256) -> (r: U256)
        ensures
            r.as_nat() == if self.as_nat() <= other.as_nat() {
                self.as_nat()
            } else {
                other.as_nat()
            },
    {
        if self.le(other) {
            *self
        } else {
            *other
        }
    }
}

/// Whether `x * a >= y * b`, exactly, for small scale factors; this is how
/// the replacement rule compares a candidate's fee against the incumbent's
/// bumped fee without overflow.
pub fn scaled_ge(x: &U256, a: u64, y: &U256, b: u64) -> (r: bool)
    ensures
        r == (x.as_nat() * a >= y.as_nat() * b),
{
    let (xl, xc) = mul_small(x, a);
    let (yl, yc) = mul_small(y, b);
    proof {
        assert(carry_weight() == 0x1_0000_0000_0000_0000_0000_0000_0000_0000_0000_0000_0000_0000nat
            * 0x1_0000_0000_0000_0000nat);
        assert(xl.as_nat() < carry_weight());
        assert(yl.as_nat() < carry_weight());
        assert((xl.as_nat() + xc as nat * carry_weight() >= yl.as_nat() + yc as nat
            * carry_weight()) == (if xc != yc {
            xc > yc
        } else {
            xl.as_nat() >= yl.as_nat()
        })) by (nonlinear_arith)
            requires
                xl.as_nat() < carry_weight(),
                yl.as_nat() < carry_weight(),
        ;
    }
    if xc != yc {
        xc > yc
    } else {
        yl.le(&xl)
    }
}

/// 2^256, the weight of the overflow limb of a widening multiplication.
pub open spec fn carry_weight() -> nat {
    0x1_0000_0000_0000_0000_0000_0000_0000_0000_0000_0000_0000_0000nat * 0x1_0000_0000_0000_0000nat
}

/// `x * m` as a 256-bit value and an overflow limb:
/// `r.0 + r.1 * 2^256 == x * m`.
pub fn mul_small(x: &U256, m: u64) -> (r: (U256, u64))
    ensures
        r.0.as_nat() + r.1 as nat * carry_weight() == x.as_nat() * m,
{
    let (r0, c0) = mul_limb(x.w0, m, 0);
    let (r1, c1) = mul_limb(x.w1, m, c0);
    let (r2, c2) = mul_limb(x.w2, m, c1);
    let (r3, c3) = mul_limb(x.w3, m, c2);
    let out = U256 { w0: r0, w1: r1, w2: r2, w3: r3 };
    proof {
        let b1: int = 0x1_0000_0000_0000_0000int;
        let b2: int = 0x1_0000_0000_0000_0000_0000_0000_0000_0000int;
        let b3: int = 0x1_0000_0000_0000_0000_0000_0000_0000_0000_0000_0000_0000_0000int;
        let b4: int = carry_weight() as int;
        assert((x.w0 + x.w1 * b1) * m == r0 + r1 * b1 + c1 * b2) by (nonlinear_arith)
            requires
                x.w0 * m == r0 + c0 * b1,
                x.w1 * m + c0 == r1 + c1 * b1,
                b2 == b1 * b1,
        ;
        assert((x.w0 + x.w1 * b1 + x.w2 * b2) * m == r0 + r1 * b1 + r2 * b2 + c2 * b3)
            by (nonlinear_arith)
            requires
                (x.w0 + x.w1 * b1) * m == r0 + r1 * b1 + c1 * b2,
                x.w2 * m + c1 == r2 + c2 * b1,
                b3 == b2 * b1,
        ;
        assert((x.w0 + x.w1 * b1 + x.w2 * b2 + x.w3 * b3) * m == r0 + r1 * b1 + r2 * b2 + r3 * b3
            + c3 * b4) by (nonlinear_arith)
            requires
                (x.w0 + x.w1 * b1 + x.w2 * b2) * m == r0 + r1 * b1 + r2 * b2 + c2 * b3,
                x.w3 * m + c2 == r3 + c3 * b1,
                b4 == b3 * b1,
        ;
    }
    (out, c3)
}

/// One limb of a widening multiplication: `a * m + carry_in`, split into a
/// low limb and an outgoing carry.
fn mul_limb(a: u64, m: u64, carry_in: u64) -> (r: (u64, u64))
    ensures
        a * m + carry_in == r.0 + r.1 * 0x1_0000_0000_0000_0000int,
{
    proof {
        assert((a as u128) * (m as u128) <= 0xFFFF_FFFF_FFFF_FFFE_0000_0000_0000_0001u128)
            by (nonlinear_arith)
            requires
                a <= 0xFFFF_FFFF_FFFF_FFFFu64,
                m <= 0xFFFF_FFFF_FFFF_FFFFu64,
        ;
    }
    let t: u128 = (a as u128) * (m as u128) + (carry_in as u128);
    ((t % LIMB_BASE) as u64, (t / LIMB_BASE) as u64)
}

/// One limb of a borrowing subtraction: `a - b - borrow_in` modulo 2^64,
/// together with the outgoing borrow.
fn sub_borrow(a: u64, b: u64, borrow_in: bool) -> (r: (u64, bool))
    ensures
        r.0 as int == a - b - (if borrow_in {
            1int
        } else {
            0int
        }) + (if r.1 {
            0x1_0000_0000_0000_0000int
        } else {
            0int
        }),
        r.1 == (a < b + (if borrow_in {
            1int
        } else {
            0int
        })),
{
    let bi: u128 = if borrow_in {
        1
    } else {
        0
    };
    let d: u128 = (a as u128) + LIMB_BASE - (b as u128) - bi;
    if d >= LIMB_BASE {
        ((d - LIMB_BASE) as u64, false)
    } else {
        (d as u64, true)
    }
}

} // verus!
