//! IEEE-754 numbers held by their bit patterns.
//!
//! The harness computes with floating-point numbers elsewhere; what the
//! library does with them is compare them. A comparison of two numbers is one
//! of two integers, which their bit patterns give.

use vstd::arithmetic::power2::lemma_pow2_adds;
use vstd::arithmetic::power2::lemma_pow2_pos;
use vstd::arithmetic::power2::lemma_pow2_unfold;
use vstd::arithmetic::power2::pow2;
use vstd::prelude::*;

verus! {

/// The bit pattern of a double-precision number.
#[derive(Debug, Clone, Copy, PartialEq, Eq, Structural)]
pub struct Double {
    pub bits: u64,
}

/// The bit that marks a negative double.
pub const DOUBLE_SIGN: u64 = 0x8000_0000_0000_0000;

/// The magnitude of an infinite double; a larger one marks a NaN.
pub const DOUBLE_INFINITY: u64 = 0x7ff0_0000_0000_0000;

/// The bit pattern of the double one.
pub const DOUBLE_ONE: u64 = 0x3ff0_0000_0000_0000;

/// The bit pattern of the double zero.
pub const DOUBLE_ZERO: u64 = 0;

impl Double {
    /// The pattern without its sign.
    pub open spec fn magnitude(self) -> int {
        if self.bits >= DOUBLE_SIGN {
            self.bits - DOUBLE_SIGN
        } else {
            self.bits as int
        }
    }

    pub open spec fn nan(self) -> bool {
        self.magnitude() > DOUBLE_INFINITY
    }

    /// An integer that orders as the number does: patterns of one sign order as
    /// their magnitudes, and the two zeros are equal.
    pub open spec fn rank(self) -> int {
        if self.bits >= DOUBLE_SIGN {
            -self.magnitude()
        } else {
            self.magnitude()
        }
    }

    /// `self < other` as IEEE-754 has it: never true of a NaN.
    pub open spec fn less(self, other: Double) -> bool {
        !self.nan() && !other.nan() && self.rank() < other.rank()
    }

    /// `self <= other` as IEEE-754 has it: never true of a NaN.
    pub open spec fn at_most(self, other: Double) -> bool {
        !self.nan() && !other.nan() && self.rank() <= other.rank()
    }

    fn is_nan(self) -> (b: bool)
        ensures
            b == self.nan(),
    {
        if self.bits >= DOUBLE_SIGN {
            self.bits - DOUBLE_SIGN > DOUBLE_INFINITY
        } else {
            self.bits > DOUBLE_INFINITY
        }
    }

    fn ranked(self) -> (r: i128)
        ensures
            r == self.rank(),
    {
        if self.bits >= DOUBLE_SIGN {
            -((self.bits - DOUBLE_SIGN) as i128)
        } else {
            self.bits as i128
        }
    }

    /// `self < other`.
    pub fn is_less(self, other: Double) -> (b: bool)
        ensures
            b == self.less(other),
    {
        !self.is_nan() && !other.is_nan() && self.ranked() < other.ranked()
    }

    /// `self <= other`.
    pub fn is_at_most(self, other: Double) -> (b: bool)
        ensures
            b == self.at_most(other),
    {
        !self.is_nan() && !other.is_nan() && self.ranked() <= other.ranked()
    }
}

/// The bit pattern of a single-precision number.
#[derive(Debug, Clone, Copy, PartialEq, Eq, Structural)]
pub struct Single {
    pub bits: u32,
}

/// The bit that marks a negative single.
pub const SINGLE_SIGN: u32 = 0x8000_0000;

/// The magnitude of an infinite single; a larger one marks a NaN.
pub const SINGLE_INFINITY: u32 = 0x7f80_0000;

/// One more than the largest fraction field of a single.
pub const SINGLE_FRACTION: u32 = 0x0080_0000;

/// How many millionths make one.
pub const MICRO: u32 = 1_000_000;

impl Single {
    /// The pattern without its sign.
    pub open spec fn magnitude(self) -> int {
        if self.bits >= SINGLE_SIGN {
            self.bits - SINGLE_SIGN
        } else {
            self.bits as int
        }
    }

    pub open spec fn nan(self) -> bool {
        self.magnitude() > SINGLE_INFINITY
    }

    pub open spec fn finite(self) -> bool {
        self.magnitude() < SINGLE_INFINITY
    }

    pub open spec fn exponent(self) -> int {
        self.magnitude() / SINGLE_FRACTION as int
    }

    /// The significand as an integer, with the leading one of a normal number.
    pub open spec fn significand(self) -> int {
        let fraction = self.magnitude() % SINGLE_FRACTION as int;
        if self.exponent() == 0 {
            fraction
        } else {
            fraction + SINGLE_FRACTION
        }
    }

    /// How often the significand is doubled, counted from the smallest
    /// exponent.
    pub open spec fn doublings(self) -> nat {
        if self.exponent() == 0 {
            0
        } else {
            (self.exponent() - 1) as nat
        }
    }

    /// A finite number times two to the 149th, which is an integer.
    pub open spec fn scaled(self) -> int {
        let size = self.significand() * pow2(self.doublings());
        if self.bits >= SINGLE_SIGN {
            -size
        } else {
            size
        }
    }

    /// `micro` millionths are at least this number.
    pub open spec fn reached_by(self, micro: u32) -> bool {
        if self.nan() {
            false
        } else if !self.finite() {
            self.bits >= SINGLE_SIGN
        } else {
            self.scaled() * MICRO <= micro * pow2(149)
        }
    }

    /// Whether `micro` millionths are at least this number. The quotient
    /// `micro / 1e6` rounded to double precision is at least the number exactly
    /// when the quotient itself is: the two lie further apart than a rounding
    /// error wherever they differ.
    pub fn is_reached_by(self, micro: u32) -> (b: bool)
        ensures
            b == self.reached_by(micro),
    {
        let negative: bool = self.bits >= SINGLE_SIGN;
        let magnitude: u32 = if negative { self.bits - SINGLE_SIGN } else { self.bits };
        if magnitude > SINGLE_INFINITY {
            return false;
        }
        if magnitude == SINGLE_INFINITY {
            return negative;
        }
        let exponent: u32 = magnitude / SINGLE_FRACTION;
        let fraction: u32 = magnitude % SINGLE_FRACTION;
        let significand: u32 = if exponent == 0 { fraction } else { fraction + SINGLE_FRACTION };
        let doublings: u32 = if exponent == 0 { 0 } else { exponent - 1 };
        proof {
            assert(exponent == self.exponent());
            assert(significand == self.significand());
            assert(doublings == self.doublings());
            lemma_pow2_pos(doublings as nat);
            lemma_pow2_pos(149);
        }
        let ghost step = pow2(doublings as nat);
        let ghost unit = pow2(149);
        if negative || significand == 0 {
            proof {
                assert(significand * step >= 0 && (significand == 0 ==> significand * step == 0))
                    by (nonlinear_arith)
                    requires
                        significand >= 0,
                        step >= 0,
                ;
                assert(micro * unit >= 0) by (nonlinear_arith)
                    requires
                        micro >= 0,
                        unit >= 0,
                ;
            }
            return true;
        }
        let needed: u64 = significand as u64 * MICRO as u64;
        if doublings > 149 {
            proof {
                lemma_pow2_adds(149, (doublings - 149) as nat);
                lemma_pow2_pos((doublings - 149) as nat);
                let more = pow2((doublings - 149) as nat);
                assert(step == unit * more);
                assert(needed > micro);
                assert(significand * step * MICRO > micro * unit) by (nonlinear_arith)
                    requires
                        step == unit * more,
                        more >= 1,
                        unit >= 1,
                        significand * MICRO == needed,
                        needed > micro,
                        micro >= 0,
                ;
            }
            return false;
        }
        let left: u32 = 149 - doublings;
        let mut scale: u128 = 1;
        let mut i: u32 = 0;
        proof {
            lemma_pow2_unfold(1);
            vstd::arithmetic::power2::lemma2_to64();
        }
        while i < left && i < 64
            invariant
                i <= left,
                i <= 64,
                scale == pow2(i as nat),
                pow2(64) == 0x1_0000_0000_0000_0000,
                scale <= 0x1_0000_0000_0000_0000,
            decreases left - i,
        {
            proof {
                lemma_pow2_unfold((i + 1) as nat);
                lemma_pow2_adds((i + 1) as nat, (64 - i - 1) as nat);
                lemma_pow2_pos((64 - i - 1) as nat);
                let low = pow2((i + 1) as nat);
                let high = pow2((64 - i - 1) as nat);
                assert(low <= low * high) by (nonlinear_arith)
                    requires
                        high >= 1,
                        low >= 0,
                ;
            }
            scale = scale * 2;
            i = i + 1;
        }
        proof {
            assert(0 <= micro * scale <= 0xffff_ffff * 0x1_0000_0000_0000_0000) by (nonlinear_arith)
                requires
                    0 <= micro <= 0xffff_ffff,
                    0 <= scale <= 0x1_0000_0000_0000_0000,
            ;
        }
        let enough: bool = needed as u128 <= micro as u128 * scale;
        proof {
            let gap = pow2(left as nat);
            lemma_pow2_adds(doublings as nat, left as nat);
            assert(unit == step * gap);
            assert(significand * step * MICRO == step * needed) by (nonlinear_arith)
                requires
                    significand * MICRO == needed,
            ;
            assert(micro * unit == step * (micro * gap)) by (nonlinear_arith)
                requires
                    unit == step * gap,
            ;
            assert((step * needed <= step * (micro * gap)) == (needed <= micro * gap))
                by (nonlinear_arith)
                requires
                    step >= 1,
            ;
            if left > 64 {
                lemma_pow2_adds(64, (left - 64) as nat);
                lemma_pow2_pos((left - 64) as nat);
                let more = pow2((left - 64) as nat);
                assert(gap == scale * more);
                if micro > 0 {
                    assert(micro * scale >= scale) by (nonlinear_arith)
                        requires
                            micro >= 1,
                            scale >= 0,
                    ;
                    assert(micro * gap >= scale) by (nonlinear_arith)
                        requires
                            micro >= 1,
                            gap == scale * more,
                            more >= 1,
                            scale >= 0,
                    ;
                } else {
                    assert(micro * gap == 0 && micro * scale == 0) by (nonlinear_arith)
                        requires
                            micro == 0,
                    ;
                }
            } else {
                assert(gap == scale);
            }
        }
        enough
    }
}

/// How bit patterns order: a NaN with nothing, numbers of one sign by their
/// patterns, negative ones the other way round, and a negative number below a
/// positive one. The two zeros are equal.
pub proof fn doubles_order_by_their_patterns(a: Double, b: Double)
    ensures
        a.bits % 0x8000_0000_0000_0000 > 0x7ff0_0000_0000_0000 || b.bits % 0x8000_0000_0000_0000
            > 0x7ff0_0000_0000_0000 ==> !a.less(b) && !a.at_most(b),
        a.bits <= 0x7ff0_0000_0000_0000 && b.bits <= 0x7ff0_0000_0000_0000 ==> a.less(b) == (a.bits
            < b.bits) && a.at_most(b) == (a.bits <= b.bits),
        0x8000_0000_0000_0000 <= a.bits <= 0xfff0_0000_0000_0000 && 0x8000_0000_0000_0000 <= b.bits
            <= 0xfff0_0000_0000_0000 ==> a.less(b) == (a.bits > b.bits) && a.at_most(b) == (a.bits
            >= b.bits),
        0x8000_0000_0000_0000 <= a.bits <= 0xfff0_0000_0000_0000 && b.bits <= 0x7ff0_0000_0000_0000
            ==> a.at_most(b) && a.less(b) == (a.bits != 0x8000_0000_0000_0000 || b.bits != 0),
        a.bits <= 0x7ff0_0000_0000_0000 && 0x8000_0000_0000_0000 <= b.bits <= 0xfff0_0000_0000_0000
            ==> !a.less(b) && a.at_most(b) == (a.bits == 0 && b.bits == 0x8000_0000_0000_0000),
{
}

/// The order of doubles that are no NaN is total, and it is transitive.
pub proof fn doubles_are_ordered(a: Double, b: Double, c: Double)
    ensures
        !(a.less(b) && b.less(a)),
        a.less(b) && b.less(c) ==> a.less(c),
        a.less(b) && b.at_most(c) ==> a.less(c),
        a.at_most(b) && b.less(c) ==> a.less(c),
        a.at_most(b) && b.at_most(c) ==> a.at_most(c),
        a.at_most(a) && b.at_most(b) ==> (a.at_most(b) == !b.less(a)),
{
}

/// Zero is nothing, the next pattern is one unit in the last place further on, which
/// doubles with every exponent from the second on, and the sign turns a number
/// round.
pub proof fn singles_step_by_their_last_place(s: Single)
    requires
        s.bits < 0x7f7f_ffff,
    ensures
        (Single { bits: 0 }).scaled() == 0,
        (Single { bits: (s.bits + 1) as u32 }).scaled() == s.scaled() + pow2(
            if s.bits < 0x0080_0000 {
                0
            } else {
                (s.bits / 0x0080_0000 - 1) as nat
            },
        ),
        (Single { bits: (s.bits + 0x8000_0000) as u32 }).scaled() == -s.scaled(),
{
    let zero = Single { bits: 0 };
    assert(zero.significand() * pow2(zero.doublings()) == 0) by (nonlinear_arith)
        requires
            zero.significand() == 0,
    ;
    let next = Single { bits: (s.bits + 1) as u32 };
    let turned = Single { bits: (s.bits + 0x8000_0000) as u32 };
    assert(turned.magnitude() == s.magnitude());
    let (e, f) = (s.bits as int / 0x0080_0000, s.bits as int % 0x0080_0000);
    assert(s.exponent() == e);
    let step = pow2(s.doublings());
    if f + 1 < 0x0080_0000 {
        assert(next.exponent() == e && next.significand() == s.significand() + 1);
        assert((s.significand() + 1) * step == s.significand() * step + step) by (nonlinear_arith);
    } else {
        assert(next.exponent() == e + 1 && next.significand() == 0x0080_0000);
        if e == 0 {
            assert(s.significand() == 0x007f_ffff);
            assert(next.doublings() == 0 && s.doublings() == 0);
            assert(0x0080_0000 * step == 0x007f_ffff * step + step) by (nonlinear_arith);
        } else {
            assert(s.significand() == 0x00ff_ffff);
            assert(next.doublings() == s.doublings() + 1);
            lemma_pow2_unfold(next.doublings());
            let twice = pow2(next.doublings());
            assert(0x0080_0000 * twice == 0x00ff_ffff * step + step) by (nonlinear_arith)
                requires
                    twice == 2 * step,
            ;
        }
    }
}

/// A threshold is reached from some number of millionths on: a NaN and infinity
/// never, nothing and less always, and any other where so many millionths of two to
/// the 149th make up the scaled number.
pub proof fn thresholds_are_reached_from_below(s: Single, micro: u32, more: u32)
    requires
        micro <= more,
    ensures
        s.reached_by(micro) ==> s.reached_by(more),
        0x7f80_0000 <= s.bits < 0x8000_0000 || s.bits > 0xff80_0000 ==> !s.reached_by(more),
        s.bits == 0 || 0x8000_0000 <= s.bits <= 0xff80_0000 ==> s.reached_by(micro),
        s.bits < 0x7f80_0000 ==> (s.reached_by(micro) <==> s.scaled() * 1_000_000 <= micro * pow2(
            149,
        )),
{
    let unit = pow2(149);
    lemma_pow2_pos(149);
    assert(0 <= micro * unit <= more * unit) by (nonlinear_arith)
        requires
            0 <= micro <= more,
            unit > 0,
    ;
    lemma_pow2_pos(s.doublings());
    let step = pow2(s.doublings());
    assert(s.significand() * step >= 0) by (nonlinear_arith)
        requires
            s.significand() >= 0,
            step > 0,
    ;
    if s.bits == 0 {
        assert(s.significand() == 0);
        assert(s.significand() * step == 0) by (nonlinear_arith)
            requires
                s.significand() == 0,
        ;
    }
}

} // verus!
