//! IEEE 754 single-precision numbers as bit patterns.

use vstd::prelude::*;

verus! {

/// Bit pattern of positive infinity; a larger magnitude is not a number.
pub const INFINITY_BITS: u32 = 0x7f80_0000;

/// Bit pattern of the largest finite number.
pub const LARGEST_BITS: u32 = 0x7f7f_ffff;

/// Bit pattern of `1.0`.
pub const ONE_BITS: u32 = 0x3f80_0000;

/// Bit pattern of `1e-8`, below which a margin counts as a tie.
pub const TIE_MARGIN_BITS: u32 = 0x322b_cc77;

/// Weight of the sign bit.
pub const SIGN_BIT: u32 = 0x8000_0000;

/// A single-precision number, held as its IEEE 754 bit pattern.
///
/// The type carries numbers and compares them. It does no arithmetic.
#[derive(Clone, Copy, PartialEq, Eq, Structural, Debug)]
pub struct Single {
    /// The bit pattern.
    pub bits: u32,
}

impl Single {
    /// The sign bit is set.
    pub open spec fn negative(self) -> bool {
        self.bits >= SIGN_BIT
    }

    /// The bit pattern without its sign bit.
    pub open spec fn magnitude(self) -> int {
        if self.negative() {
            self.bits - SIGN_BIT
        } else {
            self.bits as int
        }
    }

    /// Neither a finite number nor an infinity.
    pub open spec fn nan(self) -> bool {
        self.magnitude() > INFINITY_BITS
    }

    /// An integer that is ordered as the number is; both zeros give zero.
    pub open spec fn rank(self) -> int {
        if self.negative() {
            -self.magnitude()
        } else {
            self.magnitude()
        }
    }

    /// An integer that is ordered by the IEEE 754 `totalOrder` predicate: negative NaN first,
    /// then the numbers, with minus zero before plus zero, then positive NaN.
    pub open spec fn total(self) -> int {
        if self.negative() {
            -self.magnitude() - 1
        } else {
            self.magnitude()
        }
    }

    /// `self < other` as IEEE 754 compares: false where either is NaN.
    pub open spec fn below(self, other: Single) -> bool {
        !self.nan() && !other.nan() && self.rank() < other.rank()
    }

    /// `self >= other` as IEEE 754 compares: false where either is NaN.
    pub open spec fn at_least(self, other: Single) -> bool {
        !self.nan() && !other.nan() && self.rank() >= other.rank()
    }

    /// The number without its sign.
    pub open spec fn unsigned(self) -> Single {
        Single { bits: self.magnitude() as u32 }
    }

    /// The number with its sign changed.
    pub open spec fn opposite(self) -> Single {
        if self.negative() {
            Single { bits: (self.bits - SIGN_BIT) as u32 }
        } else {
            Single { bits: (self.bits + SIGN_BIT) as u32 }
        }
    }

    /// The larger of two numbers; where one is NaN, the other one.
    pub open spec fn larger(self, other: Single) -> Single {
        if self.nan() || (!other.nan() && self.rank() < other.rank()) {
            other
        } else {
            self
        }
    }

    /// The smaller of two numbers; where one is NaN, the other one.
    pub open spec fn smaller(self, other: Single) -> Single {
        if self.nan() || (!other.nan() && other.rank() < self.rank()) {
            other
        } else {
            self
        }
    }

    /// Plus zero.
    pub open spec fn spec_zero() -> Single {
        Single { bits: 0 }
    }

    /// Positive infinity.
    pub open spec fn spec_infinity() -> Single {
        Single { bits: INFINITY_BITS }
    }

    /// Plus zero.
    pub fn zero() -> (r: Single)
        ensures
            r == Single::spec_zero(),
    {
        Single { bits: 0 }
    }

    /// Positive infinity.
    pub fn infinity() -> (r: Single)
        ensures
            r == Single::spec_infinity(),
    {
        Single { bits: INFINITY_BITS }
    }

    /// The number without its sign.
    pub fn abs(self) -> (r: Single)
        ensures
            r == self.unsigned(),
    {
        if self.bits >= SIGN_BIT {
            Single { bits: self.bits - SIGN_BIT }
        } else {
            self
        }
    }

    /// The number with its sign changed.
    pub fn negate(self) -> (r: Single)
        ensures
            r == self.opposite(),
    {
        if self.bits >= SIGN_BIT {
            Single { bits: self.bits - SIGN_BIT }
        } else {
            Single { bits: self.bits + SIGN_BIT }
        }
    }

    /// Whether the bit pattern stands for no number.
    pub fn is_nan(self) -> (r: bool)
        ensures
            r == self.nan(),
    {
        self.abs().bits > INFINITY_BITS
    }

    fn rank_key(self) -> (r: i64)
        ensures
            r == self.rank(),
    {
        if self.bits >= SIGN_BIT {
            -((self.bits - SIGN_BIT) as i64)
        } else {
            self.bits as i64
        }
    }

    /// The position of the bit pattern in the `totalOrder` of IEEE 754.
    pub fn total_key(self) -> (r: i64)
        ensures
            r == self.total(),
    {
        if self.bits >= SIGN_BIT {
            -((self.bits - SIGN_BIT) as i64) - 1
        } else {
            self.bits as i64
        }
    }

    /// `self < other`.
    pub fn lt(self, other: Single) -> (r: bool)
        ensures
            r == self.below(other),
    {
        !self.is_nan() && !other.is_nan() && self.rank_key() < other.rank_key()
    }

    /// `self >= other`.
    pub fn ge(self, other: Single) -> (r: bool)
        ensures
            r == self.at_least(other),
    {
        !self.is_nan() && !other.is_nan() && self.rank_key() >= other.rank_key()
    }

    /// The larger of two numbers; where one is NaN, the other one.
    pub fn max(self, other: Single) -> (r: Single)
        ensures
            r == self.larger(other),
    {
        if self.is_nan() || self.lt(other) {
            other
        } else {
            self
        }
    }

    /// The smaller of two numbers; where one is NaN, the other one.
    pub fn min(self, other: Single) -> (r: Single)
        ensures
            r == self.smaller(other),
    {
        if self.is_nan() || other.lt(self) {
            other
        } else {
            self
        }
    }

    /// Whether a margin is too small to decide a side: its magnitude is below `1e-8`.
    pub open spec fn ties(self) -> bool {
        self.unsigned().below(Single { bits: TIE_MARGIN_BITS })
    }

    /// Whether a margin is too small to decide a side.
    pub fn is_tie(self) -> (r: bool)
        ensures
            r == self.ties(),
    {
        self.abs().lt(Single { bits: TIE_MARGIN_BITS })
    }

    /// Two bit patterns at the same place of the total order are the same.
    pub proof fn total_is_injective(a: Single, b: Single)
        requires
            a.total() == b.total(),
        ensures
            a == b,
    {
    }

    /// On two numbers of which none is NaN, the total order refines the numerical one.
    pub proof fn total_refines_rank(a: Single, b: Single)
        requires
            !a.nan(),
            !b.nan(),
            a.below(b),
        ensures
            a.total() < b.total(),
    {
    }
}

/// The largest magnitude among `values`, NaN left out, starting from plus zero.
pub open spec fn peak(values: Seq<Single>) -> Single
    decreases values.len(),
{
    if values.len() == 0 {
        Single::spec_zero()
    } else {
        peak(values.drop_last()).larger(values.last().unsigned())
    }
}

/// The largest magnitude among `values`; NaN is passed over, and nothing gives plus zero.
pub fn max_abs(values: &[Single]) -> (r: Single)
    ensures
        r == peak(values@),
{
    let mut value: Single = Single::zero();
    let mut i: usize = 0;
    while i < values.len()
        invariant
            i <= values@.len(),
            value == peak(values@.take(i as int)),
        decreases values@.len() - i,
    {
        assert(values@.take(i + 1).drop_last() =~= values@.take(i as int));
        value = value.max(values[i].abs());
        i = i + 1;
    }
    assert(values@.take(values@.len() as int) =~= values@);
    value
}

/// The largest magnitude is that of one of the values, or zero, and no value that is a number
/// has a larger one.
pub proof fn peak_bounds(values: Seq<Single>)
    ensures
        !peak(values).nan(),
        peak(values) == Single::spec_zero() || exists|i: int|
            0 <= i < values.len() && peak(values) == (#[trigger] values[i]).unsigned(),
        forall|i: int|
            0 <= i < values.len() && !(#[trigger] values[i]).nan() ==> values[i].magnitude()
                <= peak(values).rank(),
    decreases values.len(),
{
    if values.len() > 0 {
        let rest = values.drop_last();
        peak_bounds(rest);
        assert forall|i: int|
            0 <= i < values.len() && !(#[trigger] values[i]).nan() implies values[i].magnitude()
            <= peak(values).rank() by {
            if i < rest.len() {
                assert(values[i] == rest[i]);
            }
        }
        if peak(values) != values.last().unsigned() && peak(rest) != Single::spec_zero() {
            let i = choose|i: int|
                0 <= i < rest.len() && peak(rest) == (#[trigger] rest[i]).unsigned();
            assert(values[i] == rest[i]);
        } else if peak(values) == values.last().unsigned() {
            assert(values[values.len() - 1].unsigned() == peak(values));
        }
    }
}

/// `top` is the largest magnitude among `values`: that of one of them, or zero, and none that is a
/// number has a larger one.
pub open spec fn tops(top: Single, values: Seq<Single>) -> bool {
    &&& top.bits <= INFINITY_BITS
    &&& top.bits == 0 || exists|i: int|
        0 <= i < values.len() && top == (#[trigger] values[i]).unsigned()
    &&& forall|i: int|
        0 <= i < values.len() && !(#[trigger] values[i]).nan() ==> values[i].unsigned().bits
            <= top.bits
}

/// The largest magnitude is the one that is found.
pub proof fn peak_is_the_top(values: Seq<Single>, top: Single)
    requires
        tops(top, values),
    ensures
        peak(values) == top,
        peak(values).negative() == false,
{
    peak_bounds(values);
    let found = peak(values);
    if found != Single::spec_zero() {
        let i = choose|i: int| 0 <= i < values.len() && found == (#[trigger] values[i]).unsigned();
        assert(!values[i].nan());
    }
    if top.bits != 0 {
        let i = choose|i: int| 0 <= i < values.len() && top == (#[trigger] values[i]).unsigned();
        assert(!values[i].nan());
    }
}

} // verus!
