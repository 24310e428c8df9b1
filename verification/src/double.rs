//! Double-precision numbers, by their IEEE 754 bit patterns. The library carries them,
//! compares them and rounds them to whole numbers; it does no other arithmetic on them.

use crate::counting;
use crate::order;
use crate::order::Sortable;
use core::cmp::Ordering;
use vstd::arithmetic::power2;
use vstd::prelude::*;

verus! {

/// The bit of the sign, and at the same time the number of patterns without it.
pub const SIGN_BIT: u64 = 0x8000_0000_0000_0000;

/// The pattern of infinity. Patterns above it, up to the bit of the sign, stand for no
/// number.
pub const INFINITY_BITS: u64 = 0x7ff0_0000_0000_0000;

/// The lowest bit of the exponent, and at the same time the number of fractions.
pub const EXPONENT_UNIT: u64 = 0x0010_0000_0000_0000;

/// A double-precision number, held as its IEEE 754 bit pattern.
#[derive(Clone, Copy, Debug)]
pub struct Double {
    pub bits: u64,
}

impl PartialEq for Double {
    fn eq(&self, other: &Self) -> (result: bool) {
        !self.nan() && !other.nan() && self.sort_key() == other.sort_key()
    }
}

impl vstd::std_specs::cmp::PartialEqSpecImpl for Double {
    open spec fn obeys_eq_spec() -> bool {
        true
    }

    open spec fn eq_spec(&self, other: &Self) -> bool {
        self.equals(*other)
    }
}

impl Double {
    pub open spec fn is_negative(self) -> bool {
        self.bits >= SIGN_BIT
    }

    /// The pattern without the sign. Of two patterns, the larger one stands for the
    /// number that is farther from zero.
    pub open spec fn magnitude(self) -> int {
        if self.is_negative() {
            self.bits - SIGN_BIT
        } else {
            self.bits as int
        }
    }

    /// The pattern stands for no number.
    pub open spec fn is_nan(self) -> bool {
        self.magnitude() > INFINITY_BITS
    }

    /// A whole number that is ordered as the numbers are; both zeros have the same.
    pub open spec fn key(self) -> int {
        if self.is_negative() {
            -self.magnitude()
        } else {
            self.magnitude()
        }
    }

    /// The numerical order. What is no number is neither below nor above anything.
    pub open spec fn below(self, other: Double) -> bool {
        !self.is_nan() && !other.is_nan() && self.key() < other.key()
    }

    /// The numbers are the same. Both zeros are the same number, and what is no number
    /// is not the same as anything.
    pub open spec fn equals(self, other: Double) -> bool {
        !self.is_nan() && !other.is_nan() && self.key() == other.key()
    }

    /// The exponent, as it is stored.
    pub open spec fn exponent(self) -> int {
        self.magnitude() / EXPONENT_UNIT as int
    }

    /// The digits of the number, taken as a whole number.
    pub open spec fn significand(self) -> int {
        let fraction = self.magnitude() % EXPONENT_UNIT as int;
        if self.exponent() == 0 {
            fraction
        } else {
            fraction + EXPONENT_UNIT
        }
    }

    /// By how many binary places the significand has to be moved down to give the
    /// number's distance from zero.
    pub open spec fn places(self) -> int {
        if self.exponent() == 0 {
            1074
        } else {
            1075 - self.exponent()
        }
    }

    /// The distance from zero, rounded to the nearest whole number; a half is rounded
    /// away from zero.
    pub open spec fn rounded_magnitude(self) -> int {
        if self.places() <= 0 {
            self.significand() * power2::pow2((-self.places()) as nat)
        } else {
            (self.significand() + power2::pow2((self.places() - 1) as nat)) / power2::pow2(
                self.places() as nat,
            ) as int
        }
    }

    /// The number rounded to a whole one and brought into the range of `i32`; zero for
    /// what is no number.
    pub open spec fn rounded(self) -> int {
        if self.is_nan() {
            0
        } else if self.is_negative() {
            if self.rounded_magnitude() > -(i32::MIN as int) {
                i32::MIN as int
            } else {
                -self.rounded_magnitude()
            }
        } else {
            if self.rounded_magnitude() > i32::MAX {
                i32::MAX as int
            } else {
                self.rounded_magnitude()
            }
        }
    }

    fn unsigned(&self) -> (magnitude: u64)
        ensures
            magnitude == self.magnitude(),
            magnitude < SIGN_BIT,
    {
        if self.bits >= SIGN_BIT {
            self.bits - SIGN_BIT
        } else {
            self.bits
        }
    }

    /// Tells whether the pattern stands for no number.
    pub fn nan(&self) -> (result: bool)
        ensures
            result == self.is_nan(),
    {
        self.unsigned() > INFINITY_BITS
    }

    fn sort_key(&self) -> (key: i64)
        ensures
            key == self.key(),
    {
        if self.bits >= SIGN_BIT {
            -(self.unsigned() as i64)
        } else {
            self.unsigned() as i64
        }
    }

    /// Tells whether one number is below another.
    pub fn less(&self, other: &Double) -> (result: bool)
        ensures
            result == self.below(*other),
    {
        !self.nan() && !other.nan() && self.sort_key() < other.sort_key()
    }

    /// Rounds to the nearest whole number that an `i32` can hold, a half away from zero.
    pub fn round_to_i32(&self) -> (rounded: i32)
        ensures
            rounded == self.rounded(),
    {
        if self.nan() {
            return 0;
        }
        let magnitude: u64 = self.unsigned();
        let exponent: u64 = magnitude / EXPONENT_UNIT;
        let fraction: u64 = magnitude % EXPONENT_UNIT;
        let nearest: u64 = if exponent >= 1075 {
            proof {
                power2::lemma_pow2_pos((exponent - 1075) as nat);
                assert(self.rounded_magnitude() >= self.significand()) by (nonlinear_arith)
                    requires
                        self.rounded_magnitude() == self.significand() * power2::pow2(
                            (exponent - 1075) as nat,
                        ),
                        self.significand() >= 0,
                        power2::pow2((exponent - 1075) as nat) >= 1,
                ;
            }
            EXPONENT_UNIT
        } else {
            let significand: u64 = if exponent == 0 {
                fraction
            } else {
                fraction + EXPONENT_UNIT
            };
            let places: u64 = if exponent == 0 {
                1074
            } else {
                1075 - exponent
            };
            nearest_quotient(significand, places)
        };
        if self.bits >= SIGN_BIT {
            if nearest > 0x8000_0000 {
                i32::MIN
            } else {
                (-(nearest as i64)) as i32
            }
        } else if nearest > 0x7fff_ffff {
            i32::MAX
        } else {
            nearest as i32
        }
    }
}

/// A number of at most 53 binary digits, moved down by some binary places and rounded.
fn nearest_quotient(significand: u64, places: u64) -> (nearest: u64)
    requires
        significand < 2 * EXPONENT_UNIT,
        places > 0,
    ensures
        nearest == (significand + power2::pow2((places - 1) as nat)) / power2::pow2(places as nat) as int,
{
    let mut half: u64 = 1;
    let mut i: u64 = 1;
    proof {
        power2::lemma2_to64();
        power2::lemma2_to64_rest();
    }
    while i < places && i < 54
        invariant
            1 <= i <= places,
            i <= 54,
            half == power2::pow2((i - 1) as nat),
            1 <= half <= 2 * EXPONENT_UNIT,
            power2::pow2(53) == 2 * EXPONENT_UNIT,
        decreases 54 - i,
    {
        proof {
            power2::lemma_pow2_unfold(i as nat);
            if i < 53 {
                power2::lemma_pow2_strictly_increases(i as nat, 53);
            }
        }
        half = 2 * half;
        i += 1;
    }
    proof {
        power2::lemma_pow2_unfold(places as nat);
    }
    if i < places {
        proof {
            power2::lemma_pow2_strictly_increases(53, (places - 1) as nat);
            vstd::arithmetic::div_mod::lemma_basic_div(
                significand + power2::pow2((places - 1) as nat),
                power2::pow2(places as nat) as int,
            );
        }
        0
    } else {
        (significand + half) / (2 * half)
    }
}

impl Sortable for Double {
    open spec fn precedes(self, other: Self) -> bool {
        self.key() < other.key()
    }

    proof fn lemma_weak_order(a: Self, b: Self, c: Self) {
    }

    fn compare(&self, other: &Self) -> (result: Ordering) {
        let a: i64 = self.sort_key();
        let b: i64 = other.sort_key();
        if a < b {
            Ordering::Less
        } else if a > b {
            Ordering::Greater
        } else {
            Ordering::Equal
        }
    }
}

/// Numbers can be put in order where all of them are numbers, or there is nothing to
/// compare.
pub open spec fn comparable(values: Seq<Double>) -> bool {
    values.len() <= 1 || forall|i: int| 0 <= i < values.len() ==> !(#[trigger] values[i]).is_nan()
}

/// `sorted` has the given numbers in ascending order.
pub open spec fn is_ascending(values: Seq<Double>, sorted: Seq<Double>) -> bool {
    &&& sorted.to_multiset() == values.to_multiset()
    &&& forall|i: int, j: int|
        0 <= i < j < sorted.len() ==> !(#[trigger] sorted[j]).below(#[trigger] sorted[i])
}

/// Tells whether numbers can be put in order.
pub fn can_order(values: &Vec<Double>) -> (result: bool)
    ensures
        result == comparable(values@),
{
    if values.len() <= 1 {
        return true;
    }
    let mut i: usize = 0;
    while i < values.len()
        invariant
            i <= values@.len(),
            values@.len() > 1,
            forall|j: int| 0 <= j < i ==> !(#[trigger] values@[j]).is_nan(),
        decreases values@.len() - i,
    {
        if values[i].nan() {
            return false;
        }
        i += 1;
    }
    true
}

/// Puts numbers in ascending order.
pub fn ascending(values: Vec<Double>) -> (sorted: Vec<Double>)
    requires
        comparable(values@),
    ensures
        is_ascending(values@, sorted@),
        sorted@.to_multiset() == values@.to_multiset(),
        values@.len() > 1 ==> forall|i: int, j: int|
            0 <= i < j < sorted@.len() ==> (#[trigger] sorted@[i]).key() <= (
            #[trigger] sorted@[j]).key(),
{
    let mut sorted = values;
    order::sort_unstable(&mut sorted);
    proof {
        assert forall|i: int, j: int| 0 <= i < j < sorted@.len() implies !(
        #[trigger] sorted@[j]).below(#[trigger] sorted@[i]) by {
            assert(!sorted@[j].precedes(sorted@[i]));
        }
    }
    sorted
}

/// Numbers can be put in order unless there are several and one of them is none.
pub proof fn lemma_comparable(values: Seq<Double>)
    ensures
        comparable(values) <==> values.len() <= 1 || !exists|i: int|
            0 <= i < values.len() && (#[trigger] values[i]).is_nan(),
{
}

/// What the bit patterns say of the order. Patterns without the sign ascend with the numbers
/// that they stand for, patterns with it descend, and those with it are below those without,
/// but for the two zeros. Patterns that stand for no number lie beyond the two infinities,
/// and are neither below, nor above, nor equal to anything; they are rounded to zero.
pub proof fn lemma_patterns(a: Double, b: Double)
    ensures
        a.is_nan() <==> 0x7ff0_0000_0000_0000 < a.bits < 0x8000_0000_0000_0000
            || 0xfff0_0000_0000_0000 < a.bits,
        a.is_nan() || b.is_nan() ==> !a.below(b) && !a.equals(b),
        a.is_nan() ==> a.rounded() == 0,
        !a.is_nan() && !b.is_nan() ==> {
            &&& a.bits < 0x8000_0000_0000_0000 && b.bits < 0x8000_0000_0000_0000 ==> (a.below(b)
                <==> a.bits < b.bits)
            &&& a.bits >= 0x8000_0000_0000_0000 && b.bits >= 0x8000_0000_0000_0000 ==> (a.below(b)
                <==> a.bits > b.bits)
            &&& a.bits >= 0x8000_0000_0000_0000 && b.bits < 0x8000_0000_0000_0000 ==> (a.below(b)
                <==> !(a.bits == 0x8000_0000_0000_0000 && b.bits == 0))
            &&& a.bits < 0x8000_0000_0000_0000 && b.bits >= 0x8000_0000_0000_0000 ==> !a.below(b)
            &&& a.equals(b) <==> a.bits == b.bits || (a.bits == 0 && b.bits
                == 0x8000_0000_0000_0000) || (a.bits == 0x8000_0000_0000_0000 && b.bits == 0)
        },
{
}

/// The order of numbers is strict and transitive, and of two numbers one is below the other
/// unless they are equal.
pub proof fn lemma_numbers_ordered(a: Double, b: Double, c: Double)
    ensures
        !a.below(a),
        a.below(b) && b.below(c) ==> a.below(c),
        !a.is_nan() && !b.is_nan() ==> a.below(b) || b.below(a) || a.equals(b),
        a.equals(b) ==> !a.below(b) && b.equals(a),
{
}

/// Rounding gives the nearest whole number, the one farther from zero where two are equally
/// near, and the nearest that an `i32` can hold where the number is beyond all of them. The
/// number is a whole one, its digits, divided by a power of two, as its pattern has it.
pub proof fn lemma_nearest(d: Double)
    requires
        !d.is_nan(),
    ensures
        ({
            let negative = d.bits >= 0x8000_0000_0000_0000;
            let pattern = if negative {
                d.bits - 0x8000_0000_0000_0000
            } else {
                d.bits as int
            };
            let exponent = pattern / 0x0010_0000_0000_0000;
            let number = pattern % 0x0010_0000_0000_0000 + 0x0010_0000_0000_0000;
            let scale = power2::pow2((1075 - exponent) as nat) as int;
            let result = d.rounded();
            let distance = if negative {
                -result
            } else {
                result
            };
            let limit = if negative {
                0x8000_0000int
            } else {
                0x7fff_ffffint
            };
            &&& 0 <= distance <= limit
            &&& exponent == 0 ==> result == 0
            &&& exponent >= 1075 ==> distance == limit
            &&& 1 <= exponent < 1075 ==> (2 * distance - 1) * scale <= 2 * number
            &&& 1 <= exponent < 1075 && distance < limit ==> 2 * number < (2 * distance + 1)
                * scale
        }),
{
    let negative = d.bits >= 0x8000_0000_0000_0000;
    let exponent = d.exponent();
    let number = d.significand();
    let nearest = d.rounded_magnitude();
    let limit = if negative {
        0x8000_0000int
    } else {
        0x7fff_ffffint
    };
    assert(d.magnitude() == (if negative {
        d.bits - 0x8000_0000_0000_0000
    } else {
        d.bits as int
    }));
    assert(exponent == d.magnitude() / 0x0010_0000_0000_0000);
    if exponent == 0 {
        assert(d.places() == 1074);
        power2::lemma_pow2_unfold(1074);
        power2::lemma2_to64();
        power2::lemma2_to64_rest();
        power2::lemma_pow2_strictly_increases(52, 1073);
        vstd::arithmetic::div_mod::lemma_basic_div(
            number + power2::pow2(1073),
            power2::pow2(1074) as int,
        );
        assert(nearest == 0);
    } else if exponent >= 1075 {
        let factor = power2::pow2((exponent - 1075) as nat) as int;
        power2::lemma_pow2_pos((exponent - 1075) as nat);
        assert(nearest == number * factor);
        assert(number * factor >= number) by (nonlinear_arith)
            requires
                number >= 0,
                factor >= 1,
        ;
    } else {
        let places = (1075 - exponent) as nat;
        let scale = power2::pow2(places) as int;
        let half = power2::pow2((places - 1) as nat) as int;
        power2::lemma_pow2_unfold(places);
        power2::lemma_pow2_pos((places - 1) as nat);
        assert(scale == 2 * half);
        assert(nearest == (number + half) / scale);
        vstd::arithmetic::div_mod::lemma_fundamental_div_mod(number + half, scale);
        let rest = (number + half) % scale;
        assert(0 <= rest < scale);
        assert(nearest >= 0) by (nonlinear_arith)
            requires
                number + half == scale * nearest + rest,
                number >= 0,
                half > 0,
                scale == 2 * half,
                0 <= rest < scale,
        ;
        assert((2 * nearest - 1) * scale <= 2 * number < (2 * nearest + 1) * scale)
            by (nonlinear_arith)
            requires
                number + half == scale * nearest + rest,
                scale == 2 * half,
                0 <= rest < scale,
        ;
        if nearest > limit {
            assert((2 * limit - 1) * scale <= (2 * nearest - 1) * scale) by (nonlinear_arith)
                requires
                    limit <= nearest,
                    scale > 0,
            ;
        }
    }
}

/// Ascending order is the same whatever order the numbers came in: at each place stands
/// the same number, but that one zero may stand for the other.
pub proof fn lemma_ascending_unique(
    values: Seq<Double>,
    others: Seq<Double>,
    a: Seq<Double>,
    b: Seq<Double>,
)
    requires
        values.to_multiset() == others.to_multiset(),
        comparable(values),
        is_ascending(values, a),
        is_ascending(others, b),
    ensures
        a.len() == b.len(),
        forall|i: int| 0 <= i < a.len() ==> (#[trigger] a[i]).key() == b[i].key(),
{
    let f = |d: Double| d.key();
    let leq = |x: int, y: int| x <= y;
    counting::lemma_permutation_contains(a, values);
    counting::lemma_permutation_contains(b, values);
    counting::lemma_map_permutation(a, b, f);
    let x = a.map_values(f);
    let y = b.map_values(f);
    assert forall|i: int, j: int| 0 <= i < j < x.len() implies #[trigger] leq(x[i], x[j]) by {
        assert(values.contains(a[i]) && values.contains(a[j])) by {
            assert(a.contains(a[i]) && a.contains(a[j]));
        }
        assert(!a[j].below(a[i]));
    }
    assert forall|i: int, j: int| 0 <= i < j < y.len() implies #[trigger] leq(y[i], y[j]) by {
        assert(values.contains(b[i]) && values.contains(b[j])) by {
            assert(b.contains(b[i]) && b.contains(b[j]));
        }
        assert(!b[j].below(b[i]));
    }
    vstd::seq_lib::lemma_sorted_unique(x, y, leq);
    assert forall|i: int| 0 <= i < a.len() implies (#[trigger] a[i]).key() == b[i].key() by {
        assert(x[i] == y[i]);
    }
}

} // verus!
