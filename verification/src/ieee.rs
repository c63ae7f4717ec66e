//! Binary floating-point numbers, carried as their bit patterns.
//!
//! [`Single`] and [`Double`] hold the 32-bit and 64-bit interchange formats.
//! The library orders, negates, classifies and moves such numbers; it does no
//! arithmetic on them. What a pattern denotes is the integer
//! [`Single::number`] (or [`Double::number`]): the number counted in units of
//! the smallest subnormal, which makes every finite number of the format a
//! whole count.
use vstd::prelude::*;

verus! {

/// A number of the 32-bit format.
///
/// `==` compares bit patterns; [`Single::equals`] compares numbers.
#[derive(Clone, Copy, Debug, PartialEq, Eq, Structural)]
pub struct Single {
    /// Sign bit, eight exponent bits, twenty-three fraction bits.
    pub bits: u32,
}

/// A number of the 64-bit format. `==` compares bit patterns.
#[derive(Clone, Copy, Debug, PartialEq, Eq, Structural)]
pub struct Double {
    /// Sign bit, eleven exponent bits, fifty-two fraction bits.
    pub bits: u64,
}

/// The count of smallest subnormals denoted by the exponent and fraction bits
/// `magnitude` of a format with `p` fraction bits.
///
/// An exponent of zero is a subnormal; otherwise the fraction has a leading
/// one. The largest exponent stands for infinity, which by this formula lies
/// beyond every finite number.
pub open spec fn units(magnitude: nat, p: nat) -> nat {
    let exponent = magnitude / vstd::arithmetic::power2::pow2(p);
    let fraction = magnitude % vstd::arithmetic::power2::pow2(p);
    if exponent == 0 {
        fraction
    } else {
        (vstd::arithmetic::power2::pow2(p) + fraction) * vstd::arithmetic::power2::pow2(
            (exponent - 1) as nat,
        )
    }
}

proof fn lemma_units_successor(magnitude: nat, p: nat)
    ensures
        units(magnitude, p) < units(magnitude + 1, p),
{
    let unit = vstd::arithmetic::power2::pow2(p);
    vstd::arithmetic::power2::lemma_pow2_pos(p);
    let e = magnitude / unit;
    let f = magnitude % unit;
    vstd::arithmetic::div_mod::lemma_fundamental_div_mod(magnitude as int, unit as int);
    assert(0 <= f < unit) by {
        vstd::arithmetic::div_mod::lemma_mod_bound(magnitude as int, unit as int);
    }
    if f + 1 < unit {
        assert((magnitude + 1) as int == (e as int) * (unit as int) + (f + 1)) by (nonlinear_arith)
            requires
                magnitude as int == (unit as int) * (e as int) + f,
        ;
        vstd::arithmetic::div_mod::lemma_fundamental_div_mod_converse(
            (magnitude + 1) as int,
            unit as int,
            e as int,
            (f + 1) as int,
        );
        if e > 0 {
            let scale = vstd::arithmetic::power2::pow2((e - 1) as nat);
            vstd::arithmetic::power2::lemma_pow2_pos((e - 1) as nat);
            assert((unit + f) * scale < (unit + (f + 1)) * scale) by (nonlinear_arith)
                requires
                    scale > 0,
            ;
        }
    } else {
        assert((magnitude + 1) as int == ((e + 1) as int) * (unit as int) + 0) by (nonlinear_arith)
            requires
                magnitude as int == (unit as int) * (e as int) + f,
                f + 1 == unit,
        ;
        vstd::arithmetic::div_mod::lemma_fundamental_div_mod_converse(
            (magnitude + 1) as int,
            unit as int,
            (e + 1) as int,
            0,
        );
        let next = vstd::arithmetic::power2::pow2(e);
        vstd::arithmetic::power2::lemma_pow2_pos(e);
        if e > 0 {
            let scale = vstd::arithmetic::power2::pow2((e - 1) as nat);
            vstd::arithmetic::power2::lemma_pow2_pos((e - 1) as nat);
            vstd::arithmetic::power2::lemma_pow2_unfold(e);
            assert((unit + f) * scale < (unit + 0) * next) by (nonlinear_arith)
                requires
                    scale > 0,
                    next == 2 * scale,
                    f + 1 == unit,
            ;
        } else {
            vstd::arithmetic::power2::lemma2_to64();
            assert((unit + 0) * next == unit) by (nonlinear_arith)
                requires
                    next == 1,
            ;
        }
    }
}

proof fn lemma_units_increase(a: nat, b: nat, p: nat)
    requires
        a < b,
    ensures
        units(a, p) < units(b, p),
    decreases b,
{
    lemma_units_successor((b - 1) as nat, p);
    if a < b - 1 {
        lemma_units_increase(a, (b - 1) as nat, p);
    }
}

/// Patterns compare as the numbers they denote.
proof fn lemma_units_order(a: nat, b: nat, p: nat)
    ensures
        a < b <==> units(a, p) < units(b, p),
        a == b <==> units(a, p) == units(b, p),
{
    if a < b {
        lemma_units_increase(a, b, p);
    } else if b < a {
        lemma_units_increase(b, a, p);
    }
}

proof fn lemma_units_zero(p: nat)
    ensures
        units(0, p) == 0,
{
    vstd::arithmetic::power2::lemma_pow2_pos(p);
    vstd::arithmetic::div_mod::lemma_fundamental_div_mod_converse(
        0,
        vstd::arithmetic::power2::pow2(p) as int,
        0,
        0,
    );
}

impl Single {
    /// The sign bit.
    pub open spec fn negative(self) -> bool {
        self.bits >= 0x8000_0000
    }

    /// The exponent and fraction bits.
    pub open spec fn magnitude(self) -> nat {
        if self.negative() {
            (self.bits - 0x8000_0000) as nat
        } else {
            self.bits as nat
        }
    }

    /// The pattern denotes no number.
    pub open spec fn nan(self) -> bool {
        self.magnitude() > 0x7f80_0000
    }

    /// The number denoted, in units of the smallest subnormal.
    pub open spec fn number(self) -> int {
        if self.negative() {
            -(units(self.magnitude(), 23) as int)
        } else {
            units(self.magnitude(), 23) as int
        }
    }

    /// The comparison `self > other`: no comparison with a NaN holds.
    pub open spec fn exceeds(self, other: Single) -> bool {
        !self.nan() && !other.nan() && self.number() > other.number()
    }

    /// The comparison `self == other`: no comparison with a NaN holds, and zeros
    /// of both signs are equal.
    pub open spec fn ties(self, other: Single) -> bool {
        !self.nan() && !other.nan() && self.number() == other.number()
    }

    /// The pattern with its sign bit flipped.
    pub open spec fn negated(self) -> Single {
        Single {
            bits: if self.negative() {
                (self.bits - 0x8000_0000) as u32
            } else {
                (self.bits + 0x8000_0000) as u32
            },
        }
    }

    /// The pattern denotes the natural number `n`.
    pub open spec fn denotes(self, n: nat) -> bool {
        !self.nan() && self.number() == n * vstd::arithmetic::power2::pow2(149)
    }

    /// Positive zero.
    pub fn zero() -> (r: Single)
        ensures
            r.bits == 0,
            r.number() == 0,
    {
        proof {
            lemma_units_zero(23);
        }
        Single { bits: 0 }
    }

    /// Whether the pattern is a NaN.
    pub fn is_nan(&self) -> (r: bool)
        ensures
            r == self.nan(),
    {
        if self.bits >= 0x8000_0000 {
            self.bits - 0x8000_0000 > 0x7f80_0000
        } else {
            self.bits > 0x7f80_0000
        }
    }

    /// The comparison `self > other`.
    pub fn gt(&self, other: &Single) -> (r: bool)
        ensures
            r == self.exceeds(*other),
    {
        if self.is_nan() || other.is_nan() {
            return false;
        }
        proof {
            lemma_units_order(self.magnitude(), other.magnitude(), 23);
            lemma_units_order(0, self.magnitude(), 23);
            lemma_units_order(0, other.magnitude(), 23);
            lemma_units_zero(23);
        }
        if self.bits >= 0x8000_0000 {
            other.bits >= 0x8000_0000 && self.bits < other.bits
        } else if other.bits >= 0x8000_0000 {
            self.bits > 0 || other.bits > 0x8000_0000
        } else {
            self.bits > other.bits
        }
    }

    /// The comparison `self == other`.
    pub fn equals(&self, other: &Single) -> (r: bool)
        ensures
            r == self.ties(*other),
    {
        !self.is_nan() && !other.is_nan() && !self.gt(other) && !other.gt(self)
    }

    /// The number with the opposite sign.
    pub fn neg(&self) -> (r: Single)
        ensures
            r == self.negated(),
    {
        if self.bits >= 0x8000_0000 {
            Single { bits: self.bits - 0x8000_0000 }
        } else {
            Single { bits: self.bits + 0x8000_0000 }
        }
    }
}

/// Flipping the sign bit twice gives the pattern back; once, it negates the
/// number, keeps a NaN a NaN, and turns every comparison around.
pub proof fn negation_mirrors_order(a: Single, b: Single)
    ensures
        a.negated().negated() == a,
        a.negated().number() == -a.number(),
        a.negated().nan() == a.nan(),
        a.negated().exceeds(b.negated()) == b.exceeds(a),
{
}

impl Double {
    /// The sign bit.
    pub open spec fn negative(self) -> bool {
        self.bits >= 0x8000_0000_0000_0000
    }

    /// The exponent and fraction bits.
    pub open spec fn magnitude(self) -> nat {
        if self.negative() {
            (self.bits - 0x8000_0000_0000_0000) as nat
        } else {
            self.bits as nat
        }
    }

    /// The pattern denotes no number.
    pub open spec fn nan(self) -> bool {
        self.magnitude() > 0x7ff0_0000_0000_0000
    }

    /// The pattern denotes a number that is not infinite.
    pub open spec fn finite(self) -> bool {
        self.magnitude() < 0x7ff0_0000_0000_0000
    }

    /// The number denoted, in units of the smallest subnormal.
    pub open spec fn number(self) -> int {
        if self.negative() {
            -(units(self.magnitude(), 52) as int)
        } else {
            units(self.magnitude(), 52) as int
        }
    }

    /// The comparison `self <= other`: no comparison with a NaN holds.
    pub open spec fn at_most(self, other: Double) -> bool {
        !self.nan() && !other.nan() && self.number() <= other.number()
    }

    /// The comparison `self > 0.0`.
    pub open spec fn positive(self) -> bool {
        !self.nan() && self.number() > 0
    }

    /// The comparison `self < 0.0`.
    pub open spec fn below_zero(self) -> bool {
        !self.nan() && self.number() < 0
    }

    /// The pattern denotes the natural number `n`.
    pub open spec fn denotes(self, n: nat) -> bool {
        !self.nan() && self.number() == n * vstd::arithmetic::power2::pow2(1074)
    }

    /// Positive zero.
    pub fn zero() -> (r: Double)
        ensures
            r.bits == 0,
            r.denotes(0),
    {
        proof {
            lemma_units_zero(52);
        }
        Double { bits: 0 }
    }

    /// One.
    pub fn one() -> (r: Double)
        ensures
            r.bits == 0x3ff0_0000_0000_0000,
            r.denotes(1),
    {
        proof {
            vstd::arithmetic::power2::lemma2_to64_rest();
            vstd::arithmetic::div_mod::lemma_fundamental_div_mod_converse(
                0x3ff0_0000_0000_0000,
                vstd::arithmetic::power2::pow2(52) as int,
                1023,
                0,
            );
            vstd::arithmetic::power2::lemma_pow2_adds(52, 1022);
        }
        Double { bits: 0x3ff0_0000_0000_0000 }
    }

    /// Whether the pattern is a NaN.
    pub fn is_nan(&self) -> (r: bool)
        ensures
            r == self.nan(),
    {
        if self.bits >= 0x8000_0000_0000_0000 {
            self.bits - 0x8000_0000_0000_0000 > 0x7ff0_0000_0000_0000
        } else {
            self.bits > 0x7ff0_0000_0000_0000
        }
    }

    /// Whether the number is neither infinite nor a NaN.
    pub fn is_finite(&self) -> (r: bool)
        ensures
            r == self.finite(),
    {
        if self.bits >= 0x8000_0000_0000_0000 {
            self.bits - 0x8000_0000_0000_0000 < 0x7ff0_0000_0000_0000
        } else {
            self.bits < 0x7ff0_0000_0000_0000
        }
    }

    /// The comparison `self <= other`.
    pub fn le(&self, other: &Double) -> (r: bool)
        ensures
            r == self.at_most(*other),
    {
        if self.is_nan() || other.is_nan() {
            return false;
        }
        proof {
            lemma_units_order(self.magnitude(), other.magnitude(), 52);
            lemma_units_order(0, self.magnitude(), 52);
            lemma_units_order(0, other.magnitude(), 52);
            lemma_units_zero(52);
        }
        if self.bits >= 0x8000_0000_0000_0000 {
            if other.bits >= 0x8000_0000_0000_0000 {
                self.bits >= other.bits
            } else {
                true
            }
        } else if other.bits >= 0x8000_0000_0000_0000 {
            self.bits == 0 && other.bits == 0x8000_0000_0000_0000
        } else {
            self.bits <= other.bits
        }
    }

    /// The comparison `self > 0.0`.
    pub fn gt_zero(&self) -> (r: bool)
        ensures
            r == self.positive(),
    {
        proof {
            lemma_units_order(0, self.magnitude(), 52);
            lemma_units_zero(52);
        }
        0 < self.bits && self.bits <= 0x7ff0_0000_0000_0000
    }

    /// The comparison `self < 0.0`.
    pub fn lt_zero(&self) -> (r: bool)
        ensures
            r == self.below_zero(),
    {
        proof {
            lemma_units_order(0, self.magnitude(), 52);
            lemma_units_zero(52);
        }
        0x8000_0000_0000_0000 < self.bits && self.bits <= 0xfff0_0000_0000_0000
    }
}

/// A pattern with a leading one, taken apart.
proof fn lemma_units_normal(exponent: nat, fraction: nat, p: nat)
    requires
        exponent >= 1,
        fraction < vstd::arithmetic::power2::pow2(p),
    ensures
        units(exponent * vstd::arithmetic::power2::pow2(p) + fraction, p) == (
        vstd::arithmetic::power2::pow2(p) + fraction) * vstd::arithmetic::power2::pow2(
            (exponent - 1) as nat,
        ),
{
    let unit = vstd::arithmetic::power2::pow2(p);
    vstd::arithmetic::div_mod::lemma_fundamental_div_mod_converse(
        (exponent * unit + fraction) as int,
        unit as int,
        exponent as int,
        fraction as int,
    );
}

/// The 64-bit pattern of the same number: the exponent moves by the difference
/// of the biases and the fraction gains twenty-nine zeros.
proof fn lemma_widened(a: nat)
    requires
        a >= 0x80_0000,
    ensures
        units((a + 0x1_c000_0000) * 0x2000_0000, 52) == units(a, 23)
            * vstd::arithmetic::power2::pow2(925),
{
    vstd::arithmetic::power2::lemma2_to64();
    vstd::arithmetic::power2::lemma2_to64_rest();
    let e = a / 0x80_0000;
    let f = a % 0x80_0000;
    lemma_units_normal(e, f, 23);
    lemma_units_normal(e + 896, f * 0x2000_0000, 52);
    assert((a + 0x1_c000_0000) * 0x2000_0000 == (e + 896) * 0x10_0000_0000_0000 + f * 0x2000_0000);
    vstd::arithmetic::power2::lemma_pow2_adds((e - 1) as nat, 925);
    vstd::arithmetic::power2::lemma_pow2_adds(29, (e + 895) as nat);
    let (x, y, z) = (
        vstd::arithmetic::power2::pow2((e - 1) as nat),
        vstd::arithmetic::power2::pow2(925),
        vstd::arithmetic::power2::pow2((e + 895) as nat),
    );
    assert((0x10_0000_0000_0000 + f * 0x2000_0000) * z == (0x80_0000 + f) * x * y)
        by (nonlinear_arith)
        requires
            x * y == 0x2000_0000 * z,
    ;
}

/// Between two neighbors of the 32-bit format the 64-bit patterns denote
/// numbers in equal steps.
proof fn lemma_equal_steps(q: nat, x: nat)
    requires
        q >= 0x80_0000,
        x <= 0x2000_0000,
    ensures
        units(q * 0x2000_0000 + x, 52) == units(q * 0x2000_0000, 52) + x
            * vstd::arithmetic::power2::pow2((q / 0x80_0000 - 1) as nat),
{
    vstd::arithmetic::power2::lemma2_to64();
    vstd::arithmetic::power2::lemma2_to64_rest();
    let e = q / 0x80_0000;
    let f = (q % 0x80_0000) * 0x2000_0000;
    let step = vstd::arithmetic::power2::pow2((e - 1) as nat);
    assert(q * 0x2000_0000 == e * 0x10_0000_0000_0000 + f);
    lemma_units_normal(e, f, 52);
    if f + x < 0x10_0000_0000_0000 {
        lemma_units_normal(e, f + x, 52);
    } else {
        assert(f + x == 0x10_0000_0000_0000);
        lemma_units_normal(e + 1, 0, 52);
        vstd::arithmetic::power2::lemma_pow2_unfold(e);
        assert((0x10_0000_0000_0000nat + 0) * (2 * step) == (0x10_0000_0000_0000 + (f + x)) * step)
            by (nonlinear_arith)
            requires
                f + x == 0x10_0000_0000_0000,
        ;
    }
    assert((0x10_0000_0000_0000 + (f + x)) * step == (0x10_0000_0000_0000 + f) * step + x * step)
        by (nonlinear_arith);
}

impl Double {
    /// The pattern is one that a sum of ones can have: zero, or a number from
    /// one to infinity.
    pub open spec fn counts(self) -> bool {
        self.bits == 0 || 0x3ff0_0000_0000_0000 <= self.bits <= 0x7ff0_0000_0000_0000
    }

    /// How far `s` is from this number.
    pub open spec fn distance(self, s: Single) -> int {
        let d = s.number() * vstd::arithmetic::power2::pow2(925) - self.number();
        if d < 0 {
            -d
        } else {
            d
        }
    }

    /// `s` is the number of the 32-bit format nearest to this one, with the
    /// even pattern of two equally near. Numbers that round beyond the largest
    /// finite one go to infinity.
    pub open spec fn rounds_to(self, s: Single) -> bool {
        &&& !s.nan()
        &&& !s.negative()
        &&& forall|t: Single|
            !#[trigger] t.nan() ==> self.distance(s) <= self.distance(t) && (self.distance(s)
                == self.distance(t) && t.number() != s.number() ==> s.bits % 2 == 0)
    }
}

/// No number of the 32-bit format lies strictly between two neighbors.
proof fn lemma_neighbors(q: nat, t: Single)
    requires
        q >= 0x1_c080_0000,
        !t.nan(),
    ensures
        ({
            let n = t.number() * vstd::arithmetic::power2::pow2(925);
            let a = t.magnitude() + 0x1_c000_0000;
            &&& t.negative() || a <= q ==> n <= units(q * 0x2000_0000, 52)
            &&& !t.negative() && a > q ==> n >= units((q + 1) * 0x2000_0000, 52)
            &&& !t.negative() && a == q ==> n == units(q * 0x2000_0000, 52)
        }),
{
    let scale = vstd::arithmetic::power2::pow2(925);
    vstd::arithmetic::power2::lemma_pow2_pos(925);
    let m = t.magnitude();
    let n = t.number();
    if t.negative() {
        assert(n * scale <= 0) by (nonlinear_arith)
            requires
                n <= 0,
                scale > 0,
        ;
    } else if m < 0x80_0000 {
        lemma_units_order(m, 0x80_0000, 23);
        lemma_widened(0x80_0000);
        lemma_units_order((0x80_0000 + 0x1_c000_0000) * 0x2000_0000, q * 0x2000_0000, 52);
        let least = units(0x80_0000, 23) as int;
        assert(n * scale <= least * scale) by (nonlinear_arith)
            requires
                n <= least,
                scale > 0,
        ;
    } else {
        lemma_widened(m);
        lemma_units_order((m + 0x1_c000_0000) * 0x2000_0000, q * 0x2000_0000, 52);
        lemma_units_order((m + 0x1_c000_0000) * 0x2000_0000, (q + 1) * 0x2000_0000, 52);
    }
}

/// The pattern that a count rounds to: without the last twenty-nine bits, up by
/// one where they are more than half or a tie of an odd pattern, with the
/// exponent rebiased, and no further than infinity.
pub open spec fn rounded_bits(bits: u64) -> int {
    let q = bits / 0x2000_0000;
    let r = bits % 0x2000_0000;
    let rounded = if r > 0x1000_0000 || (r == 0x1000_0000 && q % 2 == 1) {
        q + 1
    } else {
        q as int
    };
    if bits == 0 {
        0
    } else if rounded - 0x1_c000_0000 >= 0x7f80_0000 {
        0x7f80_0000
    } else {
        rounded - 0x1_c000_0000
    }
}

/// The pattern made of the bits is the nearest number.
proof fn lemma_rounded(d: Double, s: Single)
    requires
        d.counts(),
        d.bits != 0,
        s.bits == rounded_bits(d.bits),
    ensures
        d.rounds_to(s),
{
    let q: u64 = d.bits / 0x2000_0000;
    let r: u64 = d.bits % 0x2000_0000;
    let rounded = if r > 0x1000_0000 || (r == 0x1000_0000 && q % 2 == 1) {
        q + 1
    } else {
        q as int
    };
    let step = vstd::arithmetic::power2::pow2((q as nat / 0x80_0000 - 1) as nat);
    vstd::arithmetic::power2::lemma_pow2_pos((q as nat / 0x80_0000 - 1) as nat);
    lemma_equal_steps(q as nat, r as nat);
    lemma_equal_steps(q as nat, 0x2000_0000);
    assert(q * 0x2000_0000 + 0x2000_0000 == (q + 1) * 0x2000_0000);
    let lo = units(q as nat * 0x2000_0000, 52) as int;
    let hi = units((q as nat + 1) * 0x2000_0000, 52) as int;
    let x = d.number();
    assert(x == lo + r * step);
    assert(hi == lo + 0x2000_0000 * step);
    assert(0 <= r * step) by (nonlinear_arith)
        requires
            step > 0,
    ;
    assert(0x2000_0000 * step - r * step == (0x2000_0000 - r) * step)
        by (nonlinear_arith);
    assert(0 <= (0x2000_0000 - r) * step) by (nonlinear_arith)
        requires
            step > 0,
            r < 0x2000_0000,
    ;
    if r > 0x1000_0000 {
        assert((0x2000_0000 - r) * step < r * step) by (nonlinear_arith)
            requires
                step > 0,
                r > 0x1000_0000,
        ;
    } else if r < 0x1000_0000 {
        assert((0x2000_0000 - r) * step > r * step) by (nonlinear_arith)
            requires
                step > 0,
                r < 0x1000_0000,
        ;
    } else {
        assert(r == 0x1000_0000);
    }
    lemma_neighbors(q as nat, s);
    lemma_neighbors(q as nat + 1, s);
    assert forall|t: Single| !#[trigger] t.nan() implies d.distance(s) <= d.distance(t)
        && (d.distance(s) == d.distance(t) && t.number() != s.number() ==> s.bits % 2
        == 0) by {
        lemma_neighbors(q as nat, t);
        let (n, k, scale) = (t.number(), s.number(), vstd::arithmetic::power2::pow2(925));
        vstd::arithmetic::power2::lemma_pow2_pos(925);
        assert(n < k ==> n * scale < k * scale) by (nonlinear_arith)
            requires
                scale > 0,
        ;
        assert(n > k ==> n * scale > k * scale) by (nonlinear_arith)
            requires
                scale > 0,
        ;
        if q >= 0x7f80_0000 + 0x1_c000_0000 {
            assert(s.bits == 0x7f80_0000);
            lemma_units_order(t.magnitude(), s.magnitude(), 23);
            assert(n <= k);
            assert(k * scale <= lo);
        } else {
            assert(s.magnitude() + 0x1_c000_0000 == rounded);
            if rounded == q {
                assert(k * scale == lo);
            } else {
                assert(k * scale == hi);
            }
        }
    }
}

impl Double {
    /// The nearest number of the 32-bit format.
    pub fn narrow(&self) -> (s: Single)
        requires
            self.counts(),
        ensures
            self.rounds_to(s),
    {
        if self.bits == 0 {
            proof {
                lemma_units_zero(23);
                lemma_units_zero(52);
                let scale = vstd::arithmetic::power2::pow2(925);
                assert(0 * scale == 0);
                assert(self.distance(Single { bits: 0 }) == 0);
            }
            return Single { bits: 0 };
        }
        let q: u64 = self.bits / 0x2000_0000;
        let r: u64 = self.bits % 0x2000_0000;
        let rounded: u64 = if r > 0x1000_0000 || (r == 0x1000_0000 && q % 2 == 1) {
            q + 1
        } else {
            q
        };
        let magnitude: u64 = rounded - 0x1_c000_0000;
        let s: Single = if magnitude >= 0x7f80_0000 {
            Single { bits: 0x7f80_0000 }
        } else {
            Single { bits: magnitude as u32 }
        };
        proof {
            lemma_rounded(*self, s);
        }
        s
    }
}

/// Doubling brings a natural number to the width of a 32-bit fraction.
proof fn lemma_doubled(n: nat) -> (j: nat)
    requires
        1 <= n < 0x100_0000,
    ensures
        j <= 23,
        0x80_0000 <= n * vstd::arithmetic::power2::pow2(j) < 0x100_0000,
        n < 0x80_0000 ==> j >= 1,
        vstd::arithmetic::power2::pow2(j) <= 0x80_0000,
    decreases 0x100_0000 - n,
{
    vstd::arithmetic::power2::lemma2_to64();
    if n >= 0x80_0000 {
        0
    } else {
        let i = lemma_doubled(2 * n);
        let whole = vstd::arithmetic::power2::pow2(i);
        vstd::arithmetic::power2::lemma_pow2_unfold(i + 1);
        assert(n * (2 * whole) == (2 * n) * whole) by (nonlinear_arith);
        let next = vstd::arithmetic::power2::pow2(i + 1);
        assert(next < 0x100_0000) by (nonlinear_arith)
            requires
                n * next < 0x100_0000,
                n >= 1,
        ;
        if i + 1 > 23 {
            vstd::arithmetic::power2::lemma_pow2_strictly_increases(23, i + 1);
            if i + 1 > 24 {
                vstd::arithmetic::power2::lemma_pow2_strictly_increases(24, i + 1);
            }
        }
        assert(i + 1 <= 23);
        if i + 1 < 23 {
            vstd::arithmetic::power2::lemma_pow2_strictly_increases(i + 1, 23);
        }
        i + 1
    }
}

/// Every natural number below two to the twenty-fourth has a 32-bit pattern.
proof fn lemma_small_pattern(n: nat) -> (t: Single)
    requires
        n < 0x100_0000,
    ensures
        t.denotes(n),
        !t.negative(),
{
    if n == 0 {
        lemma_units_zero(23);
        let t = Single { bits: 0 };
        assert(0 * vstd::arithmetic::power2::pow2(149) == 0);
        t
    } else {
        vstd::arithmetic::power2::lemma2_to64();
        let j = lemma_doubled(n);
        let significand = n * vstd::arithmetic::power2::pow2(j);
        let f = (significand - 0x80_0000) as nat;
        let e = (150 - j) as nat;
        lemma_units_normal(e, f, 23);
        let t = Single { bits: (e * 0x80_0000 + f) as u32 };
        assert(t.magnitude() == e * 0x80_0000 + f);
        vstd::arithmetic::power2::lemma_pow2_adds(j, (149 - j) as nat);
        let (x, y) = (
            vstd::arithmetic::power2::pow2(j),
            vstd::arithmetic::power2::pow2((149 - j) as nat),
        );
        assert(n * x * y == n * (x * y)) by (nonlinear_arith);
        t
    }
}

/// Narrowing keeps the natural numbers below two to the twenty-fourth.
pub proof fn small_counts_are_kept(d: Double, s: Single, n: nat)
    requires
        n < 0x100_0000,
        d.denotes(n),
        d.rounds_to(s),
    ensures
        s.denotes(n),
{
    let t = lemma_small_pattern(n);
    let (a, b, c) = (
        vstd::arithmetic::power2::pow2(149),
        vstd::arithmetic::power2::pow2(925),
        vstd::arithmetic::power2::pow2(1074),
    );
    vstd::arithmetic::power2::lemma_pow2_adds(149, 925);
    vstd::arithmetic::power2::lemma_pow2_pos(925);
    let (m, k) = (t.number(), s.number());
    assert((n * a) * b == n * c) by (nonlinear_arith)
        requires
            a * b == c,
    ;
    assert(!t.nan());
    assert(d.distance(t) == 0);
    assert(k == m) by (nonlinear_arith)
        requires
            k * b == m * b,
            b > 0,
    ;
}

/// A number rounds to one pattern.
pub proof fn rounding_is_unique(d: Double, s: Single, t: Single)
    requires
        d.rounds_to(s),
        d.rounds_to(t),
    ensures
        s == t,
{
    assert(!s.nan() && !t.nan());
    lemma_units_order(s.magnitude(), t.magnitude(), 23);
    if s.number() != t.number() {
        let (low, high) = if s.bits < t.bits {
            (s, t)
        } else {
            (t, s)
        };
        let mid = Single { bits: (low.bits + 1) as u32 };
        assert(low.bits + 1 < high.bits);
        assert(!mid.nan());
        lemma_units_order(low.magnitude(), mid.magnitude(), 23);
        lemma_units_order(mid.magnitude(), high.magnitude(), 23);
        let scale = vstd::arithmetic::power2::pow2(925);
        vstd::arithmetic::power2::lemma_pow2_pos(925);
        let (x, y, z) = (low.number(), mid.number(), high.number());
        assert(x * scale < y * scale && y * scale < z * scale) by (nonlinear_arith)
            requires
                x < y < z,
                scale > 0,
        ;
        assert(d.distance(mid) < d.distance(low));
    }
}

/// Rounding of a count, on the bits: the last twenty-nine fraction bits go, the
/// rest goes up by one where they are more than half or are half beside an odd
/// rest, and the exponent changes its bias. What passes the largest finite
/// number becomes infinity.
pub proof fn rounding_by_bits(d: Double, s: Single)
    requires
        d.bits == 0 || 0x3ff0_0000_0000_0000 <= d.bits <= 0x7ff0_0000_0000_0000,
        d.rounds_to(s),
    ensures
        d.bits == 0 ==> s.bits == 0,
        d.bits != 0 ==> ({
            let q = d.bits as int / 0x2000_0000;
            let r = d.bits as int % 0x2000_0000;
            let up: int = if r > 0x1000_0000 || (r == 0x1000_0000 && q % 2 == 1) {
                1
            } else {
                0
            };
            s.bits == if q + up - 0x1_c000_0000 < 0x7f80_0000 {
                q + up - 0x1_c000_0000
            } else {
                0x7f80_0000int
            }
        }),
{
    let t = Single { bits: rounded_bits(d.bits) as u32 };
    if d.bits == 0 {
        lemma_units_zero(23);
        lemma_units_zero(52);
        let scale = vstd::arithmetic::power2::pow2(925);
        assert(0 * scale == 0);
        assert(d.distance(Single { bits: 0 }) == 0);
        assert(d.rounds_to(t));
    } else {
        lemma_rounded(d, t);
    }
    rounding_is_unique(d, s, t);
}

/// What the 64-bit patterns mean, on the bits.
pub proof fn double_by_bits(d: Double)
    ensures
        d.positive() <==> 0 < d.bits <= 0x7ff0_0000_0000_0000,
        d.below_zero() <==> 0x8000_0000_0000_0000 < d.bits <= 0xfff0_0000_0000_0000,
        d.finite() <==> d.bits < 0x7ff0_0000_0000_0000 || 0x8000_0000_0000_0000 <= d.bits
            < 0xfff0_0000_0000_0000,
        d.nan() <==> 0x7ff0_0000_0000_0000 < d.bits < 0x8000_0000_0000_0000
            || 0xfff0_0000_0000_0000 < d.bits,
        d.counts() <==> d.bits == 0 || 0x3ff0_0000_0000_0000 <= d.bits <= 0x7ff0_0000_0000_0000,
{
    lemma_units_order(0, d.magnitude(), 52);
    lemma_units_zero(52);
}

/// What the 32-bit patterns mean, on the bits: exponents above the fraction,
/// larger patterns are larger numbers, and the sign bit turns them around.
pub proof fn single_by_bits(a: Single, b: Single)
    ensures
        a.nan() <==> 0x7f80_0000 < a.bits < 0x8000_0000 || 0xff80_0000 < a.bits,
        a.exceeds(b) <==> !a.nan() && !b.nan() && if a.bits < 0x8000_0000 {
            if b.bits < 0x8000_0000 {
                a.bits > b.bits
            } else {
                a.bits > 0 || b.bits > 0x8000_0000
            }
        } else {
            b.bits >= 0x8000_0000 && a.bits < b.bits
        },
        a.ties(b) <==> !a.nan() && (a.bits == b.bits || (a.bits % 0x8000_0000 == 0 && b.bits
            % 0x8000_0000 == 0)),
        a.negated().bits as int == (a.bits + 0x8000_0000) % 0x1_0000_0000,
{
    lemma_units_order(a.magnitude(), b.magnitude(), 23);
    lemma_units_order(0, a.magnitude(), 23);
    lemma_units_order(0, b.magnitude(), 23);
    lemma_units_zero(23);
}

/// A 32-bit pattern denotes a natural number `n` as the format lays it out: for
/// `n` from two to the `k` on and below two to the `k + 1`, the exponent is `k`
/// above the bias and the fraction what remains of `n`.
pub proof fn denoted_pattern(s: Single, n: nat, k: nat)
    requires
        s.denotes(n),
        k <= 23,
        vstd::arithmetic::power2::pow2(k) <= n < vstd::arithmetic::power2::pow2(k + 1),
    ensures
        s.bits == (127 + k) * 0x80_0000 + (n - vstd::arithmetic::power2::pow2(k))
            * vstd::arithmetic::power2::pow2((23 - k) as nat),
{
    let (low, step) = (
        vstd::arithmetic::power2::pow2(k),
        vstd::arithmetic::power2::pow2((23 - k) as nat),
    );
    vstd::arithmetic::power2::lemma2_to64();
    vstd::arithmetic::power2::lemma_pow2_pos((23 - k) as nat);
    vstd::arithmetic::power2::lemma_pow2_pos(k);
    vstd::arithmetic::power2::lemma_pow2_adds(k, (23 - k) as nat);
    vstd::arithmetic::power2::lemma_pow2_unfold(k + 1);
    let f = ((n - low) * step) as nat;
    let e = 127 + k;
    assert(0 <= (n - low) * step && (n - low) * step < low * step) by (nonlinear_arith)
        requires
            0 <= n - low < low,
            step > 0,
    ;
    lemma_units_normal(e, f, 23);
    vstd::arithmetic::power2::lemma_pow2_adds((23 - k) as nat, (126 + k) as nat);
    vstd::arithmetic::power2::lemma_pow2_pos((126 + k) as nat);
    let scale = vstd::arithmetic::power2::pow2((126 + k) as nat);
    let whole = vstd::arithmetic::power2::pow2(149);
    assert((0x80_0000 + f) * scale == n * whole) by (nonlinear_arith)
        requires
            f == (n - low) * step,
            low * step == 0x80_0000,
            step * scale == whole,
    ;
    let t = e * 0x80_0000 + f;
    assert(n * whole > 0) by (nonlinear_arith)
        requires
            n >= 1,
            (0x80_0000 + f) * scale == n * whole,
            scale > 0,
    ;
    lemma_units_order(t, s.magnitude(), 23);
    lemma_units_zero(23);
}

/// The numbers from zero to one, on the bits.
pub proof fn unit_interval_by_bits(d: Double)
    ensures
        !d.nan() && 0 <= d.number() <= vstd::arithmetic::power2::pow2(1074) <==> d.bits
            <= 0x3ff0_0000_0000_0000 || d.bits == 0x8000_0000_0000_0000,
{
    double_by_bits(d);
    lemma_units_zero(52);
    lemma_units_order(0, d.magnitude(), 52);
    lemma_units_order(d.magnitude(), 0x3ff0_0000_0000_0000, 52);
    vstd::arithmetic::power2::lemma2_to64_rest();
    lemma_units_normal(1023, 0, 52);
    vstd::arithmetic::power2::lemma_pow2_adds(52, 1022);
}

/// Only the two zeros denote zero.
pub proof fn zeros_denote_zero(s: Single)
    ensures
        s.denotes(0) <==> s.bits == 0 || s.bits == 0x8000_0000,
{
    lemma_units_zero(23);
    lemma_units_order(0, s.magnitude(), 23);
    assert(0 * vstd::arithmetic::power2::pow2(149) == 0);
}

/// The order of the 64-bit patterns, on the bits.
pub proof fn double_order_by_bits(a: Double, b: Double)
    ensures
        a.at_most(b) <==> !a.nan() && !b.nan() && if a.bits < 0x8000_0000_0000_0000 {
            if b.bits < 0x8000_0000_0000_0000 {
                a.bits <= b.bits
            } else {
                a.bits == 0 && b.bits == 0x8000_0000_0000_0000
            }
        } else {
            b.bits < 0x8000_0000_0000_0000 || a.bits >= b.bits
        },
{
    lemma_units_order(a.magnitude(), b.magnitude(), 52);
    lemma_units_order(0, a.magnitude(), 52);
    lemma_units_order(0, b.magnitude(), 52);
    lemma_units_zero(52);
}

} // verus!
