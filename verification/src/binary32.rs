//! Single-precision values as bit patterns.
//!
//! Mask logits, scores and thresholds reach the library as IEEE 754 binary32 values. They are
//! held here by their bit pattern, and the handful of operations that the tracking rules need
//! (ordering, negation, minimum, the quotient of two counts) is carried out on the pattern.
use vstd::arithmetic::power2::{lemma_pow2_adds, lemma_pow2_pos, lemma_pow2_strictly_increases, pow2};
use vstd::prelude::*;

verus! {

/// The bit that carries the sign.
pub const SIGN_BIT: u32 = 0x8000_0000;

/// The pattern of positive infinity; larger magnitudes are not numbers.
pub const INFINITY_BITS: u32 = 0x7f80_0000;

/// The weight of the hidden leading bit of a normal significand.
pub const HIDDEN_BIT: u32 = 0x0080_0000;

/// The largest count that every smaller count shares an exact single-precision form with.
pub const EXACT_LIMIT: u32 = 0x0100_0000;

/// A binary32 value, held by its bit pattern.
#[derive(Clone, Copy, Debug, PartialEq, Eq, Structural)]
pub struct Binary32 {
    pub bits: u32,
}

impl Binary32 {
    /// The pattern without its sign.
    pub open spec fn magnitude(self) -> int {
        if self.bits < SIGN_BIT {
            self.bits as int
        } else {
            self.bits - SIGN_BIT
        }
    }

    /// The pattern is not a number.
    pub open spec fn nan(self) -> bool {
        self.magnitude() > INFINITY_BITS
    }

    /// Sign and magnitude as one integer: both zeros have rank zero, and patterns that are not
    /// numbers lie beyond the infinity of their sign.
    pub open spec fn rank(self) -> int {
        if self.bits < SIGN_BIT {
            self.bits as int
        } else {
            SIGN_BIT - self.bits
        }
    }

    /// The numeric order: false as soon as one side is not a number.
    pub open spec fn less(self, other: Binary32) -> bool {
        !self.nan() && !other.nan() && self.rank() < other.rank()
    }

    /// The numeric order or numeric equality.
    pub open spec fn at_most(self, other: Binary32) -> bool {
        !self.nan() && !other.nan() && self.rank() <= other.rank()
    }

    /// The value of the pattern as a multiple of the smallest positive value; an infinity stands
    /// just beyond the largest finite value of its sign.
    pub open spec fn scaled_value(self) -> int {
        let unsigned = magnitude_value(self.magnitude());
        if self.bits < SIGN_BIT {
            unsigned
        } else {
            -unsigned
        }
    }

    pub fn is_nan(&self) -> (r: bool)
        ensures
            r == self.nan(),
    {
        if self.bits < SIGN_BIT {
            self.bits > INFINITY_BITS
        } else {
            self.bits - SIGN_BIT > INFINITY_BITS
        }
    }

    fn signed_rank(&self) -> (r: i64)
        ensures
            r == self.rank(),
    {
        if self.bits < SIGN_BIT {
            self.bits as i64
        } else {
            SIGN_BIT as i64 - self.bits as i64
        }
    }

    /// `self < other`.
    pub fn lt(&self, other: &Binary32) -> (r: bool)
        ensures
            r == self.less(*other),
    {
        !self.is_nan() && !other.is_nan() && self.signed_rank() < other.signed_rank()
    }

    /// `self > other`.
    pub fn gt(&self, other: &Binary32) -> (r: bool)
        ensures
            r == other.less(*self),
    {
        other.lt(self)
    }

    /// `self <= other`.
    pub fn le(&self, other: &Binary32) -> (r: bool)
        ensures
            r == self.at_most(*other),
    {
        !self.is_nan() && !other.is_nan() && self.signed_rank() <= other.signed_rank()
    }

    /// `self >= other`.
    pub fn ge(&self, other: &Binary32) -> (r: bool)
        ensures
            r == other.at_most(*self),
    {
        other.le(self)
    }

    /// `self` ranks strictly above `other`, numbers or not.
    pub fn ranks_above(&self, other: &Binary32) -> (r: bool)
        ensures
            r == (self.rank() > other.rank()),
    {
        self.signed_rank() > other.signed_rank()
    }

    /// The value with the opposite sign.
    pub open spec fn negated(self) -> Binary32 {
        Binary32 {
            bits: if self.bits < SIGN_BIT {
                (self.bits + SIGN_BIT) as u32
            } else {
                (self.bits - SIGN_BIT) as u32
            },
        }
    }

    /// `-self`.
    pub fn neg(&self) -> (r: Binary32)
        ensures
            r == self.negated(),
    {
        if self.bits < SIGN_BIT {
            Binary32 { bits: self.bits + SIGN_BIT }
        } else {
            Binary32 { bits: self.bits - SIGN_BIT }
        }
    }

    /// The smaller of a value and a bound that is a number; the bound where the value is not one.
    pub open spec fn capped(self, bound: Binary32) -> Binary32 {
        if self.less(bound) {
            self
        } else {
            bound
        }
    }

    /// `self.min(bound)` for a bound that is a number other than zero.
    pub fn cap(&self, bound: &Binary32) -> (r: Binary32)
        ensures
            r == self.capped(*bound),
    {
        if self.lt(bound) {
            *self
        } else {
            *bound
        }
    }
}

/// The value of an unsigned pattern, in units of the smallest positive value.
pub open spec fn magnitude_value(m: int) -> int {
    let exponent = m / (HIDDEN_BIT as int);
    let fraction = m % (HIDDEN_BIT as int);
    if exponent == 0 {
        fraction
    } else {
        (HIDDEN_BIT + fraction) * pow2((exponent - 1) as nat)
    }
}

proof fn magnitude_value_increases(a: int, b: int)
    requires
        0 <= a < b,
    ensures
        0 <= magnitude_value(a) < magnitude_value(b),
{
    let h = HIDDEN_BIT as int;
    let (ea, fa) = (a / h, a % h);
    let (eb, fb) = (b / h, b % h);
    assert(ea <= eb);
    if ea >= 1 {
        lemma_pow2_pos((ea - 1) as nat);
        assert(0 <= (h + fa) * pow2((ea - 1) as nat)) by (nonlinear_arith)
            requires
                h + fa >= 0,
                pow2((ea - 1) as nat) > 0,
        ;
    }
    if ea == eb {
        if ea >= 1 {
            assert((h + fa) * pow2((ea - 1) as nat) < (h + fb) * pow2((ea - 1) as nat))
                by (nonlinear_arith)
                requires
                    fa < fb,
                    pow2((ea - 1) as nat) > 0,
            ;
        }
    } else {
        lemma_pow2_pos((eb - 1) as nat);
        assert(h * pow2((eb - 1) as nat) <= (h + fb) * pow2((eb - 1) as nat)) by (nonlinear_arith)
            requires
                fb >= 0,
                pow2((eb - 1) as nat) > 0,
        ;
        if ea == 0 {
            assert(h <= h * pow2((eb - 1) as nat)) by (nonlinear_arith)
                requires
                    h > 0,
                    pow2((eb - 1) as nat) >= 1,
            ;
        } else {
            let p = pow2((ea - 1) as nat);
            if ea < eb - 1 {
                lemma_pow2_strictly_increases(ea as nat, (eb - 1) as nat);
            }
            lemma_pow2_adds(1, (ea - 1) as nat);
            vstd::arithmetic::power2::lemma2_to64();
            assert(pow2(ea as nat) == 2 * p);
            assert((h + fa) * p < h * (2 * p)) by (nonlinear_arith)
                requires
                    fa < h,
                    p > 0,
            ;
            assert(h * (2 * p) <= h * pow2((eb - 1) as nat)) by (nonlinear_arith)
                requires
                    2 * p <= pow2((eb - 1) as nat),
                    h > 0,
            ;
        }
    }
}

/// The order of ranks is the order of values.
pub proof fn rank_orders_values(a: Binary32, b: Binary32)
    ensures
        a.rank() < b.rank() <==> a.scaled_value() < b.scaled_value(),
        a.rank() == b.rank() <==> a.scaled_value() == b.scaled_value(),
{
    let (ma, mb) = (a.magnitude(), b.magnitude());
    if ma < mb {
        magnitude_value_increases(ma, mb);
    }
    if mb < ma {
        magnitude_value_increases(mb, ma);
    }
    if 0 < ma {
        magnitude_value_increases(0, ma);
    }
    if 0 < mb {
        magnitude_value_increases(0, mb);
    }
    assert(magnitude_value(0) == 0);
}

/// The numeric order is irreflexive and transitive, and for numbers exactly one of less, equal
/// rank and greater holds.
pub proof fn order_is_strict_and_weak(a: Binary32, b: Binary32, c: Binary32)
    ensures
        !a.less(a),
        a.less(b) && b.less(c) ==> a.less(c),
        !a.nan() && !b.nan() ==> (a.less(b) || b.less(a) || a.rank() == b.rank()),
        a.at_most(b) <==> !a.nan() && !b.nan() && !b.less(a),
{
}

/// Negation is an involution and mirrors the numeric order.
pub proof fn negation_mirrors_order(a: Binary32, b: Binary32)
    ensures
        a.negated().negated() == a,
        a.negated().rank() == -a.rank(),
        a.less(b) <==> b.negated().less(a.negated()),
{
}

/// The number of smallest positive values in one.
pub open spec fn unit() -> int {
    pow2(149) as int
}

/// How far a scaled value lies from the exact quotient `n / d`, times the denominator.
pub open spec fn quotient_error(value: int, n: int, d: int) -> int {
    let difference = value * d - n * unit();
    if difference < 0 {
        -difference
    } else {
        difference
    }
}

/// `q` is the binary32 value nearest to `n / d`; of two equally near ones, the one with the even
/// pattern.
pub open spec fn is_nearest_quotient(n: int, d: int, q: Binary32) -> bool {
    &&& q.bits <= INFINITY_BITS
    &&& forall|p: Binary32|
        p.bits <= INFINITY_BITS && p != q ==> {
            let (here, there) = (
                quotient_error(q.scaled_value(), n, d),
                quotient_error(#[trigger] p.scaled_value(), n, d),
            );
            here < there || (here == there && q.bits % 2 == 0)
        }
}

/// The correctly rounded quotient of two counts.
pub open spec fn quotient(n: int, d: int) -> Binary32 {
    choose|q: Binary32| is_nearest_quotient(n, d, q)
}

proof fn value_of_pattern(p: Binary32)
    requires
        p.bits <= INFINITY_BITS,
    ensures
        p.scaled_value() == magnitude_value(p.bits as int),
{
}

proof fn strictly_between_is_nearer(n: int, d: int, lo: int, mid: int, hi: int)
    requires
        d > 0,
        lo < mid < hi,
        quotient_error(lo, n, d) == quotient_error(hi, n, d),
    ensures
        quotient_error(mid, n, d) < quotient_error(lo, n, d),
{
    let x = n * unit();
    assert(lo * d < mid * d && mid * d < hi * d) by (nonlinear_arith)
        requires
            d > 0,
            lo < mid < hi,
    ;
}

/// There is at most one nearest value.
pub proof fn nearest_quotient_is_unique(n: int, d: int, a: Binary32, b: Binary32)
    requires
        d > 0,
        is_nearest_quotient(n, d, a),
        is_nearest_quotient(n, d, b),
    ensures
        a == b,
{
    if a != b {
        let (va, vb) = (a.scaled_value(), b.scaled_value());
        assert(quotient_error(va, n, d) == quotient_error(vb, n, d));
        let (lo, hi) = if a.bits < b.bits {
            (a, b)
        } else {
            (b, a)
        };
        let mid = Binary32 { bits: (lo.bits + 1) as u32 };
        assert(mid.bits < hi.bits);
        magnitude_value_increases(lo.bits as int, mid.bits as int);
        magnitude_value_increases(mid.bits as int, hi.bits as int);
        strictly_between_is_nearer(
            n,
            d,
            lo.scaled_value(),
            mid.scaled_value(),
            hi.scaled_value(),
        );
        assert(mid != a);
        assert(quotient_error(va, n, d) <= quotient_error(mid.scaled_value(), n, d));
    }
}

/// Of the patterns up to `k`, one has the least error.
proof fn least_error(n: int, d: int, k: int) -> (b: int)
    requires
        0 <= k <= INFINITY_BITS,
    ensures
        0 <= b <= k,
        forall|p: int|
            0 <= p <= k ==> quotient_error(magnitude_value(b), n, d) <= quotient_error(
                #[trigger] magnitude_value(p),
                n,
                d,
            ),
    decreases k,
{
    if k == 0 {
        0
    } else {
        let b = least_error(n, d, k - 1);
        if quotient_error(magnitude_value(b), n, d) <= quotient_error(magnitude_value(k), n, d) {
            b
        } else {
            k
        }
    }
}

/// There is a nearest value.
pub proof fn nearest_quotient_exists(n: int, d: int)
    requires
        d > 0,
    ensures
        is_nearest_quotient(n, d, quotient(n, d)),
{
    let b = least_error(n, d, INFINITY_BITS as int);
    let here = quotient_error(magnitude_value(b), n, d);
    // Patterns that err equally lie on both sides of the quotient, with nothing between them.
    assert forall|i: int, j: int|
        #![trigger magnitude_value(i), magnitude_value(j)]
        0 <= i < j <= INFINITY_BITS && quotient_error(magnitude_value(i), n, d) == here
            && quotient_error(magnitude_value(j), n, d) == here implies j == i + 1 by {
        if i + 1 < j {
            magnitude_value_increases(i, i + 1);
            magnitude_value_increases(i + 1, j);
            strictly_between_is_nearer(
                n,
                d,
                magnitude_value(i),
                magnitude_value(i + 1),
                magnitude_value(j),
            );
        }
    }
    let odd = b % 2 == 1;
    let c = if odd && b > 0 && quotient_error(magnitude_value(b - 1), n, d) == here {
        b - 1
    } else if odd && b < INFINITY_BITS && quotient_error(magnitude_value(b + 1), n, d) == here {
        b + 1
    } else {
        b
    };
    let q = Binary32 { bits: c as u32 };
    value_of_pattern(q);
    assert forall|p: Binary32| p.bits <= INFINITY_BITS && p != q implies {
        let (at, there) = (
            quotient_error(q.scaled_value(), n, d),
            quotient_error(#[trigger] p.scaled_value(), n, d),
        );
        at < there || (at == there && q.bits % 2 == 0)
    } by {
        value_of_pattern(p);
        let k = p.bits as int;
        assert(here <= quotient_error(magnitude_value(k), n, d));
        if quotient_error(magnitude_value(k), n, d) == here {
            assert(magnitude_value(c) == magnitude_value(c));
            if k < c {
                assert(c == k + 1);
            } else {
                assert(k == c + 1);
            }
        }
    }
    assert(is_nearest_quotient(n, d, q));
}

proof fn quotient_is(n: int, d: int, q: Binary32)
    requires
        d > 0,
        is_nearest_quotient(n, d, q),
    ensures
        q == quotient(n, d),
{
    nearest_quotient_is_unique(n, d, q, quotient(n, d));
}

/// The pattern with significand `m` in units of the `x`-th power of two, and the values around it.
proof fn packed_neighbours(m: int, x: int, b: int)
    requires
        HIDDEN_BIT <= m <= EXACT_LIMIT,
        0 <= x,
        b == x * HIDDEN_BIT + m,
    ensures
        magnitude_value(b) == m * pow2(x as nat),
        forall|p: int| p > b ==> #[trigger] magnitude_value(p) >= (m + 1) * pow2(x as nat),
        forall|p: int|
            0 <= p < b && m > HIDDEN_BIT ==> #[trigger] magnitude_value(p) <= (m - 1) * pow2(
                x as nat,
            ),
        forall|p: int| 0 <= p < b ==> #[trigger] magnitude_value(p) < magnitude_value(b),
{
    let h = HIDDEN_BIT as int;
    let u = pow2(x as nat) as int;
    lemma_pow2_pos(x as nat);
    lemma_pow2_adds(1, x as nat);
    vstd::arithmetic::power2::lemma2_to64();
    assert(pow2((x + 1) as nat) == 2 * u);
    if m < EXACT_LIMIT {
        assert(b / h == x + 1 && b % h == m - h) by (nonlinear_arith)
            requires
                b == (x + 1) * h + (m - h),
                0 <= m - h < h,
                h == 0x0080_0000,
        ;
        assert(magnitude_value(b) == m * u);
    } else {
        assert(b == (x + 2) * h);
        assert(b / h == x + 2 && b % h == 0) by (nonlinear_arith)
            requires
                b == (x + 2) * h,
                h == 0x0080_0000,
        ;
        assert(magnitude_value(b) == h * (2 * u));
        assert(h * (2 * u) == m * u) by (nonlinear_arith)
            requires
                m == 2 * h,
        ;
    }
    assert forall|p: int| p > b implies #[trigger] magnitude_value(p) >= (m + 1) * u by {
        let c = b + 1;
        if m < EXACT_LIMIT - 1 {
            assert(c / h == x + 1 && c % h == m + 1 - h) by (nonlinear_arith)
                requires
                    c == (x + 1) * h + (m + 1 - h),
                    0 <= m + 1 - h < h,
                    h == 0x0080_0000,
            ;
            assert(magnitude_value(c) == (m + 1) * u);
        } else if m == EXACT_LIMIT - 1 {
            assert(c == (x + 2) * h);
            assert(c / h == x + 2 && c % h == 0) by (nonlinear_arith)
                requires
                    c == (x + 2) * h,
                    h == 0x0080_0000,
            ;
            assert(magnitude_value(c) == h * (2 * u));
            assert(h * (2 * u) == (m + 1) * u) by (nonlinear_arith)
                requires
                    m + 1 == 2 * h,
            ;
        } else {
            assert(c / h == x + 2 && c % h == 1) by (nonlinear_arith)
                requires
                    c == (x + 2) * h + 1,
                    h == 0x0080_0000,
            ;
            assert(magnitude_value(c) == (h + 1) * (2 * u));
            assert((h + 1) * (2 * u) >= (m + 1) * u) by (nonlinear_arith)
                requires
                    m == 2 * h,
                    u > 0,
            ;
        }
        if p > c {
            magnitude_value_increases(c, p);
        }
    }
    assert forall|p: int| 0 <= p < b && m > HIDDEN_BIT implies #[trigger] magnitude_value(p) <= (m
        - 1) * u by {
        let c = b - 1;
        assert(c / h == x + 1 && c % h == m - 1 - h) by (nonlinear_arith)
            requires
                c == (x + 1) * h + (m - 1 - h),
                0 <= m - 1 - h < h,
                h == 0x0080_0000,
        ;
        assert(magnitude_value(c) == (m - 1) * u);
        if p < c {
            magnitude_value_increases(p, c);
        }
    }
    assert forall|p: int| 0 <= p < b implies #[trigger] magnitude_value(p) < magnitude_value(
        b,
    ) by {
        magnitude_value_increases(p, b);
    }
}

/// A significand rounded to nearest, ties to even, packs into the nearest value.
proof fn packed_is_nearest(n: int, d: int, num: int, x: int, m: int, q: Binary32)
    requires
        0 < d,
        0 <= x,
        HIDDEN_BIT <= m <= EXACT_LIMIT,
        n * unit() == num * pow2(x as nat),
        HIDDEN_BIT * d <= num,
        -d <= 2 * (m * d - num) <= d,
        2 * (m * d - num) == d || 2 * (m * d - num) == -d ==> m % 2 == 0,
        q.bits == x * HIDDEN_BIT + m,
        q.bits <= INFINITY_BITS,
    ensures
        is_nearest_quotient(n, d, q),
{
    let u = pow2(x as nat) as int;
    lemma_pow2_pos(x as nat);
    let b = q.bits as int;
    packed_neighbours(m, x, b);
    let v = q.scaled_value();
    assert(v == m * u);
    let r = m * d - num;
    assert(v * d - n * unit() == r * u) by (nonlinear_arith)
        requires
            v == m * u,
            n * unit() == num * u,
            r == m * d - num,
    ;
    assert(-(d * u) <= 2 * (r * u) <= d * u) by (nonlinear_arith)
        requires
            -d <= 2 * r <= d,
            u > 0,
    ;
    assert forall|p: Binary32| p.bits <= INFINITY_BITS && p != q implies {
        let (here, there) = (
            quotient_error(q.scaled_value(), n, d),
            quotient_error(#[trigger] p.scaled_value(), n, d),
        );
        here < there || (here == there && q.bits % 2 == 0)
    } by {
        let w = p.scaled_value();
        let pb = p.bits as int;
        assert(w == magnitude_value(pb));
        if pb > b {
            assert(w * d >= (m + 1) * u * d) by (nonlinear_arith)
                requires
                    w >= (m + 1) * u,
                    d > 0,
            ;
            assert((m + 1) * u * d - n * unit() == r * u + d * u) by (nonlinear_arith)
                requires
                    n * unit() == num * u,
                    r == m * d - num,
            ;
            assert(w * d - n * unit() >= r * u + d * u);
        } else if m > HIDDEN_BIT {
            assert(w * d <= (m - 1) * u * d) by (nonlinear_arith)
                requires
                    w <= (m - 1) * u,
                    d > 0,
            ;
            assert((m - 1) * u * d - n * unit() == r * u - d * u) by (nonlinear_arith)
                requires
                    n * unit() == num * u,
                    r == m * d - num,
            ;
            assert(w * d - n * unit() <= r * u - d * u);
        } else {
            assert(r <= 0);
            assert(r * u <= 0) by (nonlinear_arith)
                requires
                    r <= 0,
                    u > 0,
            ;
            assert(w * d < v * d) by (nonlinear_arith)
                requires
                    w < v,
                    d > 0,
            ;
        }
        if 2 * (r * u) == d * u {
            assert(2 * r == d) by (nonlinear_arith)
                requires
                    2 * (r * u) == d * u,
                    u > 0,
            ;
        }
        if 2 * (r * u) == -(d * u) {
            assert(2 * r == -d) by (nonlinear_arith)
                requires
                    2 * (r * u) == -(d * u),
                    u > 0,
            ;
        }
        assert((x * 0x0080_0000 + m) % 2 == m % 2);
    }
}

/// The quotient of zero by anything is zero.
proof fn zero_is_nearest(d: int)
    requires
        d > 0,
    ensures
        is_nearest_quotient(0, d, (Binary32 { bits: 0 })),
{
    let q = Binary32 { bits: 0 };
    assert(0 * unit() == 0);
    assert(q.scaled_value() == 0);
    assert forall|p: Binary32| p.bits <= INFINITY_BITS && p != q implies {
        quotient_error(q.scaled_value(), 0, d) < quotient_error(#[trigger] p.scaled_value(), 0, d)
    } by {
        magnitude_value_increases(0, p.bits as int);
        let w = p.scaled_value();
        assert(w * d > 0) by (nonlinear_arith)
            requires
                w > 0,
                d > 0,
        ;
    }
}

/// Multiplying both sides of a quotient changes nothing.
proof fn quotient_scales(n: int, d: int, c: int, q: Binary32)
    requires
        0 < c,
    ensures
        is_nearest_quotient(n * c, d * c, q) <==> is_nearest_quotient(n, d, q),
{
    assert forall|p: Binary32| true implies quotient_error(
        #[trigger] p.scaled_value(),
        n * c,
        d * c,
    ) == c * quotient_error(p.scaled_value(), n, d) by {
        error_scales(p.scaled_value(), n, d, c);
    }
    let here = quotient_error(q.scaled_value(), n, d);
    assert forall|p: Binary32| true implies {
        let there = quotient_error(#[trigger] p.scaled_value(), n, d);
        &&& c * here < c * there <==> here < there
        &&& c * here == c * there <==> here == there
    } by {
        let there = quotient_error(p.scaled_value(), n, d);
        assert((c * here < c * there <==> here < there) && (c * here == c * there <==> here
            == there)) by (nonlinear_arith)
            requires
                c > 0,
        ;
    }
}

proof fn error_scales(value: int, n: int, d: int, c: int)
    requires
        0 < c,
    ensures
        quotient_error(value, n * c, d * c) == c * quotient_error(value, n, d),
{
    let difference = value * d - n * unit();
    assert(value * (d * c) - (n * c) * unit() == c * difference) by (nonlinear_arith)
        requires
            difference == value * d - n * unit(),
    ;
    assert(c * difference < 0 <==> difference < 0) by (nonlinear_arith)
        requires
            c > 0,
    ;
    assert(c * (-difference) == -(c * difference)) by (nonlinear_arith);
}

/// A count in single precision.
pub open spec fn as_single(n: int) -> Binary32 {
    quotient(n, 1)
}

/// The quotient of two counts that are taken in single precision.
pub open spec fn ratio(n: int, d: int) -> Binary32 {
    quotient(as_single(n).scaled_value(), as_single(d).scaled_value())
}

/// A count rounded to the significand `m` with `s` binary places dropped.
proof fn rounded_single(n: int, s: int, m: int)
    requires
        0 <= s <= 100,
        HIDDEN_BIT <= m <= EXACT_LIMIT,
        HIDDEN_BIT * pow2(s as nat) <= n,
        -pow2(s as nat) <= 2 * (m * pow2(s as nat) - n) <= pow2(s as nat),
        2 * (m * pow2(s as nat) - n) == pow2(s as nat) || 2 * (m * pow2(s as nat) - n) == -pow2(
            s as nat,
        ) ==> m % 2 == 0,
    ensures
        is_nearest_quotient(n, 1, as_single(n)),
        as_single(n).scaled_value() == m * pow2((s + 149) as nat),
{
    let c = pow2(s as nat) as int;
    lemma_pow2_pos(s as nat);
    lemma_pow2_adds(s as nat, 149);
    let q = Binary32 { bits: ((s + 149) * HIDDEN_BIT + m) as u32 };
    assert((n * c) * unit() == n * pow2((s + 149) as nat)) by (nonlinear_arith)
        requires
            pow2((s + 149) as nat) == c * unit(),
    ;
    packed_is_nearest(n * c, c, n, s + 149, m, q);
    quotient_scales(n, 1, c, q);
    quotient_is(n, 1, q);
    packed_neighbours(m, s + 149, q.bits as int);
}

/// Small counts have an exact form.
pub proof fn small_counts_are_exact(n: int)
    requires
        0 <= n <= EXACT_LIMIT,
    ensures
        is_nearest_quotient(n, 1, as_single(n)),
        as_single(n).scaled_value() == n * unit(),
{
    vstd::arithmetic::power2::lemma2_to64();
    if n == 0 {
        zero_is_nearest(1);
        quotient_is(0, 1, Binary32 { bits: 0 });
        assert((Binary32 { bits: 0 }).scaled_value() == 0);
        assert(0 * unit() == 0);
    } else if n == EXACT_LIMIT {
        assert(0x80_0000 * pow2(1) == EXACT_LIMIT);
        rounded_single(n, 1, 0x80_0000);
        lemma_pow2_adds(1, 149);
        assert(0x80_0000 * (2 * unit()) == 0x100_0000 * unit()) by (nonlinear_arith);
    } else {
        let j = normal_shift(n);
        let m = n * pow2(j as nat);
        let q = Binary32 { bits: ((149 - j) * HIDDEN_BIT + m) as u32 };
        packed_neighbours(m, 149 - j, q.bits as int);
        lemma_pow2_adds(j as nat, (149 - j) as nat);
        assert(q.scaled_value() == n * unit()) by (nonlinear_arith)
            requires
                q.scaled_value() == m * pow2((149 - j) as nat),
                m == n * pow2(j as nat),
                unit() == pow2(j as nat) * pow2((149 - j) as nat),
        ;
        exact_quotient(n, 1, q);
    }
}

/// Single precision keeps the order of counts, and no count but zero becomes zero.
pub proof fn counts_keep_their_order(a: u64, b: u64)
    requires
        a <= b,
    ensures
        as_single(a as int).scaled_value() <= as_single(b as int).scaled_value(),
        a > 0 ==> as_single(a as int).scaled_value() >= unit(),
        unit() > 0,
{
    nearest_quotient_exists(a as int, 1);
    nearest_quotient_exists(b as int, 1);
    quotient_is_monotone(a as int, 1, as_single(a as int), b as int, 1, as_single(b as int));
    rank_orders_values(as_single(a as int), as_single(b as int));
    lemma_pow2_pos(149);
    if a > 0 {
        small_counts_are_exact(1);
        quotient_is_monotone(1, 1, as_single(1), a as int, 1, as_single(a as int));
        rank_orders_values(as_single(1), as_single(a as int));
    }
}

/// The rounded significand of a count and the binary places that it drops.
fn round_count(n: u64) -> (r: (u64, u32))
    ensures
        is_nearest_quotient(n as int, 1, as_single(n as int)),
        as_single(n as int).scaled_value() == r.0 * pow2((r.1 + 149) as nat),
        r.0 < EXACT_LIMIT,
        r.1 <= 41,
        r.1 > 0 ==> r.0 >= HIDDEN_BIT,
        r.0 == 0 <==> n == 0,
{
    if n < 0x0100_0000 {
        proof {
            small_counts_are_exact(n as int);
        }
        return (n, 0);
    }
    let mut step: u64 = 1;
    let mut s: u32 = 0;
    proof {
        vstd::arithmetic::power2::lemma2_to64();
    }
    while n / step >= 0x0100_0000
        invariant
            n >= 0x0100_0000,
            s <= 40,
            step == pow2(s as nat),
            0 < step <= 0x100_0000_0000,
            n >= 0x0080_0000 * step,
        decreases 40 - s,
    {
        proof {
            vstd::arithmetic::power2::lemma2_to64();
            lemma_pow2_adds(1, s as nat);
            vstd::arithmetic::div_mod::lemma_fundamental_div_mod(n as int, step as int);
            assert(n >= 0x0100_0000 * step) by (nonlinear_arith)
                requires
                    n as int == step * (n as int / step as int) + n as int % step as int,
                    n as int % step as int >= 0,
                    n as int / step as int >= 0x0100_0000,
                    step > 0,
            ;
            vstd::arithmetic::power2::lemma2_to64_rest();
            assert(pow2(40) == 0x100_0000_0000);
            if s < 40 {
                lemma_pow2_strictly_increases(s as nat, 40);
                if s + 1 < 40 {
                    lemma_pow2_strictly_increases((s + 1) as nat, 40);
                }
            }
        }
        step = step * 2;
        s = s + 1;
    }
    let whole: u64 = n / step;
    let rest: u64 = n % step;
    proof {
        vstd::arithmetic::div_mod::lemma_fundamental_div_mod(n as int, step as int);
        assert(0x0080_0000 <= whole) by (nonlinear_arith)
            requires
                n == step * whole + rest,
                rest < step,
                n >= 0x0080_0000 * step,
        ;
    }
    let m: u64 = if 2 * rest > step || (2 * rest == step && whole % 2 == 1) {
        whole + 1
    } else {
        whole
    };
    proof {
        assert(m * step == step * whole + (m - whole) * step) by (nonlinear_arith);
        if m == whole {
            assert((m - whole) * step == 0) by (nonlinear_arith)
                requires
                    m == whole,
            ;
        } else {
            assert((m - whole) * step == step) by (nonlinear_arith)
                requires
                    m == whole + 1,
            ;
        }
        rounded_single(n as int, s as int, m as int);
    }
    if m == 0x0100_0000 {
        proof {
            lemma_pow2_adds(1, (s + 149) as nat);
            vstd::arithmetic::power2::lemma2_to64();
            assert(0x80_0000 * pow2((s + 150) as nat) == 0x100_0000 * pow2((s + 149) as nat))
                by (nonlinear_arith)
                requires
                    pow2((s + 150) as nat) == 2 * pow2((s + 149) as nat),
            ;
        }
        (0x0080_0000, s + 1)
    } else {
        (m, s)
    }
}

/// `n as f32 / d as f32` for two counts.
pub fn count_ratio(n: u64, d: u64) -> (q: Binary32)
    requires
        n <= d,
        0 < d,
    ensures
        q == ratio(n as int, d as int),
        is_nearest_quotient(
            as_single(n as int).scaled_value(),
            as_single(d as int).scaled_value(),
            q,
        ),
{
    let (mn, sn): (u64, u32) = round_count(n);
    let (den, sd): (u64, u32) = round_count(d);
    let ghost (nf, df) = (as_single(n as int).scaled_value(), as_single(d as int).scaled_value());
    let ghost pd = pow2((sd + 149) as nat) as int;
    proof {
        lemma_pow2_pos((sd + 149) as nat);
        assert(df > 0) by (nonlinear_arith)
            requires
                df == den * pd,
                den > 0,
                pd > 0,
        ;
    }
    if n == 0 {
        proof {
            assert(nf == 0) by (nonlinear_arith)
                requires
                    nf == mn * pow2((sn + 149) as nat),
                    mn == 0,
            ;
            zero_is_nearest(df);
            quotient_is(0, df, Binary32 { bits: 0 });
        }
        return Binary32 { bits: 0 };
    }
    proof {
        quotient_is_monotone(n as int, 1, as_single(n as int), d as int, 1, as_single(d as int));
        rank_orders_values(as_single(n as int), as_single(d as int));
        assert(nf <= df);
        if sn > sd {
            lemma_pow2_adds((sn - sd) as nat, (sd + 149) as nat);
            lemma_pow2_adds(1, (sn - sd - 1) as nat);
            lemma_pow2_pos((sn - sd - 1) as nat);
            vstd::arithmetic::power2::lemma2_to64();
            assert(nf >= 0x80_0000 * (2 * pd)) by (nonlinear_arith)
                requires
                    nf == mn * (pow2((sn - sd) as nat) * pd),
                    mn >= 0x80_0000,
                    pow2((sn - sd) as nat) >= 2,
                    pd > 0,
            ;
            assert(df < 0x100_0000 * pd) by (nonlinear_arith)
                requires
                    df == den * pd,
                    den < 0x100_0000,
                    pd > 0,
            ;
        }
        if sn == sd {
            assert(mn <= den) by (nonlinear_arith)
                requires
                    mn * pd <= den * pd,
                    pd > 0,
            ;
        }
    }
    let low: u64 = den * 0x0080_0000;
    let mut num: u64 = mn * 0x0080_0000;
    let mut k: u32 = 23;
    proof {
        vstd::arithmetic::power2::lemma2_to64();
        assert(mn * pow2(23) == num) by (nonlinear_arith)
            requires
                pow2(23) == 0x0080_0000,
                num == mn * 0x0080_0000,
        ;
        lemma_pow2_adds(23, 24);
    }
    while num < low
        invariant
            0 < mn < EXACT_LIMIT,
            0 < den < EXACT_LIMIT,
            23 <= k <= 47,
            low == den * 0x0080_0000,
            num == mn * pow2(k as nat),
            num <= 2 * low,
            pow2(47) == 0x8000_0000_0000,
        decreases 47 - k,
    {
        proof {
            lemma_pow2_adds(1, k as nat);
            vstd::arithmetic::power2::lemma2_to64();
            assert(mn * pow2((k + 1) as nat) == 2 * num) by (nonlinear_arith)
                requires
                    pow2((k + 1) as nat) == 2 * pow2(k as nat),
                    num == mn * pow2(k as nat),
            ;
            if k == 47 {
                assert(mn * 0x8000_0000_0000 >= 0x8000_0000_0000) by (nonlinear_arith)
                    requires
                        mn >= 1,
                ;
            }
        }
        num = num * 2;
        k = k + 1;
    }
    let whole: u64 = num / den;
    let rest: u64 = num % den;
    proof {
        vstd::arithmetic::div_mod::lemma_fundamental_div_mod(num as int, den as int);
        assert(0x0080_0000 <= whole <= 0x0100_0000) by (nonlinear_arith)
            requires
                num == den * whole + rest,
                rest < den,
                den * 0x0080_0000 <= num <= 2 * (den * 0x0080_0000),
        ;
    }
    let m: u64 = if 2 * rest > den || (2 * rest == den && whole % 2 == 1) {
        whole + 1
    } else {
        whole
    };
    let x: u32 = 149 - k - (sd - sn);
    let q = Binary32 { bits: x * 0x0080_0000 + m as u32 };
    proof {
        if m == whole + 1 {
            assert(m * den == den * whole + den) by (nonlinear_arith)
                requires
                    m == whole + 1,
            ;
            assert(whole < 0x0100_0000) by (nonlinear_arith)
                requires
                    num == den * whole + rest,
                    rest > 0,
                    num <= 2 * (den * 0x0080_0000),
                    den > 0,
            ;
        } else {
            assert(m * den == den * whole) by (nonlinear_arith)
                requires
                    m == whole,
            ;
        }
        let r = m * den - num;
        assert(-den <= 2 * r <= den);
        lemma_pow2_adds(k as nat, x as nat);
        lemma_pow2_adds((k + x) as nat, (sd + 149) as nat);
        lemma_pow2_adds((sn + 149) as nat, 149);
        let px = pow2(x as nat) as int;
        assert(nf * unit() == (num * pd) * px) by (nonlinear_arith)
            requires
                nf == mn * pow2((sn + 149) as nat),
                pow2((sn + 149) as nat) * unit() == (pow2(k as nat) * px) * pd,
                num == mn * pow2(k as nat),
        ;
        assert(m * df - num * pd == r * pd) by (nonlinear_arith)
            requires
                df == den * pd,
                r == m * den - num,
        ;
        assert(HIDDEN_BIT * df <= num * pd) by (nonlinear_arith)
            requires
                df == den * pd,
                den * HIDDEN_BIT <= num,
                pd > 0,
        ;
        assert(-df <= 2 * (r * pd) <= df) by (nonlinear_arith)
            requires
                df == den * pd,
                -den <= 2 * r <= den,
                pd > 0,
        ;
        if 2 * (r * pd) == df {
            assert(2 * r == den) by (nonlinear_arith)
                requires
                    2 * (r * pd) == df,
                    df == den * pd,
                    pd > 0,
            ;
        }
        if 2 * (r * pd) == -df {
            assert(2 * r == -den) by (nonlinear_arith)
                requires
                    2 * (r * pd) == -df,
                    df == den * pd,
                    pd > 0,
            ;
        }
        packed_is_nearest(nf, df, num * pd, x as int, m as int, q);
        quotient_is(nf, df, q);
    }
    q
}

/// Rounding keeps the order of quotients.
pub proof fn quotient_is_monotone(n1: int, d1: int, a: Binary32, n2: int, d2: int, b: Binary32)
    requires
        0 < d1,
        0 < d2,
        n1 * d2 <= n2 * d1,
        is_nearest_quotient(n1, d1, a),
        is_nearest_quotient(n2, d2, b),
    ensures
        a.at_most(b),
{
    if b.bits < a.bits {
        let (va, vb) = (a.scaled_value(), b.scaled_value());
        let un = unit();
        magnitude_value_increases(b.bits as int, a.bits as int);
        lemma_pow2_pos(149);
        let mid = Binary32 { bits: (b.bits + 1) as u32 };
        if mid != a {
            magnitude_value_increases(b.bits as int, mid.bits as int);
            magnitude_value_increases(mid.bits as int, a.bits as int);
        }
        let vm = mid.scaled_value();
        // The exact first quotient is no nearer to `b` than to `a`, so it lies at or beyond the
        // midpoint of the two, and the exact second one at or before it.
        assert(vb * d1 < va * d1) by (nonlinear_arith)
            requires
                vb < va,
                d1 > 0,
        ;
        assert(vb * d2 < va * d2) by (nonlinear_arith)
            requires
                vb < va,
                d2 > 0,
        ;
        assert(2 * (n1 * un) >= va * d1 + vb * d1);
        assert(2 * (n2 * un) <= va * d2 + vb * d2);
        assert((n1 * un) * d2 <= (n2 * un) * d1) by (nonlinear_arith)
            requires
                n1 * d2 <= n2 * d1,
                un > 0,
        ;
        assert(2 * ((n1 * un) * d2) >= (va + vb) * (d1 * d2)) by (nonlinear_arith)
            requires
                2 * (n1 * un) >= va * d1 + vb * d1,
                d2 > 0,
        ;
        assert(2 * ((n2 * un) * d1) <= (va + vb) * (d1 * d2)) by (nonlinear_arith)
            requires
                2 * (n2 * un) <= va * d2 + vb * d2,
                d1 > 0,
        ;
        assert(2 * ((n1 * un) * d2) == (va + vb) * (d1 * d2));
        assert(2 * (n1 * un) == va * d1 + vb * d1) by (nonlinear_arith)
            requires
                2 * ((n1 * un) * d2) == (va + vb) * (d1 * d2),
                d2 > 0,
        ;
        assert(2 * ((n2 * un) * d1) == (va + vb) * (d1 * d2));
        assert(2 * (n2 * un) == va * d2 + vb * d2) by (nonlinear_arith)
            requires
                2 * ((n2 * un) * d1) == (va + vb) * (d1 * d2),
                d1 > 0,
        ;
        assert(quotient_error(va, n1, d1) == quotient_error(vb, n1, d1));
        assert(quotient_error(va, n2, d2) == quotient_error(vb, n2, d2));
        if mid != a {
            strictly_between_is_nearer(n1, d1, vb, vm, va);
            assert(quotient_error(va, n1, d1) <= quotient_error(vm, n1, d1));
        }
    }
}

/// Where the exact quotient is itself a binary32 value, no rounding takes place.
pub proof fn exact_quotient(n: int, d: int, q: Binary32)
    requires
        d > 0,
        q.bits <= INFINITY_BITS,
        q.scaled_value() * d == n * unit(),
    ensures
        is_nearest_quotient(n, d, q),
        quotient(n, d) == q,
{
    assert forall|p: Binary32| p.bits <= INFINITY_BITS && p != q implies quotient_error(
        q.scaled_value(),
        n,
        d,
    ) < quotient_error(#[trigger] p.scaled_value(), n, d) by {
        let (v, w) = (q.scaled_value(), p.scaled_value());
        if p.bits < q.bits {
            magnitude_value_increases(p.bits as int, q.bits as int);
        } else {
            magnitude_value_increases(q.bits as int, p.bits as int);
        }
        assert(w * d != v * d) by (nonlinear_arith)
            requires
                w != v,
                d > 0,
        ;
    }
    quotient_is(n, d, q);
}

/// A count divided by itself is one.
pub proof fn one_is_exact(n: int)
    requires
        n > 0,
    ensures
        quotient(n, n) == (Binary32 { bits: 0x3f80_0000 }),
{
    let one = Binary32 { bits: 0x3f80_0000 };
    vstd::arithmetic::power2::lemma2_to64();
    lemma_pow2_adds(23, 126);
    assert(one.bits as int / (HIDDEN_BIT as int) == 127);
    assert(one.bits as int % (HIDDEN_BIT as int) == 0);
    assert(one.scaled_value() == HIDDEN_BIT * pow2(126));
    assert(one.scaled_value() * n == n * unit()) by (nonlinear_arith)
        requires
            one.scaled_value() == unit(),
    ;
    exact_quotient(n, n, one);
}

/// The single-precision product of a count and a factor.
pub open spec fn product(n: int, factor: Binary32) -> Binary32 {
    quotient(as_single(n).scaled_value() * factor.scaled_value(), unit() * unit())
}

/// The integer part of a value that is not negative.
pub open spec fn integer_part(v: Binary32) -> int {
    v.scaled_value() / unit()
}

/// The integer part of a product, limited from above.
pub open spec fn truncated_product(n: int, factor: Binary32, limit: int) -> int {
    let whole = integer_part(product(n, factor));
    if whole < limit {
        whole
    } else {
        limit
    }
}

/// Factors below this pattern keep products of counts finite.
pub const FACTOR_LIMIT: u32 = 0x5e80_0000;

/// The value of a factor, taken apart.
proof fn factor_value(factor: Binary32, significand: int, e: int)
    requires
        factor.bits < FACTOR_LIMIT,
        ({
            let exponent = factor.bits as int / (HIDDEN_BIT as int);
            let fraction = factor.bits as int % (HIDDEN_BIT as int);
            &&& significand == if exponent == 0 {
                fraction
            } else {
                HIDDEN_BIT + fraction
            }
            &&& e == if exponent == 0 {
                0
            } else {
                exponent - 1
            }
        }),
    ensures
        factor.scaled_value() == significand * pow2(e as nat),
        0 <= e <= 188,
        0 <= significand < EXACT_LIMIT,
        e > 0 ==> significand >= HIDDEN_BIT,
{
    vstd::arithmetic::power2::lemma2_to64();
    assert(significand * pow2(0) == significand) by (nonlinear_arith)
        requires
            pow2(0) == 1,
    ;
}

/// An exact value.
proof fn exact_value(v: int, p: int, e: int, q: Binary32)
    requires
        0 <= p < EXACT_LIMIT,
        0 <= e <= 253,
        e > 0 ==> p >= HIDDEN_BIT,
        v == p * pow2(e as nat),
        q.bits == e * HIDDEN_BIT + p,
    ensures
        is_nearest_quotient(v, unit(), q),
        q.scaled_value() == v,
{
    let h = HIDDEN_BIT as int;
    vstd::arithmetic::power2::lemma2_to64();
    lemma_pow2_pos(149);
    if p >= HIDDEN_BIT {
        packed_neighbours(p, e, q.bits as int);
    } else {
        assert(q.bits as int / h == 0 && q.bits as int % h == p);
        assert(p * pow2(0) == p) by (nonlinear_arith)
            requires
                pow2(0) == 1,
        ;
    }
    assert(q.scaled_value() * unit() == v * unit()) by (nonlinear_arith)
        requires
            q.scaled_value() == v,
    ;
    exact_quotient(v, unit(), q);
}

/// A value that had to be rounded by `s` binary places.
proof fn rounded_value(v: int, p: int, e: int, s: int, m: int, q: Binary32)
    requires
        0 <= e,
        0 <= s <= 25,
        e + s <= 253,
        HIDDEN_BIT <= m <= EXACT_LIMIT,
        v == p * pow2(e as nat),
        HIDDEN_BIT * pow2(s as nat) <= p,
        -pow2(s as nat) <= 2 * (m * pow2(s as nat) - p) <= pow2(s as nat),
        2 * (m * pow2(s as nat) - p) == pow2(s as nat) || 2 * (m * pow2(s as nat) - p) == -pow2(
            s as nat,
        ) ==> m % 2 == 0,
        q.bits == (e + s) * HIDDEN_BIT + m,
    ensures
        is_nearest_quotient(v, unit(), q),
        q.scaled_value() == m * pow2((e + s) as nat),
{
    let (pe, ps) = (pow2(e as nat) as int, pow2(s as nat) as int);
    let c = pow2((149 - s) as nat) as int;
    let d = unit();
    lemma_pow2_pos(149);
    lemma_pow2_pos((149 - s) as nat);
    lemma_pow2_adds(s as nat, (149 - s) as nat);
    lemma_pow2_adds(e as nat, s as nat);
    let num = p * c;
    assert(v * d == num * pow2((e + s) as nat)) by (nonlinear_arith)
        requires
            v == p * pe,
            d == ps * c,
            num == p * c,
            pow2((e + s) as nat) == pe * ps,
    ;
    assert(m * d - num == (m * ps - p) * c) by (nonlinear_arith)
        requires
            d == ps * c,
            num == p * c,
    ;
    assert(HIDDEN_BIT * d <= num) by (nonlinear_arith)
        requires
            HIDDEN_BIT * ps <= p,
            d == ps * c,
            num == p * c,
            c > 0,
    ;
    let r = m * ps - p;
    assert(-d <= 2 * (r * c) <= d) by (nonlinear_arith)
        requires
            -ps <= 2 * r <= ps,
            d == ps * c,
            c > 0,
    ;
    if 2 * (r * c) == d {
        assert(2 * r == ps) by (nonlinear_arith)
            requires
                2 * (r * c) == d,
                d == ps * c,
                c > 0,
        ;
    }
    if 2 * (r * c) == -d {
        assert(2 * r == -ps) by (nonlinear_arith)
            requires
                2 * (r * c) == -d,
                d == ps * c,
                c > 0,
        ;
    }
    packed_is_nearest(v, d, num, e + s, m, q);
    packed_neighbours(m, e + s, q.bits as int);
}

/// The product of a count whose single-precision form is the integer `c`.
proof fn product_is(n: int, factor: Binary32, c: int, q: Binary32)
    requires
        as_single(n).scaled_value() == c * unit(),
        is_nearest_quotient(c * factor.scaled_value(), unit(), q),
    ensures
        product(n, factor) == q,
{
    let f = factor.scaled_value();
    lemma_pow2_pos(149);
    quotient_scales(c * f, unit(), unit(), q);
    assert((c * f) * unit() == (c * unit()) * f) by (nonlinear_arith);
    assert(unit() * unit() > 0) by (nonlinear_arith)
        requires
            unit() > 0,
    ;
    quotient_is((c * unit()) * f, unit() * unit(), q);
}

/// The integer part of a value with significand `m` in units of the `x`-th power of two.
fn whole_part(m: u64, x: u32, limit: u64) -> (r: u64)
    requires
        m <= EXACT_LIMIT,
        x <= 253,
    ensures
        r == ({
            let whole = (m * pow2(x as nat)) / unit();
            if whole < limit {
                whole
            } else {
                limit as int
            }
        }),
{
    proof {
        lemma_pow2_pos(149);
        lemma_pow2_pos(x as nat);
        vstd::arithmetic::power2::lemma2_to64();
    }
    if x >= 149 {
        let y: u32 = x - 149;
        proof {
            lemma_pow2_pos(y as nat);
            lemma_pow2_adds(y as nat, 149);
            let whole = m * pow2(y as nat);
            assert(m * pow2(x as nat) == whole * unit()) by (nonlinear_arith)
                requires
                    pow2(x as nat) == pow2(y as nat) * unit(),
                    whole == m * pow2(y as nat),
            ;
            vstd::arithmetic::div_mod::lemma_div_multiples_vanish(whole, unit());
            assert(whole * unit() == unit() * whole) by (nonlinear_arith);
        }
        if m == 0 {
            assert(m * pow2(y as nat) == 0) by (nonlinear_arith)
                requires
                    m == 0,
            ;
            return 0;
        }
        if y >= 64 {
            proof {
                if y > 64 {
                    lemma_pow2_strictly_increases(64, y as nat);
                }
                assert(m * pow2(y as nat) >= pow2(y as nat)) by (nonlinear_arith)
                    requires
                        m >= 1,
                        pow2(y as nat) >= 0,
                ;
            }
            return limit;
        }
        let most: u64 = limit >> (y as u64);
        proof {
            vstd::bits::lemma_u64_shr_is_div(limit, y as u64);
            let py = pow2(y as nat) as int;
            vstd::arithmetic::div_mod::lemma_fundamental_div_mod(limit as int, py);
            if m > most {
                assert(m * py > limit) by (nonlinear_arith)
                    requires
                        m >= most + 1,
                        limit == py * most + limit as int % py,
                        limit as int % py < py,
                        py > 0,
                ;
            } else {
                assert(m * py <= limit) by (nonlinear_arith)
                    requires
                        m <= most,
                        limit == py * most + limit as int % py,
                        limit as int % py >= 0,
                        py > 0,
                ;
                vstd::bits::lemma_u64_shl_is_mul(m, y as u64);
            }
        }
        if m > most {
            limit
        } else {
            m << (y as u64)
        }
    } else {
        let y: u32 = 149 - x;
        let whole: u64 = if y >= 64 {
            0
        } else {
            m >> (y as u64)
        };
        proof {
            lemma_pow2_pos(y as nat);
            lemma_pow2_adds(x as nat, y as nat);
            let py = pow2(y as nat) as int;
            if y >= 64 {
                if y > 64 {
                    lemma_pow2_strictly_increases(64, y as nat);
                }
                assert(m < py);
                assert(m as int / py == 0) by {
                    vstd::arithmetic::div_mod::lemma_basic_div(m as int, py);
                }
            } else {
                vstd::bits::lemma_u64_shr_is_div(m, y as u64);
            }
            assert(whole == m as int / py);
            let rest = m as int % py;
            vstd::arithmetic::div_mod::lemma_fundamental_div_mod(m as int, py);
            let px = pow2(x as nat) as int;
            assert(m * px == whole * unit() + rest * px) by (nonlinear_arith)
                requires
                    m == py * whole + rest,
                    unit() == px * py,
            ;
            assert(0 <= rest * px < unit()) by (nonlinear_arith)
                requires
                    0 <= rest < py,
                    unit() == px * py,
                    px > 0,
            ;
            vstd::arithmetic::div_mod::lemma_fundamental_div_mod_converse(
                m * px,
                unit(),
                whole as int,
                rest * px,
            );
        }
        if whole < limit {
            whole
        } else {
            limit
        }
    }
}

/// `(n as f32 * factor) as u64`, limited from above.
pub fn scale_count(n: u64, factor: Binary32, limit: u64) -> (r: u64)
    requires
        factor.bits < FACTOR_LIMIT,
    ensures
        r == truncated_product(n as int, factor, limit as int),
{
    let exponent: u32 = factor.bits / HIDDEN_BIT;
    let fraction: u32 = factor.bits % HIDDEN_BIT;
    let (significand, low): (u64, u32) = if exponent == 0 {
        (fraction as u64, 0)
    } else {
        (0x0080_0000 + fraction as u64, exponent - 1)
    };
    let (mn, sn): (u64, u32) = round_count(n);
    let e: u32 = low + sn;
    let ghost c = mn * pow2(sn as nat);
    let ghost v = c * factor.scaled_value();
    proof {
        factor_value(factor, significand as int, low as int);
        lemma_pow2_adds(sn as nat, 149);
        lemma_pow2_adds(sn as nat, low as nat);
        assert(mn * pow2((sn + 149) as nat) == c * unit()) by (nonlinear_arith)
            requires
                pow2((sn + 149) as nat) == pow2(sn as nat) * unit(),
                c == mn * pow2(sn as nat),
        ;
        assert(mn * significand <= 0x0100_0000 * 0x0100_0000) by (nonlinear_arith)
            requires
                mn <= 0x0100_0000,
                significand < 0x0100_0000,
        ;
        assert(v == (mn * significand) * pow2(e as nat)) by (nonlinear_arith)
            requires
                v == c * (significand * pow2(low as nat)),
                c == mn * pow2(sn as nat),
                pow2(e as nat) == pow2(sn as nat) * pow2(low as nat),
        ;
    }
    let p: u64 = mn * significand;
    let mut top: u64 = 0x0100_0000;
    let mut s: u32 = 0;
    proof {
        vstd::arithmetic::power2::lemma2_to64();
    }
    while p >= top
        invariant
            s <= 25,
            p <= 0x1_0000_0000_0000,
            top == 0x0100_0000 * pow2(s as nat),
            s > 0 ==> p >= 0x0080_0000 * pow2(s as nat),
        decreases 25 - s,
    {
        proof {
            vstd::arithmetic::power2::lemma2_to64();
            if s >= 25 {
                assert(pow2(25) == 0x200_0000);
            }
            lemma_pow2_adds(1, s as nat);
            if s < 24 {
                lemma_pow2_strictly_increases(s as nat, 24);
            }
        }
        top = top * 2;
        s = s + 1;
    }
    if s == 0 {
        let ghost q = Binary32 { bits: (e * HIDDEN_BIT + p) as u32 };
        proof {
            if sn > 0 || low > 0 {
                assert(p == 0 || p >= 0x0080_0000) by (nonlinear_arith)
                    requires
                        p == mn * significand,
                        significand >= 0x0080_0000 || mn >= 0x0080_0000,
                ;
            }
            if p == 0 {
                lemma_pow2_pos(149);
                zero_is_nearest(unit());
                assert(p * pow2(e as nat) == 0) by (nonlinear_arith)
                    requires
                        p == 0,
                ;
                assert((Binary32 { bits: 0 }).scaled_value() == 0);
                product_is(n as int, factor, c, Binary32 { bits: 0 });
            } else {
                exact_value(v, p as int, e as int, q);
                product_is(n as int, factor, c, q);
            }
        }
        return whole_part(p, e, limit);
    }
    let ghost power = pow2(s as nat);
    proof {
        vstd::arithmetic::power2::lemma2_to64();
        lemma_pow2_strictly_increases(s as nat, 26);
        lemma_pow2_pos(s as nat);
        assert(1 * pow2(s as nat) == pow2(s as nat));
        vstd::bits::lemma_u64_shl_is_mul(1, s as u64);
    }
    let step: u64 = 1u64 << (s as u64);
    assert(step == power);
    let whole: u64 = p / step;
    let rest: u64 = p % step;
    proof {
        vstd::arithmetic::div_mod::lemma_fundamental_div_mod(p as int, step as int);
        assert(0x0080_0000 <= whole < 0x0100_0000) by (nonlinear_arith)
            requires
                p == step * whole + rest,
                rest < step,
                0x0080_0000 * step <= p < 0x0100_0000 * step,
        ;
    }
    let m: u64 = if 2 * rest > step || (2 * rest == step && whole % 2 == 1) {
        whole + 1
    } else {
        whole
    };
    proof {
        if m == whole + 1 {
            assert(m * step == step * whole + step) by (nonlinear_arith)
                requires
                    m == whole + 1,
            ;
        } else {
            assert(m * step == step * whole) by (nonlinear_arith)
                requires
                    m == whole,
            ;
        }
        let q = Binary32 { bits: ((e + s) * HIDDEN_BIT + m) as u32 };
        rounded_value(v, p as int, e as int, s as int, m as int, q);
        product_is(n as int, factor, c, q);
    }
    whole_part(m, e + s, limit)
}

proof fn normal_shift(n: int) -> (j: int)
    requires
        0 < n < EXACT_LIMIT,
    ensures
        0 <= j <= 23,
        HIDDEN_BIT <= n * pow2(j as nat) < EXACT_LIMIT,
    decreases EXACT_LIMIT - n,
{
    vstd::arithmetic::power2::lemma2_to64();
    if n >= HIDDEN_BIT {
        assert(n * pow2(0) == n) by (nonlinear_arith)
            requires
                pow2(0) == 1,
        ;
        0
    } else {
        let j = normal_shift(2 * n);
        lemma_pow2_adds(1, j as nat);
        assert(n * pow2((j + 1) as nat) == (2 * n) * pow2(j as nat)) by (nonlinear_arith)
            requires
                pow2((j + 1) as nat) == 2 * pow2(j as nat),
        ;
        if j == 23 {
            assert((2 * n) * 0x80_0000 >= 2 * 0x80_0000) by (nonlinear_arith)
                requires
                    n >= 1,
            ;
        }
        j + 1
    }
}

/// The factor two doubles a count without rounding.
pub proof fn doubling_is_exact(n: int, limit: int)
    requires
        0 <= n <= EXACT_LIMIT,
        2 * n <= limit,
    ensures
        truncated_product(n, Binary32 { bits: 0x4000_0000 }, limit) == 2 * n,
{
    let two = Binary32 { bits: 0x4000_0000 };
    vstd::arithmetic::power2::lemma2_to64();
    assert(two.bits as int / (HIDDEN_BIT as int) == 128);
    assert(two.bits as int % (HIDDEN_BIT as int) == 0);
    lemma_pow2_adds(23, 127);
    lemma_pow2_adds(1, 149);
    lemma_pow2_pos(149);
    assert(two.scaled_value() == 2 * unit());
    let v = n * two.scaled_value();
    assert(v == (2 * n) * unit()) by (nonlinear_arith)
        requires
            v == n * (2 * unit()),
    ;
    let j = if 0 < n < EXACT_LIMIT {
        normal_shift(n)
    } else {
        0
    };
    let q = if n == 0 {
        Binary32 { bits: 0 }
    } else if n == EXACT_LIMIT {
        // Two to the twenty-fifth.
        Binary32 { bits: 0x4c00_0000 }
    } else {
        Binary32 { bits: ((150 - j) * HIDDEN_BIT + n * pow2(j as nat)) as u32 }
    };
    if n == 0 {
        assert(q.scaled_value() == 0);
        assert(v == 0) by (nonlinear_arith)
            requires
                v == n * (2 * unit()),
                n == 0,
        ;
    } else if n == EXACT_LIMIT {
        packed_neighbours(0x80_0000, 151, 0x4c00_0000);
        lemma_pow2_adds(2, 149);
        assert(q.scaled_value() == v) by (nonlinear_arith)
            requires
                q.scaled_value() == 0x80_0000 * (4 * unit()),
                v == (2 * n) * unit(),
                n == 0x100_0000,
        ;
    } else {
        let m = n * pow2(j as nat);
        packed_neighbours(m, 150 - j, q.bits as int);
        lemma_pow2_adds(j as nat, (150 - j) as nat);
        assert(q.scaled_value() == v) by (nonlinear_arith)
            requires
                q.scaled_value() == m * pow2((150 - j) as nat),
                m == n * pow2(j as nat),
                2 * unit() == pow2(j as nat) * pow2((150 - j) as nat),
                v == n * (2 * unit()),
        ;
    }
    assert(q.scaled_value() * unit() == v * unit());
    exact_quotient(v, unit(), q);
    small_counts_are_exact(n);
    product_is(n, two, n, q);
    assert((2 * n) * unit() == unit() * (2 * n)) by (nonlinear_arith);
    vstd::arithmetic::div_mod::lemma_div_multiples_vanish(2 * n, unit());
}

/// A greater factor gives no smaller product.
pub proof fn product_is_monotone(n: u64, a: Binary32, b: Binary32, limit: int)
    requires
        a.bits <= b.bits <= INFINITY_BITS,
    ensures
        truncated_product(n as int, a, limit) <= truncated_product(n as int, b, limit),
{
    let x = as_single(n as int).scaled_value();
    let (va, vb) = (a.scaled_value(), b.scaled_value());
    let d = unit() * unit();
    counts_keep_their_order(0, n);
    small_counts_are_exact(0);
    assert(0 * unit() == 0);
    assert(d > 0) by (nonlinear_arith)
        requires
            unit() > 0,
            d == unit() * unit(),
    ;
    if a.bits < b.bits {
        magnitude_value_increases(a.bits as int, b.bits as int);
    }
    assert(x * va <= x * vb) by (nonlinear_arith)
        requires
            0 <= x,
            va <= vb,
    ;
    assert((x * va) * d <= (x * vb) * d) by (nonlinear_arith)
        requires
            x * va <= x * vb,
            d > 0,
    ;
    nearest_quotient_exists(x * va, d);
    nearest_quotient_exists(x * vb, d);
    let (p, q) = (product(n as int, a), product(n as int, b));
    quotient_is_monotone(x * va, d, p, x * vb, d, q);
    rank_orders_values(p, q);
    vstd::arithmetic::div_mod::lemma_div_is_ordered(p.scaled_value(), q.scaled_value(), unit());
}

/// The factor one keeps a count that single precision holds exactly.
pub proof fn one_keeps_counts(n: int, limit: int)
    requires
        0 <= n <= EXACT_LIMIT,
        n <= limit,
    ensures
        truncated_product(n, Binary32 { bits: 0x3f80_0000 }, limit) == n,
{
    let one = Binary32 { bits: 0x3f80_0000 };
    vstd::arithmetic::power2::lemma2_to64();
    lemma_pow2_adds(23, 126);
    lemma_pow2_pos(149);
    assert(one.bits as int / (HIDDEN_BIT as int) == 127);
    assert(one.bits as int % (HIDDEN_BIT as int) == 0);
    assert(one.scaled_value() == unit());
    small_counts_are_exact(n);
    let q = as_single(n);
    let x = q.scaled_value();
    let d = unit() * unit();
    assert(d > 0) by (nonlinear_arith)
        requires
            unit() > 0,
            d == unit() * unit(),
    ;
    assert(x * d == (x * unit()) * unit()) by (nonlinear_arith)
        requires
            d == unit() * unit(),
    ;
    exact_quotient(x * unit(), d, q);
    assert(n * unit() == unit() * n) by (nonlinear_arith);
    vstd::arithmetic::div_mod::lemma_div_multiples_vanish(n, unit());
}

proof fn great_factors_saturate(n: u64, factor: Binary32, limit: int)
    requires
        1 <= n,
        FACTOR_LIMIT <= factor.bits <= INFINITY_BITS,
        limit <= 0x4000_0000_0000_0000,
    ensures
        truncated_product(n as int, factor, limit) == limit,
{
    let least = Binary32 { bits: FACTOR_LIMIT };
    let x = as_single(n as int).scaled_value();
    let (va, vb) = (least.scaled_value(), factor.scaled_value());
    let d = unit() * unit();
    vstd::arithmetic::power2::lemma2_to64();
    vstd::arithmetic::power2::lemma2_to64_rest();
    lemma_pow2_pos(149);
    assert(least.bits as int / (HIDDEN_BIT as int) == 189);
    assert(least.bits as int % (HIDDEN_BIT as int) == 0);
    lemma_pow2_adds(23, 188);
    lemma_pow2_adds(62, 149);
    assert(va == 0x4000_0000_0000_0000 * unit());
    counts_keep_their_order(1, n);
    small_counts_are_exact(1);
    assert(1 * unit() == unit());
    if least.bits < factor.bits {
        magnitude_value_increases(least.bits as int, factor.bits as int);
    }
    assert(d > 0) by (nonlinear_arith)
        requires
            unit() > 0,
            d == unit() * unit(),
    ;
    assert(unit() * va <= x * vb) by (nonlinear_arith)
        requires
            0 < unit() <= x,
            0 <= va <= vb,
    ;
    assert((unit() * va) * d <= (x * vb) * d) by (nonlinear_arith)
        requires
            unit() * va <= x * vb,
            d > 0,
    ;
    assert(va * d == (unit() * va) * unit()) by (nonlinear_arith)
        requires
            d == unit() * unit(),
    ;
    exact_quotient(unit() * va, d, least);
    nearest_quotient_exists(x * vb, d);
    let q = product(n as int, factor);
    quotient_is_monotone(unit() * va, d, least, x * vb, d, q);
    rank_orders_values(least, q);
    vstd::arithmetic::div_mod::lemma_div_is_ordered(va, q.scaled_value(), unit());
    vstd::arithmetic::div_mod::lemma_div_multiples_vanish(0x4000_0000_0000_0000, unit());
    assert(va == unit() * 0x4000_0000_0000_0000);
}

/// The size of a factor without its sign.
pub open spec fn unsigned(v: Binary32) -> Binary32 {
    Binary32 { bits: v.magnitude() as u32 }
}

/// The size of an integer without its sign.
pub open spec fn size_of_integer(n: int) -> int {
    if n < 0 {
        -n
    } else {
        n
    }
}

/// The single-precision product of an integer and a factor without its fraction, limited to the
/// range of the machine; zero where the product is not a number.
pub open spec fn scaled_integer(n: int, factor: Binary32) -> int {
    if n == 0 || factor.nan() {
        0
    } else if (n < 0) == (factor.bits >= SIGN_BIT) {
        truncated_product(size_of_integer(n), unsigned(factor), 0x7fff_ffff)
    } else {
        -truncated_product(size_of_integer(n), unsigned(factor), 0x8000_0000)
    }
}

fn scale_size(n: u64, factor: Binary32, limit: u64) -> (r: u64)
    requires
        1 <= n,
        factor.bits <= INFINITY_BITS,
        limit <= 0x8000_0000,
    ensures
        r == truncated_product(n as int, factor, limit as int),
{
    if factor.bits < FACTOR_LIMIT {
        scale_count(n, factor, limit)
    } else {
        proof {
            great_factors_saturate(n, factor, limit as int);
        }
        limit
    }
}

/// `(n as f32 * factor) as i32`.
pub fn scale_integer(n: i32, factor: Binary32) -> (r: i32)
    ensures
        r == scaled_integer(n as int, factor),
{
    if n == 0 || factor.is_nan() {
        return 0;
    }
    let negative: bool = factor.bits >= SIGN_BIT;
    let size = Binary32 {
        bits: if negative {
            factor.bits - SIGN_BIT
        } else {
            factor.bits
        },
    };
    assert(size == unsigned(factor));
    let m: u64 = if n < 0 {
        (-(n as i64)) as u64
    } else {
        n as u64
    };
    if (n < 0) == negative {
        scale_size(m, size, 0x7fff_ffff) as i32
    } else {
        (-(scale_size(m, size, 0x8000_0000) as i64)) as i32
    }
}

/// The pattern that stands for a result that is not a number.
pub const NOT_A_NUMBER: u32 = 0x7fc0_0000;

/// A value of this size and sign.
pub open spec fn with_sign(negative: bool, size: Binary32) -> Binary32 {
    Binary32 {
        bits: if negative {
            (size.bits + SIGN_BIT) as u32
        } else {
            size.bits
        },
    }
}

impl Binary32 {
    /// The sign is negative.
    pub open spec fn negative(self) -> bool {
        self.bits >= SIGN_BIT
    }

    /// An infinity.
    pub open spec fn infinite(self) -> bool {
        self.magnitude() == INFINITY_BITS
    }

    /// A finite number.
    pub open spec fn finite(self) -> bool {
        self.magnitude() < INFINITY_BITS
    }

    /// One of the two zeros.
    pub open spec fn zero(self) -> bool {
        self.magnitude() == 0
    }

    /// The product in single precision: the exact one rounded to the nearest value.
    pub open spec fn times(self, other: Binary32) -> Binary32 {
        let negative = self.negative() != other.negative();
        if self.nan() || other.nan() || (self.infinite() && other.zero()) || (self.zero()
            && other.infinite()) {
            Binary32 { bits: NOT_A_NUMBER }
        } else if self.infinite() || other.infinite() {
            with_sign(negative, Binary32 { bits: INFINITY_BITS })
        } else {
            with_sign(
                negative,
                quotient(
                    unsigned(self).scaled_value() * unsigned(other).scaled_value(),
                    unit() * unit(),
                ),
            )
        }
    }

    /// The sum in single precision: the exact one rounded to the nearest value. A sum of zero is
    /// positive unless both sides are negative.
    pub open spec fn plus(self, other: Binary32) -> Binary32 {
        let sum = self.scaled_value() + other.scaled_value();
        if self.nan() || other.nan() || (self.infinite() && other.infinite() && self.negative()
            != other.negative()) {
            Binary32 { bits: NOT_A_NUMBER }
        } else if self.infinite() {
            self
        } else if other.infinite() {
            other
        } else if sum == 0 {
            with_sign(self.negative() && other.negative(), Binary32 { bits: 0 })
        } else {
            with_sign(sum < 0, quotient(size_of_integer(sum), unit()))
        }
    }
}

/// Weighed with a zero, a finite value adds nothing to a number: the sum is numerically the same,
/// and it is the same pattern unless a positive zero is added to the negative one.
pub proof fn zero_weight_adds_nothing(h: Binary32, r: Binary32, weight: Binary32)
    requires
        !h.nan(),
        r.finite(),
        weight.zero(),
    ensures
        h.plus(r.times(weight)).rank() == h.rank(),
        !h.plus(r.times(weight)).nan(),
        h.bits != SIGN_BIT || r.negative() != weight.negative() ==> h.plus(r.times(weight)) == h,
{
    let zero = Binary32 { bits: 0 };
    let d = unit() * unit();
    lemma_pow2_pos(149);
    assert(d > 0) by (nonlinear_arith)
        requires
            unit() > 0,
            d == unit() * unit(),
    ;
    assert(zero.scaled_value() == 0);
    assert(unsigned(weight) == zero);
    assert(unsigned(r).scaled_value() * 0 == 0);
    zero_is_nearest(d);
    quotient_is(0, d, zero);
    let product = r.times(weight);
    assert(product.magnitude() == 0);
    assert(product.scaled_value() == 0);
    if h.finite() {
        let size = unsigned(h);
        let v = size.scaled_value();
        assert(v == size_of_integer(h.scaled_value())) by {
            if 0 < size.bits {
                magnitude_value_increases(0, size.bits as int);
            }
            assert(magnitude_value(0) == 0);
        }
        exact_quotient(v, unit(), size);
        if 0 < size.bits {
            magnitude_value_increases(0, size.bits as int);
        }
    }
}

/// The ratio of two small counts is the single nearest to their quotient.
pub proof fn ratio_of_small_counts(n: int, d: int)
    requires
        0 <= n <= EXACT_LIMIT,
        0 < d <= EXACT_LIMIT,
    ensures
        is_nearest_quotient(n, d, ratio(n, d)),
{
    small_counts_are_exact(n);
    small_counts_are_exact(d);
    counts_keep_their_order(d as u64, d as u64);
    nearest_quotient_exists(as_single(n).scaled_value(), as_single(d).scaled_value());
    quotient_scales(n, d, unit(), ratio(n, d));
}

/// The product of a small count and a factor is the single nearest to it.
pub proof fn product_of_small_count(n: int, factor: Binary32)
    requires
        0 <= n <= EXACT_LIMIT,
    ensures
        is_nearest_quotient(n * factor.scaled_value(), unit(), product(n, factor)),
{
    small_counts_are_exact(n);
    counts_keep_their_order(1, 1);
    let (u, f) = (unit(), factor.scaled_value());
    assert(0 < u * u) by (nonlinear_arith)
        requires
            0 < u,
    ;
    nearest_quotient_exists(as_single(n).scaled_value() * f, u * u);
    assert((n * u) * f == (n * f) * u) by (nonlinear_arith);
    quotient_scales(n * f, u, u, product(n, factor));
}

/// A truncated product is the greatest whole number that the product reaches, unless that is the
/// limit or beyond it.
pub proof fn truncation_rounds_down(n: int, factor: Binary32, limit: int)
    ensures
        ({
            let whole = truncated_product(n, factor, limit);
            let exact = product(n, factor).scaled_value();
            &&& whole <= limit
            &&& whole < limit ==> whole * unit() <= exact < (whole + 1) * unit()
            &&& whole == limit ==> limit * unit() <= exact
        }),
{
    counts_keep_their_order(1, 1);
    let (u, exact) = (unit(), product(n, factor).scaled_value());
    let whole = exact / u;
    vstd::arithmetic::div_mod::lemma_fundamental_div_mod(exact, u);
    assert(u * whole == whole * u) by (nonlinear_arith);
    assert((whole + 1) * u == whole * u + u) by (nonlinear_arith);
    if whole >= limit {
        assert(limit * u <= whole * u) by (nonlinear_arith)
            requires
                limit <= whole,
                0 < u,
        ;
    }
}

} // verus!
