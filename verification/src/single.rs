//! Binary floating-point numbers that are not negative, in integers: the number nearest to a
//! fraction, and sums, products and quotients of single-precision numbers.
use vstd::arithmetic::div_mod::{lemma_basic_div, lemma_fundamental_div_mod, lemma_fundamental_div_mod_converse};
use vstd::arithmetic::power2::{lemma2_to64, lemma_pow2_adds, lemma_pow2_pos, lemma_pow2_unfold, pow2};
use vstd::prelude::*;

verus! {

// A number of so many binary digits is one of the whole numbers below a limit, or one of the even
// ones below twice the limit, or one of every fourth below four times the limit, and so on, in
// units of the smallest. Its place is how many of those numbers are below it. The place of
// a single- or double-precision number is what its bits spell.

/// Single-precision numbers have 24 binary digits.
pub const SINGLE: u64 = 0x100_0000;

/// Double-precision numbers have 53 binary digits.
pub const DOUBLE: u64 = 0x20_0000_0000_0000;

/// `a / b`, to the nearest whole number; halves go to the even one.
pub open spec fn nearest(a: nat, b: nat) -> nat {
    let q = a / b;
    let r = a % b;
    if 2 * r > b || (2 * r == b && q % 2 == 1) {
        q + 1
    } else {
        q
    }
}

/// The place of the number that is nearest to `a / b`.
pub open spec fn place(a: nat, b: nat, limit: nat) -> nat
    decreases a - b,
{
    if b == 0 || limit < 2 {
        0
    } else if a < limit * b {
        nearest(a, b)
    } else {
        proof {
            assert(limit * b >= 2 * b) by (nonlinear_arith)
                requires
                    limit >= 2,
            ;
        }
        limit / 2 + place(a, 2 * b, limit)
    }
}

/// The number at a place.
pub open spec fn at(k: nat, limit: nat) -> nat {
    let half = limit / 2;
    if k < limit {
        k
    } else {
        (half + k % half) * pow2((k / half - 1) as nat)
    }
}

/// The limits that are in use.
pub open spec fn fair(limit: u64) -> bool {
    limit == SINGLE || limit == DOUBLE
}

// --- Finding places ----------------------------------------------------------------------

proof fn lemma_nearest_doubled(a: nat, b: nat)
    requires
        b > 0,
    ensures
        nearest(2 * a, 2 * b) == nearest(a, b),
{
    let (q, r) = (a as int / b as int, a as int % b as int);
    lemma_fundamental_div_mod(a as int, b as int);
    assert(2 * a == q * (2 * b) + 2 * r) by (nonlinear_arith)
        requires
            a == b * q + r,
    ;
    lemma_fundamental_div_mod_converse(2 * a as int, 2 * b as int, q, 2 * r);
}

/// A fraction in other terms has the same place.
proof fn lemma_place_doubled(a: nat, b: nat, limit: nat)
    requires
        b > 0,
    ensures
        place(2 * a, 2 * b, limit) == place(a, b, limit),
    decreases a - b,
{
    if limit >= 2 {
        assert(limit * (2 * b) == 2 * (limit * b)) by (nonlinear_arith);
        if a < limit * b {
            lemma_nearest_doubled(a, b);
        } else {
            assert(limit * b >= 2 * b) by (nonlinear_arith)
                requires
                    limit >= 2,
            ;
            lemma_place_doubled(a, 2 * b, limit);
        }
    }
}

proof fn lemma_place_scaled(a: nat, b: nat, limit: nat, j: nat)
    requires
        b > 0,
    ensures
        place(a * pow2(j), b * pow2(j), limit) == place(a, b, limit),
    decreases j,
{
    if j == 0 {
        assert(pow2(0) == 1) by {
            vstd::arithmetic::power2::lemma2_to64();
        }
    } else {
        let p = pow2((j - 1) as nat);
        lemma_pow2_unfold(j);
        lemma_pow2_pos((j - 1) as nat);
        lemma_place_scaled(a, b, limit, (j - 1) as nat);
        assert(b * p > 0) by (nonlinear_arith)
            requires
                b > 0,
                p > 0,
        ;
        lemma_place_doubled(a * p, b * p, limit);
        assert(a * (2 * p) == 2 * (a * p) && b * (2 * p) == 2 * (b * p)) by (nonlinear_arith);
    }
}

/// The place of `num / den` times two to the `k`.
pub open spec fn scaled_place(num: nat, den: nat, k: int, limit: nat) -> nat {
    if k >= 0 {
        place(num * pow2(k as nat), den, limit)
    } else {
        place(num, den * pow2((-k) as nat), limit)
    }
}

/// Only the difference of two exponents counts.
proof fn lemma_scaled_place(num: nat, den: nat, a: nat, b: nat, limit: nat)
    requires
        den > 0,
    ensures
        place(num * pow2(a), den * pow2(b), limit) == scaled_place(num, den, a - b, limit),
{
    if a >= b {
        let d = (a - b) as nat;
        lemma_pow2_adds(d, b);
        lemma_place_scaled(num * pow2(d), den, limit, b);
        assert(num * (pow2(d) * pow2(b)) == (num * pow2(d)) * pow2(b)) by (nonlinear_arith);
    } else {
        let d = (b - a) as nat;
        lemma_pow2_adds(d, a);
        lemma_pow2_pos(d);
        assert(den * pow2(d) > 0) by (nonlinear_arith)
            requires
                den > 0,
                pow2(d) > 0,
        ;
        lemma_place_scaled(num, den * pow2(d), limit, a);
        assert(den * (pow2(d) * pow2(a)) == (den * pow2(d)) * pow2(a)) by (nonlinear_arith);
    }
}

/// Far less than one has the first place.
pub proof fn lemma_place_nothing(a: nat, b: nat, limit: nat)
    requires
        2 * a < b,
        limit >= 2,
    ensures
        place(a, b, limit) == 0,
{
    assert(a < limit * b) by (nonlinear_arith)
        requires
            a < b,
            limit >= 2,
    ;
    vstd::arithmetic::div_mod::lemma_basic_div(a as int, b as int);
    vstd::arithmetic::div_mod::lemma_small_mod(a, b);
}

/// A large fraction is far up.
pub proof fn lemma_place_at_least(a: nat, b: nat, limit: nat, j: nat)
    requires
        b > 0,
        limit >= 2,
        a >= limit * (b * pow2(j)),
    ensures
        place(a, b, limit) >= (j + 1) * (limit / 2),
    decreases j,
{
    let half = limit / 2;
    if j == 0 {
        vstd::arithmetic::power2::lemma2_to64();
        assert(b * pow2(0) == b) by (nonlinear_arith)
            requires
                pow2(0) == 1,
        ;
        assert((j + 1) * half == half) by (nonlinear_arith)
            requires
                j == 0,
        ;
    } else {
        let h = pow2((j - 1) as nat);
        lemma_pow2_unfold(j);
        lemma_pow2_pos((j - 1) as nat);
        assert(b * (2 * h) == (2 * b) * h) by (nonlinear_arith);
        assert(limit * b <= limit * (b * (2 * h))) by (nonlinear_arith)
            requires
                h >= 1,
                limit >= 0,
        ;
        lemma_place_at_least(a, 2 * b, limit, (j - 1) as nat);
        assert((j + 1) * half == j * half + half) by (nonlinear_arith);
    }
}

/// A fraction that is not too large is not too far up.
proof fn lemma_place_at_most(a: nat, b: nat, limit: nat, j: nat)
    requires
        b > 0,
        limit >= 2,
        limit % 2 == 0,
        a < limit * (b * pow2(j)),
    ensures
        place(a, b, limit) <= j * (limit / 2) + limit,
    decreases j,
{
    let half = limit / 2;
    if a < limit * b {
        lemma_whole_below(a, b, limit);
        assert(j * half >= 0) by (nonlinear_arith);
    } else if j == 0 {
        vstd::arithmetic::power2::lemma2_to64();
        assert(b * pow2(0) == b) by (nonlinear_arith)
            requires
                pow2(0) == 1,
        ;
    } else {
        let h = pow2((j - 1) as nat);
        lemma_pow2_unfold(j);
        assert(b * (2 * h) == (2 * b) * h) by (nonlinear_arith);
        lemma_place_at_most(a, 2 * b, limit, (j - 1) as nat);
        assert(j * half == (j - 1) * half + half) by (nonlinear_arith);
    }
}

/// Whole numbers are neither lost nor too large.
proof fn lemma_whole_place(n: nat)
    requires
        n <= u64::MAX,
    ensures
        place(n * pow2(149), 1, SINGLE as nat) < INFINITE,
        n > 0 ==> place(n * pow2(149), 1, SINGLE as nat) > 0,
{
    let a = n * pow2(149);
    vstd::arithmetic::power2::lemma2_to64();
    vstd::arithmetic::power2::lemma2_to64_rest();
    lemma_pow2_adds(40, 149);
    lemma_pow2_adds(24, 125);
    lemma_pow2_pos(149);
    lemma_pow2_pos(125);
    assert(a < SINGLE * (1 * pow2(189))) by (nonlinear_arith)
        requires
            a == n * pow2(149),
            n < 0x1_0000_0000_0000_0000,
            pow2(149) > 0,
            pow2(189) == pow2(40) * pow2(149),
            pow2(40) == 0x100_0000_0000,
            SINGLE == 0x100_0000,
    ;
    lemma_place_at_most(a, 1, SINGLE as nat, 189);
    if n > 0 {
        assert(a >= SINGLE * (1 * pow2(0))) by (nonlinear_arith)
            requires
                a == n * pow2(149),
                n >= 1,
                pow2(149) == pow2(24) * pow2(125),
                pow2(24) == 0x100_0000,
                pow2(125) >= 1,
                pow2(0) == 1,
                SINGLE == 0x100_0000,
        ;
        lemma_place_at_least(a, 1, SINGLE as nat, 0);
    }
}

fn nearest_of(v: u128, d: u128) -> (r: u128)
    requires
        d > 0,
        v < 0x8000_0000_0000_0000_0000_0000_0000_0000,
    ensures
        r == nearest(v as nat, d as nat),
{
    let q: u128 = v / d;
    let rest: u128 = v % d;
    if rest > d - rest || (rest == d - rest && q % 2 == 1) {
        q + 1
    } else {
        q
    }
}

/// The place of `v / d`.
fn place_of_whole(v: u128, d: u128, limit: u64) -> (r: u64)
    requires
        d > 0,
        fair(limit),
        v < 0x100_0000_0000_0000_0000_0000_0000_0000,
        d < 0x2_0000_0000_0000_0000_0000,
    ensures
        r == place(v as nat, d as nat, limit as nat),
        r <= 0x82 * (limit / 2),
{
    let mut total: u64 = 0;
    let mut e: u128 = d;
    let mut n: u64 = 0;
    let ghost goal = place(v as nat, d as nat, limit as nat);
    proof {
        vstd::arithmetic::power2::lemma2_to64();
    }
    while v / e >= limit as u128
        invariant
            e > 0,
            d > 0,
            fair(limit),
            v < 0x100_0000_0000_0000_0000_0000_0000_0000,
            e <= d || e <= v,
            d < 0x2_0000_0000_0000_0000_0000,
            n <= 0x80,
            e >= pow2(n as nat),
            total == n * (limit / 2),
            total + place(v as nat, e as nat, limit as nat) == goal,
        decreases v - e,
    {
        proof {
            lemma_whole_below(v as nat, e as nat, limit as nat);
            assert(limit * e >= 2 * e) by (nonlinear_arith)
                requires
                    limit >= 2,
            ;
            lemma_pow2_unfold((n + 1) as nat);
            lemma_few_doublings(n as nat, e as nat);
            assert((n + 1) * (limit / 2) == n * (limit / 2) + limit / 2) by (nonlinear_arith);
            assert(n * (limit / 2) <= 0x80 * (limit / 2)) by (nonlinear_arith)
                requires
                    n <= 0x80,
            ;
        }
        total = total + limit / 2;
        e = e * 2;
        n = n + 1;
    }
    proof {
        lemma_whole_below(v as nat, e as nat, limit as nat);
        assert(n * (limit / 2) <= 0x80 * (limit / 2)) by (nonlinear_arith)
            requires
                n <= 0x80,
        ;
    }
    let last: u128 = nearest_of(v, e);
    total + last as u64
}

proof fn lemma_whole_below(v: nat, e: nat, limit: nat)
    requires
        e > 0,
    ensures
        v / e >= limit <==> v >= limit * e,
        v / e < limit <==> v < limit * e,
{
    lemma_fundamental_div_mod(v as int, e as int);
    let (q, r) = (v as int / e as int, v as int % e as int);
    assert(q >= limit <==> v >= limit * e) by (nonlinear_arith)
        requires
            v == e * q + r,
            0 <= r < e,
            limit >= 0,
    ;
}

proof fn lemma_few_doublings(n: nat, e: nat)
    requires
        e >= pow2(n),
        2 * e < 0x100_0000_0000_0000_0000_0000_0000_0000,
    ensures
        n < 0x80,
{
    if n >= 0x80 {
        vstd::arithmetic::power2::lemma2_to64();
        vstd::arithmetic::power2::lemma2_to64_rest();
        lemma_pow2_adds(64, 64);
        if n > 0x80 {
            vstd::arithmetic::power2::lemma_pow2_strictly_increases(0x80, n);
        }
        assert(pow2(0x80) >= 0x100_0000_0000_0000_0000_0000_0000_0000) by (nonlinear_arith)
            requires
                pow2(0x80) == pow2(64) * pow2(64),
                pow2(64) == 0x1_0000_0000_0000_0000,
        ;
    }
}

/// The place of `num / den` times two to the `k`.
fn place_of(num: u64, den: u64, k: i64, limit: u64) -> (r: u64)
    requires
        den > 0,
        fair(limit),
        -3000 <= k <= 1900,
    ensures
        r == scaled_place(num as nat, den as nat, k as int, limit as nat),
        r <= (0x82 + (if k > 0 { k as int } else { 0 })) * (limit / 2),
{
    if k < 0 {
        let mut d: u128 = den as u128;
        let mut j: i64 = 0;
        proof {
            vstd::arithmetic::power2::lemma2_to64();
            assert(den * pow2(0) == den) by (nonlinear_arith)
                requires
                    pow2(0) == 1,
            ;
        }
        while j < -k
            invariant
                0 <= j <= -k <= 3000,
                den > 0,
                fair(limit),
                d == den * pow2(j as nat),
                d > 0,
                d < 0x2_0000_0000_0000_0000_0000,
            decreases -k - j,
        {
            if d > 2 * (num as u128) {
                proof {
                    let (a, b) = (pow2(j as nat), pow2((-k) as nat));
                    vstd::arithmetic::power2::lemma_pow2_strictly_increases(j as nat, (-k) as nat);
                    assert(den * b >= den * a) by (nonlinear_arith)
                        requires
                            b >= a,
                            den >= 0,
                    ;
                    lemma_place_nothing(num as nat, (den * b) as nat, limit as nat);
                }
                return 0;
            }
            proof {
                lemma_pow2_unfold((j + 1) as nat);
                let a = pow2(j as nat);
                assert(den * (2 * a) == 2 * (den * a)) by (nonlinear_arith);
            }
            d = d * 2;
            j = j + 1;
        }
        return place_of_whole(num as u128, d, limit);
    }
    proof {
        assert(limit * den < 0x40_0000_0000_0000_0000_0000_0000_0000) by (nonlinear_arith)
            requires
                limit <= 0x20_0000_0000_0000,
                den <= 0xffff_ffff_ffff_ffff,
        ;
    }
    let c: u128 = limit as u128 * den as u128;
    let mut v: u128 = num as u128;
    let mut left: i64 = k;
    let mut total: u64 = 0;
    let ghost goal = scaled_place(num as nat, den as nat, k as int, limit as nat);
    while left > 0
        invariant
            0 <= left <= k <= 1900,
            den > 0,
            fair(limit),
            c == limit * den,
            c < 0x40_0000_0000_0000_0000_0000_0000_0000,
            v < 0x80_0000_0000_0000_0000_0000_0000_0000,
            total <= (k - left) * (limit / 2),
            total + place((v * pow2(left as nat)) as nat, den as nat, limit as nat) == goal,
        decreases left,
    {
        let ghost h = pow2((left - 1) as nat);
        proof {
            lemma_pow2_unfold(left as nat);
            lemma_pow2_pos((left - 1) as nat);
            assert(v * (2 * h) == 2 * (v * h) && (2 * v) * h == 2 * (v * h)) by (nonlinear_arith);
            assert((k - left + 1) * (limit / 2) == (k - left) * (limit / 2) + limit / 2) by (nonlinear_arith);
            assert((k - left) * (limit / 2) <= 1900 * (limit / 2)) by (nonlinear_arith)
                requires
                    k - left <= 1900,
            ;
        }
        if v < c {
            v = v * 2;
        } else {
            proof {
                assert(v * (2 * h) >= limit * den) by (nonlinear_arith)
                    requires
                        v >= limit * den,
                        h >= 1,
                ;
                lemma_place_doubled((v * h) as nat, den as nat, limit as nat);
            }
            total = total + limit / 2;
        }
        left = left - 1;
    }
    proof {
        vstd::arithmetic::power2::lemma2_to64();
        assert(v * pow2(0) == v) by (nonlinear_arith)
            requires
                pow2(0) == 1,
        ;
        assert((k - left) * (limit / 2) <= 1900 * (limit / 2)) by (nonlinear_arith)
            requires
                k - left <= 1900,
        ;
        assert((0x82 + k) * (limit / 2) == 0x82 * (limit / 2) + k * (limit / 2)) by (nonlinear_arith);
    }
    total + place_of_whole(v, den as u128, limit)
}

/// The number at a place, as a number below the limit times a power of two.
fn parts(k: u64, limit: u64) -> (r: (u64, u64))
    requires
        fair(limit),
    ensures
        at(k as nat, limit as nat) == r.0 * pow2(r.1 as nat),
        r.0 < limit,
        r.1 <= k / (limit / 2),
        r.1 > 0 ==> r.0 >= limit / 2,
        k == r.1 * (limit / 2) + r.0,
{
    if k < limit {
        proof {
            vstd::arithmetic::power2::lemma2_to64();
            assert(k * pow2(0) == k) by (nonlinear_arith)
                requires
                    pow2(0) == 1,
            ;
        }
        return (k, 0);
    }
    let half: u64 = limit / 2;
    proof {
        vstd::arithmetic::div_mod::lemma_div_non_zero(k as int, half as int);
    }
    let j: u64 = k / half - 1;
    proof {
        lemma_fundamental_div_mod(k as int, half as int);
        assert(k == half * (j + 1) + k % half);
        assert(half * (j + 1) == j * half + half) by (nonlinear_arith);
    }
    (half + k % half, j)
}

// --- Single precision ----------------------------------------------------------------------

/// A single-precision number, by its bits. Those of the numbers that are not negative go up with
/// the number, from zero to infinity; greater ones are of no such number.
#[derive(Debug, Clone, Copy, PartialEq, Eq, Structural)]
pub struct Single {
    pub bits: u32,
}

/// The bits of infinity.
pub const INFINITE: u32 = 0x7f80_0000;

/// What comes of nothing by nothing, and the like.
pub const NO_NUMBER: u32 = 0x7fc0_0000;

/// The number at a place, or infinity where it is too large.
pub open spec fn capped(k: nat) -> Single {
    Single {
        bits: if k < INFINITE {
            k as u32
        } else {
            INFINITE
        },
    }
}

fn cap(k: u64) -> (r: Single)
    ensures
        r == capped(k as nat),
{
    if k < INFINITE as u64 {
        Single { bits: k as u32 }
    } else {
        Single { bits: INFINITE }
    }
}

/// The single-precision number nearest to `a / b`.
pub open spec fn single(a: nat, b: nat) -> Single {
    capped(place(a * pow2(149), b, SINGLE as nat))
}

/// A product in single precision. Infinity times nothing is no number.
pub open spec fn product(x: Single, y: Single) -> Single {
    if x.finite() && y.finite() {
        capped(place(x.units() * y.units(), pow2(149), SINGLE as nat))
    } else if x.positive() && y.positive() {
        Single { bits: INFINITE }
    } else {
        Single { bits: NO_NUMBER }
    }
}

/// A sum in single precision.
pub open spec fn sum(x: Single, y: Single) -> Single {
    if x.finite() && y.finite() {
        capped(place(x.units() + y.units(), 1, SINGLE as nat))
    } else if x.bits <= INFINITE && y.bits <= INFINITE {
        Single { bits: INFINITE }
    } else {
        Single { bits: NO_NUMBER }
    }
}

/// A quotient in single precision. Nothing by nothing is no number, nor is infinity by infinity.
pub open spec fn quotient(x: Single, y: Single) -> Single {
    if x.finite() && y.finite() && y.bits > 0 {
        single(x.units(), y.units())
    } else if x.finite() && y.bits == INFINITE {
        Single { bits: 0 }
    } else if x.positive() && y.finite() {
        Single { bits: INFINITE }
    } else {
        Single { bits: NO_NUMBER }
    }
}

/// `a / b` to the nearest whole number, halves upwards.
pub open spec fn half_up(a: nat, b: nat) -> nat {
    (2 * a + b) / (2 * b)
}

/// A whole number in 32 bits, as far as it goes.
pub open spec fn in_32_bits(n: nat) -> u32 {
    if n <= u32::MAX {
        n as u32
    } else {
        u32::MAX
    }
}

impl Single {
    /// It is neither negative nor infinite.
    pub open spec fn finite(self) -> bool {
        self.bits < INFINITE
    }

    /// It is above zero, infinity counted.
    pub open spec fn positive(self) -> bool {
        0 < self.bits <= INFINITE
    }

    /// How many of the smallest number above zero it is: of two to the -149.
    pub open spec fn units(self) -> nat {
        at(self.bits as nat, SINGLE as nat)
    }

    /// The nearest whole number, halves upwards, in 32 bits; zero for what is negative or no
    /// number.
    pub open spec fn rounded(self) -> u32 {
        if self.bits <= INFINITE {
            in_32_bits(half_up(self.units(), pow2(149)))
        } else {
            0
        }
    }

    pub fn is_finite(&self) -> (r: bool)
        ensures
            r == self.finite(),
    {
        self.bits < INFINITE
    }

    pub fn is_positive(&self) -> (r: bool)
        ensures
            r == self.positive(),
    {
        0 < self.bits && self.bits <= INFINITE
    }

    /// The number nearest to a whole number.
    pub fn of_whole(n: u64) -> (r: Single)
        ensures
            r == single(n as nat, 1),
            r.finite(),
            n > 0 ==> r.bits > 0,
    {
        proof {
            lemma_whole_place(n as nat);
        }
        cap(place_of(n, 1, 149, SINGLE))
    }

    pub fn times(self, other: Single) -> (r: Single)
        ensures
            r == product(self, other),
    {
        if !self.is_finite() || !other.is_finite() {
            if self.is_positive() && other.is_positive() {
                return Single { bits: INFINITE };
            }
            return Single { bits: NO_NUMBER };
        }
        let (m, i) = parts(self.bits as u64, SINGLE);
        let (n, j) = parts(other.bits as u64, SINGLE);
        proof {
            assert(m * n < 0x1_0000_0000_0000) by (nonlinear_arith)
                requires
                    m < 0x100_0000,
                    n < 0x100_0000,
            ;
            lemma_pow2_adds(i as nat, j as nat);
            let (a, b) = (pow2(i as nat), pow2(j as nat));
            assert((m * a) * (n * b) == (m * n) * (a * b)) by (nonlinear_arith);
            lemma_scaled_place((m * n) as nat, 1, (i + j) as nat, 149, SINGLE as nat);
        }
        cap(place_of(m * n, 1, i as i64 + j as i64 - 149, SINGLE))
    }

    pub fn plus(self, other: Single) -> (r: Single)
        ensures
            r == sum(self, other),
    {
        if !self.is_finite() || !other.is_finite() {
            if self.bits <= INFINITE && other.bits <= INFINITE {
                return Single { bits: INFINITE };
            }
            return Single { bits: NO_NUMBER };
        }
        let (m, i) = parts(self.bits as u64, SINGLE);
        let (n, j) = parts(other.bits as u64, SINGLE);
        if i >= j {
            add_parts(m, i, n, j)
        } else {
            add_parts(n, j, m, i)
        }
    }

    /// The nearest whole number, halves upwards.
    pub fn to_whole(self) -> (r: u32)
        ensures
            r == self.rounded(),
    {
        if self.bits > INFINITE {
            return 0;
        }
        let (m, j) = parts(self.bits as u64, SINGLE);
        whole_of(m, j, 149, true)
    }

    pub fn divided_by(self, other: Single) -> (r: Single)
        ensures
            r == quotient(self, other),
    {
        if self.is_finite() && other.is_finite() && other.bits > 0 {
            self.over(1, other)
        } else if self.is_finite() && other.bits == INFINITE {
            Single { bits: 0 }
        } else if self.is_positive() && other.is_finite() {
            Single { bits: INFINITE }
        } else {
            Single { bits: NO_NUMBER }
        }
    }

    /// The quotient of a number and `c` times another, of finite numbers.
    pub fn over(self, c: u64, other: Single) -> (r: Single)
        requires
            self.finite(),
            other.finite(),
            other.bits > 0,
            0 < c <= 2,
        ensures
            r == single(self.units(), c as nat * other.units()),
    {
        let (m, i) = parts(self.bits as u64, SINGLE);
        let (n, j) = parts(other.bits as u64, SINGLE);
        proof {
            lemma_pow2_adds(i as nat, 149);
            let (a, b, e) = (pow2(i as nat), pow2(149), pow2(j as nat));
            assert((m * a) * b == m * (a * b)) by (nonlinear_arith);
            assert(c * (n * e) == (c * n) * e) by (nonlinear_arith);
            assert(0 < c * n <= 2 * n) by (nonlinear_arith)
                requires
                    0 < c <= 2,
                    n > 0,
            ;
            lemma_scaled_place(m as nat, (c * n) as nat, (i + 149) as nat, j as nat, SINGLE as nat);
        }
        cap(place_of(m, c * n, i as i64 + 149 - j as i64, SINGLE))
    }
}

proof fn lemma_place_level(a: nat, b: nat, limit: nat, j: nat)
    requires
        b > 0,
        limit >= 2,
        limit % 2 == 0,
        a < limit * (b * pow2(j)),
        j > 0 ==> (limit / 2) * (b * pow2(j)) <= a,
    ensures
        place(a, b, limit) == j * (limit / 2) + nearest(a, b * pow2(j)),
    decreases j,
{
    let half = limit / 2;
    if j == 0 {
        vstd::arithmetic::power2::lemma2_to64();
        assert(b * pow2(0) == b) by (nonlinear_arith)
            requires
                pow2(0) == 1,
        ;
    } else {
        let h = pow2((j - 1) as nat);
        lemma_pow2_unfold(j);
        lemma_pow2_pos((j - 1) as nat);
        assert(b * (2 * h) == (2 * b) * h) by (nonlinear_arith);
        assert(limit * b <= half * (b * (2 * h))) by (nonlinear_arith)
            requires
                limit == 2 * half,
                h >= 1,
                half >= 0,
        ;
        if j > 1 {
            assert(half * ((2 * b) * h) <= a);
        }
        lemma_place_level(a, 2 * b, limit, (j - 1) as nat);
        assert(j * half == (j - 1) * half + half) by (nonlinear_arith);
    }
}

/// What is less than half a step does not count.
proof fn lemma_place_undisturbed(m: nat, j: nat, y: nat, limit: nat)
    requires
        limit >= 2,
        limit % 2 == 0,
        limit / 2 <= m < limit,
        2 * y < pow2(j),
    ensures
        place(m * pow2(j) + y, 1, limit) == j * (limit / 2) + m,
{
    let p = pow2(j);
    let a = m * p + y;
    assert((m + 1) * p == m * p + p) by (nonlinear_arith);
    assert((m + 1) * p <= limit * p) by (nonlinear_arith)
        requires
            m + 1 <= limit,
    ;
    assert((limit / 2) * p <= m * p) by (nonlinear_arith)
        requires
            limit / 2 <= m,
    ;
    assert(1 * p == p);
    lemma_place_level(a, 1, limit, j);
    lemma_fundamental_div_mod_converse(a as int, p as int, m as int, y as int);
}

/// A larger and a smaller number.
fn add_parts(m: u64, i: u64, n: u64, j: u64) -> (r: Single)
    requires
        j <= i <= 254,
        m < SINGLE,
        n < SINGLE,
        i > 0 ==> m >= SINGLE / 2,
    ensures
        r == capped(place((m * pow2(i as nat) + n * pow2(j as nat)) as nat, 1, SINGLE as nat)),
{
    let d: u64 = i - j;
    if d > 30 {
        proof {
            let (a, b) = (pow2(i as nat), pow2(j as nat));
            lemma_pow2_adds(j as nat, d as nat);
            vstd::arithmetic::power2::lemma2_to64();
            vstd::arithmetic::power2::lemma_pow2_strictly_increases(30, d as nat);
            lemma_pow2_pos(j as nat);
            assert(2 * (n * b) < a) by (nonlinear_arith)
                requires
                    n < 0x100_0000,
                    a == b * pow2(d as nat),
                    pow2(d as nat) > 0x4000_0000,
                    b > 0,
            ;
            lemma_place_undisturbed(m as nat, i as nat, (n * b) as nat, SINGLE as nat);
            assert(i * 0x80_0000 <= 254 * 0x80_0000);
        }
        return cap(i * 0x80_0000 + m);
    }
    let mut v: u64 = m;
    let mut t: u64 = 0;
    proof {
        vstd::arithmetic::power2::lemma2_to64();
        assert(m * pow2(0) == m) by (nonlinear_arith)
            requires
                pow2(0) == 1,
        ;
    }
    while t < d
        invariant
            t <= d <= 30,
            m < SINGLE,
            v == m * pow2(t as nat),
        decreases d - t,
    {
        proof {
            lemma_small_shift(m as nat, t as nat);
            lemma_pow2_unfold((t + 1) as nat);
            let h = pow2(t as nat);
            assert(m * (2 * h) == 2 * (m * h)) by (nonlinear_arith);
        }
        v = v * 2;
        t = t + 1;
    }
    proof {
        lemma_small_shift(m as nat, d as nat);
        lemma_pow2_adds(d as nat, j as nat);
        let (e, b) = (pow2(d as nat), pow2(j as nat));
        assert((m * e + n) * b == m * (e * b) + n * b) by (nonlinear_arith);
    }
    cap(place_of(v + n, 1, j as i64, SINGLE))
}

proof fn lemma_small_shift(m: nat, t: nat)
    requires
        m < SINGLE,
        t <= 30,
    ensures
        m * pow2(t) < 0x40_0000_0000_0000,
{
    vstd::arithmetic::power2::lemma2_to64();
    if t < 30 {
        vstd::arithmetic::power2::lemma_pow2_strictly_increases(t, 30);
    }
    assert(m * pow2(t) < 0x40_0000_0000_0000) by (nonlinear_arith)
        requires
            m < 0x100_0000,
            pow2(t) <= 0x4000_0000,
    ;
}

/// The whole number nearest to or below `m` times two to the `j`, over two to the `s`.
fn whole_of(m: u64, j: u64, s: u64, up: bool) -> (r: u32)
    requires
        m < DOUBLE,
        j <= 3000,
        s <= 3000,
    ensures
        r == in_32_bits(
            if up {
                half_up((m * pow2(j as nat)) as nat, pow2(s as nat))
            } else {
                (m * pow2(j as nat)) as nat / pow2(s as nat)
            },
        ),
{
    if j >= s {
        let mut v: u64 = m;
        let mut t: u64 = 0;
        let d: u64 = j - s;
        proof {
            lemma_whole_shift(m as nat, d as nat, s as nat);
            vstd::arithmetic::power2::lemma2_to64();
            assert(m * pow2(0) == m) by (nonlinear_arith)
                requires
                    pow2(0) == 1,
            ;
        }
        while t < d
            invariant
                t <= d,
                d == j - s,
                v == m * pow2(t as nat),
                v < DOUBLE,
            decreases d - t,
        {
            proof {
                lemma_pow2_unfold((t + 1) as nat);
                let h = pow2(t as nat);
                assert(m * (2 * h) == 2 * (m * h)) by (nonlinear_arith);
            }
            if v > u32::MAX as u64 {
                proof {
                    lemma_whole_shift(m as nat, d as nat, s as nat);
                    vstd::arithmetic::power2::lemma_pow2_strictly_increases(t as nat, d as nat);
                    let (a, b) = (pow2(t as nat), pow2(d as nat));
                    assert(m * b >= m * a) by (nonlinear_arith)
                        requires
                            b >= a,
                            m >= 0,
                    ;
                }
                return u32::MAX;
            }
            v = v * 2;
            t = t + 1;
        }
        return if v <= u32::MAX as u64 {
            v as u32
        } else {
            u32::MAX
        };
    }
    let d: u64 = s - j;
    proof {
        lemma_whole_down(m as nat, j as nat, d as nat);
    }
    if d > 54 {
        proof {
            vstd::arithmetic::power2::lemma2_to64();
            vstd::arithmetic::power2::lemma2_to64_rest();
            vstd::arithmetic::power2::lemma_pow2_strictly_increases(54, d as nat);
            let p = pow2(d as nat);
            vstd::arithmetic::div_mod::lemma_basic_div(m as int, p as int);
            vstd::arithmetic::div_mod::lemma_basic_div(2 * m + p as int, 2 * p as int);
        }
        return 0;
    }
    let mut p: u64 = 1;
    let mut t: u64 = 0;
    proof {
        vstd::arithmetic::power2::lemma2_to64();
    }
    while t < d
        invariant
            t <= d <= 54,
            p == pow2(t as nat),
            1 <= p <= 0x40_0000_0000_0000,
        decreases d - t,
    {
        proof {
            lemma_pow2_unfold((t + 1) as nat);
            vstd::arithmetic::power2::lemma2_to64();
            vstd::arithmetic::power2::lemma2_to64_rest();
            if t + 1 < 54 {
                vstd::arithmetic::power2::lemma_pow2_strictly_increases((t + 1) as nat, 54);
            }
        }
        p = p * 2;
        t = t + 1;
    }
    let n: u64 = if up {
        (2 * m + p) / (2 * p)
    } else {
        m / p
    };
    if n <= u32::MAX as u64 {
        n as u32
    } else {
        u32::MAX
    }
}

proof fn lemma_whole_shift(m: nat, d: nat, s: nat)
    ensures
        half_up(m * pow2(d + s), pow2(s)) == m * pow2(d),
        (m * pow2(d + s)) / pow2(s) == m * pow2(d),
{
    let (a, p) = (m * pow2(d), pow2(s));
    lemma_pow2_adds(d, s);
    lemma_pow2_pos(s);
    assert(m * (pow2(d) * p) == a * p) by (nonlinear_arith)
        requires
            a == m * pow2(d),
    ;
    lemma_fundamental_div_mod_converse((a * p) as int, p as int, a as int, 0);
    assert(2 * (a * p) + p == a * (2 * p) + p) by (nonlinear_arith);
    lemma_fundamental_div_mod_converse(2 * (a * p) + p as int, 2 * p as int, a as int, p as int);
}

proof fn lemma_whole_down(m: nat, j: nat, d: nat)
    ensures
        half_up(m * pow2(j), pow2(j + d)) == half_up(m, pow2(d)),
        (m * pow2(j)) / pow2(j + d) == m / pow2(d),
{
    let (p, q) = (pow2(j) as int, pow2(d) as int);
    lemma_pow2_adds(j, d);
    lemma_pow2_pos(j);
    lemma_pow2_pos(d);
    vstd::arithmetic::div_mod::lemma_div_denominator(m * p, p, q);
    vstd::arithmetic::div_mod::lemma_div_by_multiple(m as int, p);
    assert(2 * (m * p) + p * q == (2 * m + q) * p) by (nonlinear_arith);
    assert(2 * (p * q) == p * (2 * q)) by (nonlinear_arith);
    vstd::arithmetic::div_mod::lemma_div_denominator((2 * m + q) * p, p, 2 * q);
    vstd::arithmetic::div_mod::lemma_div_by_multiple(2 * m + q, p);
}

// --- Order -----------------------------------------------------------------------------------

proof fn lemma_nearest_rises(a: nat, c: nat, b: nat)
    requires
        a <= c,
        b > 0,
    ensures
        nearest(a, b) <= nearest(c, b),
{
    lemma_fundamental_div_mod(a as int, b as int);
    lemma_fundamental_div_mod(c as int, b as int);
    let (q, r) = (a as int / b as int, a as int % b as int);
    let (p, s) = (c as int / b as int, c as int % b as int);
    assert(q <= p && (q == p ==> r <= s)) by (nonlinear_arith)
        requires
            a == b * q + r,
            c == b * p + s,
            a <= c,
            0 <= r < b,
            0 <= s < b,
    ;
}

/// The larger a fraction, the higher its place.
proof fn lemma_place_rises(a: nat, c: nat, b: nat, limit: nat)
    requires
        a <= c,
        b > 0,
        limit >= 2,
        limit % 2 == 0,
    ensures
        place(a, b, limit) <= place(c, b, limit),
    decreases c - b,
{
    let half = limit / 2;
    if c < limit * b {
        lemma_nearest_rises(a, c, b);
    } else {
        assert(limit * b >= 2 * b) by (nonlinear_arith)
            requires
                limit >= 2,
        ;
        if a < limit * b {
            lemma_whole_below(a, b, limit);
            assert(limit * b == half * (2 * b)) by (nonlinear_arith)
                requires
                    limit == 2 * half,
            ;
            if c < limit * (2 * b) {
                lemma_whole_below(c, 2 * b, half);
            }
            assert(place(c, 2 * b, limit) >= half);
            assert(place(a, b, limit) == nearest(a, b));
        } else {
            lemma_place_rises(a, c, 2 * b, limit);
        }
    }
}

/// The number at a place has that place.
proof fn lemma_place_of_number(x: Single)
    ensures
        place(x.units(), 1, SINGLE as nat) == x.bits,
{
    let k = x.bits as nat;
    let (limit, half) = (SINGLE as nat, SINGLE as nat / 2);
    if k >= limit {
        let j = (k / half - 1) as nat;
        let m = half + k % half;
        lemma_pow2_pos(j);
        lemma_place_undisturbed(m, j, 0, limit);
        let (q, r) = (k as int / half as int, k as int % half as int);
        lemma_fundamental_div_mod(k as int, half as int);
        assert(q >= 1) by (nonlinear_arith)
            requires
                k == half * q + r,
                k >= 2 * half,
                r < half,
        ;
        assert(j * half + m == k) by (nonlinear_arith)
            requires
                j == q - 1,
                m == half + r,
                k == half * q + r,
        ;
    } else {
        assert(nearest(k, 1) == k);
    }
}

/// Numbers are ordered as their bits are.
proof fn lemma_units_rise(x: Single, y: Single)
    requires
        x.bits <= y.bits,
    ensures
        x.units() <= y.units(),
{
    lemma_place_of_number(x);
    lemma_place_of_number(y);
    if y.units() < x.units() {
        lemma_place_rises(y.units(), x.units(), 1, SINGLE as nat);
    }
}

/// What is added to the larger number makes the larger sum.
pub proof fn lemma_sum_rises(x: Single, y: Single, z: Single)
    requires
        x.bits <= y.bits <= INFINITE,
        z.bits <= INFINITE,
    ensures
        sum(x, z).bits <= sum(y, z).bits <= INFINITE,
{
    if y.finite() && z.finite() {
        lemma_units_rise(x, y);
        lemma_place_rises(x.units() + z.units(), y.units() + z.units(), 1, SINGLE as nat);
    }
}

/// A sum is no less than its parts.
pub proof fn lemma_sum_of_parts(x: Single, y: Single)
    requires
        x.bits <= INFINITE,
        y.bits <= INFINITE,
    ensures
        x.bits <= sum(x, y).bits <= INFINITE,
{
    if x.finite() && y.finite() {
        lemma_place_of_number(x);
        lemma_place_rises(x.units(), x.units() + y.units(), 1, SINGLE as nat);
    }
}

/// The bits of one.
pub const ONE: u32 = 0x3f80_0000;

proof fn lemma_one()
    ensures
        (Single { bits: ONE }).units() == pow2(149),
{
    lemma_pow2_adds(23, 126);
    vstd::arithmetic::power2::lemma2_to64();
}

/// The lesser by the greater is at most one.
pub proof fn lemma_quotient_at_most_one(x: Single, y: Single)
    requires
        x.bits <= y.bits < INFINITE,
        y.bits > 0,
    ensures
        quotient(x, y).bits <= ONE,
{
    let (limit, half) = (SINGLE as nat, SINGLE as nat / 2);
    let (a, b, p) = (x.units(), y.units(), pow2(126));
    lemma_units_rise(x, y);
    lemma_place_of_number(y);
    lemma_pow2_adds(23, 126);
    vstd::arithmetic::power2::lemma2_to64();
    lemma_pow2_pos(126);
    assert(a * pow2(149) <= b * pow2(149)) by (nonlinear_arith)
        requires
            a <= b,
    ;
    assert(b * pow2(149) == half * (b * p)) by (nonlinear_arith)
        requires
            pow2(149) == half * p,
    ;
    assert(b * p > 0) by (nonlinear_arith)
        requires
            b > 0,
            p > 0,
    ;
    lemma_place_rises(a * pow2(149), b * pow2(149), b, limit);
    lemma_place_level(b * pow2(149), b, limit, 126);
    lemma_fundamental_div_mod_converse(b * pow2(149) as int, b * p as int, half as int, 0);
}

/// A number times at most one is at most the number.
pub proof fn lemma_product_at_most(x: Single, y: Single)
    requires
        x.bits <= ONE,
        y.finite(),
    ensures
        product(x, y).bits <= y.bits,
{
    let (a, b, p) = (x.units(), y.units(), pow2(149));
    lemma_one();
    lemma_units_rise(x, Single { bits: ONE });
    lemma_pow2_pos(149);
    assert(a * b <= b * p) by (nonlinear_arith)
        requires
            a <= p,
    ;
    lemma_place_rises(a * b, b * p, p, SINGLE as nat);
    lemma_place_scaled(b, 1, SINGLE as nat, 149);
    assert(1 * p == p);
    lemma_place_of_number(y);
}

/// Numbers are ordered as their bits are, both ways.
pub proof fn law_bits_go_up_with_numbers(x: Single, y: Single)
    ensures
        x.bits <= y.bits <==> x.units() <= y.units(),
{
    if x.bits <= y.bits {
        lemma_units_rise(x, y);
    } else {
        lemma_units_rise(y, x);
        lemma_place_of_number(x);
        lemma_place_of_number(y);
    }
}

/// Whole numbers of up to 24 binary digits are exact.
pub proof fn law_small_numbers_are_exact(n: nat)
    requires
        n < 0x100_0000,
    ensures
        single(n, 1).units() == n * pow2(149),
        single(n, 1).finite(),
        n == 1 ==> single(n, 1).bits == ONE,
{
    lemma_whole_place(n);
    lemma_exact(n);
    lemma_one();
    if n == 1 {
        lemma_place_of_number(single(1, 1));
        lemma_place_of_number(Single { bits: ONE });
    }
}

/// A number below the limit times a power of two stands at its own place.
proof fn lemma_exact(n: nat)
    requires
        n < 0x100_0000,
    ensures
        at(place(n * pow2(149), 1, SINGLE as nat), SINGLE as nat) == n * pow2(149),
{
    let limit = SINGLE as nat;
    if n == 0 {
        lemma_place_nothing(0, 1, limit);
    } else {
        lemma2_to64();
        lemma_normal(n, 149, limit, 24);
    }
}

/// A number times a power of two, with as many digits as there can be.
proof fn lemma_normal(n: nat, j: nat, limit: nat, digits: nat)
    requires
        0 < n < limit,
        j >= digits >= 2,
        limit == pow2(digits),
        limit % 2 == 0,
    ensures
        at(place(n * pow2(j), 1, limit), limit) == n * pow2(j),
{
    let half = limit / 2;
    if n >= half {
        let k = j * half + n;
        lemma_pow2_pos(j);
        lemma_place_undisturbed(n, j, 0, limit);
        assert(k as int / half as int == j + 1 && k as int % half as int == n - half) by {
            assert((j + 1) * half == j * half + half) by (nonlinear_arith);
            lemma_fundamental_div_mod_converse(k as int, half as int, (j + 1) as int, n - half);
        }
        assert(k >= limit) by (nonlinear_arith)
            requires
                k == j * half + n,
                j >= 2,
                n >= half,
                limit == 2 * half,
        ;
        assert(half + k % half == n);
    } else {
        assert(n * pow2(digits) >= limit) by (nonlinear_arith)
            requires
                n >= 1,
                pow2(digits) == limit,
        ;
        lemma_normal_doubled(n, j, digits, limit);
    }
}

/// Doubling the number and halving the power changes nothing.
proof fn lemma_normal_doubled(n: nat, j: nat, left: nat, limit: nat)
    requires
        limit % 2 == 0,
        0 < n < limit / 2,
        j >= left,
        left >= 1,
        n * pow2(left) >= limit,
    ensures
        at(place(n * pow2(j), 1, limit), limit) == n * pow2(j),
    decreases left,
{
    let half = limit / 2;
    let h = pow2((j - 1) as nat);
    lemma_pow2_unfold(j);
    lemma_pow2_unfold(left);
    assert(n * (2 * h) == (2 * n) * h) by (nonlinear_arith);
    let m = 2 * n;
    let i = (j - 1) as nat;
    if m >= half {
        let k = i * half + m;
        lemma_pow2_pos(i);
        lemma_place_undisturbed(m, i, 0, limit);
        if i == 0 {
            lemma2_to64();
            assert(m * pow2(0) == m) by (nonlinear_arith)
                requires
                    pow2(0) == 1,
            ;
            assert(0 * half == 0);
        } else {
            assert(k as int / half as int == i + 1 && k as int % half as int == m - half) by {
                assert((i + 1) * half == i * half + half) by (nonlinear_arith);
                lemma_fundamental_div_mod_converse(k as int, half as int, (i + 1) as int, m - half);
            }
            assert(k >= limit) by (nonlinear_arith)
                requires
                    k == i * half + m,
                    i >= 1,
                    m >= half,
                    limit == 2 * half,
            ;
            assert(half + k % half == m);
        }
    } else {
        let e = pow2((left - 1) as nat);
        assert(n * (2 * e) == m * e) by (nonlinear_arith)
            requires
                m == 2 * n,
        ;
        if left == 1 {
            lemma2_to64();
            assert(m * pow2(0) == m) by (nonlinear_arith)
                requires
                    pow2(0) == 1,
            ;
        }
        lemma_normal_doubled(m, i, (left - 1) as nat, limit);
    }
}

proof fn lemma_nearest_times(a: nat, b: nat, c: nat)
    requires
        b > 0,
        c > 0,
    ensures
        nearest(a * c, b * c) == nearest(a, b),
{
    let (q, r) = (a as int / b as int, a as int % b as int);
    lemma_fundamental_div_mod(a as int, b as int);
    assert(a * c == q * (b * c) + r * c && 0 <= r * c < b * c) by (nonlinear_arith)
        requires
            a == b * q + r,
            0 <= r < b,
            c > 0,
    ;
    lemma_fundamental_div_mod_converse(a * c as int, b * c as int, q, r * c);
    assert((2 * (r * c) > b * c <==> 2 * r > b) && (2 * (r * c) == b * c <==> 2 * r == b)) by (nonlinear_arith)
        requires
            c > 0,
    ;
}

/// A fraction in other terms is the same number.
pub proof fn lemma_place_times(a: nat, b: nat, limit: nat, c: nat)
    requires
        b > 0,
        c > 0,
    ensures
        place(a * c, b * c, limit) == place(a, b, limit),
    decreases a - b,
{
    assert(b * c > 0) by (nonlinear_arith)
        requires
            b > 0,
            c > 0,
    ;
    if limit >= 2 {
        assert(limit * (b * c) == (limit * b) * c) by (nonlinear_arith);
        assert(a * c < (limit * b) * c <==> a < limit * b) by (nonlinear_arith)
            requires
                c > 0,
        ;
        if a < limit * b {
            lemma_nearest_times(a, b, c);
        } else {
            assert(limit * b >= 2 * b) by (nonlinear_arith)
                requires
                    limit >= 2,
            ;
            lemma_place_times(a, 2 * b, limit, c);
            assert((2 * b) * c == 2 * (b * c)) by (nonlinear_arith);
        }
    }
}

/// A whole number of times a small number, by that number, is the whole number.
pub proof fn law_small_quotients_are_exact(n: nat, d: nat, times: nat)
    requires
        0 < d < 0x100_0000,
        times > 0,
        n * (times * d) < 0x100_0000,
    ensures
        single(single(n * (times * d), 1).units(), times * single(d, 1).units()) == single(n, 1),
{
    let (p, c) = (pow2(149), times * (d * pow2(149)));
    law_small_numbers_are_exact(n * (times * d));
    law_small_numbers_are_exact(d);
    lemma_pow2_pos(149);
    assert(c > 0) by (nonlinear_arith)
        requires
            c == times * (d * p),
            times > 0,
            d > 0,
            p > 0,
    ;
    assert(((n * (times * d)) * p) * p == (n * p) * c) by (nonlinear_arith)
        requires
            c == times * (d * p),
    ;
    assert(1 * c == c);
    lemma_place_times(n * p, 1, SINGLE as nat, c);
}

pub proof fn lemma_sum_commutes(x: Single, y: Single)
    ensures
        sum(x, y) == sum(y, x),
{
}

/// Sums of small whole numbers are exact.
pub proof fn law_small_sums_are_exact(a: nat, b: nat)
    requires
        a + b < 0x100_0000,
    ensures
        sum(single(a, 1), single(b, 1)) == single(a + b, 1),
{
    law_small_numbers_are_exact(a);
    law_small_numbers_are_exact(b);
    assert(a * pow2(149) + b * pow2(149) == (a + b) * pow2(149)) by (nonlinear_arith);
}

/// A number by itself is one.
pub proof fn law_equals_divide_to_one(x: Single)
    requires
        0 < x.bits < INFINITE,
    ensures
        quotient(x, x).bits == ONE,
{
    let b = x.units();
    lemma_place_of_number(x);
    if b == 0 {
        lemma_place_nothing(0, 1, SINGLE as nat);
    }
    let (limit, half) = (SINGLE as nat, SINGLE as nat / 2);
    let p = pow2(126);
    lemma_pow2_adds(23, 126);
    lemma2_to64();
    lemma_pow2_pos(126);
    assert(b * pow2(149) == half * (b * p)) by (nonlinear_arith)
        requires
            pow2(149) == half * p,
    ;
    assert(b * p > 0) by (nonlinear_arith)
        requires
            b > 0,
            p > 0,
    ;
    assert(half * (b * p) < limit * (b * p)) by (nonlinear_arith)
        requires
            b * p > 0,
            limit == 2 * half,
            half > 0,
    ;
    lemma_place_level(b * pow2(149), b, limit, 126);
    lemma_fundamental_div_mod_converse(b * pow2(149) as int, b * p as int, half as int, 0);
}

/// One times a number is the number.
pub proof fn law_one_times_a_number(y: Single)
    requires
        y.finite(),
    ensures
        product(Single { bits: ONE }, y) == y,
{
    let (b, p) = (y.units(), pow2(149));
    lemma_one();
    lemma_pow2_pos(149);
    assert(p * b == b * p) by (nonlinear_arith);
    lemma_place_scaled(b, 1, SINGLE as nat, 149);
    assert(1 * p == p);
    lemma_place_of_number(y);
}

/// Nothing by a number is nothing.
pub proof fn law_nothing_by_a_number(y: Single)
    requires
        0 < y.bits < INFINITE,
    ensures
        quotient(Single { bits: 0 }, y).bits == 0,
{
    let b = y.units();
    lemma_place_of_number(y);
    if b == 0 {
        lemma_place_nothing(0, 1, SINGLE as nat);
    }
    assert(0 * pow2(149) == 0) by (nonlinear_arith);
    lemma_place_nothing(0, b, SINGLE as nat);
}

/// Nothing times a number is nothing.
pub proof fn law_nothing_times_a_number(y: Single)
    requires
        y.finite(),
    ensures
        product(Single { bits: 0 }, y).bits == 0,
        (Single { bits: 0 }).rounded() == 0,
{
    lemma_pow2_pos(149);
    lemma_basic_div((0 + pow2(149)) as int, (2 * pow2(149)) as int);
    assert(0 * y.units() == 0) by (nonlinear_arith);
    lemma_place_nothing(0, pow2(149), SINGLE as nat);
}

/// A number times nothing is nothing.
pub proof fn lemma_times_nothing(x: Single)
    requires
        x.finite(),
    ensures
        product(x, Single { bits: 0 }) == (Single { bits: 0 }),
{
    lemma_pow2_pos(149);
    assert(x.units() * 0 == 0) by (nonlinear_arith);
    lemma_place_nothing(0, pow2(149), SINGLE as nat);
}

/// A number and nothing is the number.
pub proof fn lemma_sum_with_nothing(x: Single)
    requires
        x.finite(),
    ensures
        sum(x, Single { bits: 0 }) == x,
        sum(Single { bits: 0 }, x) == x,
{
    lemma_place_of_number(x);
}

/// More by the same is more.
pub proof fn lemma_quotient_rises(x: Single, y: Single, z: Single)
    requires
        x.bits <= y.bits < INFINITE,
        0 < z.bits < INFINITE,
    ensures
        quotient(x, z).bits <= quotient(y, z).bits <= INFINITE,
{
    lemma_units_rise(x, y);
    lemma_place_of_number(z);
    if z.units() == 0 {
        lemma_place_nothing(0, 1, SINGLE as nat);
    }
    let (a, b, p) = (x.units(), y.units(), pow2(149));
    assert(a * p <= b * p) by (nonlinear_arith)
        requires
            a <= b,
    ;
    lemma_place_rises(a * p, b * p, z.units(), SINGLE as nat);
}

/// More times the same is more.
pub proof fn lemma_product_rises(x: Single, y: Single, z: Single)
    requires
        x.bits <= y.bits < INFINITE,
        z.finite(),
    ensures
        product(x, z).bits <= product(y, z).bits <= INFINITE,
{
    lemma_units_rise(x, y);
    lemma_pow2_pos(149);
    let (a, b, c) = (x.units(), y.units(), z.units());
    assert(a * c <= b * c) by (nonlinear_arith)
        requires
            a <= b,
    ;
    lemma_place_rises(a * c, b * c, pow2(149), SINGLE as nat);
}

/// A number below another rounds to no more.
pub proof fn lemma_rounded_rises(x: Single, y: Single)
    requires
        x.bits <= y.bits <= INFINITE,
    ensures
        x.rounded() <= y.rounded(),
{
    lemma_units_rise(x, y);
    lemma_pow2_pos(149);
    let p = pow2(149);
    vstd::arithmetic::div_mod::lemma_div_is_ordered((2 * x.units() + p) as int, (2 * y.units() + p) as int, (2 * p) as int);
}

// --- Bit rates -----------------------------------------------------------------------------

// In double precision, in units of its smallest number: of two to the -1074.

/// The double-precision number nearest to `a / b` units.
pub open spec fn double(a: nat, b: nat) -> nat {
    at(place(a, b, DOUBLE as nat), DOUBLE as nat)
}

/// The bits of so many bytes.
pub open spec fn bits_of(len: nat) -> nat {
    double(8 * len * pow2(1074), 1)
}

/// Bits, over a thousand, over seconds.
pub open spec fn rate(len: nat, seconds: Single) -> nat {
    double(double(bits_of(len), 1000) * pow2(149), seconds.units())
}

/// Bits, over a thousand times the seconds.
pub open spec fn audio_rate(len: nat, seconds: Single) -> nat {
    double(bits_of(len) * pow2(149), 1000 * seconds.units())
}

/// The kilobits per second of so many bytes, rounded down.
pub open spec fn kbps_down(len: nat, seconds: Single) -> u32 {
    if seconds.finite() {
        in_32_bits(rate(len, seconds) / pow2(1074))
    } else {
        0
    }
}

/// The kilobits per second of so many bytes, in single precision.
pub open spec fn kbps_single(len: nat, seconds: Single) -> Single {
    if seconds.finite() {
        capped(place(rate(len, seconds), pow2(925), SINGLE as nat))
    } else {
        Single { bits: 0 }
    }
}

/// The kilobits per second of so many bytes, to the nearest, where there are at least 16.
pub open spec fn kbps_audible(len: nat, seconds: Single) -> Option<u32> {
    if seconds.finite() && audio_rate(len, seconds) >= 16 * pow2(1074) {
        Some(in_32_bits(half_up(audio_rate(len, seconds), pow2(1074))))
    } else {
        None
    }
}

/// Whole numbers of up to 53 binary digits are exact in double precision.
proof fn lemma_double_exact(n: nat, d: nat)
    requires
        n < DOUBLE,
        d > 0,
    ensures
        double((n * pow2(1074)) * d, d) == n * pow2(1074),
{
    let a = n * pow2(1074);
    assert(1 * d == d);
    lemma_place_times(a, 1, DOUBLE as nat, d);
    if n == 0 {
        assert(a == 0) by (nonlinear_arith)
            requires
                n == 0,
                a == n * pow2(1074),
        ;
        lemma_place_nothing(0, 1, DOUBLE as nat);
    } else {
        lemma2_to64();
        lemma_pow2_adds(32, 21);
        assert(pow2(32) * pow2(21) == DOUBLE);
        lemma_normal(n, 1074, DOUBLE as nat, 53);
    }
}

/// A thousand bits a second for each of so many seconds are a kilobit per second: where the bits
/// come out even, the bit rate is exact.
pub proof fn law_bit_rates_are_kilobits_per_second(n: nat, secs: nat)
    requires
        0 < secs < 0x100_0000,
        n < 0x100_0000,
        n * secs * 1000 < DOUBLE,
    ensures
        kbps_down(n * secs * 125, single(secs, 1)) == n,
        kbps_single(n * secs * 125, single(secs, 1)) == single(n, 1),
        kbps_audible(n * secs * 125, single(secs, 1)) == (if n >= 16 {
            Some(n as u32)
        } else {
            None
        }),
{
    let p = pow2(1074);
    let u = pow2(149);
    let m = n * secs;
    let len = m * 125;
    let x = single(secs, 1);
    law_small_numbers_are_exact(secs);
    lemma_pow2_pos(1074);
    lemma_pow2_pos(149);
    lemma_pow2_pos(925);
    assert(x.units() == secs * u);
    assert(bits_of(len) == (m * 1000) * p) by {
        assert(8 * len * p == (((m * 1000) * p) * 1)) by (nonlinear_arith)
            requires
                len == m * 125,
        ;
        lemma_double_exact(m * 1000, 1);
    }
    assert(double(bits_of(len), 1000) == m * p) by {
        assert((m * 1000) * p == (m * p) * 1000) by (nonlinear_arith);
        lemma_double_exact(m, 1000);
    }
    let d = secs * u;
    assert(d > 0) by (nonlinear_arith)
        requires
            d == secs * u,
            secs > 0,
            u > 0,
    ;
    assert(rate(len, x) == n * p) by {
        assert((m * p) * u == (n * p) * d) by (nonlinear_arith)
            requires
                m == n * secs,
                d == secs * u,
        ;
        lemma_double_exact(n, d);
    }
    assert((n * p) as int / p as int == n) by {
        lemma_fundamental_div_mod_converse((n * p) as int, p as int, n as int, 0);
    }
    assert(kbps_single(len, x) == single(n, 1)) by {
        lemma_pow2_adds(925, 149);
        let q = pow2(925);
        assert(n * p == (n * u) * q) by (nonlinear_arith)
            requires
                p == q * u,
        ;
        assert(1 * q == q);
        lemma_place_times(n * u, 1, SINGLE as nat, q);
    }
    assert(audio_rate(len, x) == n * p) by {
        let c = 1000 * d;
        assert(((m * 1000) * p) * u == (n * p) * c) by (nonlinear_arith)
            requires
                m == n * secs,
                d == secs * u,
                c == 1000 * d,
        ;
        lemma_double_exact(n, c);
    }
    assert(half_up(n * p, p) == n) by {
        assert(2 * (n * p) + p == n * (2 * p) + p) by (nonlinear_arith);
        lemma_fundamental_div_mod_converse((2 * (n * p) + p) as int, (2 * p) as int, n as int, p as int);
    }
    assert(n >= 16 <==> n * p >= 16 * p) by (nonlinear_arith)
        requires
            p > 0,
    ;
}

fn double_parts(num: u64, den: u64, k: i64) -> (r: (u64, u64))
    requires
        den > 0,
        -3000 <= k <= 1900,
    ensures
        r.0 * pow2(r.1 as nat) == at(
            scaled_place(num as nat, den as nat, k as int, DOUBLE as nat),
            DOUBLE as nat,
        ),
        r.0 < DOUBLE,
        r.1 <= 0x82 + (if k > 0 { k as int } else { 0 }),
{
    let p: u64 = place_of(num, den, k, DOUBLE);
    proof {
        let (h, n) = (0x10_0000_0000_0000int, 0x82 + (if k > 0 { k as int } else { 0 }));
        vstd::arithmetic::div_mod::lemma_div_is_ordered(p as int, n * h, h);
        vstd::arithmetic::div_mod::lemma_div_by_multiple(n, h);
    }
    parts(p, DOUBLE)
}

fn bit_parts(len: u64) -> (r: (u64, u64))
    ensures
        r.0 * pow2(r.1 as nat) == bits_of(len as nat),
        r.0 < DOUBLE,
        r.1 <= 1300,
{
    proof {
        lemma_pow2_adds(3, 1074);
        vstd::arithmetic::power2::lemma2_to64();
        assert(8 * len * pow2(1074) == len * (8 * pow2(1074))) by (nonlinear_arith);
    }
    double_parts(len, 1, 1077)
}

/// A rate, by the bits or kilobits, times `den` over the seconds.
fn per_second(m: u64, j: u64, den: u64, seconds: Single) -> (r: (u64, u64))
    requires
        m < DOUBLE,
        j <= 1500,
        0 < den <= 1000,
        seconds.finite(),
        seconds.bits > 0,
    ensures
        r.0 * pow2(r.1 as nat) == double((m * pow2(j as nat) * pow2(149)) as nat, den as nat * seconds.units()),
        r.0 < DOUBLE,
        r.1 <= 2000,
{
    let (n, i) = parts(seconds.bits as u64, SINGLE);
    proof {
        lemma_pow2_adds(j as nat, 149);
        let (a, b, c) = (pow2(j as nat), pow2(149), pow2(i as nat));
        assert((m * a) * b == m * (a * b)) by (nonlinear_arith);
        assert(den * (n * c) == (den * n) * c) by (nonlinear_arith);
        assert(0 < den * n <= 1000 * n) by (nonlinear_arith)
            requires
                0 < den <= 1000,
                n > 0,
        ;
        lemma_scaled_place(m as nat, (den * n) as nat, (j + 149) as nat, i as nat, DOUBLE as nat);
    }
    double_parts(m, den * n, j as i64 + 149 - i as i64)
}

fn rate_parts(len: u64, seconds: Single) -> (r: (u64, u64))
    requires
        seconds.finite(),
        seconds.bits > 0,
    ensures
        r.0 * pow2(r.1 as nat) == rate(len as nat, seconds),
        r.0 < DOUBLE,
        r.1 <= 2000,
{
    let (m, j) = bit_parts(len);
    let (n, i) = double_parts(m, 1000, j as i64);
    per_second(n, i, 1, seconds)
}

/// The kilobits per second of so many bytes, rounded down.
pub fn kbps_of(len: u64, seconds: Single) -> (r: u32)
    requires
        seconds.positive(),
    ensures
        r == kbps_down(len as nat, seconds),
{
    if !seconds.is_finite() {
        return 0;
    }
    let (m, j) = rate_parts(len, seconds);
    whole_of(m, j, 1074, false)
}

/// The kilobits per second of so many bytes, in single precision.
pub fn single_kbps_of(len: u64, seconds: Single) -> (r: Single)
    requires
        seconds.positive(),
    ensures
        r == kbps_single(len as nat, seconds),
{
    if !seconds.is_finite() {
        return Single { bits: 0 };
    }
    let (m, j) = rate_parts(len, seconds);
    proof {
        lemma_scaled_place(m as nat, 1, j as nat, 925, SINGLE as nat);
    }
    cap(place_of(m, 1, j as i64 - 925, SINGLE))
}

/// The kilobits per second of so many bytes, to the nearest, where there are at least 16.
pub fn audible_kbps_of(len: u64, seconds: Single) -> (r: Option<u32>)
    requires
        seconds.positive(),
    ensures
        r == kbps_audible(len as nat, seconds),
{
    if !seconds.is_finite() {
        return None;
    }
    let (m, j) = bit_parts(len);
    let (n, i) = per_second(m, j, 1000, seconds);
    let down: u32 = whole_of(n, i, 1074, false);
    proof {
        let (v, p) = ((n * pow2(i as nat)) as nat, pow2(1074));
        lemma_pow2_pos(1074);
        lemma_whole_below(v, p, 16);
    }
    if down >= 16 {
        Some(whole_of(n, i, 1074, true))
    } else {
        None
    }
}

} // verus!
