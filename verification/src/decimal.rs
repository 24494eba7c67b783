//! Numbers written in decimal, to the nearest in single precision.
use vstd::arithmetic::div_mod::lemma_fundamental_div_mod_converse;
use vstd::arithmetic::power2::{lemma_pow2_adds, lemma_pow2_pos, pow2};
use vstd::prelude::*;
use vstd::slice::slice_subrange;
use crate::single::{INFINITE, SINGLE, Single, capped, lemma_place_at_least, lemma_place_nothing, place, single};
use crate::text::{all_digits, ascii_lowercase, chars_of, copy_range, decimal, digit, index_of, index_or_len};
use crate::text::{is_digit, lemma_decimal_round_trip, lemma_index_or_len, lemma_number_prefix, lower_chars, number};
use crate::text::{same, unsigned_part};

verus! {

// --- Large numbers ---------------------------------------------------------------------------

/// The weight of a digit: digits go up to two to the 32.
spec fn weight(i: nat) -> nat {
    pow2(32 * i)
}

spec fn digit_at(v: Seq<u32>, i: nat) -> nat {
    if i < v.len() {
        v[i as int] as nat
    } else {
        0
    }
}

/// What the first `n` digits come to, the lowest first.
spec fn low(v: Seq<u32>, n: nat) -> nat
    decreases n,
{
    if n == 0 {
        0
    } else {
        low(v, (n - 1) as nat) + digit_at(v, (n - 1) as nat) * weight((n - 1) as nat)
    }
}

/// What all digits come to.
spec fn value(v: Seq<u32>) -> nat {
    low(v, v.len())
}

proof fn lemma_weight(i: nat)
    ensures
        weight(0) == 1,
        weight(i) > 0,
        weight(i + 1) == 0x1_0000_0000 * weight(i),
{
    vstd::arithmetic::power2::lemma2_to64();
    lemma_pow2_pos(32 * i);
    lemma_pow2_adds(32, 32 * i);
}

proof fn lemma_low_bound(v: Seq<u32>, n: nat)
    ensures
        low(v, n) < weight(n),
    decreases n,
{
    lemma_weight(0);
    if n > 0 {
        let m = (n - 1) as nat;
        lemma_low_bound(v, m);
        lemma_weight(m);
        let (d, w) = (digit_at(v, m), weight(m));
        assert(d * w + w <= 0x1_0000_0000 * w) by (nonlinear_arith)
            requires
                d <= 0xffff_ffff,
        ;
    }
}

/// Digits behind the last are zeros.
proof fn lemma_low_beyond(v: Seq<u32>, n: nat)
    requires
        n >= v.len(),
    ensures
        low(v, n) == value(v),
    decreases n,
{
    if n > v.len() {
        lemma_low_beyond(v, (n - 1) as nat);
        assert(0 * weight((n - 1) as nat) == 0);
    }
}

proof fn lemma_low_push(v: Seq<u32>, x: u32, n: nat)
    requires
        n <= v.len(),
    ensures
        low(v.push(x), n) == low(v, n),
    decreases n,
{
    if n > 0 {
        lemma_low_push(v, x, (n - 1) as nat);
    }
}

/// A number times another, and something more.
fn times(v: &[u32], m: u32, more: u32) -> (out: Vec<u32>)
    ensures
        value(out@) == value(v@) * m + more,
{
    let mut out: Vec<u32> = Vec::new();
    let mut carry: u64 = more as u64;
    let mut i: usize = 0;
    proof {
        lemma_weight(0);
        assert(0 * m == 0);
        assert(carry * weight(0) == carry);
    }
    while i < v.len()
        invariant
            i <= v@.len(),
            out@.len() == i,
            carry < 0x1_0000_0000,
            low(out@, i as nat) + carry * weight(i as nat) == low(v@, i as nat) * m + more,
        decreases v@.len() - i,
    {
        proof {
            assert(v@[i as int] * m <= 0xffff_ffff * 0xffff_ffff) by (nonlinear_arith)
                requires
                    v@[i as int] <= 0xffff_ffff,
                    m <= 0xffff_ffff,
            ;
        }
        let t: u64 = v[i] as u64 * m as u64 + carry;
        let d: u32 = (t % 0x1_0000_0000) as u32;
        let ghost was = out@;
        out.push(d);
        let next: u64 = t / 0x1_0000_0000;
        proof {
            lemma_weight(i as nat);
            lemma_low_push(was, d, i as nat);
            let (w, x) = (weight(i as nat), v@[i as int] as nat);
            assert((low(v@, i as nat) + x * w) * m == low(v@, i as nat) * m + (x * m) * w) by (nonlinear_arith);
            assert(d * w + next * (0x1_0000_0000 * w) == (d + next * 0x1_0000_0000) * w) by (nonlinear_arith);
            assert((x * m + carry) * w == (x * m) * w + carry * w) by (nonlinear_arith);
            assert(t == d + next * 0x1_0000_0000);
        }
        carry = next;
        i = i + 1;
    }
    if carry > 0 {
        let ghost was = out@;
        let d: u32 = carry as u32;
        out.push(d);
        proof {
            lemma_low_push(was, d, i as nat);
        }
    } else {
        proof {
            assert(0 * weight(i as nat) == 0);
        }
    }
    out
}

fn digit_of(v: &[u32], i: usize) -> (r: u32)
    ensures
        r == digit_at(v@, i as nat),
{
    if i < v.len() {
        v[i]
    } else {
        0
    }
}

fn less(a: &[u32], b: &[u32]) -> (r: bool)
    ensures
        r == (value(a@) < value(b@)),
{
    let mut i: usize = if a.len() < b.len() {
        b.len()
    } else {
        a.len()
    };
    proof {
        lemma_low_beyond(a@, i as nat);
        lemma_low_beyond(b@, i as nat);
    }
    while i > 0
        invariant
            (value(a@) < value(b@)) == (low(a@, i as nat) < low(b@, i as nat)),
        decreases i,
    {
        let x: u32 = digit_of(a, i - 1);
        let y: u32 = digit_of(b, i - 1);
        proof {
            let n = (i - 1) as nat;
            let w = weight(n);
            lemma_low_bound(a@, n);
            lemma_low_bound(b@, n);
            if x < y {
                assert(x * w + w <= y * w) by (nonlinear_arith)
                    requires
                        x + 1 <= y,
                ;
            }
            if y < x {
                assert(y * w + w <= x * w) by (nonlinear_arith)
                    requires
                        y + 1 <= x,
                ;
            }
        }
        if x < y {
            return true;
        }
        if y < x {
            return false;
        }
        i = i - 1;
    }
    false
}

/// The number nearest to a fraction of large numbers.
fn single_of(a: &[u32], b: &[u32]) -> (r: Single)
    requires
        value(b@) > 0,
    ensures
        r == capped(place(value(a@), value(b@), SINGLE as nat)),
{
    let ghost va = value(a@);
    let ghost goal = place(va, value(b@), SINGLE as nat);
    let mut e: Vec<u32> = times(b, 1, 0);
    let mut total: u32 = 0;
    while !less(a, &times(&e, SINGLE as u32, 0))
        invariant
            va == value(a@),
            value(e@) > 0,
            total < INFINITE,
            goal == place(va, value(b@), SINGLE as nat),
            total + place(va, value(e@), SINGLE as nat) == goal,
        decreases va - value(e@),
    {
        let ghost ve = value(e@);
        proof {
            assert(ve * SINGLE + 0 == SINGLE * ve) by (nonlinear_arith);
            assert(place(va, ve, SINGLE as nat) == 0x80_0000 + place(va, 2 * ve, SINGLE as nat));
        }
        if total >= INFINITE - 0x80_0000 {
            return Single { bits: INFINITE };
        }
        e = times(&e, 2, 0);
        proof {
            assert(value(e@) == 2 * ve);
        }
        total = total + 0x80_0000;
    }
    let ghost ve = value(e@);
    let mut q: u32 = 0;
    let mut span: u32 = SINGLE as u32;
    proof {
        assert(0 * ve == 0);
    }
    while span > 1
        invariant
            va == value(a@),
            ve == value(e@),
            1 <= span <= SINGLE,
            q + span <= SINGLE,
            q * ve <= va < (q + span) * ve,
        decreases span,
    {
        let half: u32 = span / 2;
        if less(a, &times(&e, q + half, 0)) {
            span = half;
        } else {
            q = q + half;
            span = span - half;
        }
    }
    let twice = times(a, 2, 0);
    let middle = times(&e, 2 * q + 1, 0);
    let above = less(&middle, &twice);
    let even = !above && !less(&twice, &middle);
    proof {
        let r = va - q * ve;
        assert((q + 1) * ve == q * ve + ve) by (nonlinear_arith);
        assert((2 * q + 1) * ve == 2 * (q * ve) + ve) by (nonlinear_arith);
        lemma_fundamental_div_mod_converse(va as int, ve as int, q as int, r);
        assert(va < SINGLE * ve) by (nonlinear_arith)
            requires
                va < (q + 1) * ve,
                q + 1 <= SINGLE,
        ;
    }
    let k: u32 = if above || (even && q % 2 == 1) {
        q + 1
    } else {
        q
    };
    if total as u64 + (k as u64) < INFINITE as u64 {
        Single { bits: total + k }
    } else {
        Single { bits: INFINITE }
    }
}

// --- Decimal fractions -------------------------------------------------------------------------

/// A power of ten.
pub open spec fn tens(n: nat) -> nat
    decreases n,
{
    if n == 0 {
        1
    } else {
        10 * tens((n - 1) as nat)
    }
}

/// The number nearest to `n` times ten to the `x`.
pub open spec fn decimal_single(n: nat, x: int) -> Single {
    if x >= 0 {
        single(n * tens(x as nat), 1)
    } else {
        single(n, tens((-x) as nat))
    }
}

proof fn lemma_tens_adds(a: nat, b: nat)
    ensures
        tens(a + b) == tens(a) * tens(b),
        tens(a) >= 1,
    decreases a,
{
    if a > 0 {
        lemma_tens_adds((a - 1) as nat, b);
        assert((10 * tens((a - 1) as nat)) * tens(b) == 10 * (tens((a - 1) as nat) * tens(b))) by (nonlinear_arith);
    } else {
        assert(1 * tens(b) == tens(b));
    }
}

proof fn lemma_number_below(s: Seq<char>)
    requires
        all_digits(s),
    ensures
        number(s) < tens(s.len()),
    decreases s.len(),
{
    if s.len() > 0 {
        let t = s.drop_last();
        assert(all_digits(t)) by {
            assert forall|i: int| 0 <= i < t.len() implies digit(t[i]) by {
                assert(t[i] == s[i]);
            }
        }
        lemma_number_below(t);
        assert(digit(s[s.len() - 1]));
    }
}

/// What is beyond all numbers comes to infinity.
proof fn lemma_huge(n: nat, x: int)
    requires
        n > 0,
        x > 40,
    ensures
        decimal_single(n, x) == (Single { bits: INFINITE }),
{
    let a = n * tens(x as nat);
    let p = pow2(149);
    lemma_tens_adds(41, (x - 41) as nat);
    lemma_tens_adds((x - 41) as nat, 0);
    assert(tens(41) == 100000000000000000000000000000000000000000) by {
        reveal_with_fuel(tens, 42);
    }
    assert(a >= tens(41)) by (nonlinear_arith)
        requires
            a == n * (tens(41) * tens((x - 41) as nat)),
            n >= 1,
            tens((x - 41) as nat) >= 1,
    ;
    vstd::arithmetic::power2::lemma2_to64();
    vstd::arithmetic::power2::lemma2_to64_rest();
    lemma_pow2_adds(64, 41);
    lemma_pow2_adds(105, 149);
    assert(pow2(105) <= 0x2000_0000_0000_0000_0000_0000_000) by (nonlinear_arith)
        requires
            pow2(105) == pow2(64) * pow2(41),
            pow2(64) == 0x1_0000_0000_0000_0000,
            pow2(41) == 0x200_0000_0000,
    ;
    assert(a * p >= SINGLE * (1 * pow2(254))) by (nonlinear_arith)
        requires
            pow2(254) == pow2(105) * p,
            a >= 0x100_0000 * pow2(105),
            SINGLE == 0x100_0000,
            p >= 0,
    ;
    lemma_place_at_least(a * p, 1, SINGLE as nat, 254);
}

/// Fifty-one zeros make for more than two to the 150.
proof fn lemma_fifty_one()
    ensures
        2 * pow2(149) <= tens(51),
{
    let p = pow2(149);
    assert(tens(51) == 1000000000000000000000000000000000000000000000000000) by {
        reveal_with_fuel(tens, 52);
    }
    assert(p == 713623846352979940529142984724747568191373312) by {
        vstd::arithmetic::power2::lemma2_to64();
        vstd::arithmetic::power2::lemma2_to64_rest();
        lemma_pow2_adds(64, 64);
        lemma_pow2_adds(128, 21);
        assert(p == 713623846352979940529142984724747568191373312) by (nonlinear_arith)
            requires
                p == (pow2(64) * pow2(64)) * pow2(21),
                pow2(64) == 0x1_0000_0000_0000_0000,
                pow2(21) == 0x20_0000,
        ;
    }
}

proof fn lemma_far_below(n: nat, p: nat, a: nat, b: nat, c: nat)
    requires
        n < a,
        2 * p <= b,
        b > 0,
        c >= 1,
    ensures
        2 * (n * p) < a * (b * c),
{
    assert(b <= b * c) by (nonlinear_arith)
        requires
            c >= 1,
    ;
    assert(a * b <= a * (b * c)) by (nonlinear_arith)
        requires
            b <= b * c,
    ;
    assert(n * b < a * b) by (nonlinear_arith)
        requires
            n < a,
            b > 0,
    ;
    assert(2 * (n * p) <= n * b) by (nonlinear_arith)
        requires
            2 * p <= b,
    ;
}

/// What is far below all numbers comes to zero.
proof fn lemma_tiny(n: nat, len: nat, x: int)
    requires
        n < tens(len),
        len + x < -50,
    ensures
        decimal_single(n, x) == (Single { bits: 0 }),
{
    let rest = (-x - len - 51) as nat;
    lemma_tens_adds(len, 51 + rest);
    lemma_tens_adds(51, rest);
    lemma_tens_adds(rest, 0);
    lemma_fifty_one();
    lemma_pow2_pos(149);
    lemma_far_below(n, pow2(149), tens(len), tens(51), tens(rest));
    lemma_place_nothing(n * pow2(149), tens((-x) as nat), SINGLE as nat);
}

/// The digits as a large number.
fn large(digits: &[char]) -> (r: Vec<u32>)
    requires
        all_digits(digits@),
    ensures
        value(r@) == number(digits@),
{
    let mut r: Vec<u32> = Vec::new();
    let mut i: usize = 0;
    while i < digits.len()
        invariant
            i <= digits@.len(),
            all_digits(digits@),
            value(r@) == number(digits@.take(i as int)),
        decreases digits@.len() - i,
    {
        proof {
            assert(digits@.take(i + 1).drop_last() =~= digits@.take(i as int));
            assert(digit(digits@[i as int]));
        }
        r = times(&r, 10, digits[i] as u32 - 0x30);
        i = i + 1;
    }
    proof {
        assert(digits@.take(i as int) =~= digits@);
    }
    r
}

/// A number with so many zeros behind it.
fn with_zeros(v: &[u32], n: u128) -> (r: Vec<u32>)
    ensures
        value(r@) == value(v@) * tens(n as nat),
{
    let mut r: Vec<u32> = times(v, 1, 0);
    let mut i: u128 = 0;
    proof {
        assert(value(v@) * tens(0) == value(v@)) by (nonlinear_arith)
            requires
                tens(0) == 1,
        ;
    }
    while i < n
        invariant
            i <= n,
            value(r@) == value(v@) * tens(i as nat),
        decreases n - i,
    {
        proof {
            let (a, t) = (value(v@), tens(i as nat));
            assert(tens((i + 1) as nat) == 10 * t);
            assert(a * (10 * t) == (a * t) * 10) by (nonlinear_arith);
        }
        r = times(&r, 10, 0);
        i = i + 1;
    }
    r
}

/// A number in units of single precision.
fn in_units(v: &[u32]) -> (r: Vec<u32>)
    ensures
        value(r@) == value(v@) * pow2(149),
{
    let a = times(v, 0x8000_0000, 0);
    let a = times(&a, 0x8000_0000, 0);
    let a = times(&a, 0x8000_0000, 0);
    let a = times(&a, 0x8000_0000, 0);
    let r = times(&a, 0x200_0000, 0);
    proof {
        vstd::arithmetic::power2::lemma2_to64();
        lemma_pow2_adds(31, 31);
        lemma_pow2_adds(62, 62);
        lemma_pow2_adds(124, 25);
        let (n, p, q) = (value(v@), pow2(31), pow2(25));
        assert(((((n * p) * p) * p) * p) * q == n * (((p * p) * (p * p)) * q)) by (nonlinear_arith);
    }
    r
}

/// The number nearest to what the digits come to, times ten to the exponent `written`, of which
/// `x` is as much as matters.
fn read_digits(digits: &[char], x: i128, Ghost(written): Ghost<int>) -> (r: Single)
    requires
        digits@.len() > 0,
        all_digits(digits@),
        x == written || (x > 40 && written > 40) || (digits@.len() + x < -50 && digits@.len() + written < -50),
        -0x20_0000_0000_0000_0000 < x < 0x20_0000_0000_0000_0000,
    ensures
        r == decimal_single(number(digits@), written),
{
    let ghost n = number(digits@);
    let mut i: usize = 0;
    while i < digits.len() && digits[i] == '0'
        invariant
            i <= digits@.len(),
            number(digits@.take(i as int)) == 0,
        decreases digits@.len() - i,
    {
        proof {
            assert(digits@.take(i + 1).drop_last() =~= digits@.take(i as int));
        }
        i = i + 1;
    }
    if i >= digits.len() {
        proof {
            assert(digits@.take(i as int) =~= digits@);
            lemma_zero(written);
        }
        return Single { bits: 0 };
    }
    proof {
        assert(digits@.take(i + 1).drop_last() =~= digits@.take(i as int));
        assert(digit(digits@[i as int]));
        assert(number(digits@.take(i + 1)) > 0);
        lemma_number_prefix(digits@, i + 1);
        lemma_number_below(digits@);
    }
    if x > 40 {
        proof {
            lemma_huge(n, written);
        }
        return Single { bits: INFINITE };
    }
    if digits.len() as i128 + x < -50 {
        proof {
            lemma_tiny(n, digits@.len(), written);
        }
        return Single { bits: 0 };
    }
    let one: Vec<u32> = vec![1];
    proof {
        lemma_one(one@);
    }
    let v = large(digits);
    if x >= 0 {
        let a = in_units(&with_zeros(&v, x as u128));
        single_of(&a, &one)
    } else {
        let b = with_zeros(&one, (-x) as u128);
        proof {
            lemma_tens_adds((-x) as nat, 0);
            assert(1 * tens((-x) as nat) == tens((-x) as nat));
        }
        single_of(&in_units(&v), &b)
    }
}

proof fn lemma_one(v: Seq<u32>)
    requires
        v.len() == 1,
        v[0] == 1,
    ensures
        value(v) == 1,
{
    lemma_weight(0);
    reveal_with_fuel(low, 2);
    assert(1 * weight(0) == 1);
}

proof fn lemma_zero(x: int)
    ensures
        decimal_single(0, x) == (Single { bits: 0 }),
{
    let p = pow2(149);
    assert(0 * p == 0);
    if x >= 0 {
        assert(0 * tens(x as nat) == 0);
        lemma_place_nothing(0, 1, SINGLE as nat);
    } else {
        lemma_tens_adds((-x) as nat, 0);
        lemma_place_nothing(0, tens((-x) as nat), SINGLE as nat);
    }
}

// --- Texts -------------------------------------------------------------------------------------

/// Where the exponent of a number in scientific notation is announced, or the length.
pub open spec fn exponent_at(s: Seq<char>) -> int {
    let i = index_or_len(s, 'e');
    let j = index_or_len(s, 'E');
    if i < j {
        i
    } else {
        j
    }
}

/// The exponent that is written: digits, with or without a sign.
pub open spec fn exponent(s: Seq<char>) -> Option<int> {
    let signed = s.len() > 0 && (s[0] == '+' || s[0] == '-');
    let d = if signed {
        s.skip(1)
    } else {
        s
    };
    if d.len() == 0 || !all_digits(d) {
        None
    } else if signed && s[0] == '-' {
        Some(-(number(d) as int))
    } else {
        Some(number(d) as int)
    }
}

/// The digits of a number, without its point, and how many of them stand behind it.
pub open spec fn without_point(s: Seq<char>) -> (Seq<char>, int) {
    let i = index_or_len(s, '.');
    if i < s.len() {
        (s.take(i) + s.skip(i + 1), s.len() - i - 1)
    } else {
        (s, 0)
    }
}

/// The number nearest to a number times a power of ten.
pub open spec fn mantissa_single(mantissa: Seq<char>, exp: int) -> Option<Single> {
    let (digits, behind) = without_point(mantissa);
    if digits.len() > 0 && all_digits(digits) {
        Some(decimal_single(number(digits), exp - behind))
    } else {
        None
    }
}

/// The word for infinity, short or long, in whatever case.
pub open spec fn infinity_word(s: Seq<char>) -> bool {
    ascii_lowercase(s) == "inf"@ || ascii_lowercase(s) == "infinity"@
}

/// The number that a text stands for, as `str::parse::<f32>` reads it: written with a point, an
/// exponent, both or neither. None where it is no number, or one with a minus.
pub open spec fn parse_single(s: Seq<char>) -> Option<Single> {
    let d = unsigned_part(s);
    let e = exponent_at(d);
    if infinity_word(d) {
        Some(Single { bits: INFINITE })
    } else if e < d.len() {
        match exponent(d.skip(e + 1)) {
            Some(x) => mantissa_single(d.take(e), x),
            None => None,
        }
    } else {
        mantissa_single(d, 0)
    }
}

fn digits_only(s: &[char]) -> (r: bool)
    ensures
        r == all_digits(s@),
{
    let mut i: usize = 0;
    while i < s.len()
        invariant
            i <= s@.len(),
            forall|j: int| 0 <= j < i ==> digit(s@[j]),
        decreases s@.len() - i,
    {
        if !is_digit(s[i]) {
            return false;
        }
        i = i + 1;
    }
    true
}

/// Exponents matter up to here.
const FAR: i128 = 0x10_0000_0000_0000_0000;

/// What the digits come to, as far as it matters.
fn read_far(d: &[char]) -> (r: i128)
    requires
        all_digits(d@),
    ensures
        r == if number(d@) <= FAR {
            number(d@) as int
        } else {
            FAR as int
        },
{
    let mut v: i128 = 0;
    let mut i: usize = 0;
    while i < d.len()
        invariant
            i <= d@.len(),
            all_digits(d@),
            0 <= v <= 10 * FAR + 10,
            v == number(d@.take(i as int)) || (v >= FAR && number(d@.take(i as int)) >= FAR),
        decreases d@.len() - i,
    {
        proof {
            assert(d@.take(i + 1).drop_last() =~= d@.take(i as int));
            assert(digit(d@[i as int]));
        }
        if v < FAR {
            v = v * 10 + (d[i] as u32 - 0x30) as i128;
        }
        i = i + 1;
    }
    proof {
        assert(d@.take(i as int) =~= d@);
    }
    if v <= FAR {
        v
    } else {
        FAR
    }
}

/// The exponent that is written, as far as it matters.
fn read_exponent(s: &[char]) -> (r: Option<i128>)
    ensures
        match r {
            Some(x) => match exponent(s@) {
                Some(y) => if -FAR <= y <= FAR {
                    x == y
                } else if y > 0 {
                    x == FAR
                } else {
                    x == -FAR
                },
                None => false,
            },
            None => exponent(s@) is None,
        },
{
    let signed = s.len() > 0 && (s[0] == '+' || s[0] == '-');
    let d = if signed {
        slice_subrange(s, 1, s.len())
    } else {
        s
    };
    proof {
        if signed {
            assert(d@ =~= s@.skip(1));
        }
    }
    if d.len() == 0 || !digits_only(d) {
        return None;
    }
    let n: i128 = read_far(d);
    if signed && s[0] == '-' {
        Some(-n)
    } else {
        Some(n)
    }
}

fn take_point_out(s: &[char]) -> (r: (Vec<char>, usize))
    ensures
        (r.0@, r.1 as int) == without_point(s@),
        r.1 <= r.0@.len(),
{
    proof {
        assert(s@.skip(0) =~= s@);
        lemma_index_or_len(s@, '.');
    }
    let i = index_of(s, '.', 0);
    let mut digits = copy_range(s, 0, i);
    if i >= s.len() {
        proof {
            assert(digits@ =~= s@);
        }
        return (digits, 0);
    }
    let mut rest = copy_range(s, i + 1, s.len());
    let ghost was = digits@;
    proof {
        assert(was =~= s@.take(i as int));
        assert(rest@ =~= s@.skip(i + 1));
    }
    digits.append(&mut rest);
    proof {
        assert(digits@ =~= s@.take(i as int) + s@.skip(i + 1));
    }
    (digits, s.len() - i - 1)
}

/// The number for an exponent of which `exp` is as much as matters.
fn read_mantissa(mantissa: &[char], exp: i128, Ghost(written): Ghost<int>) -> (r: Option<Single>)
    requires
        -FAR <= exp <= FAR,
        exp == written || (exp == FAR && written > FAR) || (exp == -FAR && written < -FAR),
    ensures
        r == mantissa_single(mantissa@, written),
{
    let (digits, behind) = take_point_out(mantissa);
    if digits.len() == 0 || !digits_only(&digits) {
        return None;
    }
    Some(read_digits(&digits, exp - behind as i128, Ghost(written - behind)))
}

fn is_infinity(s: &[char]) -> (r: bool)
    ensures
        r == infinity_word(s@),
{
    let lower = lower_chars(s);
    same(&lower, &chars_of("inf")) || same(&lower, &chars_of("infinity"))
}

/// The number that a text stands for, where it is one without a minus.
pub fn read_single(s: &[char]) -> (r: Option<Single>)
    ensures
        r == parse_single(s@),
{
    let from: usize = if s.len() > 0 && s[0] == '+' {
        1
    } else {
        0
    };
    let d = slice_subrange(s, from, s.len());
    proof {
        assert(d@ =~= unsigned_part(s@));
        assert(d@.skip(0) =~= d@);
    }
    if is_infinity(d) {
        return Some(Single { bits: INFINITE });
    }
    let small = index_of(d, 'e', 0);
    let large = index_of(d, 'E', 0);
    let e: usize = if small < large {
        small
    } else {
        large
    };
    if e >= d.len() {
        return read_mantissa(d, 0, Ghost(0));
    }
    let mantissa = slice_subrange(d, 0, e);
    let tail = slice_subrange(d, e + 1, d.len());
    proof {
        assert(mantissa@ =~= d@.take(e as int));
        assert(tail@ =~= d@.skip(e + 1));
    }
    match read_exponent(tail) {
        Some(x) => read_mantissa(mantissa, x, Ghost(exponent(tail@)->0)),
        None => None,
    }
}

/// A whole number is read as it is written.
pub proof fn law_whole_numbers_are_read(n: nat)
    ensures
        parse_single(decimal(n)) == Some(single(n, 1)),
{
    lemma_decimal_round_trip(n);
    let d = decimal(n);
    lemma_plain_digits(d);
    assert(n * tens(0) == n) by (nonlinear_arith)
        requires
            tens(0) == 1,
    ;
}

proof fn lemma_plain_digits(d: Seq<char>)
    requires
        d.len() > 0,
        all_digits(d),
    ensures
        unsigned_part(d) == d,
        exponent_at(d) == d.len(),
        index_or_len(d, '.') == d.len(),
        !infinity_word(d),
{
    lemma_index_or_len(d, 'e');
    lemma_index_or_len(d, 'E');
    lemma_index_or_len(d, '.');
    assert(digit(d[0]));
    if index_or_len(d, 'e') < d.len() {
        assert(digit(d[index_or_len(d, 'e')]));
    }
    if index_or_len(d, 'E') < d.len() {
        assert(digit(d[index_or_len(d, 'E')]));
    }
    if index_or_len(d, '.') < d.len() {
        assert(digit(d[index_or_len(d, '.')]));
    }
    reveal_strlit("inf");
    reveal_strlit("infinity");
    assert(ascii_lowercase(d)[0] == d[0]);
    assert("inf"@[0] == 'i' && "infinity"@[0] == 'i');
}

/// A number with a point is so many of the parts that its last digit counts: of digits `a` before the
/// point and `b` behind it, what all of them stand for, over ten for each behind it.
pub proof fn law_numbers_with_a_point_are_read(a: Seq<char>, b: Seq<char>)
    requires
        all_digits(a),
        all_digits(b),
        a.len() > 0,
        b.len() > 0,
    ensures
        parse_single(a + seq!['.'] + b) == Some(single(number(a + b), tens(b.len()))),
{
    let s = a + seq!['.'] + b;
    lemma_index_or_len(s, 'e');
    lemma_index_or_len(s, 'E');
    lemma_index_or_len(s, '.');
    let p = index_or_len(s, '.');
    assert(s[a.len() as int] == '.');
    assert forall|i: int| 0 <= i < s.len() implies #[trigger] s[i] == '.' || digit(s[i]) by {
        if i < a.len() {
            assert(digit(a[i]));
        } else if i > a.len() {
            assert(digit(b[i - a.len() - 1]));
        }
    }
    if index_or_len(s, 'e') < s.len() {
        assert(s[index_or_len(s, 'e')] == 'e');
    }
    if index_or_len(s, 'E') < s.len() {
        assert(s[index_or_len(s, 'E')] == 'E');
    }
    if p < a.len() {
        assert(digit(a[p]));
    }
    assert(p == a.len());
    assert(s.take(p) + s.skip(p + 1) =~= a + b);
    assert(digit(a[0]) && s[0] == a[0]);
    reveal_strlit("inf");
    reveal_strlit("infinity");
    assert(ascii_lowercase(s)[0] == s[0]);
    assert("inf"@[0] == 'i' && "infinity"@[0] == 'i');
    assert(all_digits(a + b));
}

} // verus!
