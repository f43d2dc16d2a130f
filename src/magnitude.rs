// Magnitudes: rational values with units, numerals with SI prefixes, unit
// compatibility, and how a magnitude is shown.

use vstd::prelude::*;

use crate::error::Error;
use crate::text::{chars_of, decimal, digit_char, push_decimal, string_of};
use vstd::string::StringExecFns;

verus! {

/// Largest numerator or denominator that a magnitude holds.
pub const MAX_PART: u64 = 0x7fff_ffff_ffff_ffff;

/// Greatest common divisor, by Euclid's algorithm.
pub open spec fn gcd(a: nat, b: nat) -> nat
    decreases b,
{
    if b == 0 {
        a
    } else {
        gcd(b, a % b)
    }
}

pub proof fn lemma_gcd_pos(a: nat, b: nat)
    requires
        b > 0,
    ensures
        gcd(a, b) > 0,
    decreases b,
{
    if a % b != 0 {
        lemma_gcd_pos(b, a % b);
    } else {
        assert(gcd(b, 0) == b);
    }
}

pub open spec fn abs(n: int) -> nat {
    if n < 0 {
        (-n) as nat
    } else {
        n as nat
    }
}

/// A rational value `numer() / den` with a unit.
///
/// The unit is a symbol (`"V"`, `"ohm"`), empty for a dimensionless value, or
/// `"¿?"` for a unit that is not constrained yet.
#[derive(Debug, Clone)]
pub struct Magnitude {
    pub negative: bool,
    pub num: u64,
    pub den: u64,
    pub unit: String,
}

/// What a magnitude stands for: a sign, a numerator, a denominator, a unit.
pub struct MagnitudeView {
    pub negative: bool,
    pub num: nat,
    pub den: nat,
    pub unit: Seq<char>,
}

impl MagnitudeView {
    /// The signed numerator.
    pub open spec fn numer(self) -> int {
        if self.negative {
            -(self.num as int)
        } else {
            self.num as int
        }
    }

    pub open spec fn wf(self) -> bool {
        &&& 0 < self.den <= MAX_PART
        &&& self.num <= MAX_PART
        &&& (self.num == 0 ==> !self.negative)
    }
}

impl View for Magnitude {
    type V = MagnitudeView;

    open spec fn view(&self) -> MagnitudeView {
        MagnitudeView {
            negative: self.negative,
            num: self.num as nat,
            den: self.den as nat,
            unit: self.unit@,
        }
    }
}

impl Magnitude {
    pub open spec fn wf(self) -> bool {
        self@.wf()
    }
}

/// The view of a result that holds a magnitude.
pub open spec fn view_of(r: Result<Magnitude, Error>) -> Result<MagnitudeView, Error> {
    match r {
        Ok(m) => Ok(m@),
        Err(e) => Err(e),
    }
}

/// `n / d` in lowest terms has a numerator and a denominator that fit.
pub open spec fn fits(n: int, d: int) -> bool {
    let g = gcd(abs(n), d as nat) as int;
    abs(n) as int / g <= MAX_PART && d / g <= MAX_PART
}

/// The magnitude `n / d` in lowest terms, when both parts fit.
pub open spec fn reduced(n: int, d: int, unit: Seq<char>) -> Result<MagnitudeView, Error> {
    let a = abs(n) as int;
    let g = gcd(abs(n), d as nat) as int;
    if !fits(n, d) {
        Err(Error::Overflow)
    } else {
        Ok(MagnitudeView { negative: n < 0, num: (a / g) as nat, den: (d / g) as nat, unit })
    }
}

pub open spec fn sum_of(a: MagnitudeView, b: MagnitudeView, unit: Seq<char>) -> Result<MagnitudeView, Error> {
    reduced(a.numer() * b.den + b.numer() * a.den, (a.den * b.den) as int, unit)
}

pub open spec fn product_of(a: MagnitudeView, b: MagnitudeView, unit: Seq<char>) -> Result<MagnitudeView, Error> {
    reduced(a.numer() * b.numer(), (a.den * b.den) as int, unit)
}

pub open spec fn quotient_of(a: MagnitudeView, b: MagnitudeView, unit: Seq<char>) -> Result<MagnitudeView, Error> {
    if b.num == 0 {
        Err(Error::DivisionByZero)
    } else if b.negative {
        reduced(-(a.numer() * b.den), (a.den * b.num) as int, unit)
    } else {
        reduced(a.numer() * b.den, (a.den * b.num) as int, unit)
    }
}

pub open spec fn negation_of(a: MagnitudeView) -> MagnitudeView {
    MagnitudeView { negative: a.num != 0 && !a.negative, ..a }
}

/// `a.numer() * b.den - b.numer() * a.den`: its sign orders `a` and `b`.
pub open spec fn cross_diff(a: MagnitudeView, b: MagnitudeView) -> int {
    a.numer() * b.den - b.numer() * a.den
}

/// The two values differ by at most `1 / 100000`.
pub open spec fn close(a: MagnitudeView, b: MagnitudeView) -> bool {
    abs(cross_diff(a, b)) * 100000 <= a.den * b.den
}

proof fn lemma_part_products(a: Magnitude, b: Magnitude)
    requires
        a.wf(),
        b.wf(),
    ensures
        a.num * b.den <= 0x3fff_ffff_ffff_ffff_0000_0000_0000_0001,
        b.num * a.den <= 0x3fff_ffff_ffff_ffff_0000_0000_0000_0001,
        a.num * b.num <= 0x3fff_ffff_ffff_ffff_0000_0000_0000_0001,
        a.den * b.den <= 0x3fff_ffff_ffff_ffff_0000_0000_0000_0001,
        a.den * b.den > 0,
        a.den * b.num >= 0,
        a.num * b.den >= 0,
        b.num * a.den >= 0,
{
    lemma_mul_bound(a.num as int, b.den as int);
    lemma_mul_bound(b.num as int, a.den as int);
    lemma_mul_bound(a.num as int, b.num as int);
    lemma_mul_bound(a.den as int, b.den as int);
    lemma_mul_bound(a.den as int, b.num as int);
}

proof fn lemma_mul_bound(x: int, y: int)
    requires
        0 <= x <= MAX_PART,
        0 <= y <= MAX_PART,
    ensures
        0 <= x * y <= 0x3fff_ffff_ffff_ffff_0000_0000_0000_0001,
        x > 0 && y > 0 ==> x * y > 0,
{
    assert(0 <= x * y <= 0x7fff_ffff_ffff_ffff * 0x7fff_ffff_ffff_ffff) by (nonlinear_arith)
        requires
            0 <= x <= 0x7fff_ffff_ffff_ffff,
            0 <= y <= 0x7fff_ffff_ffff_ffff,
    ;
    assert(x > 0 && y > 0 ==> x * y > 0) by (nonlinear_arith);
}

/// Euclid's algorithm on machine words.
fn gcd_u128(a: u128, b: u128) -> (g: u128)
    ensures
        g == gcd(a as nat, b as nat),
{
    let mut x: u128 = a;
    let mut y: u128 = b;
    while y != 0
        invariant
            gcd(x as nat, y as nat) == gcd(a as nat, b as nat),
        decreases y,
    {
        let r = x % y;
        x = y;
        y = r;
    }
    x
}

/// Builds `(-1)^negative * a / d` in lowest terms.
fn make(negative: bool, a: u128, d: u128, unit: String) -> (r: Result<Magnitude, Error>)
    requires
        d > 0,
    ensures
        view_of(r) == reduced(if negative { -(a as int) } else { a as int }, d as int, unit@),
        r is Ok ==> r->Ok_0.wf(),
{
    let g = gcd_u128(a, d);
    proof {
        lemma_gcd_pos(a as nat, d as nat);
    }
    let n = a / g;
    let q = d / g;
    proof {
        let s: int = if negative { -(a as int) } else { a as int };
        assert(abs(s) == a as nat);
        assert(q > 0) by {
            assert(gcd(a as nat, d as nat) <= d) by {
                lemma_gcd_le(a as nat, d as nat);
            }
            vstd::arithmetic::div_mod::lemma_div_non_zero(d as int, g as int);
        }
        if a != 0 {
            lemma_gcd_le_left(a as nat, d as nat);
            vstd::arithmetic::div_mod::lemma_div_non_zero(a as int, g as int);
        }
    }
    if n > MAX_PART as u128 || q > MAX_PART as u128 {
        Err(Error::Overflow)
    } else {
        Ok(Magnitude { negative: negative && a != 0, num: n as u64, den: q as u64, unit })
    }
}

pub proof fn lemma_gcd_le(a: nat, b: nat)
    requires
        b > 0,
    ensures
        gcd(a, b) <= b,
    decreases b,
{
    if a % b != 0 {
        lemma_gcd_le(b, a % b);
    } else {
        assert(gcd(b, 0) == b);
    }
}

pub proof fn lemma_gcd_le_left(a: nat, b: nat)
    requires
        a > 0,
        b > 0,
    ensures
        gcd(a, b) <= a,
{
    if b <= a {
        lemma_gcd_le(a, b);
    } else {
        assert(a % b == a) by {
            vstd::arithmetic::div_mod::lemma_small_mod(a, b);
        }
        lemma_gcd_le(b, a);
    }
}


/// Floor of the square root, by halving.
pub open spec fn isqrt(x: nat) -> nat
    decreases x,
{
    if x == 0 {
        0
    } else {
        let r = 2 * isqrt(x / 4);
        if (r + 1) * (r + 1) <= x {
            r + 1
        } else {
            r
        }
    }
}

pub proof fn lemma_isqrt(x: nat)
    ensures
        isqrt(x) * isqrt(x) <= x < (isqrt(x) + 1) * (isqrt(x) + 1),
    decreases x,
{
    if x > 0 {
        let q = x / 4;
        lemma_isqrt(q);
        let r0 = isqrt(q);
        let r = 2 * r0;
        assert(r * r <= x && x < (r + 2) * (r + 2)) by (nonlinear_arith)
            requires
                r0 * r0 <= q < (r0 + 1) * (r0 + 1),
                r == 2 * r0,
                q == x / 4,
                x >= 0,
        ;
        if (r + 1) * (r + 1) <= x {
            assert(isqrt(x) == r + 1);
            assert((isqrt(x) + 1) * (isqrt(x) + 1) == (r + 2) * (r + 2));
            assert(isqrt(x) * isqrt(x) == (r + 1) * (r + 1));
            assert(isqrt(x) * isqrt(x) <= x);
            assert(x < (isqrt(x) + 1) * (isqrt(x) + 1));
        } else {
            assert(isqrt(x) == r);
            assert(isqrt(x) * isqrt(x) == r * r);
            assert((isqrt(x) + 1) * (isqrt(x) + 1) == (r + 1) * (r + 1));
            assert(isqrt(x) * isqrt(x) <= x);
            assert(x < (isqrt(x) + 1) * (isqrt(x) + 1));
        }
    } else {
        assert(isqrt(x) == 0);
        assert((isqrt(x) + 1) * (isqrt(x) + 1) == 1) by (nonlinear_arith)
            requires
                isqrt(x) == 0,
        ;
    }
}

pub open spec fn pow2(n: nat) -> nat
    decreases n,
{
    if n == 0 {
        1
    } else {
        2 * pow2((n - 1) as nat)
    }
}

/// The bound below which a scaled value is kept when its root is taken.
pub const ROOT_RANGE: u128 = 0x1000_0000_0000_0000_0000_0000_0000_0000;

/// `num * 2^j / den`, rounded down.
pub open spec fn scaled_quotient(num: nat, den: nat, j: nat) -> nat {
    (num * pow2(j) / den) as nat
}

/// The largest `k <= top` for which `num * 4^k / den` stays below
/// `ROOT_RANGE`, or 0.
pub open spec fn root_scale(num: nat, den: nat, top: nat) -> nat
    decreases top,
{
    if top == 0 || scaled_quotient(num, den, 2 * top) < ROOT_RANGE {
        top
    } else {
        root_scale(num, den, (top - 1) as nat)
    }
}

/// The square root of a value `v = num / den`, as `isqrt(v * 4^k) / 2^k` with
/// the largest scale `k <= 62` that keeps `v * 4^k` below `2^124`: its
/// numerator then has at least 31 bits whenever `v > 0`, so the error is
/// below `2^-30` of the root.
pub open spec fn root_of(a: MagnitudeView, unit: Seq<char>) -> Result<MagnitudeView, Error> {
    if a.negative {
        Err(Error::NegativeRoot)
    } else {
        let k = root_scale(a.num, a.den, 62);
        reduced(isqrt(scaled_quotient(a.num, a.den, 2 * k)) as int, pow2(k) as int, unit)
    }
}

proof fn lemma_scaled_step(num: nat, den: nat, j: nat, y: nat, r: nat)
    requires
        den > 0,
        y * den + r == num * pow2(j),
        r < den,
    ensures
        y == scaled_quotient(num, den, j),
{
    vstd::arithmetic::div_mod::lemma_fundamental_div_mod_converse_div((num * pow2(j)) as int, den as int, y as int, r as int);
}

proof fn lemma_scaled_monotone(num: nat, den: nat, i: nat, j: nat)
    requires
        den > 0,
        i <= j,
    ensures
        scaled_quotient(num, den, i) <= scaled_quotient(num, den, j),
    decreases j - i,
{
    if i < j {
        lemma_scaled_monotone(num, den, i, (j - 1) as nat);
        let x = num * pow2((j - 1) as nat);
        assert(num * pow2(j) == 2 * x) by (nonlinear_arith)
            requires x == num * pow2((j - 1) as nat), pow2(j) == 2 * pow2((j - 1) as nat);
        vstd::arithmetic::div_mod::lemma_div_is_ordered(x as int, 2 * x as int, den as int);
    }
}

/// `root_scale` finds `k0` when `k0` keeps the value in range and no larger
/// scale up to `top` does.
proof fn lemma_root_scale(num: nat, den: nat, top: nat, k0: nat)
    requires
        k0 <= top,
        scaled_quotient(num, den, 2 * k0) < ROOT_RANGE,
        forall|k: nat| k0 < k <= top ==> #[trigger] scaled_quotient(num, den, 2 * k) >= ROOT_RANGE,
    ensures
        root_scale(num, den, top) == k0,
    decreases top,
{
    if top > k0 {
        assert(scaled_quotient(num, den, 2 * top) >= ROOT_RANGE);
        lemma_root_scale(num, den, (top - 1) as nat, k0);
    }
}

proof fn lemma_pow2_62()
    ensures
        pow2(62) == 0x4000_0000_0000_0000,
        forall|k: nat| k <= 62 ==> 1 <= #[trigger] pow2(k) <= 0x4000_0000_0000_0000,
{
    reveal_with_fuel(pow2, 17);
    assert(pow2(16) == 0x1_0000);
    lemma_pow2_add(16, 15);
    reveal_with_fuel(pow2, 16);
    assert(pow2(15) == 0x8000);
    assert(pow2(31) == 0x8000_0000) by (nonlinear_arith)
        requires pow2(31) == pow2(16) * pow2(15), pow2(16) == 0x1_0000, pow2(15) == 0x8000;
    lemma_pow2_add(31, 31);
    assert(pow2(62) == 0x4000_0000_0000_0000) by (nonlinear_arith)
        requires pow2(62) == pow2(31) * pow2(31), pow2(31) == 0x8000_0000;
    assert forall|k: nat| k <= 62 implies 1 <= #[trigger] pow2(k) <= 0x4000_0000_0000_0000 by {
        lemma_pow2_mono(k, 62);
    }
}

proof fn lemma_pow2_mono(a: nat, b: nat)
    requires
        a <= b,
    ensures
        1 <= pow2(a) <= pow2(b),
    decreases b,
{
    if b > a {
        lemma_pow2_mono(a, (b - 1) as nat);
    } else if a > 0 {
        lemma_pow2_mono((a - 1) as nat, (a - 1) as nat);
    }
}

fn isqrt_u128(x: u128) -> (r: u128)
    ensures
        r == isqrt(x as nat),
    decreases x,
{
    if x == 0 {
        0
    } else {
        let r0 = isqrt_u128(x / 4);
        proof {
            lemma_isqrt((x / 4) as nat);
            assert(r0 * r0 <= x / 4);
            assert(r0 < 0x1_0000_0000_0000_0000) by (nonlinear_arith)
                requires
                    r0 * r0 <= x / 4,
                    x < 0x1_0000_0000_0000_0000_0000_0000_0000_0000,
            ;
        }
        let r = 2 * r0;
        if (r + 1) <= x / (r + 1) {
            proof {
                let (xi, ri) = (x as int, (r + 1) as int);
                assert(ri * ri <= xi) by (nonlinear_arith)
                    requires
                        ri <= xi / ri,
                        ri > 0,
                ;
            }
            r + 1
        } else {
            proof {
                let (xi, ri) = (x as int, (r + 1) as int);
                assert(ri * ri > xi) by (nonlinear_arith)
                    requires
                        ri > xi / ri,
                        ri > 0,
                        xi >= 0,
                ;
            }
            r
        }
    }
}

impl Magnitude {
    /// The signed numerator times `d`, as a sign and a size.
    fn scaled(&self, d: u64) -> (r: (bool, u128))
        requires
            self.wf(),
            0 < d <= MAX_PART,
        ensures
            r.1 <= 0x3fff_ffff_ffff_ffff_0000_0000_0000_0001,
            (if r.0 { -(r.1 as int) } else { r.1 as int }) == self@.numer() * d,
            r.1 == 0 ==> !r.0,
    {
        proof {
            lemma_mul_bound(self.num as int, d as int);
        }
        let p = self.num as u128 * d as u128;
        proof {
            if self.negative {
                let (n, m, k) = (self@.numer(), self.num as int, d as int);
                assert(n * k == -(m * k)) by (nonlinear_arith)
                    requires
                        n == -m,
                ;
            }
        }
        (self.negative && p != 0, p)
    }

    /// `self + b`, with the given unit.
    pub fn add_value(&self, b: &Magnitude, unit: String) -> (r: Result<Magnitude, Error>)
        requires
            self.wf(),
            b.wf(),
        ensures
            view_of(r) == sum_of(self@, b@, unit@),
            r is Ok ==> r->Ok_0.wf(),
    {
        let (sp, p) = self.scaled(b.den);
        let (sq, q) = b.scaled(self.den);
        proof {
            lemma_mul_bound(self.den as int, b.den as int);
        }
        let d = self.den as u128 * b.den as u128;
        if sp == sq {
            make(sp, p + q, d, unit)
        } else if p >= q {
            make(sp, p - q, d, unit)
        } else {
            make(sq, q - p, d, unit)
        }
    }

    /// `self * b`, with the given unit.
    pub fn mul_value(&self, b: &Magnitude, unit: String) -> (r: Result<Magnitude, Error>)
        requires
            self.wf(),
            b.wf(),
        ensures
            view_of(r) == product_of(self@, b@, unit@),
            r is Ok ==> r->Ok_0.wf(),
    {
        proof {
            lemma_mul_bound(self.num as int, b.num as int);
            lemma_mul_bound(self.den as int, b.den as int);
            assert(self@.numer() * b@.numer() == if self.negative != b.negative {
                -(self.num * b.num)
            } else {
                self.num * b.num
            }) by (nonlinear_arith);
        }
        let n = self.num as u128 * b.num as u128;
        let d = self.den as u128 * b.den as u128;
        make(self.negative != b.negative, n, d, unit)
    }

    /// `self / b`, with the given unit.
    pub fn div_value(&self, b: &Magnitude, unit: String) -> (r: Result<Magnitude, Error>)
        requires
            self.wf(),
            b.wf(),
        ensures
            view_of(r) == quotient_of(self@, b@, unit@),
            r is Ok ==> r->Ok_0.wf(),
    {
        if b.num == 0 {
            return Err(Error::DivisionByZero);
        }
        let (sp, p) = self.scaled(b.den);
        proof {
            lemma_mul_bound(self.den as int, b.num as int);
        }
        let d = self.den as u128 * b.num as u128;
        make(sp != b.negative, p, d, unit)
    }

    /// `-self`.
    pub fn neg_value(&self) -> (r: Magnitude)
        requires
            self.wf(),
        ensures
            r@ == negation_of(self@),
            r.wf(),
    {
        Magnitude {
            negative: self.num != 0 && !self.negative,
            num: self.num,
            den: self.den,
            unit: self.unit.clone(),
        }
    }

    /// The sign of `self - b`: `-1`, `0` or `1`.
    pub fn compare(&self, b: &Magnitude) -> (r: i8)
        requires
            self.wf(),
            b.wf(),
        ensures
            r == -1 <==> cross_diff(self@, b@) < 0,
            r == 0 <==> cross_diff(self@, b@) == 0,
            r == 1 <==> cross_diff(self@, b@) > 0,
    {
        let (sp, p) = self.scaled(b.den);
        let (sq, q) = b.scaled(self.den);
        let x: i128 = if sp { -(p as i128) } else { p as i128 };
        let y: i128 = if sq { -(q as i128) } else { q as i128 };
        if x < y {
            -1
        } else if x == y {
            0
        } else {
            1
        }
    }

    /// Whether `self` and `b` differ by at most `1 / 100000`.
    pub fn is_close(&self, b: &Magnitude) -> (r: bool)
        requires
            self.wf(),
            b.wf(),
        ensures
            r == close(self@, b@),
    {
        let (sp, p) = self.scaled(b.den);
        let (sq, q) = b.scaled(self.den);
        let diff: u128 = if sp == sq {
            if p >= q {
                p - q
            } else {
                q - p
            }
        } else {
            p + q
        };
        proof {
            lemma_mul_bound(self.den as int, b.den as int);
            assert(diff == abs(cross_diff(self@, b@)));
        }
        let d = self.den as u128 * b.den as u128;
        let r = diff <= d / 100000;
        proof {
            let (k, di, dd) = (100000int, diff as int, d as int);
            assert(r == (di * k <= dd)) by (nonlinear_arith)
                requires
                    r == (di <= dd / k),
                    k > 0,
                    di >= 0,
                    dd >= 0,
            ;
        }
        r
    }

    /// The square root of `self`, with the given unit; see `root_of`.
    pub fn sqrt_value(&self, unit: String) -> (r: Result<Magnitude, Error>)
        requires
            self.wf(),
        ensures
            view_of(r) == root_of(self@, unit@),
            r is Ok ==> r->Ok_0.wf(),
    {
        if self.negative {
            return Err(Error::NegativeRoot);
        }
        let (num, den) = (self.num as u128, self.den as u128);
        let ghost (n, d) = (self.num as nat, self.den as nat);
        let mut y: u128 = num / den;
        let mut rem: u128 = num % den;
        let mut j: u64 = 0;
        let mut best_y: u128 = y;
        let mut best_k: u64 = 0;
        proof {
            assert(pow2(0) == 1);
            vstd::arithmetic::div_mod::lemma_fundamental_div_mod(num as int, den as int);
            assert(y * den + rem == n * pow2(0)) by (nonlinear_arith)
                requires num == den * y + rem, pow2(0) == 1, n == num;
            lemma_scaled_step(n, d, 0, y as nat, rem as nat);
            assert(y < ROOT_RANGE) by (nonlinear_arith)
                requires y == num / den, num <= 0x7fff_ffff_ffff_ffff, den >= 1;
        }
        while j < 124 && y < ROOT_RANGE
            invariant
                j <= 124,
                d == den,
                n == num,
                0 < den <= MAX_PART,
                num <= MAX_PART,
                rem < den,
                y * den + rem == n * pow2(j as nat),
                y == scaled_quotient(n, d, j as nat),
                best_k * 2 <= j,
                y < ROOT_RANGE ==> j < best_k * 2 + 2,
                j <= best_k * 2 + 2,
                best_y == scaled_quotient(n, d, 2 * best_k as nat),
                best_y < ROOT_RANGE,
                forall|i: nat| i < j ==> #[trigger] scaled_quotient(n, d, i) < ROOT_RANGE,
            decreases 124 - j,
        {
            let c: u128 = if 2 * rem >= den { 1 } else { 0 };
            let ghost (y0, r0) = (y, rem);
            y = 2 * y + c;
            rem = 2 * rem - c * den;
            j = j + 1;
            proof {
                assert(pow2(j as nat) == 2 * pow2((j - 1) as nat));
                assert(y * den + rem == n * pow2(j as nat)) by (nonlinear_arith)
                    requires
                        y0 * den + r0 == n * pow2((j - 1) as nat),
                        pow2(j as nat) == 2 * pow2((j - 1) as nat),
                        y == 2 * y0 + c,
                        rem == 2 * r0 - c * den,
                ;
                lemma_scaled_step(n, d, j as nat, y as nat, rem as nat);
            }
            if y < ROOT_RANGE && j % 2 == 0 {
                best_y = y;
                best_k = j / 2;
            }
        }
        proof {
            if j == 124 && y < ROOT_RANGE {
                assert(best_k == 62);
                lemma_root_scale(n, d, 62, 62);
            } else {
                assert forall|k: nat| best_k < k <= 62 implies #[trigger] scaled_quotient(n, d, 2 * k) >= ROOT_RANGE by {
                    lemma_scaled_monotone(n, d, j as nat, 2 * k);
                }
                lemma_root_scale(n, d, 62, best_k as nat);
            }
            lemma_isqrt(best_y as nat);
            lemma_pow2_62();
            assert(isqrt(best_y as nat) < 0x8000_0000_0000_0000) by (nonlinear_arith)
                requires
                    isqrt(best_y as nat) * isqrt(best_y as nat) <= best_y,
                    best_y < 0x1000_0000_0000_0000_0000_0000_0000_0000,
            ;
        }
        let p = isqrt_u128(best_y);
        let mut q: u128 = 1;
        let mut i: u64 = 0;
        while i < best_k
            invariant
                i <= best_k <= 62,
                q == pow2(i as nat),
            decreases best_k - i,
        {
            proof {
                lemma_pow2_62();
                assert(pow2((i + 1) as nat) == 2 * pow2(i as nat));
            }
            q = q * 2;
            i = i + 1;
        }
        proof {
            lemma_pow2_62();
        }
        make(false, p, q, unit)
    }
}

/// The unit of a value whose unit is not constrained yet.
pub open spec fn unknown_unit() -> Seq<char> {
    seq!['¿', '?']
}

/// The unit that two operands share: the other one's where one is unknown,
/// the common one where both agree, none where they differ.
pub open spec fn compatible(a: Seq<char>, b: Seq<char>) -> Option<Seq<char>> {
    if a == unknown_unit() {
        Some(b)
    } else if b == unknown_unit() {
        Some(a)
    } else if a == b {
        Some(a)
    } else {
        None
    }
}

/// A fresh copy of the unknown unit.
pub fn unknown() -> (r: String)
    ensures
        r@ == unknown_unit(),
{
    proof {
        reveal_strlit("¿?");
    }
    let r = String::from_str("¿?");
    assert(r@ =~= unknown_unit());
    r
}

pub fn is_unknown(unit: &String) -> (r: bool)
    ensures
        r == (unit@ == unknown_unit()),
{
    let u = unknown();
    *unit == u
}

pub fn compatible_units(a: &String, b: &String) -> (r: Option<String>)
    ensures
        r matches Some(u) ==> compatible(a@, b@) == Some(u@),
        r is None ==> compatible(a@, b@) is None,
{
    if is_unknown(a) {
        Some(b.clone())
    } else if is_unknown(b) {
        Some(a.clone())
    } else if *a == *b {
        Some(a.clone())
    } else {
        None
    }
}

impl Magnitude {
    /// The unit shared with `b`, if the two units are compatible.
    pub fn compatible_unit(&self, b: &Self) -> (r: Option<String>)
        ensures
            r matches Some(u) ==> compatible(self.unit@, b.unit@) == Some(u@),
            r is None ==> compatible(self.unit@, b.unit@) is None,
    {
        compatible_units(&self.unit, &b.unit)
    }

    /// The unit shared with `unit`, if the two are compatible.
    pub fn compatible_unit_str(&self, unit: &str) -> (r: Option<String>)
        ensures
            r matches Some(u) ==> compatible(self.unit@, unit@) == Some(u@),
            r is None ==> compatible(self.unit@, unit@) is None,
    {
        compatible_units(&self.unit, &unit.to_owned())
    }
}

pub open spec fn pow10(n: nat) -> nat
    decreases n,
{
    if n == 0 {
        1
    } else {
        10 * pow10((n - 1) as nat)
    }
}

pub open spec fn is_digit(c: char) -> bool {
    '0' <= c <= '9'
}

pub open spec fn is_letter(c: char) -> bool {
    ('a' <= c <= 'z') || ('A' <= c <= 'Z')
}

pub open spec fn is_space(c: char) -> bool {
    c == ' ' || c == '\t' || c == '\n' || c == '\r'
}

pub open spec fn digit_value(c: char) -> nat {
    ((c as u32) - ('0' as u32)) as nat
}

/// Number of digits in `s` from position `i` on.
pub open spec fn digit_run(s: Seq<char>, i: int) -> nat
    decreases s.len() - i,
{
    if 0 <= i < s.len() && is_digit(s[i]) {
        1 + digit_run(s, i + 1)
    } else {
        0
    }
}

/// Number of white-space characters in `s` from position `i` on.
pub open spec fn space_run(s: Seq<char>, i: int) -> nat
    decreases s.len() - i,
{
    if 0 <= i < s.len() && is_space(s[i]) {
        1 + space_run(s, i + 1)
    } else {
        0
    }
}

/// The number written by the digits `s[i..j]`.
pub open spec fn digits_value(s: Seq<char>, i: int, j: int) -> nat
    decreases j - i,
{
    if j <= i {
        0
    } else {
        digits_value(s, i, j - 1) * 10 + digit_value(s[j - 1])
    }
}

/// `s` without its underscores.
pub open spec fn strip_underscores(s: Seq<char>) -> Seq<char>
    decreases s.len(),
{
    if s.len() == 0 {
        s
    } else if s.last() == '_' {
        strip_underscores(s.drop_last())
    } else {
        strip_underscores(s.drop_last()).push(s.last())
    }
}

/// Power of ten of an SI prefix letter (`#` stands for no prefix).
pub open spec fn prefix_power(c: char) -> Option<int> {
    if c == 'T' {
        Some(12)
    } else if c == 'G' {
        Some(9)
    } else if c == 'M' {
        Some(6)
    } else if c == 'k' {
        Some(3)
    } else if c == '#' {
        Some(0)
    } else if c == 'm' {
        Some(-3)
    } else if c == 'u' {
        Some(-6)
    } else if c == 'n' {
        Some(-9)
    } else if c == 'p' {
        Some(-12)
    } else if c == 'f' {
        Some(-15)
    } else {
        None
    }
}

/// A unit of two characters or more that starts with a prefix letter followed
/// by a letter loses the prefix, whose power of ten goes to the value.
pub open spec fn prefix_of(unit: Seq<char>) -> int {
    if unit.len() > 1 && is_letter(unit[1]) && prefix_power(unit[0]) is Some {
        prefix_power(unit[0])->0
    } else {
        0
    }
}

pub open spec fn unit_after_prefix(unit: Seq<char>) -> Seq<char> {
    if unit.len() > 1 && is_letter(unit[1]) && prefix_power(unit[0]) is Some {
        unit.drop_first()
    } else {
        unit
    }
}

/// The parts of a numeral at the start of `t`: optional white space, an
/// optional sign, digits, an optional `.` with digits, an optional `e` with
/// digits; the unit is the rest. The result holds the sign, the value of the
/// integer digits, the value and the number of the fraction digits, the
/// exponent, and where the unit starts.
pub open spec fn numeral_parts(t: Seq<char>) -> Option<(bool, nat, nat, nat, nat, int)> {
    let p0 = space_run(t, 0) as int;
    let signed = p0 < t.len() && (t[p0] == '-' || t[p0] == '+');
    let p = if signed { p0 + 1 } else { p0 };
    let n1 = digit_run(t, p);
    if n1 == 0 {
        None
    } else {
        let i1 = p + n1;
        let k = if i1 < t.len() && t[i1] == '.' { digit_run(t, i1 + 1) } else { 0 };
        let i2 = if k > 0 { i1 + 1 + k } else { i1 };
        let ne = if i2 < t.len() && t[i2] == 'e' { digit_run(t, i2 + 1) } else { 0 };
        let i3 = if ne > 0 { i2 + 1 + ne } else { i2 };
        Some((
            signed && t[p0] == '-',
            digits_value(t, p, i1),
            digits_value(t, i1 + 1, i2),
            k,
            digits_value(t, i2 + 1, i3),
            i3,
        ))
    }
}

/// The value of a numeral token, as a numerator, a denominator and a unit;
/// underscores are ignored and a prefix of the unit is folded into the value.
/// Numerals with more than 18 fraction digits, an exponent over 18, digits
/// that exceed 63 bits, or a final power of ten over 18, are not read.
pub open spec fn numeral_value(s: Seq<char>) -> Option<(int, int, Seq<char>)> {
    let t = strip_underscores(s);
    match numeral_parts(t) {
        None => None,
        Some((negative, ip, fp, k, e, i3)) => {
            let unit = t.subrange(i3, t.len() as int);
            let mantissa = ip * pow10(k) + fp;
            let power = e - k + prefix_of(unit);
            if ip > MAX_PART || k > 18 || e > 18 || mantissa > MAX_PART || power > 18 {
                None
            } else {
                let n: int = if power >= 0 { (mantissa * pow10(power as nat)) as int } else { mantissa as int };
                let d: int = if power >= 0 { 1 } else { pow10((-power) as nat) as int };
                Some((if negative { -n } else { n }, d, unit_after_prefix(unit)))
            }
        },
    }
}

proof fn lemma_pow10_mono(a: nat, b: nat)
    requires
        a <= b,
    ensures
        1 <= pow10(a) <= pow10(b),
    decreases b,
{
    if b > a {
        lemma_pow10_mono(a, (b - 1) as nat);
    } else if a > 0 {
        lemma_pow10_mono((a - 1) as nat, (a - 1) as nat);
    }
}

proof fn lemma_pow10_bound(n: nat)
    requires
        n <= 36,
    ensures
        1 <= pow10(n) <= 1_000_000_000_000_000_000_000_000_000_000_000_000,
        n <= 18 ==> pow10(n) <= 1_000_000_000_000_000_000,
{
    reveal_with_fuel(pow10, 37);
    assert(pow10(18) == 1_000_000_000_000_000_000);
    assert(pow10(36) == 1_000_000_000_000_000_000_000_000_000_000_000_000);
    lemma_pow10_mono(n, 36);
    if n <= 18 {
        lemma_pow10_mono(n, 18);
    }
}

fn pow10_u128(n: u32) -> (r: u128)
    requires
        n <= 36,
    ensures
        r == pow10(n as nat),
{
    let mut r: u128 = 1;
    let mut i: u32 = 0;
    while i < n
        invariant
            i <= n <= 36,
            r == pow10(i as nat),
        decreases n - i,
    {
        proof {
            lemma_pow10_bound(i as nat);
            lemma_pow10_bound((i + 1) as nat);
        }
        r = r * 10;
        i = i + 1;
    }
    r
}

fn is_digit_char(c: char) -> (r: bool)
    ensures
        r == is_digit(c),
{
    '0' <= c && c <= '9'
}

fn is_letter_char(c: char) -> (r: bool)
    ensures
        r == is_letter(c),
{
    ('a' <= c && c <= 'z') || ('A' <= c && c <= 'Z')
}

fn prefix_power_of(c: char) -> (r: Option<i32>)
    ensures
        r matches Some(x) ==> prefix_power(c) == Some(x as int),
        r is None ==> prefix_power(c) is None,
{
    if c == 'T' {
        Some(12)
    } else if c == 'G' {
        Some(9)
    } else if c == 'M' {
        Some(6)
    } else if c == 'k' {
        Some(3)
    } else if c == '#' {
        Some(0)
    } else if c == 'm' {
        Some(-3)
    } else if c == 'u' {
        Some(-6)
    } else if c == 'n' {
        Some(-9)
    } else if c == 'p' {
        Some(-12)
    } else if c == 'f' {
        Some(-15)
    } else {
        None
    }
}

/// Reads the digits of `t` from `i` on: where they end, and their value
/// unless it exceeds `MAX_PART`.
fn scan_digits(t: &Vec<char>, i: usize) -> (r: (usize, Option<u64>))
    requires
        i <= t@.len(),
    ensures
        r.0 == i + digit_run(t@, i as int),
        r.0 <= t@.len(),
        r.1 matches Some(v) ==> v == digits_value(t@, i as int, r.0 as int) && v <= MAX_PART,
        r.1 is None ==> digits_value(t@, i as int, r.0 as int) > MAX_PART,
{
    let mut j: usize = i;
    let mut value: Option<u64> = Some(0);
    while j < t.len() && is_digit_char(t[j])
        invariant
            i <= j <= t@.len(),
            digit_run(t@, i as int) == (j - i) + digit_run(t@, j as int),
            value matches Some(v) ==> v == digits_value(t@, i as int, j as int) && v <= MAX_PART,
            value is None ==> digits_value(t@, i as int, j as int) > MAX_PART,
        decreases t@.len() - j,
    {
        let d = (t[j] as u32 - '0' as u32) as u64;
        assert(digits_value(t@, i as int, j + 1) == digits_value(t@, i as int, j as int) * 10
            + digit_value(t@[j as int]));
        value = match value {
            Some(v) => {
                if v <= (MAX_PART - d) / 10 {
                    Some(v * 10 + d)
                } else {
                    None
                }
            },
            None => None,
        };
        j = j + 1;
    }
    (j, value)
}

/// `s` without underscores, character by character.
fn without_underscores(s: &str) -> (r: Vec<char>)
    ensures
        r@ == strip_underscores(s@),
{
    let cs = chars_of(s);
    let mut r: Vec<char> = Vec::new();
    let mut i: usize = 0;
    while i < cs.len()
        invariant
            i <= cs@.len(),
            cs@ == s@,
            r@ == strip_underscores(cs@.subrange(0, i as int)),
        decreases cs@.len() - i,
    {
        assert(cs@.subrange(0, i + 1).drop_last() =~= cs@.subrange(0, i as int));
        if cs[i] != '_' {
            r.push(cs[i]);
        }
        i = i + 1;
    }
    assert(cs@.subrange(0, cs@.len() as int) =~= cs@);
    r
}

/// Finds the parts of a numeral at the start of `t`; a part whose value
/// exceeds `MAX_PART` is `None`.
fn scan_numeral(t: &Vec<char>) -> (r: Option<(bool, Option<u64>, Option<u64>, usize, Option<u64>, usize)>)
    ensures
        match numeral_parts(t@) {
            None => r is None,
            Some((negative, ip, fp, k, e, i3)) => r matches Some((rn, rip, rfp, rk, re, ri3)) && {
                &&& rn == negative
                &&& rk == k
                &&& ri3 == i3
                &&& i3 <= t@.len()
                &&& (rip matches Some(v) ==> v == ip && v <= MAX_PART)
                &&& (rip is None ==> ip > MAX_PART)
                &&& (rfp matches Some(v) ==> v == fp && v <= MAX_PART)
                &&& (rfp is None ==> fp > MAX_PART)
                &&& (re matches Some(v) ==> v == e && v <= MAX_PART)
                &&& (re is None ==> e > MAX_PART)
            },
        },
{
    let mut p0: usize = 0;
    while p0 < t.len() && (t[p0] == ' ' || t[p0] == '\t' || t[p0] == '\n' || t[p0] == '\r')
        invariant
            p0 <= t@.len(),
            space_run(t@, 0) == p0 + space_run(t@, p0 as int),
        decreases t@.len() - p0,
    {
        p0 = p0 + 1;
    }
    let signed = p0 < t.len() && (t[p0] == '-' || t[p0] == '+');
    let negative = signed && t[p0] == '-';
    let p = if signed { p0 + 1 } else { p0 };
    let (i1, int_part) = scan_digits(t, p);
    if i1 == p {
        return None;
    }
    let (k, i2, frac_part) = if i1 < t.len() && t[i1] == '.' {
        let (e1, f) = scan_digits(t, i1 + 1);
        if e1 > i1 + 1 {
            (e1 - i1 - 1, e1, f)
        } else {
            (0, i1, Some(0))
        }
    } else {
        (0, i1, Some(0))
    };
    let (i3, exp) = if i2 < t.len() && t[i2] == 'e' {
        let (e2, x) = scan_digits(t, i2 + 1);
        if e2 > i2 + 1 {
            (e2, x)
        } else {
            (i2, Some(0))
        }
    } else {
        (i2, Some(0))
    };
    Some((negative, int_part, frac_part, k, exp, i3))
}

impl Magnitude {
    /// Reads a numeral with its unit (`"2"`, `"-1.5e3"`, `"10kohm"`, `"3_300uF"`).
    /// A known prefix in front of a letter is folded into the value. `None`
    /// where the token is no numeral, or one out of range.
    pub fn get(string: &str) -> (r: Option<Magnitude>)
        ensures
            match numeral_value(string@) {
                None => r is None,
                Some((n, d, unit)) => match r {
                    Some(m) => reduced(n, d, unit) == Ok::<MagnitudeView, Error>(m@),
                    None => !fits(n, d),
                },
            },
            r matches Some(m) ==> m.wf(),
    {
        let t = without_underscores(string);
        let (negative, ip, fp, k, e, i3) = match scan_numeral(&t) {
            Some(x) => x,
            None => {
                return None;
            },
        };
        let mut shift: i32 = 0;
        let mut start: usize = i3;
        if i3 < t.len() && t.len() - i3 > 1 && is_letter_char(t[i3 + 1]) {
            if let Some(x) = prefix_power_of(t[i3]) {
                shift = x;
                start = i3 + 1;
            }
        }
        let mut unit_chars: Vec<char> = Vec::new();
        let mut j: usize = start;
        while j < t.len()
            invariant
                start <= j <= t@.len(),
                unit_chars@ == t@.subrange(start as int, j as int),
            decreases t@.len() - j,
        {
            unit_chars.push(t[j]);
            j = j + 1;
            assert(unit_chars@ =~= t@.subrange(start as int, j as int));
        }
        let unit = string_of(unit_chars.as_slice());
        let ghost u = t@.subrange(i3 as int, t@.len() as int);
        proof {
            assert(shift == prefix_of(u));
            assert(unit@ =~= unit_after_prefix(u));
        }
        let (ip, fp, e) = match (ip, fp, e) {
            (Some(a), Some(b), Some(c)) => (a, b, c),
            _ => {
                proof {
                    lemma_pow10_mono(0, k as nat);
                    assert(ip is None ==> numeral_value(string@) is None) by {
                        if ip is None {
                            let parts = numeral_parts(t@)->0;
                            let v = parts.1;
                            assert(v * pow10(k as nat) >= v) by (nonlinear_arith)
                                requires pow10(k as nat) >= 1;
                        }
                    }
                }
                return None;
            },
        };
        if k > 18 || e > 18 {
            return None;
        }
        proof {
            lemma_pow10_bound(k as nat);
            assert(ip * pow10(k as nat) <= MAX_PART * 1_000_000_000_000_000_000) by (nonlinear_arith)
                requires ip <= MAX_PART, pow10(k as nat) <= 1_000_000_000_000_000_000;
        }
        let mantissa: u128 = ip as u128 * pow10_u128(k as u32) + fp as u128;
        let ghost t_parts = numeral_parts(t@)->0;
        assert(t_parts.1 == ip && t_parts.2 == fp && t_parts.3 == k && t_parts.4 == e);
        assert(mantissa == t_parts.1 * pow10(t_parts.3) + t_parts.2);
        let power: i32 = e as i32 - k as i32 + shift;
        if mantissa > MAX_PART as u128 || power > 18 {
            return None;
        }
        if power >= 0 {
            proof {
                lemma_pow10_bound(power as nat);
                assert(mantissa * pow10(power as nat) <= MAX_PART * 1_000_000_000_000_000_000) by (nonlinear_arith)
                    requires mantissa <= MAX_PART, pow10(power as nat) <= 1_000_000_000_000_000_000;
            }
            let n = mantissa * pow10_u128(power as u32);
            match make(negative, n, 1, unit) {
                Ok(m) => Some(m),
                Err(_) => None,
            }
        } else {
            proof {
                lemma_pow10_bound((-power) as nat);
            }
            let d = pow10_u128((-power) as u32);
            match make(negative, mantissa, d, unit) {
                Ok(m) => Some(m),
                Err(_) => None,
            }
        }
    }
}

impl Magnitude {
    /// A copy of this magnitude.
    pub fn copy(&self) -> (r: Magnitude)
        ensures
            r@ == self@,
            r.wf() == self.wf(),
    {
        Magnitude { negative: self.negative, num: self.num, den: self.den, unit: self.unit.clone() }
    }

    pub fn is_wf(&self) -> (r: bool)
        ensures
            r == self.wf(),
    {
        0 < self.den && self.den <= MAX_PART && self.num <= MAX_PART && (self.num != 0 || !self.negative)
    }

    /// The same value with another unit.
    pub fn with_unit(&self, unit: String) -> (r: Magnitude)
        ensures
            r@ == (MagnitudeView { unit: unit@, ..self@ }),
            r.wf() == self.wf(),
    {
        Magnitude { negative: self.negative, num: self.num, den: self.den, unit }
    }
}

/// Unit compatibility does not depend on the order of the operands, and the
/// unknown unit takes on the other unit.
pub proof fn lemma_compatible_laws(a: Seq<char>, b: Seq<char>)
    ensures
        compatible(a, b) == compatible(b, a),
        compatible(unknown_unit(), b) == Some(b),
        compatible(a, unknown_unit()) == Some(a),
{
}

/// The prefixes tried when a value is shown, largest first; `#` is none.
pub open spec fn display_prefixes() -> Seq<char> {
    seq!['T', 'G', 'M', 'k', '#', 'm', 'u', 'n', 'p', 'f']
}

/// `num / den` lies in `[10^e, 1000 * 10^e)`.
pub open spec fn in_decade(num: nat, den: nat, e: int) -> bool {
    if e >= 0 {
        den * pow10(e as nat) <= num && num < 1000 * den * pow10(e as nat)
    } else {
        den <= num * pow10((-e) as nat) && num * pow10((-e) as nat) < 1000 * den
    }
}

/// The first of the prefixes from index `i` on that brings the value into
/// `[1, 1000)`.
pub open spec fn prefix_from(num: nat, den: nat, i: int) -> Option<char>
    decreases 10 - i,
{
    if i < 0 || i >= 10 {
        None
    } else if in_decade(num, den, prefix_power(display_prefixes()[i])->0) {
        Some(display_prefixes()[i])
    } else {
        prefix_from(num, den, i + 1)
    }
}

/// `num / den / 10^e` in hundredths, rounded half up.
pub open spec fn hundredths(num: nat, den: nat, e: int) -> nat {
    if e >= 0 {
        ((200 * num + den * pow10(e as nat)) / (2 * den * pow10(e as nat))) as nat
    } else {
        ((200 * num * pow10((-e) as nat) + den) / (2 * den)) as nat
    }
}

/// A number of hundredths as a decimal, without trailing zeros.
pub open spec fn hundredths_text(h: nat) -> Seq<char> {
    if h % 100 == 0 {
        decimal(h / 100)
    } else if h % 10 == 0 {
        decimal(h / 100) + seq!['.', digit_char((h / 10) % 10)]
    } else {
        decimal(h / 100) + seq!['.', digit_char((h / 10) % 10), digit_char(h % 10)]
    }
}

/// How a unit is written: `ohm` as `\Omega`, others as they are.
pub open spec fn pretty_unit(u: Seq<char>) -> Seq<char> {
    if u == seq!['o', 'h', 'm'] {
        seq!['\\', 'O', 'm', 'e', 'g', 'a']
    } else {
        u
    }
}

/// A magnitude as shown: its sign, its size scaled by the prefix that brings
/// it into `[1, 1000)` and rounded to two decimals, and the prefixed unit in
/// `\mathrm{...}` unless that is empty.
pub open spec fn display_of(m: MagnitudeView) -> Seq<char> {
    let p = prefix_from(m.num, m.den, 0);
    let e: int = match p {
        Some(c) => prefix_power(c)->0,
        None => 0,
    };
    let unit = match p {
        Some(c) => if c == '#' { pretty_unit(m.unit) } else { seq![c] + pretty_unit(m.unit) },
        None => pretty_unit(m.unit),
    };
    let sign: Seq<char> = if m.negative { seq!['-'] } else { Seq::empty() };
    let number = hundredths_text(hundredths(m.num, m.den, e));
    if unit.len() == 0 {
        sign + number
    } else {
        sign + number + seq!['\\', 'm', 'a', 't', 'h', 'r', 'm', '{'] + unit + seq!['}']
    }
}

fn display_prefix(i: usize) -> (c: char)
    requires
        i < 10,
    ensures
        c == display_prefixes()[i as int],
{
    if i == 0 {
        'T'
    } else if i == 1 {
        'G'
    } else if i == 2 {
        'M'
    } else if i == 3 {
        'k'
    } else if i == 4 {
        '#'
    } else if i == 5 {
        'm'
    } else if i == 6 {
        'u'
    } else if i == 7 {
        'n'
    } else if i == 8 {
        'p'
    } else {
        'f'
    }
}

proof fn lemma_scale_bounds(num: nat, den: nat, k: nat)
    requires
        num <= MAX_PART,
        den <= MAX_PART,
        k <= 15,
    ensures
        num * pow10(k) <= MAX_PART * 1_000_000_000_000_000,
        den * pow10(k) <= MAX_PART * 1_000_000_000_000_000,
        pow10(k) >= 1,
{
    lemma_pow10_mono(k, 15);
    reveal_with_fuel(pow10, 16);
    assert(pow10(15) == 1_000_000_000_000_000);
    assert(num * pow10(k) <= MAX_PART * 1_000_000_000_000_000) by (nonlinear_arith)
        requires
            num <= MAX_PART,
            pow10(k) <= 1_000_000_000_000_000,
    ;
    assert(den * pow10(k) <= MAX_PART * 1_000_000_000_000_000) by (nonlinear_arith)
        requires
            den <= MAX_PART,
            pow10(k) <= 1_000_000_000_000_000,
    ;
}

fn decade_test(num: u64, den: u64, e: i32) -> (r: bool)
    requires
        -15 <= e <= 12,
        num <= MAX_PART,
        den <= MAX_PART,
    ensures
        r == in_decade(num as nat, den as nat, e as int),
{
    if e >= 0 {
        proof {
            lemma_scale_bounds(num as nat, den as nat, e as nat);
        }
        let d = den as u128 * pow10_u128(e as u32);
        proof {
            let (a, b) = (den as int, pow10(e as nat) as int);
            assert(1000 * (a * b) == 1000 * a * b) by (nonlinear_arith);
        }
        d <= num as u128 && (num as u128) < 1000 * d
    } else {
        proof {
            lemma_scale_bounds(num as nat, den as nat, (-e) as nat);
        }
        let n = num as u128 * pow10_u128((-e) as u32);
        den as u128 <= n && n < 1000 * den as u128
    }
}

fn round_hundredths(num: u64, den: u64, e: i32) -> (h: u128)
    requires
        -15 <= e <= 12,
        num <= MAX_PART,
        0 < den <= MAX_PART,
    ensures
        h == hundredths(num as nat, den as nat, e as int),
{
    if e >= 0 {
        proof {
            lemma_scale_bounds(num as nat, den as nat, e as nat);
        }
        let d = den as u128 * pow10_u128(e as u32);
        proof {
            assert(d >= 1) by (nonlinear_arith)
                requires
                    d == den * pow10(e as nat),
                    den >= 1,
                    pow10(e as nat) >= 1,
            ;
            let (a, b) = (den as int, pow10(e as nat) as int);
            assert(2 * (a * b) == 2 * a * b) by (nonlinear_arith);
        }
        (200 * num as u128 + d) / (2 * d)
    } else {
        proof {
            lemma_scale_bounds(num as nat, den as nat, (-e) as nat);
        }
        let n = num as u128 * pow10_u128((-e) as u32);
        proof {
            let (a, b) = (num as int, pow10((-e) as nat) as int);
            assert(200 * (a * b) == 200 * a * b) by (nonlinear_arith);
        }
        (200 * n + den as u128) / (2 * den as u128)
    }
}

pub fn push_chars(out: &mut Vec<char>, s: &str)
    ensures
        final(out)@ == old(out)@ + s@,
{
    let cs = chars_of(s);
    let mut i: usize = 0;
    while i < cs.len()
        invariant
            i <= cs@.len(),
            cs@ == s@,
            out@ == old(out)@ + cs@.subrange(0, i as int),
        decreases cs@.len() - i,
    {
        out.push(cs[i]);
        i = i + 1;
        assert(out@ =~= old(out)@ + cs@.subrange(0, i as int));
    }
    assert(cs@.subrange(0, cs@.len() as int) =~= cs@);
}

/// The unit as shown after the value: the prefix letter (none for `#`) and
/// the unit's written form.
pub open spec fn shown_unit(p: Option<char>, u: Seq<char>) -> Seq<char> {
    match p {
        Some(c) => if c == '#' { pretty_unit(u) } else { seq![c] + pretty_unit(u) },
        None => pretty_unit(u),
    }
}

fn push_all(out: &mut Vec<char>, more: &Vec<char>)
    ensures
        final(out)@ == old(out)@ + more@,
{
    let mut j: usize = 0;
    while j < more.len()
        invariant
            j <= more@.len(),
            out@ == old(out)@ + more@.subrange(0, j as int),
        decreases more@.len() - j,
    {
        out.push(more[j]);
        j = j + 1;
        assert(out@ =~= old(out)@ + more@.subrange(0, j as int));
    }
    assert(more@.subrange(0, more@.len() as int) =~= more@);
}

fn unit_text(p: Option<char>, unit: &String) -> (r: Vec<char>)
    ensures
        r@ == shown_unit(p, unit@),
{
    let mut out: Vec<char> = Vec::new();
    match p {
        Some(c) => {
            if c != '#' {
                out.push(c);
            }
        },
        None => {},
    }
    let ghost o0 = out@;
    let u = chars_of(unit.as_str());
    if u.len() == 3 && u[0] == 'o' && u[1] == 'h' && u[2] == 'm' {
        assert(u@ =~= seq!['o', 'h', 'm']);
        proof {
            reveal_strlit("\\Omega");
        }
        push_chars(&mut out, "\\Omega");
        assert(out@ =~= o0 + seq!['\\', 'O', 'm', 'e', 'g', 'a']);
    } else {
        assert(u@ != seq!['o', 'h', 'm']);
        push_all(&mut out, &u);
    }
    assert(out@ =~= shown_unit(p, unit@));
    out
}

fn number_text(out: &mut Vec<char>, h: u128)
    ensures
        final(out)@ == old(out)@ + hundredths_text(h as nat),
{
    push_decimal(out, h / 100);
    if h % 100 != 0 {
        out.push('.');
        out.push(digit_at(((h / 10) % 10) as u64));
        if h % 10 != 0 {
            out.push(digit_at((h % 10) as u64));
        }
    }
    assert(final(out)@ =~= old(out)@ + hundredths_text(h as nat)) by {
        let hh = h as nat;
        if hh % 100 != 0 && hh % 10 == 0 {
            assert(hundredths_text(hh) == decimal(hh / 100) + seq!['.', digit_char((hh / 10) % 10)]);
        }
    }
}

impl Magnitude {
    fn display_prefix_of(&self) -> (r: Option<char>)
        requires
            self.wf(),
        ensures
            r == prefix_from(self.num as nat, self.den as nat, 0),
            r matches Some(c) ==> prefix_power(c) is Some && -15 <= prefix_power(c)->0 <= 12,
    {
        let mut found: Option<char> = None;
        let mut i: usize = 0;
        while i < 10
            invariant
                i <= 10,
                self.wf(),
                prefix_from(self.num as nat, self.den as nat, 0) == (match found {
                    Some(c) => Some(c),
                    None => prefix_from(self.num as nat, self.den as nat, i as int),
                }),
                found matches Some(c) ==> prefix_power(c) is Some && -15 <= prefix_power(c)->0 <= 12,
            decreases 10 - i,
        {
            if found.is_none() {
                let c = display_prefix(i);
                let e = match prefix_power_of(c) {
                    Some(x) => x,
                    None => 0,
                };
                if decade_test(self.num, self.den, e) {
                    found = Some(c);
                }
            }
            i = i + 1;
        }
        found
    }

    /// The magnitude as shown in a formula; see `display_of`.
    pub fn show(&self) -> (r: String)
        requires
            self.wf(),
        ensures
            r@ == display_of(self@),
    {
        let found = self.display_prefix_of();
        let e: i32 = match found {
            Some(c) => match prefix_power_of(c) {
                Some(x) => x,
                None => 0,
            },
            None => 0,
        };
        let h = round_hundredths(self.num, self.den, e);
        let mut out: Vec<char> = Vec::new();
        if self.negative {
            out.push('-');
        }
        number_text(&mut out, h);
        let unit = unit_text(found, &self.unit);
        if unit.len() > 0 {
            proof {
                reveal_strlit("\\mathrm{");
            }
            push_chars(&mut out, "\\mathrm{");
            push_all(&mut out, &unit);
            out.push('}');
        }
        assert(out@ =~= display_of(self@));
        string_of(out.as_slice())
    }
}

fn digit_at(d: u64) -> (c: char)
    requires
        d < 10,
    ensures
        c == digit_char(d as nat),
{
    if d == 0 {
        '0'
    } else if d == 1 {
        '1'
    } else if d == 2 {
        '2'
    } else if d == 3 {
        '3'
    } else if d == 4 {
        '4'
    } else if d == 5 {
        '5'
    } else if d == 6 {
        '6'
    } else if d == 7 {
        '7'
    } else if d == 8 {
        '8'
    } else {
        '9'
    }
}

/// The greatest common divisor divides both numbers.
pub proof fn lemma_gcd_divides(a: nat, b: nat)
    requires
        b > 0,
    ensures
        gcd(a, b) > 0,
        a % gcd(a, b) == 0,
        b % gcd(a, b) == 0,
    decreases b,
{
    lemma_gcd_pos(a, b);
    let g = gcd(a, b) as int;
    if a % b == 0 {
        assert(gcd(b, 0) == b);
        vstd::arithmetic::div_mod::lemma_mod_self_0(b as int);
    } else {
        let r = (a % b) as nat;
        lemma_gcd_divides(b, r);
        assert(g == gcd(b, r));
        vstd::arithmetic::div_mod::lemma_fundamental_div_mod(a as int, b as int);
        vstd::arithmetic::div_mod::lemma_fundamental_div_mod(b as int, g);
        vstd::arithmetic::div_mod::lemma_fundamental_div_mod(r as int, g);
        let q = a as int / b as int;
        let k = b as int / g;
        let l = r as int / g;
        assert(a as int == (q * k + l) * g) by (nonlinear_arith)
            requires
                a as int == b * q + r,
                b as int == g * k,
                r as int == g * l,
        ;
        vstd::arithmetic::div_mod::lemma_mod_multiples_basic(q * k + l, g);
    }
}

/// Lowest terms keep the value: `r = n / d` as rationals.
pub proof fn lemma_reduced_value(n: int, d: int, unit: Seq<char>)
    requires
        d > 0,
        reduced(n, d, unit) is Ok,
    ensures
        reduced(n, d, unit)->Ok_0.numer() * d == n * reduced(n, d, unit)->Ok_0.den,
        reduced(n, d, unit)->Ok_0.den > 0,
{
    let a = abs(n);
    lemma_gcd_divides(a, d as nat);
    let g = gcd(a, d as nat) as int;
    vstd::arithmetic::div_mod::lemma_fundamental_div_mod(a as int, g);
    vstd::arithmetic::div_mod::lemma_fundamental_div_mod(d, g);
    let x = a as int / g;
    let y = d / g;
    assert(x * d == a * y) by (nonlinear_arith)
        requires
            a as int == g * x,
            d == g * y,
    ;
    assert(y > 0) by (nonlinear_arith)
        requires
            d == g * y,
            d > 0,
            g > 0,
    ;
    let r = reduced(n, d, unit)->Ok_0;
    if n < 0 {
        assert(r.numer() == -x);
        assert(r.numer() * d == -(x * d)) by (nonlinear_arith)
            requires r.numer() == -x;
        assert(n * y == -(a * y)) by (nonlinear_arith)
            requires n == -(a as int);
    } else {
        assert(r.numer() == x);
    }
}

/// The magnitude `(-1)^negative * num / den` with `unit`, where a prefix of
/// the unit in front of a letter is folded into the value.
pub open spec fn normalized(negative: bool, num: nat, den: nat, unit: Seq<char>) -> Result<MagnitudeView, Error> {
    let p = prefix_of(unit);
    let n: int = if negative { -(num as int) } else { num as int };
    if den == 0 {
        Err(Error::DivisionByZero)
    } else if p >= 0 {
        reduced(n * pow10(p as nat), den as int, unit_after_prefix(unit))
    } else {
        reduced(n, (den * pow10((-p) as nat)) as int, unit_after_prefix(unit))
    }
}

impl Magnitude {
    /// The magnitude `(-1)^negative * num / den` in `unit`, in lowest terms,
    /// with a prefix of the unit folded into the value; see `normalized`.
    pub fn new(negative: bool, num: u64, den: u64, unit: String) -> (r: Result<Magnitude, Error>)
        ensures
            view_of(r) == normalized(negative, num as nat, den as nat, unit@),
            r matches Ok(m) ==> m.wf(),
    {
        if den == 0 {
            return Err(Error::DivisionByZero);
        }
        let u = chars_of(unit.as_str());
        let mut shift: i32 = 0;
        let mut start: usize = 0;
        if u.len() > 1 && is_letter_char(u[1]) {
            if let Some(x) = prefix_power_of(u[0]) {
                shift = x;
                start = 1;
            }
        }
        let mut rest: Vec<char> = Vec::new();
        let mut j: usize = start;
        while j < u.len()
            invariant
                start <= j <= u@.len(),
                rest@ == u@.subrange(start as int, j as int),
            decreases u@.len() - j,
        {
            rest.push(u[j]);
            j = j + 1;
            assert(rest@ =~= u@.subrange(start as int, j as int));
        }
        let new_unit = if start == 0 { unit } else { string_of(rest.as_slice()) };
        proof {
            if start == 0 {
                assert(new_unit@ == unit_after_prefix(unit@));
            }
            assert(shift == prefix_of(unit@));
            if start == 1 {
                assert(new_unit@ =~= unit_after_prefix(unit@));
            }
            assert(-15 <= shift <= 12);
        }
        if shift >= 0 {
            proof {
                lemma_pow10_bound(shift as nat);
                assert(num * pow10(shift as nat) <= 0xffff_ffff_ffff_ffff * 1_000_000_000_000_000_000) by (nonlinear_arith)
                    requires pow10(shift as nat) <= 1_000_000_000_000_000_000;
            }
            let n = num as u128 * pow10_u128(shift as u32);
            proof {
                let (x, k) = (num as int, pow10(shift as nat) as int);
                assert((-x) * k == -(x * k)) by (nonlinear_arith);
            }
            make(negative, n, den as u128, new_unit)
        } else {
            proof {
                lemma_pow10_bound((-shift) as nat);
                assert(den * pow10((-shift) as nat) <= 0xffff_ffff_ffff_ffff * 1_000_000_000_000_000_000) by (nonlinear_arith)
                    requires pow10((-shift) as nat) <= 1_000_000_000_000_000_000;
                assert(den * pow10((-shift) as nat) > 0) by (nonlinear_arith)
                    requires den > 0, pow10((-shift) as nat) >= 1;
            }
            let d = den as u128 * pow10_u128((-shift) as u32);
            make(negative, num as u128, d, new_unit)
        }
    }
}

/// Whether `s` has the shape of a numeral; see `numeral_parts`.
pub fn is_numeral(s: &str) -> (r: bool)
    ensures
        r == numeral_parts(strip_underscores(s@)) is Some,
{
    let t = without_underscores(s);
    scan_numeral(&t).is_some()
}

/// The last `places` decimal digits of `f`, with leading zeros.
pub open spec fn padded_digits(f: nat, places: nat) -> Seq<char>
    decreases places,
{
    if places == 0 {
        Seq::empty()
    } else {
        padded_digits(f / 10, (places - 1) as nat).push(digit_char(f % 10))
    }
}

/// `s` without the zeros at its end.
pub open spec fn without_trailing_zeros(s: Seq<char>) -> Seq<char>
    decreases s.len(),
{
    if s.len() > 0 && s.last() == '0' {
        without_trailing_zeros(s.drop_last())
    } else {
        s
    }
}

/// `num / den` with `places` decimals, rounded half up, without trailing
/// zeros after the point; an integer has no point.
pub open spec fn decimal_text(num: nat, den: nat, places: nat) -> Seq<char> {
    let h = (2 * num * pow10(places) + den) / (2 * den);
    let whole = h / pow10(places);
    let frac = without_trailing_zeros(padded_digits(h % pow10(places), places));
    if frac.len() == 0 {
        decimal(whole as nat)
    } else {
        decimal(whole as nat) + seq!['.'] + frac
    }
}

/// Appends `num / den` with nine decimals; see `decimal_text`.
pub fn push_fixed(out: &mut Vec<char>, num: u64, den: u64)
    requires
        0 < den,
    ensures
        final(out)@ == old(out)@ + decimal_text(num as nat, den as nat, 9),
{
    let p: u128 = 1_000_000_000;
    proof {
        reveal_with_fuel(pow10, 10);
        assert(pow10(9) == 1_000_000_000);
        assert(2 * num * 1_000_000_000 <= 2 * 0xffff_ffff_ffff_ffffu128 * 1_000_000_000) by (nonlinear_arith)
            requires num <= 0xffff_ffff_ffff_ffffu64;
    }
    let h: u128 = (2 * num as u128 * p + den as u128) / (2 * den as u128);
    let whole = h / p;
    let mut f = h % p;
    let mut digits: Vec<char> = Vec::new();
    let mut k: usize = 0;
    let ghost f0 = f;
    assert(padded_digits(f0 as nat, 0) =~= Seq::<char>::empty());
    assert(pow10(0) == 1);
    assert(digits@ =~= padded_digits(f0 as nat, 0).reverse());
    while k < 9
        invariant
            k <= 9,
            f0 < 1_000_000_000,
            f as nat == f0 as nat / pow10(k as nat),
            digits@ == padded_digits(f0 as nat, k as nat).reverse(),
        decreases 9 - k,
    {
        let ghost d0 = digits@;
        digits.push(digit_at((f % 10) as u64));
        proof {
            lemma_pow10_positive(k as nat);
            vstd::arithmetic::div_mod::lemma_div_denominator(f0 as int, pow10(k as nat) as int, 10);
            assert(pow10((k + 1) as nat) == 10 * pow10(k as nat));
            assert(pow10(k as nat) * 10 == 10 * pow10(k as nat));
            lemma_padded_digits_step(f0 as nat, k as nat);
            assert(digits@ =~= padded_digits(f0 as nat, (k + 1) as nat).reverse());
        }
        f = f / 10;
        k = k + 1;
    }
    let mut n: usize = 9;
    let ghost pd = padded_digits(f0 as nat, 9);
    proof {
        assert(pd.len() == 9) by {
            lemma_padded_len(f0 as nat, 9);
        }
        assert(pd.subrange(0, 9) =~= pd);
    }
    while n > 0 && digits[9 - n] == '0'
        invariant
            n <= 9,
            pd.len() == 9,
            digits@ == pd.reverse(),
            without_trailing_zeros(pd) == without_trailing_zeros(pd.subrange(0, n as int)),
        decreases n,
    {
        assert(pd.subrange(0, n as int).last() == pd[n - 1]);
        assert(pd.subrange(0, n as int).drop_last() =~= pd.subrange(0, n - 1));
        n = n - 1;
    }
    let ghost frac = pd.subrange(0, n as int);
    assert(without_trailing_zeros(frac) == frac);
    push_decimal(out, whole);
    if n > 0 {
        out.push('.');
        let mut j: usize = 0;
        let ghost o0 = out@;
        while j < n
            invariant
                j <= n <= 9,
                digits@ == pd.reverse(),
                pd.len() == 9,
                out@ == o0 + pd.subrange(0, j as int),
            decreases n - j,
        {
            out.push(digits[8 - j]);
            j = j + 1;
            assert(out@ =~= o0 + pd.subrange(0, j as int));
        }
    } else {
        assert(frac.len() == 0);
    }
    proof {
        assert(h % 1_000_000_000 == f0);
    }
    assert(final(out)@ =~= old(out)@ + decimal_text(num as nat, den as nat, 9));
}

proof fn lemma_pow10_positive(n: nat)
    ensures
        pow10(n) >= 1,
{
    lemma_pow10_mono(0, n);
}

proof fn lemma_padded_len(f: nat, places: nat)
    ensures
        padded_digits(f, places).len() == places,
    decreases places,
{
    if places > 0 {
        lemma_padded_len(f / 10, (places - 1) as nat);
    }
}

/// One more digit, taken from the left of the number: the lowest digit of
/// `f / 10^k` goes in front of the `k` digits already read.
proof fn lemma_padded_digits_step(f: nat, k: nat)
    ensures
        padded_digits(f, k + 1) == seq![digit_char((f / pow10(k)) % 10)] + padded_digits(f, k),
    decreases k,
{
    if k == 0 {
        assert(padded_digits(f / 10, 0) =~= Seq::<char>::empty());
        assert(padded_digits(f, 1) =~= seq![digit_char(f % 10)]);
        assert(pow10(0) == 1);
        assert(padded_digits(f, 0) =~= Seq::<char>::empty());
        assert(seq![digit_char((f / pow10(0)) % 10)] + padded_digits(f, 0) =~= seq![digit_char(f % 10)]);
    } else {
        lemma_padded_digits_step(f / 10, (k - 1) as nat);
        lemma_pow10_positive((k - 1) as nat);
        vstd::arithmetic::div_mod::lemma_div_denominator(f as int, 10, pow10((k - 1) as nat) as int);
        assert(pow10(k) == 10 * pow10((k - 1) as nat));
        assert(padded_digits(f, k + 1) =~= seq![digit_char((f / pow10(k)) % 10)] + padded_digits(f, k));
    }
}

proof fn lemma_pow2_add(a: nat, b: nat)
    ensures
        pow2(a + b) == pow2(a) * pow2(b),
    decreases b,
{
    if b > 0 {
        lemma_pow2_add(a, (b - 1) as nat);
        assert(pow2(a + b) == 2 * pow2((a + b - 1) as nat));
        assert(pow2(a) * pow2(b) == pow2(a) * (2 * pow2((b - 1) as nat)));
        assert(pow2(a) * (2 * pow2((b - 1) as nat)) == 2 * (pow2(a) * pow2((b - 1) as nat))) by (nonlinear_arith);
        assert((a + b - 1) as nat == a + (b - 1) as nat);
    } else {
        assert(pow2(0) == 1);
        assert(a + b == a);
    }
}

proof fn lemma_root_scale_stops(num: nat, den: nat, top: nat)
    ensures
        root_scale(num, den, top) <= top,
        root_scale(num, den, top) < top ==> scaled_quotient(num, den, 2 * (root_scale(num, den, top) + 1)) >= ROOT_RANGE,
    decreases top,
{
    if top > 0 && scaled_quotient(num, den, 2 * top) >= ROOT_RANGE {
        lemma_root_scale_stops(num, den, (top - 1) as nat);
    }
}

/// How precise a square root is: for `v = num / den > 0` and the numerator
/// `p = isqrt(v * 4^k)` of `root_of`, `p^2 <= v * 4^k < (p + 1)^2` (rounded
/// down) and `p >= 2^30`, so `p / 2^k` is below the root by less than
/// `2^-30` of it.
pub proof fn lemma_root_precision(a: MagnitudeView)
    requires
        a.wf(),
        a.num > 0,
    ensures
        ({
            let k = root_scale(a.num, a.den, 62);
            let y = scaled_quotient(a.num, a.den, 2 * k);
            let p = isqrt(y);
            &&& p * p <= y < (p + 1) * (p + 1)
            &&& p >= 0x4000_0000
            &&& k <= 62
        }),
{
    let (n, d) = (a.num, a.den);
    let k = root_scale(n, d, 62);
    let y = scaled_quotient(n, d, 2 * k);
    lemma_isqrt(y);
    lemma_root_scale_stops(n, d, 62);
    let bound: nat = 0x1000_0000_0000_0000;
    if k == 62 {
        lemma_pow2_62();
        lemma_pow2_add(62, 62);
        assert(pow2(124) == 0x1000_0000_0000_0000_0000_0000_0000_0000) by (nonlinear_arith)
            requires pow2(124) == pow2(62) * pow2(62), pow2(62) == 0x4000_0000_0000_0000;
        let big = pow2(124);
        assert(n * big >= big) by (nonlinear_arith)
            requires n >= 1;
        assert(d * 0x2000_0000_0000_0000 <= 0x1000_0000_0000_0000_0000_0000_0000_0000) by (nonlinear_arith)
            requires d <= 0x7fff_ffff_ffff_ffff;
        assert(n * pow2(124) >= d * 0x2000_0000_0000_0000);
        vstd::arithmetic::div_mod::lemma_div_is_ordered((d * 0x2000_0000_0000_0000) as int, (n * pow2(124)) as int, d as int);
        vstd::arithmetic::div_mod::lemma_div_multiples_vanish(0x2000_0000_0000_0000, d as int);
        assert(y >= bound);
    } else {
        let z = scaled_quotient(n, d, 2 * k + 2);
        assert(z >= ROOT_RANGE);
        let x = n * pow2(2 * k);
        assert(pow2(2 * k + 2) == 4 * pow2(2 * k)) by {
            assert(pow2(2 * k + 2) == 2 * pow2(2 * k + 1));
            assert(pow2(2 * k + 1) == 2 * pow2(2 * k));
        }
        assert(n * pow2(2 * k + 2) == 4 * x) by (nonlinear_arith)
            requires x == n * pow2(2 * k), pow2(2 * k + 2) == 4 * pow2(2 * k);
        vstd::arithmetic::div_mod::lemma_fundamental_div_mod(x as int, d as int);
        let r = x % d;
        assert(4 * x == d * (4 * y) + 4 * r) by (nonlinear_arith)
            requires x == d * y + r;
        assert(z <= 4 * y + 3) by {
            assert(4 * x < d * (4 * y + 4)) by (nonlinear_arith)
                requires 4 * x == d * (4 * y) + 4 * r, r < d;
            vstd::arithmetic::div_mod::lemma_div_is_ordered((4 * x) as int, (d * (4 * y + 4) - 1) as int, d as int);
            assert((d * (4 * y + 4) - 1) / (d as int) <= 4 * y + 3) by (nonlinear_arith)
                requires d >= 1;
        }
        assert(y >= bound);
    }
    let p = isqrt(y);
    if p < 0x4000_0000 {
        assert((p + 1) * (p + 1) <= bound) by (nonlinear_arith)
            requires p < 0x4000_0000, bound == 0x1000_0000_0000_0000;
    }
}

} // verus!
