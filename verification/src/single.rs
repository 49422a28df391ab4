//! Nonnegative single-precision numbers, held as integers.
//!
//! Every finite single-precision number is a whole multiple of 2^-149, so the
//! nonnegative ones are modelled as naturals that count these units. An
//! operation gives the representable number nearest to the exact result, and
//! the even one of two that are equally near.

use vstd::arithmetic::div_mod::*;
use vstd::arithmetic::mul::*;
use vstd::arithmetic::power2::*;
use vstd::prelude::*;

verus! {

/// The whole number nearest to `num / den`; of two, the even one.
pub open spec fn half_even(num: nat, den: nat) -> nat {
    let quotient = num / den;
    let rest = num % den;
    if 2 * rest < den || (2 * rest == den && quotient % 2 == 0) {
        quotient
    } else {
        quotient + 1
    }
}

/// `num / den` takes up `24 + k` binary digits, or at most 24 where `k` is 0.
pub open spec fn has_spare(num: nat, den: nat, k: nat) -> bool {
    &&& num < den * pow2(24 + k)
    &&& k > 0 ==> den * pow2((23 + k) as nat) <= num
}

/// How many binary digits of `num / den` do not fit in a significand.
pub open spec fn spare_digits(num: nat, den: nat) -> nat
    decreases num,
{
    if den == 0 || num == 0 || num < den * pow2(24) {
        0
    } else {
        1 + spare_digits(num / 2, den)
    }
}

/// The representable number nearest to `num / den` units.
pub open spec fn nearest(num: nat, den: nat) -> nat {
    let k = spare_digits(num, den);
    half_even(num, den * pow2(k)) * pow2(k)
}

/// One.
pub open spec fn one() -> nat {
    pow2(149)
}

/// A whole number, rounded.
pub open spec fn of_whole(n: nat) -> nat {
    nearest(n * one(), 1)
}

/// The rounded product.
pub open spec fn product(a: nat, b: nat) -> nat {
    nearest(a * b, one())
}

/// The rounded quotient.
pub open spec fn quotient(a: nat, b: nat) -> nat {
    nearest(a * one(), b)
}

/// The largest whole number whose square is at most `x`.
pub open spec fn whole_root(x: nat) -> nat
    decreases x,
{
    if x == 0 {
        0
    } else {
        let r = 2 * whole_root(x / 4);
        if (r + 1) * (r + 1) <= x {
            r + 1
        } else {
            r
        }
    }
}

/// How many binary digits of the root of `x` do not fit in a significand.
pub open spec fn root_spare_digits(x: nat) -> nat
    decreases x,
{
    if x == 0 || x < pow2(24) * pow2(24) {
        0
    } else {
        1 + root_spare_digits(x / 4)
    }
}

/// The representable number nearest to the root of `x`. The root of a
/// representable number never lies halfway between two of them.
pub open spec fn nearest_root(x: nat) -> nat {
    let k = root_spare_digits(x);
    let unit = pow2(k) * pow2(k);
    let m = whole_root(x / unit);
    (if 4 * x > (2 * m + 1) * (2 * m + 1) * unit {
        m + 1
    } else {
        m
    }) * pow2(k)
}

/// The rounded root.
pub open spec fn root(a: nat) -> nat {
    nearest_root(a * one())
}

/// The whole part.
pub open spec fn whole_part(a: nat) -> nat {
    a / one()
}

/// `p * 2^e` units as a fraction: its numerator.
pub open spec fn scaled_num(p: nat, e: int) -> nat {
    if e >= 0 {
        p * pow2(e as nat)
    } else {
        p
    }
}

/// `p * 2^e` units as a fraction: its denominator.
pub open spec fn scaled_den(e: int) -> nat {
    if e >= 0 {
        1
    } else {
        pow2((-e) as nat)
    }
}

proof fn lemma_spare_digits(num: nat, den: nat)
    requires
        den > 0,
    ensures
        has_spare(num, den, spare_digits(num, den)),
    decreases num,
{
    lemma_pow2_pos(24);
    assert(den * pow2(24) > 0) by (nonlinear_arith)
        requires
            den > 0,
            pow2(24) > 0,
    ;
    if num >= den * pow2(24) {
        lemma_spare_digits(num / 2, den);
        let j = spare_digits(num / 2, den);
        let k = (j + 1) as nat;
        lemma_pow2_unfold(24 + k);
        lemma_pow2_unfold((23 + k) as nat);
        assert(24 + k - 1 == 24 + j);
        assert(den * (2 * pow2(24 + j)) == 2 * (den * pow2(24 + j))) by (nonlinear_arith);
        if j > 0 {
            assert(den * (2 * pow2((23 + j) as nat)) == 2 * (den * pow2((23 + j) as nat)))
                by (nonlinear_arith);
        }
    }
}

proof fn lemma_spare_unique(num: nat, den: nat, j: nat, k: nat)
    requires
        den > 0,
        has_spare(num, den, j),
        has_spare(num, den, k),
    ensures
        j == k,
{
    if j < k {
        if 24 + j < 23 + k {
            lemma_pow2_strictly_increases(24 + j, (23 + k) as nat);
        }
        assert(den * pow2(24 + j) <= den * pow2((23 + k) as nat)) by (nonlinear_arith)
            requires
                pow2(24 + j) <= pow2((23 + k) as nat),
        ;
    } else if k < j {
        if 24 + k < 23 + j {
            lemma_pow2_strictly_increases(24 + k, (23 + j) as nat);
        }
        assert(den * pow2(24 + k) <= den * pow2((23 + j) as nat)) by (nonlinear_arith)
            requires
                pow2(24 + k) <= pow2((23 + j) as nat),
        ;
    }
}

/// Any `k` that fits tells the rounded number.
proof fn lemma_nearest(num: nat, den: nat, k: nat)
    requires
        den > 0,
        has_spare(num, den, k),
    ensures
        nearest(num, den) == half_even(num, den * pow2(k)) * pow2(k),
{
    lemma_spare_digits(num, den);
    lemma_spare_unique(num, den, k, spare_digits(num, den));
}

proof fn lemma_half_even_scaled(num: nat, den: nat, c: nat)
    requires
        den > 0,
        c > 0,
    ensures
        c * den > 0,
        half_even(c * num, c * den) == half_even(num, den),
{
    let q = num as int / den as int;
    let r = num as int % den as int;
    lemma_fundamental_div_mod(num as int, den as int);
    lemma_mod_bound(num as int, den as int);
    assert(c * den > 0) by (nonlinear_arith)
        requires
            c > 0,
            den > 0,
    ;
    assert(c * num == q * (c * den) + c * r) by (nonlinear_arith)
        requires
            num == den * q + r,
    ;
    assert(0 <= c * r < c * den) by (nonlinear_arith)
        requires
            0 <= r < den,
            c > 0,
    ;
    lemma_fundamental_div_mod_converse((c * num) as int, (c * den) as int, q, c * r);
    assert(2 * (c * r) < c * den <==> 2 * r < den) by (nonlinear_arith)
        requires
            c > 0,
    ;
    assert(2 * (c * r) == c * den <==> 2 * r == den) by (nonlinear_arith)
        requires
            c > 0,
    ;
}

/// A rounded number takes in what is less than a quarter of its last digit.
proof fn lemma_absorbs(mant: nat, exp: nat, low: nat)
    requires
        pow2(23) <= mant < pow2(24),
        exp >= 2,
        low < pow2((exp - 2) as nat),
    ensures
        mant * pow2(exp) >= low,
        nearest(mant * pow2(exp) + low, 1) == mant * pow2(exp),
        nearest((mant * pow2(exp) - low) as nat, 1) == mant * pow2(exp),
{
    let u = pow2(exp);
    let v = mant * u;
    lemma2_to64();
    lemma_pow2_pos(exp);
    lemma_pow2_unfold(exp);
    lemma_pow2_unfold((exp - 1) as nat);
    lemma_pow2_adds(23, exp);
    lemma_pow2_adds(24, exp);
    assert(pow2(23 + exp) <= v && v + u <= pow2(24 + exp) && u <= v) by (nonlinear_arith)
        requires
            v == mant * u,
            pow2(23 + exp) == pow2(23) * u,
            pow2(24 + exp) == pow2(24) * u,
            1 <= pow2(23) <= mant,
            mant + 1 <= pow2(24),
    ;
    assert(1 * u == u);
    lemma_nearest(v + low, 1, exp);
    lemma_fundamental_div_mod_converse((v + low) as int, u as int, mant as int, low as int);
    if low > 0 {
        if mant > pow2(23) {
            assert(v - u >= pow2(23 + exp)) by (nonlinear_arith)
                requires
                    v == mant * u,
                    pow2(23 + exp) == pow2(23) * u,
                    mant >= pow2(23) + 1,
            ;
            lemma_nearest((v - low) as nat, 1, exp);
            assert((mant - 1) * u == v - u) by (nonlinear_arith)
                requires
                    v == mant * u,
            ;
            lemma_fundamental_div_mod_converse(v - low, u as int, mant - 1, u - low);
        } else {
            let k = (exp - 1) as nat;
            let h = pow2(k);
            lemma_pow2_adds(22, exp);
            assert(v == pow2(24) * h && pow2(22) * u <= v - u) by (nonlinear_arith)
                requires
                    v == mant * u,
                    mant == pow2(23),
                    pow2(23) == 0x80_0000,
                    pow2(24) == 0x100_0000,
                    pow2(22) == 0x40_0000,
                    u == 2 * h,
            ;
            assert(23 + k == 22 + exp && 24 + k == 23 + exp);
            assert(1 * h == h);
            lemma_nearest((v - low) as nat, 1, k);
            assert((pow2(24) - 1) * h == v - h) by (nonlinear_arith)
                requires
                    v == pow2(24) * h,
            ;
            lemma_fundamental_div_mod_converse(v - low, h as int, pow2(24) - 1, h - low);
        }
    }
}

/// The root of `x` takes up `24 + k` binary digits, or at most 24 where `k` is 0.
spec fn has_root_spare(x: nat, k: nat) -> bool {
    &&& x < pow2(24 + k) * pow2(24 + k)
    &&& k > 0 ==> pow2((23 + k) as nat) * pow2((23 + k) as nat) <= x
}

proof fn lemma_whole_root(x: nat)
    ensures
        whole_root(x) * whole_root(x) <= x < (whole_root(x) + 1) * (whole_root(x) + 1),
    decreases x,
{
    if x > 0 {
        lemma_whole_root(x / 4);
        let h = whole_root(x / 4);
        let y = x / 4;
        assert((2 * h) * (2 * h) <= x < (2 * h + 2) * (2 * h + 2)) by (nonlinear_arith)
            requires
                h * h <= y < (h + 1) * (h + 1),
                4 * y <= x < 4 * y + 4,
        ;
        let w = whole_root(x);
        assert(w == 2 * h || w == 2 * h + 1);
        if w == 2 * h {
            assert(w * w <= x < (w + 1) * (w + 1));
        } else {
            assert(w + 1 == 2 * h + 2);
            assert(w * w <= x < (w + 1) * (w + 1));
        }
    } else {
        let w = whole_root(x);
        assert(w * w <= x < (w + 1) * (w + 1)) by (nonlinear_arith)
            requires
                w == 0,
                x == 0,
        ;
    }
}

proof fn lemma_whole_root_unique(x: nat, r: nat)
    requires
        r * r <= x < (r + 1) * (r + 1),
    ensures
        r == whole_root(x),
{
    lemma_whole_root(x);
    let w = whole_root(x);
    if r < w {
        assert((r + 1) * (r + 1) <= w * w) by (nonlinear_arith)
            requires
                r + 1 <= w,
        ;
    } else if w < r {
        assert((w + 1) * (w + 1) <= r * r) by (nonlinear_arith)
            requires
                w + 1 <= r,
        ;
    }
}

proof fn lemma_root_spare(x: nat)
    ensures
        has_root_spare(x, root_spare_digits(x)),
    decreases x,
{
    lemma_pow2_pos(24);
    assert(pow2(24) * pow2(24) > 0) by (nonlinear_arith)
        requires
            pow2(24) > 0,
    ;
    if x >= pow2(24) * pow2(24) {
        lemma_root_spare(x / 4);
        let j = root_spare_digits(x / 4);
        let a = pow2(24 + j);
        let b = pow2((23 + j) as nat);
        lemma_pow2_unfold((24 + j + 1) as nat);
        lemma_pow2_unfold((23 + j + 1) as nat);
        assert((2 * a) * (2 * a) == 4 * (a * a)) by (nonlinear_arith);
        assert((2 * b) * (2 * b) == 4 * (b * b)) by (nonlinear_arith);
        assert(24 + (j + 1) == 24 + j + 1 && 23 + (j + 1) == 23 + j + 1);
    }
}

/// `p` stands for twice the root of `n`: twice the whole root `f`, and one more
/// where that is not the root itself.
spec fn sticky_root(n: nat, f: nat, p: nat) -> bool {
    &&& f * f <= n < (f + 1) * (f + 1)
    &&& p == 2 * f + (if f * f == n { 0nat } else { 1 })
}

/// Against an even bound, `p` compares as twice the root does.
proof fn lemma_root_bound(n: nat, f: nat, p: nat, m: nat)
    requires
        sticky_root(n, f, p),
        m % 2 == 0,
    ensures
        p < m <==> 4 * n < m * m,
        p == m <==> 4 * n == m * m,
{
    let h = m / 2;
    assert(m * m == 4 * (h * h)) by (nonlinear_arith)
        requires
            m == 2 * h,
    ;
    if f < h {
        assert((f + 1) * (f + 1) <= h * h) by (nonlinear_arith)
            requires
                f + 1 <= h,
        ;
    } else if f > h {
        assert(f * f > h * h) by (nonlinear_arith)
            requires
                f > h,
        ;
    }
}

proof fn lemma_root_rounds(x: nat, n: nat, f: nat, p: nat, g: nat)
    requires
        sticky_root(n, f, p),
        pow2(30) <= f < pow2(32),
        n % 0x40_0000_0000 == 0,
        g >= 1,
        x == n * (pow2(g) * pow2(g)),
    ensures
        nearest(scaled_num(p, g - 1), scaled_den(g - 1)) == nearest_root(x),
{
    lemma2_to64();
    lemma2_to64_rest();
    let k = root_spare_digits(x);
    lemma_root_spare(x);
    let a = pow2((g - 1) as nat);
    let num = p * a;
    lemma_pow2_pos((g - 1) as nat);
    lemma_pow2_unfold(g);
    assert(x == 4 * n * (a * a)) by (nonlinear_arith)
        requires
            x == n * (pow2(g) * pow2(g)),
            pow2(g) == 2 * a,
    ;
    // How many digits of `p` are cut off.
    assert(k >= g + 2) by {
        if k < g + 2 {
            let c = pow2(24 + k);
            if 24 + k < g + 29 {
                lemma_pow2_strictly_increases(24 + k, g + 29);
            }
            lemma_pow2_adds(30, (g - 1) as nat);
            assert(c * c <= 4 * n * (a * a)) by (nonlinear_arith)
                requires
                    c <= pow2(30) * a,
                    pow2(30) <= f,
                    f * f <= n,
            ;
        }
    }
    let s = (k - (g - 1)) as nat;
    assert(s <= 10) by {
        if s > 10 {
            let c = pow2((23 + k) as nat);
            lemma_pow2_adds(33, (g - 1) as nat);
            if g + 32 < 23 + k {
                lemma_pow2_strictly_increases(g + 32, (23 + k) as nat);
            }
            assert(c * c > 4 * n * (a * a)) by (nonlinear_arith)
                requires
                    c >= pow2(33) * a,
                    pow2(33) == 2 * pow2(32),
                    f + 1 <= pow2(32),
                    n < (f + 1) * (f + 1),
                    a > 0,
            ;
        }
    }
    let w = pow2(s);
    let h = pow2((s - 1) as nat);
    lemma_pow2_unfold(s);
    lemma_pow2_unfold((s - 1) as nat);
    lemma_pow2_pos((s - 1) as nat);
    lemma_pow2_adds(s, (g - 1) as nat);
    lemma_pow2_adds((s - 1) as nat, (g - 1) as nat);
    // `num` has as many digits to spare as the root.
    let hi = pow2(24 + s);
    let lo = pow2((23 + s) as nat);
    lemma_pow2_unfold(24 + s);
    lemma_pow2_unfold((23 + s) as nat);
    lemma_root_bound(n, f, p, hi);
    lemma_root_bound(n, f, p, lo);
    lemma_pow2_adds(24 + s, (g - 1) as nat);
    lemma_pow2_adds((23 + s) as nat, (g - 1) as nat);
    assert(4 * n * (a * a) < (hi * a) * (hi * a) <==> 4 * n < hi * hi) by (nonlinear_arith)
        requires
            a > 0,
    ;
    assert(4 * n * (a * a) < (lo * a) * (lo * a) <==> 4 * n < lo * lo) by (nonlinear_arith)
        requires
            a > 0,
    ;
    assert(num < hi * a <==> p < hi) by (nonlinear_arith)
        requires
            num == p * a,
            a > 0,
    ;
    assert(num < lo * a <==> p < lo) by (nonlinear_arith)
        requires
            num == p * a,
            a > 0,
    ;
    assert(has_spare(num, 1, k));
    lemma_nearest(num, 1, k);
    lemma_half_even_scaled(p, w, a);
    assert(a * p == num && a * w == 1 * pow2(k)) by (nonlinear_arith)
        requires
            num == p * a,
            pow2(k) == w * a,
    ;
    // The digits that are left are those of the whole root.
    let q = (p / w) as nat;
    let r = p % w;
    lemma_fundamental_div_mod(p as int, w as int);
    lemma_mod_bound(p as int, w as int);
    let c = w * q;
    let c1 = w * (q + 1);
    assert(c == 2 * (h * q) && c1 == c + w) by (nonlinear_arith)
        requires
            c == w * q,
            c1 == w * (q + 1),
            w == 2 * h,
    ;
    lemma_root_bound(n, f, p, c);
    lemma_root_bound(n, f, p, c1);
    let unit = pow2(k) * pow2(k);
    let v = h * h;
    assert(unit == (4 * (a * a)) * v) by (nonlinear_arith)
        requires
            unit == pow2(k) * pow2(k),
            pow2(k) == w * a,
            w == 2 * h,
            v == h * h,
    ;
    assert(v > 0 && 4 * (a * a) > 0) by (nonlinear_arith)
        requires
            v == h * h,
            h > 0,
            a > 0,
    ;
    assert(x == (4 * (a * a)) * n) by (nonlinear_arith)
        requires
            x == 4 * n * (a * a),
    ;
    lemma_truncate_quotient(n as int, (4 * (a * a)) as int, v as int);
    assert(q * q * v <= n < (q + 1) * (q + 1) * v) by (nonlinear_arith)
        requires
            c * c <= 4 * n < c1 * c1,
            c == w * q,
            c1 == w * (q + 1),
            w == 2 * h,
            v == h * h,
    ;
    let y = n as int / v as int;
    lemma_fundamental_div_mod(n as int, v as int);
    lemma_mod_bound(n as int, v as int);
    assert(q * q <= y < (q + 1) * (q + 1)) by (nonlinear_arith)
        requires
            n == v * y + n as int % v as int,
            0 <= n as int % (v as int) < v,
            q * q * v <= n < (q + 1) * (q + 1) * v,
            v > 0,
    ;
    lemma_whole_root_unique(y as nat, q);
    // So is the decision to round up, and there is no tie.
    let mid = c + h;
    lemma_root_bound(n, f, p, mid);
    let o = 2 * q + 1;
    assert(mid == h * o) by (nonlinear_arith)
        requires
            mid == c + h,
            c == w * q,
            w == 2 * h,
            o == 2 * q + 1,
    ;
    assert(mid * mid == (o * o) * v) by (nonlinear_arith)
        requires
            mid == h * o,
            v == h * h,
    ;
    lemma_no_tie(n, o, s);
    assert(4 * x > o * o * unit <==> 4 * n > mid * mid) by (nonlinear_arith)
        requires
            x == (4 * (a * a)) * n,
            unit == (4 * (a * a)) * v,
            mid * mid == (o * o) * v,
            4 * (a * a) > 0,
    ;
}

proof fn lemma_no_tie(n: nat, o: nat, s: nat)
    requires
        2 <= s <= 10,
        o % 2 == 1,
        n % 0x40_0000_0000 == 0,
    ensures
        4 * n != (o * o) * (pow2((s - 1) as nat) * pow2((s - 1) as nat)),
{
    lemma2_to64();
    lemma2_to64_rest();
    let t = n / 0x40_0000_0000;
    let j = (2 * s - 2) as nat;
    lemma_pow2_adds((s - 1) as nat, (s - 1) as nat);
    lemma_pow2_adds(j, (40 - j) as nat);
    lemma_pow2_pos(j);
    lemma_pow2_unfold((40 - j) as nat);
    let u = pow2((39 - j) as nat);
    if 4 * n == (o * o) * pow2(j) {
        assert(o * o == t * pow2((40 - j) as nat)) by (nonlinear_arith)
            requires
                4 * n == (o * o) * pow2(j),
                n == 0x40_0000_0000 * t,
                0x100_0000_0000 == pow2(j) * pow2((40 - j) as nat),
                pow2(j) > 0,
        ;
        assert(o * o == 2 * (t * u)) by (nonlinear_arith)
            requires
                o * o == t * (2 * u),
        ;
    }
    let i = o / 2;
    assert(o * o == 2 * (2 * i * i + 2 * i) + 1) by (nonlinear_arith)
        requires
            o == 2 * i + 1,
    ;
}

/// The whole root.
fn whole_sqrt(n: u64) -> (r: u64)
    requires
        n < 0x8000_0000_0000_0000,
    ensures
        r < 0x1_0000_0000,
        r * r <= n < (r + 1) * (r + 1),
{
    let mut r: u64 = 0;
    let mut bit: u64 = 0x8000_0000;
    let mut left: u32 = 32;
    proof {
        lemma2_to64();
    }
    while left > 0
        invariant
            n < 0x8000_0000_0000_0000,
            left <= 32,
            left > 0 ==> bit == pow2((left - 1) as nat) && 0 < bit,
            r + pow2(left as nat) <= 0x1_0000_0000,
            pow2(0) == 1,
            r * r <= n < (r + pow2(left as nat)) * (r + pow2(left as nat)),
        decreases left,
    {
        proof {
            lemma_pow2_unfold(left as nat);
            if left > 1 {
                lemma_pow2_unfold((left - 1) as nat);
                lemma_pow2_pos((left - 2) as nat);
            }
        }
        let t: u64 = r + bit;
        assert(t * t <= 0xffff_ffff * 0xffff_ffff) by (nonlinear_arith)
            requires
                t <= 0xffff_ffff,
        ;
        if t * t <= n {
            r = t;
        }
        bit = bit / 2;
        left = left - 1;
    }
    r
}

/// A nonnegative finite single-precision number: `mant * 2^exp` units.
#[derive(Clone, Copy)]
pub struct Single {
    mant: u64,
    exp: u32,
}

impl Single {
    /// The number, in units.
    pub closed spec fn value(self) -> nat {
        self.mant as nat * pow2(self.exp as nat)
    }

    /// The significand is in the usual range: it uses all its digits unless the
    /// number is too small for that.
    pub closed spec fn wf(self) -> bool {
        &&& self.mant < 0x100_0000
        &&& self.mant >= 0x80_0000 || self.exp == 0
        &&& self.exp < 3000
    }
}

/// `p` cut after `s` binary digits: `q` is what is left, `half` the last digit
/// cut off, and `low` what the other digits that were cut off stand for.
spec fn cut(p: nat, s: nat, q: nat, half: bool, low: nat) -> bool {
    if s == 0 {
        q == p && !half && low == 0
    } else {
        &&& p == q * pow2(s) + (if half { pow2((s - 1) as nat) } else { 0 }) + low
        &&& low < pow2((s - 1) as nat)
    }
}

proof fn lemma_cut_more(p: nat, s: nat, q: nat, half: bool, low: nat)
    requires
        cut(p, s, q, half, low),
    ensures
        cut(
            p,
            s + 1,
            q / 2,
            q % 2 == 1,
            low + (if half { pow2((s - 1) as nat) } else { 0 }),
        ),
        low + (if half { pow2((s - 1) as nat) } else { 0 }) > 0 <==> half || low > 0,
{
    let low2 = low + (if half { pow2((s - 1) as nat) } else { 0 });
    lemma_pow2_unfold(s + 1);
    lemma_pow2_pos(s);
    if s > 0 {
        lemma_pow2_unfold(s);
        lemma_pow2_pos((s - 1) as nat);
    } else {
        lemma2_to64();
    }
    let b: nat = q % 2;
    assert(q * pow2(s) == (q / 2) * (2 * pow2(s)) + b * pow2(s)) by (nonlinear_arith)
        requires
            q == 2 * (q / 2) + b,
    ;
    if b == 0 {
        assert(b * pow2(s) == 0) by (nonlinear_arith)
            requires
                b == 0,
        ;
    } else {
        assert(b * pow2(s) == pow2(s)) by (nonlinear_arith)
            requires
                b == 1,
        ;
    }
    if s == 0 {
        assert(q * pow2(s) == q) by (nonlinear_arith)
            requires
                pow2(s) == 1,
        ;
    }
}

proof fn lemma_cut_short(p: nat, s: nat, q: nat, half: bool, low: nat)
    requires
        cut(p, s, q, half, low),
        p < pow2(64),
        q > 0,
    ensures
        s < 64,
{
    if s >= 64 {
        if s > 64 {
            lemma_pow2_strictly_increases(64, s);
        }
        assert(q * pow2(s) >= pow2(s)) by (nonlinear_arith)
            requires
                q > 0,
        ;
    }
}

proof fn lemma_cut_rounds(p: nat, s: nat, q: nat, half: bool, low: nat)
    requires
        cut(p, s, q, half, low),
    ensures
        half_even(p, pow2(s)) == if half && (low > 0 || q % 2 == 1) { q + 1 } else { q },
{
    if s == 0 {
        lemma2_to64();
    } else {
        lemma_pow2_unfold(s);
        lemma_pow2_pos(s);
        let r: int = (if half { pow2((s - 1) as nat) as int } else { 0 }) + low;
        lemma_fundamental_div_mod_converse(p as int, pow2(s) as int, q as int, r);
    }
}

/// A number that fits in a significand is its own nearest.
pub proof fn lemma_exact(p: nat, e: nat)
    requires
        p < pow2(24),
    ensures
        nearest(p * pow2(e), 1) == p * pow2(e),
{
    let v = p * pow2(e);
    let k = spare_digits(v, 1);
    lemma_spare_digits(v, 1);
    lemma_pow2_adds(24, e);
    lemma_pow2_pos(e);
    assert(v < pow2(24 + e)) by (nonlinear_arith)
        requires
            v == p * pow2(e),
            p < pow2(24),
            pow2(e) > 0,
            pow2(24 + e) == pow2(24) * pow2(e),
    ;
    if k > e {
        if k > e + 1 {
            lemma_pow2_strictly_increases(24 + e, (23 + k) as nat);
        }
    }
    lemma_pow2_adds(k, (e - k) as nat);
    lemma_pow2_pos(k);
    let d = (e - k) as nat;
    assert(v == (p * pow2(d)) * pow2(k)) by (nonlinear_arith)
        requires
            v == p * pow2(e),
            pow2(e) == pow2(k) * pow2(d),
    ;
    lemma_fundamental_div_mod_converse(v as int, pow2(k) as int, (p * pow2(d)) as int, 0);
}

proof fn lemma_round(p: nat, e: int, s: nat, q: nat, half: bool, low: nat)
    requires
        cut(p, s, q, half, low),
        q < pow2(24),
        e + s >= 0,
        s == 0 || e + s == 0 || q >= pow2(23),
    ensures
        nearest(scaled_num(p, e), scaled_den(e)) == (if half && (low > 0 || q % 2 == 1) {
            q + 1
        } else {
            q
        }) * pow2((e + s) as nat),
{
    let k = (e + s) as nat;
    let num = scaled_num(p, e);
    let den = scaled_den(e);
    if s == 0 {
        lemma_exact(p, e as nat);
    } else {
        lemma_cut_rounds(p, s, q, half, low);
        lemma_pow2_pos(s);
        lemma_pow2_unfold(s);
        lemma_pow2_adds(24, s);
        lemma_pow2_adds(23, s);
        assert((q + 1) * pow2(s) == q * pow2(s) + pow2(s)) by (nonlinear_arith);
        assert(p < pow2(24 + s)) by (nonlinear_arith)
            requires
                p < (q + 1) * pow2(s),
                q + 1 <= pow2(24),
                pow2(24 + s) == pow2(24) * pow2(s),
        ;
        if q >= pow2(23) {
            assert(p >= pow2(23 + s)) by (nonlinear_arith)
                requires
                    p >= q * pow2(s),
                    q >= pow2(23),
                    pow2(23 + s) == pow2(23) * pow2(s),
            ;
        }
        if e >= 0 {
            let c = pow2(e as nat);
            lemma_pow2_pos(e as nat);
            lemma_pow2_adds(24 + s, e as nat);
            lemma_pow2_adds(23 + s, e as nat);
            lemma_pow2_adds(s, e as nat);
            assert(24 + s + e == 24 + k && 23 + s + e == 23 + k);
            assert(p * c < pow2(24 + s) * c) by (nonlinear_arith)
                requires
                    p < pow2(24 + s),
                    c > 0,
            ;
            if q >= pow2(23) {
                assert(p * c >= pow2(23 + s) * c) by (nonlinear_arith)
                    requires
                        p >= pow2(23 + s),
                ;
            }
            assert(has_spare(num, den, k));
            lemma_nearest(num, den, k);
            lemma_half_even_scaled(p, pow2(s), c);
            assert(c * p == num && c * pow2(s) == den * pow2(k)) by (nonlinear_arith)
                requires
                    num == p * c,
                    den == 1,
                    pow2(k) == pow2(s) * c,
            ;
        } else {
            lemma_pow2_adds((-e) as nat, 24 + k);
            lemma_pow2_adds((-e) as nat, k);
            if k > 0 {
                lemma_pow2_adds((-e) as nat, (23 + k) as nat);
            }
            assert(has_spare(num, den, k));
            lemma_nearest(num, den, k);
        }
    }
}

/// The number nearest to `p * 2^e` units.
fn round(p: u64, e: i32) -> (r: Single)
    requires
        -1000 < e < 1000,
    ensures
        r.wf(),
        r.value() == nearest(scaled_num(p as nat, e as int), scaled_den(e as int)),
{
    let mut q: u64 = p;
    let mut s: u32 = 0;
    let mut half = false;
    let mut rest = false;
    let ghost mut low: nat = 0;
    proof {
        lemma2_to64();
        lemma2_to64_rest();
    }
    while q >= 0x100_0000 || e + (s as i32) < 0
        invariant
            -1000 < e < 1000,
            s <= 1000,
            pow2(64) == 0x1_0000_0000_0000_0000,
            cut(p as nat, s as nat, q as nat, half, low),
            rest == (low > 0),
            s == 0 || e + s <= 0 || q >= 0x80_0000,
        decreases q + (if e + s < 0 { -(e + s) } else { 0 }),
    {
        proof {
            if q > 0 {
                lemma_cut_short(p as nat, s as nat, q as nat, half, low);
            }
            lemma_cut_more(p as nat, s as nat, q as nat, half, low);
            low = low + (if half { pow2((s - 1) as nat) } else { 0 });
        }
        rest = rest || half;
        half = q % 2 == 1;
        q = q / 2;
        s = s + 1;
    }
    proof {
        lemma_round(p as nat, e as int, s as nat, q as nat, half, low);
    }
    let mut mant: u64 = if half && (rest || q % 2 == 1) {
        q + 1
    } else {
        q
    };
    let mut exp: u32 = (e + (s as i32)) as u32;
    let ghost value = mant as nat * pow2(exp as nat);
    if mant == 0x100_0000 {
        proof {
            lemma_pow2_unfold((exp + 1) as nat);
        }
        mant = 0x80_0000;
        exp = exp + 1;
    }
    while mant < 0x80_0000 && exp > 0
        invariant
            mant < 0x100_0000,
            exp <= 2001,
            mant as nat * pow2(exp as nat) == value,
        decreases exp,
    {
        proof {
            lemma_pow2_unfold(exp as nat);
            assert(mant * (2 * pow2((exp - 1) as nat)) == (2 * mant) * pow2((exp - 1) as nat))
                by (nonlinear_arith);
        }
        mant = 2 * mant;
        exp = exp - 1;
    }
    Single { mant, exp }
}

/// A fraction may be scaled.
pub proof fn lemma_nearest_scaled(num: nat, den: nat, c: nat)
    requires
        den > 0,
        c > 0,
    ensures
        nearest(c * num, c * den) == nearest(num, den),
{
    let k = spare_digits(num, den);
    lemma_spare_digits(num, den);
    lemma_pow2_pos(k);
    let hi = pow2(24 + k);
    assert(c * num < (c * den) * hi) by (nonlinear_arith)
        requires
            c > 0,
            num < den * hi,
    ;
    if k > 0 {
        let lo = pow2((23 + k) as nat);
        assert((c * den) * lo <= c * num) by (nonlinear_arith)
            requires
                c > 0,
                den * lo <= num,
        ;
    }
    assert(c * den > 0 && den * pow2(k) > 0) by (nonlinear_arith)
        requires
            c > 0,
            den > 0,
            pow2(k) > 0,
    ;
    lemma_nearest(c * num, c * den, k);
    lemma_half_even_scaled(num, den * pow2(k), c);
    assert(c * (den * pow2(k)) == (c * den) * pow2(k)) by (nonlinear_arith);
}

/// The powers of two above and below the line of a fraction cancel.
proof fn lemma_fraction(a: nat, b: nat, up: nat, down: nat)
    requires
        b > 0,
    ensures
        nearest(a * pow2(up), b * pow2(down)) == nearest(
            scaled_num(a, up - down),
            b * scaled_den(up - down),
        ),
{
    if up >= down {
        let c = pow2(down);
        let d = pow2((up - down) as nat);
        lemma_pow2_adds(down, (up - down) as nat);
        lemma_pow2_pos(down);
        assert(a * pow2(up) == c * (a * d) && b * c == c * b) by (nonlinear_arith)
            requires
                pow2(up) == c * d,
        ;
        lemma_nearest_scaled(a * d, b, c);
        assert(scaled_num(a, up - down) == a * d);
        assert(b * scaled_den(up - down) == b) by (nonlinear_arith)
            requires
                scaled_den(up - down) == 1,
        ;
    } else {
        let c = pow2(up);
        let d = pow2((down - up) as nat);
        lemma_pow2_adds(up, (down - up) as nat);
        lemma_pow2_pos(up);
        lemma_pow2_pos((down - up) as nat);
        assert(b * d > 0 && a * c == c * a && b * pow2(down) == c * (b * d)) by (nonlinear_arith)
            requires
                b > 0,
                d > 0,
                pow2(down) == c * d,
        ;
        lemma_nearest_scaled(a, b * d, c);
        assert(scaled_num(a, up - down) == a);
        assert(b * scaled_den(up - down) == b * d);
    }
}

/// `p` stands for `2 * n / d`: twice the whole part, and one more where the
/// division leaves a rest.
spec fn sticky(n: nat, d: nat, p: nat) -> bool {
    p == 2 * (n / d) + (if n % d == 0 { 0nat } else { 1 })
}

proof fn lemma_sticky(n: nat, d: nat, p: nat)
    requires
        d > 0,
        sticky(n, d, p),
    ensures
        n % d == 0 ==> 2 * n == d * p,
        n % d != 0 ==> p % 2 == 1 && d * (p - 1) < 2 * n < d * (p + 1),
{
    let q = n as int / d as int;
    let r = n as int % d as int;
    lemma_fundamental_div_mod(n as int, d as int);
    lemma_mod_bound(n as int, d as int);
    if r == 0 {
        assert(2 * n == d * p) by (nonlinear_arith)
            requires
                n == d * q,
                p == 2 * q,
        ;
    } else {
        assert(d * (p - 1) < 2 * n < d * (p + 1)) by (nonlinear_arith)
            requires
                n == d * q + r,
                0 < r < d,
                p == 2 * q + 1,
        ;
    }
}

/// Against an even bound, `p` compares as the exact quotient does.
proof fn lemma_sticky_bound(n: nat, d: nat, p: nat, m: nat)
    requires
        d > 0,
        sticky(n, d, p),
        m % 2 == 0,
    ensures
        2 * n < d * m <==> p < m,
{
    lemma_sticky(n, d, p);
    if p < m {
        if n % d == 0 {
            assert(d * p < d * m) by (nonlinear_arith)
                requires
                    p < m,
                    d > 0,
            ;
        } else {
            assert(d * (p + 1) <= d * m) by (nonlinear_arith)
                requires
                    p + 1 <= m,
                    d > 0,
            ;
        }
    } else {
        if n % d == 0 {
            assert(d * p >= d * m) by (nonlinear_arith)
                requires
                    p >= m,
            ;
        } else {
            assert(d * (p - 1) >= d * m) by (nonlinear_arith)
                requires
                    p - 1 >= m,
            ;
        }
    }
}

proof fn lemma_sticky_half_even(n: nat, d: nat, p: nat, s: nat)
    requires
        d > 0,
        sticky(n, d, p),
        s >= 2,
    ensures
        half_even(2 * n, d * pow2(s)) == half_even(p, pow2(s)),
{
    lemma_sticky(n, d, p);
    lemma_pow2_pos(s);
    let w = pow2(s);
    if n % d == 0 {
        lemma_half_even_scaled(p, w, d);
    } else {
        let h = pow2((s - 1) as nat);
        lemma_pow2_unfold(s);
        lemma_pow2_unfold((s - 1) as nat);
        let q = p as int / w as int;
        let r = p as int % w as int;
        lemma_fundamental_div_mod(p as int, w as int);
        lemma_mod_bound(p as int, w as int);
        let wq = w * q;
        assert(wq % 2 == 0) by {
            let g = pow2((s - 2) as nat);
            assert(wq == 2 * (2 * g * q)) by (nonlinear_arith)
                requires
                    wq == w * q,
                    w == 2 * (2 * g),
            ;
        }
        assert(r % 2 == 1);
        let rest = 2 * n - d * wq;
        assert(d * (p - 1) == d * wq + d * (r - 1) && d * (p + 1) == d * wq + d * (r + 1))
            by (nonlinear_arith)
            requires
                p == wq + r,
        ;
        assert(d * (r - 1) >= 0 && d * (r + 1) <= d * w) by (nonlinear_arith)
            requires
                d > 0,
                1 <= r,
                r + 1 <= w,
        ;
        assert(2 * n == q * (d * w) + rest) by (nonlinear_arith)
            requires
                rest == 2 * n - d * wq,
                wq == w * q,
        ;
        assert(d * w > 0) by (nonlinear_arith)
            requires
                d > 0,
                w > 0,
        ;
        lemma_fundamental_div_mod_converse((2 * n) as int, (d * w) as int, q, rest);
        assert(d * w == 2 * (d * h)) by (nonlinear_arith)
            requires
                w == 2 * h,
        ;
        if r < h {
            assert(d * (r + 1) <= d * h) by (nonlinear_arith)
                requires
                    r + 1 <= h,
            ;
        } else {
            assert(d * (r - 1) >= d * h) by (nonlinear_arith)
                requires
                    r - 1 >= h,
            ;
        }
    }
}

/// Rounding a quotient may go by `p`, where enough digits are cut off.
proof fn lemma_sticky_nearest(n: nat, d: nat, p: nat, e: int)
    requires
        d > 0,
        sticky(n, d, p),
        p >= pow2(30),
    ensures
        nearest(scaled_num(2 * n, e), d * scaled_den(e)) == nearest(
            scaled_num(p, e),
            scaled_den(e),
        ),
{
    let num = scaled_num(p, e);
    let den = scaled_den(e);
    if e < 0 {
        lemma_pow2_pos((-e) as nat);
    }
    let k = spare_digits(num, den);
    lemma_spare_digits(num, den);
    lemma_pow2_adds(30, if e >= 0 { e as nat } else { 0 });
    assert(k - e >= 2) by {
        if k - e < 2 {
            if e >= 0 {
                lemma_pow2_pos(e as nat);
                assert(p * pow2(e as nat) >= pow2(30) * pow2(e as nat)) by (nonlinear_arith)
                    requires
                        p >= pow2(30),
                ;
                lemma_pow2_strictly_increases(24 + k, (30 + e) as nat);
            } else {
                lemma_pow2_adds((-e) as nat, 24 + k);
                lemma_pow2_strictly_increases((-e + 24 + k) as nat, 30);
            }
        }
    }
    let s = (k - e) as nat;
    lemma_pow2_unfold(24 + s);
    lemma_pow2_unfold((23 + s) as nat);
    lemma_sticky_bound(n, d, p, pow2(24 + s));
    lemma_sticky_bound(n, d, p, pow2((23 + s) as nat));
    lemma_sticky_half_even(n, d, p, s);
    lemma_pow2_pos(s);
    lemma_pow2_pos(k);
    assert(d * pow2(s) > 0) by (nonlinear_arith)
        requires
            d > 0,
            pow2(s) > 0,
    ;
    let num2 = scaled_num(2 * n, e);
    let den2 = d * den;
    if e >= 0 {
        let c = pow2(e as nat);
        lemma_pow2_pos(e as nat);
        lemma_pow2_adds(24 + s, e as nat);
        lemma_pow2_adds((23 + s) as nat, e as nat);
        lemma_pow2_adds(s, e as nat);
        let hi = pow2(24 + s);
        let lo = pow2((23 + s) as nat);
        assert(p * c < hi * c <==> p < hi) by (nonlinear_arith)
            requires
                c > 0,
        ;
        assert(p * c < lo * c <==> p < lo) by (nonlinear_arith)
            requires
                c > 0,
        ;
        assert((2 * n) * c < d * (hi * c) <==> 2 * n < d * hi) by (nonlinear_arith)
            requires
                c > 0,
        ;
        assert((2 * n) * c < d * (lo * c) <==> 2 * n < d * lo) by (nonlinear_arith)
            requires
                c > 0,
        ;
        assert(has_spare(num2, den2, k));
        lemma_nearest(num2, den2, k);
        lemma_nearest(num, den, k);
        lemma_half_even_scaled(2 * n, d * pow2(s), c);
        lemma_half_even_scaled(p, pow2(s), c);
        assert(c * (d * pow2(s)) == den2 * pow2(k) && c * (2 * n) == num2) by (nonlinear_arith)
            requires
                den2 == d,
                pow2(k) == pow2(s) * c,
                num2 == (2 * n) * c,
        ;
        assert(c * pow2(s) == den * pow2(k) && c * p == num) by (nonlinear_arith)
            requires
                den == 1,
                pow2(k) == pow2(s) * c,
                num == p * c,
        ;
    } else {
        lemma_pow2_adds((-e) as nat, 24 + k);
        lemma_pow2_adds((-e) as nat, (23 + k) as nat);
        lemma_pow2_adds((-e) as nat, k);
        assert((d * den) * pow2(24 + k) == d * pow2(24 + s)) by (nonlinear_arith)
            requires
                pow2(24 + s) == den * pow2(24 + k),
        ;
        assert((d * den) * pow2((23 + k) as nat) == d * pow2((23 + s) as nat)) by (nonlinear_arith)
            requires
                pow2((23 + s) as nat) == den * pow2((23 + k) as nat),
        ;
        assert((d * den) * pow2(k) == d * pow2(s)) by (nonlinear_arith)
            requires
                pow2(s) == den * pow2(k),
        ;
        assert(den2 > 0) by (nonlinear_arith)
            requires
                den2 == d * den,
                d > 0,
                den > 0,
        ;
        assert(has_spare(num2, den2, k));
        lemma_nearest(num2, den2, k);
        lemma_nearest(num, den, k);
    }
}

/// Rounding does not pass a power of two.
pub proof fn lemma_nearest_bound(num: nat, den: nat, j: nat)
    requires
        den > 0,
        num <= den * pow2(j),
    ensures
        nearest(num, den) <= pow2(j),
{
    let k = spare_digits(num, den);
    lemma_spare_digits(num, den);
    lemma_pow2_pos(k);
    if k > j {
        lemma_pow2_strictly_increases(j, (23 + k) as nat);
        assert(den * pow2(j) < den * pow2((23 + k) as nat)) by (nonlinear_arith)
            requires
                den > 0,
                pow2(j) < pow2((23 + k) as nat),
        ;
    }
    let c = pow2((j - k) as nat);
    let d = den * pow2(k);
    lemma_pow2_adds(k, (j - k) as nat);
    assert(d > 0 && num <= d * c) by (nonlinear_arith)
        requires
            den > 0,
            pow2(k) > 0,
            d == den * pow2(k),
            num <= den * pow2(j),
            pow2(j) == pow2(k) * c,
    ;
    let q = num as int / d as int;
    lemma_fundamental_div_mod(num as int, d as int);
    lemma_mod_bound(num as int, d as int);
    assert(q <= c && (q == c ==> num as int % d as int == 0)) by (nonlinear_arith)
        requires
            num == d * q + num as int % d as int,
            0 <= num as int % (d as int),
            num <= d * c,
            d > 0,
    ;
    assert(half_even(num, d) * pow2(k) <= c * pow2(k)) by (nonlinear_arith)
        requires
            half_even(num, d) <= c,
    ;
}

proof fn lemma_truncate_quotient(x: int, c: int, d: int)
    requires
        x >= 0,
        c > 0,
        d > 0,
    ensures
        (c * x) / (c * d) == x / d,
{
    let q = x / d;
    let r = x % d;
    lemma_fundamental_div_mod(x, d);
    lemma_mod_bound(x, d);
    assert(c * x == q * (c * d) + c * r && 0 <= c * r < c * d) by (nonlinear_arith)
        requires
            x == d * q + r,
            0 <= r < d,
            c > 0,
    ;
    lemma_fundamental_div_mod_converse(c * x, c * d, q, c * r);
}

proof fn lemma_less(a: Single, b: Single)
    requires
        a.wf(),
        b.wf(),
        a.exp < b.exp,
    ensures
        a.value() < b.value(),
{
    let c = pow2((a.exp + 1) as nat);
    let d = pow2(b.exp as nat);
    lemma_pow2_unfold((a.exp + 1) as nat);
    lemma_pow2_pos(a.exp as nat);
    if a.exp + 1 < b.exp {
        lemma_pow2_strictly_increases((a.exp + 1) as nat, b.exp as nat);
    }
    assert(a.mant * pow2(a.exp as nat) < 0x80_0000 * c) by (nonlinear_arith)
        requires
            a.mant < 0x100_0000,
            c == 2 * pow2(a.exp as nat),
            pow2(a.exp as nat) > 0,
    ;
    assert(0x80_0000 * c <= b.mant * d) by (nonlinear_arith)
        requires
            b.mant >= 0x80_0000,
            c <= d,
    ;
}

/// Rounding does not fall below a power of two.
pub proof fn lemma_nearest_floor(num: nat, den: nat, j: nat)
    requires
        den > 0,
        num >= den * pow2(j),
    ensures
        nearest(num, den) >= pow2(j),
{
    let k = spare_digits(num, den);
    lemma_spare_digits(num, den);
    lemma_pow2_pos(k);
    // A power of two that the number reaches, and that has no digit to cut off.
    let i: nat = if j >= k {
        j
    } else {
        (23 + k) as nat
    };
    if j < k {
        lemma_pow2_strictly_increases(j, i);
    }
    let c = pow2((i - k) as nat);
    let d = den * pow2(k);
    lemma_pow2_adds(k, (i - k) as nat);
    assert(d > 0 && num >= d * c) by (nonlinear_arith)
        requires
            den > 0,
            pow2(k) > 0,
            d == den * pow2(k),
            num >= den * pow2(i),
            pow2(i) == pow2(k) * c,
    ;
    let q = num as int / d as int;
    lemma_fundamental_div_mod(num as int, d as int);
    lemma_mod_bound(num as int, d as int);
    assert(q >= c) by (nonlinear_arith)
        requires
            num == d * q + num as int % d as int,
            num as int % (d as int) < d,
            num >= d * c,
            d > 0,
    ;
    assert(half_even(num, d) * pow2(k) >= c * pow2(k)) by (nonlinear_arith)
        requires
            half_even(num, d) >= c,
    ;
}

/// Rounding does not pass a representable number.
pub proof fn lemma_nearest_at_most(num: nat, den: nat, p: nat, e: nat)
    requires
        den > 0,
        p < pow2(24),
        num <= den * (p * pow2(e)),
    ensures
        nearest(num, den) <= p * pow2(e),
{
    let v = p * pow2(e);
    let k = spare_digits(num, den);
    lemma_spare_digits(num, den);
    lemma_pow2_pos(k);
    lemma_pow2_pos(e);
    let d = den * pow2(k);
    assert(d > 0) by (nonlinear_arith)
        requires
            den > 0,
            pow2(k) > 0,
            d == den * pow2(k),
    ;
    // The bound is a multiple of what the last digit kept stands for.
    if k > e {
        lemma_pow2_adds(24, e);
        if 24 + e < 23 + k {
            lemma_pow2_strictly_increases(24 + e, (23 + k) as nat);
        }
        assert(num < den * pow2((23 + k) as nat)) by (nonlinear_arith)
            requires
                num <= den * v,
                v == p * pow2(e),
                p < pow2(24),
                pow2(24) * pow2(e) <= pow2((23 + k) as nat),
                den > 0,
                pow2(e) > 0,
        ;
    }
    let c = p * pow2((e - k) as nat);
    lemma_pow2_adds((e - k) as nat, k);
    assert(v == c * pow2(k)) by (nonlinear_arith)
        requires
            v == p * pow2(e),
            c == p * pow2((e - k) as nat),
            pow2(e) == pow2((e - k) as nat) * pow2(k),
    ;
    let q = num as int / d as int;
    lemma_fundamental_div_mod(num as int, d as int);
    lemma_mod_bound(num as int, d as int);
    assert(q <= c && (q == c ==> num as int % d as int == 0)) by (nonlinear_arith)
        requires
            num == d * q + num as int % d as int,
            0 <= num as int % (d as int),
            num <= den * v,
            v == c * pow2(k),
            d == den * pow2(k),
            d > 0,
    ;
    assert(half_even(num, d) * pow2(k) <= c * pow2(k)) by (nonlinear_arith)
        requires
            half_even(num, d) <= c,
    ;
}

/// How far `v` units are from `num / den`, in parts of `den`.
pub open spec fn distance(v: nat, num: nat, den: nat) -> int {
    if v * den >= num {
        v * den - num
    } else {
        num - v * den
    }
}

/// No whole number is nearer than the one that is rounded to.
proof fn lemma_half_even_nearest(num: nat, den: nat, c: nat)
    requires
        den > 0,
    ensures
        distance(half_even(num, den), num, den) <= distance(c, num, den),
{
    let q = num as int / den as int;
    let rest = num as int % den as int;
    lemma_fundamental_div_mod(num as int, den as int);
    lemma_mod_bound(num as int, den as int);
    assert(q * den == den * q) by (nonlinear_arith);
    assert((q + 1) * den == q * den + den) by (nonlinear_arith);
    if c <= q {
        assert(c * den <= q * den) by (nonlinear_arith)
            requires
                c <= q,
        ;
    } else {
        assert(c * den >= (q + 1) * den) by (nonlinear_arith)
            requires
                c >= q + 1,
        ;
    }
}

/// Where `k` digits are cut off, a number that fits in a significand is a multiple
/// of the last digit that is kept, or no larger than any number that has digits to
/// cut off.
proof fn lemma_grid(p: nat, e: nat, k: nat) -> (c: nat)
    requires
        p < pow2(24),
    ensures
        e >= k ==> p * pow2(e) == c * pow2(k),
        e < k ==> p * pow2(e) <= pow2(23) * pow2(k),
{
    lemma_pow2_pos(e);
    if e >= k {
        let c = p * pow2((e - k) as nat);
        lemma_pow2_adds((e - k) as nat, k);
        assert(p * pow2(e) == c * pow2(k)) by (nonlinear_arith)
            requires
                c == p * pow2((e - k) as nat),
                pow2(e) == pow2((e - k) as nat) * pow2(k),
        ;
        c
    } else {
        lemma_pow2_adds(23, k);
        lemma_pow2_adds(24, e);
        if 24 + e < 23 + k {
            lemma_pow2_strictly_increases(24 + e, 23 + k);
        }
        assert(p * pow2(e) <= pow2(24) * pow2(e)) by (nonlinear_arith)
            requires
                p < pow2(24),
                pow2(e) > 0,
        ;
        0
    }
}

/// The rounded number is the nearest: no number that fits in a significand, with
/// any power of two, is nearer to `num / den`.
pub proof fn rounding_is_to_nearest(num: nat, den: nat, p: nat, e: nat)
    requires
        den > 0,
        p < pow2(24),
    ensures
        distance(nearest(num, den), num, den) <= distance(p * pow2(e), num, den),
{
    let k = spare_digits(num, den);
    let d = den * pow2(k);
    let v = p * pow2(e);
    lemma_spare_digits(num, den);
    lemma_pow2_pos(k);
    assert(d > 0) by (nonlinear_arith)
        requires
            den > 0,
            pow2(k) > 0,
            d == den * pow2(k),
    ;
    let m = half_even(num, d);
    assert((m * pow2(k)) * den == m * d) by (nonlinear_arith)
        requires
            d == den * pow2(k),
    ;
    let c = lemma_grid(p, e, k);
    if e >= k {
        assert(v * den == c * d) by (nonlinear_arith)
            requires
                v == c * pow2(k),
                d == den * pow2(k),
        ;
        lemma_half_even_nearest(num, d, c);
    } else {
        // Some power of two that has no digit to cut off lies between the two.
        let b = pow2(23);
        lemma_pow2_adds(23, k);
        assert(v * den <= b * d <= num) by (nonlinear_arith)
            requires
                v <= b * pow2(k),
                den * (b * pow2(k)) <= num,
                d == den * pow2(k),
        ;
        lemma_half_even_nearest(num, d, b);
    }
}

/// A rounded number fits in a significand, with some power of two.
proof fn lemma_nearest_fits(num: nat, den: nat) -> (r: (nat, nat))
    requires
        den > 0,
    ensures
        r.0 < pow2(24),
        nearest(num, den) == r.0 * pow2(r.1),
{
    let k = spare_digits(num, den);
    let d = den * pow2(k);
    lemma_spare_digits(num, den);
    lemma_pow2_pos(k);
    lemma_pow2_adds(24, k);
    lemma2_to64();
    assert(d > 0) by (nonlinear_arith)
        requires
            den > 0,
            pow2(k) > 0,
            d == den * pow2(k),
    ;
    let m = half_even(num, d);
    let q = num as int / d as int;
    lemma_fundamental_div_mod(num as int, d as int);
    lemma_mod_bound(num as int, d as int);
    assert(q < 0x100_0000) by (nonlinear_arith)
        requires
            num >= d * q,
            num < den * (0x100_0000 * pow2(k)),
            d == den * pow2(k),
            d > 0,
    ;
    if m < 0x100_0000 {
        (m, k)
    } else {
        lemma_pow2_unfold(k + 1);
        assert(m * pow2(k) == 0x80_0000 * pow2(k + 1)) by (nonlinear_arith)
            requires
                m == 0x100_0000,
                pow2(k + 1) == 2 * pow2(k),
        ;
        (0x80_0000, k + 1)
    }
}

/// Halfway between two neighbours, the even one is taken: what lies in the middle of two
/// significands next to each other is rounded to the even one of them.
pub proof fn ties_go_to_even(m: nat, k: nat)
    requires
        pow2(23) <= m < pow2(24),
    ensures
        nearest((2 * m + 1) * pow2(k), 1) == (if m % 2 == 0 {
            m
        } else {
            m + 1
        }) * pow2(k + 1),
{
    let num = (2 * m + 1) * pow2(k);
    let d = pow2(k + 1);
    lemma_pow2_pos(k);
    lemma_pow2_unfold(k + 1);
    lemma_pow2_adds(24, k + 1);
    lemma_pow2_adds(23, k + 1);
    let hi = pow2(24);
    let lo = pow2(23);
    assert(num < hi * d && lo * d <= num) by (nonlinear_arith)
        requires
            num == (2 * m + 1) * pow2(k),
            d == 2 * pow2(k),
            lo <= m < hi,
            pow2(k) > 0,
    ;
    assert(1 * pow2(24 + (k + 1)) == hi * d);
    assert(1 * pow2((23 + (k + 1)) as nat) == lo * d);
    lemma_nearest(num, 1, k + 1);
    assert(1 * d == d);
    assert(num == m * d + pow2(k)) by (nonlinear_arith)
        requires
            num == (2 * m + 1) * pow2(k),
            d == 2 * pow2(k),
    ;
    lemma_fundamental_div_mod_converse(num as int, d as int, m as int, pow2(k) as int);
}

/// Rounding keeps the order.
pub proof fn rounding_is_monotone(a: nat, b: nat, den: nat)
    requires
        den > 0,
        a <= b,
    ensures
        nearest(a, den) <= nearest(b, den),
{
    let x = nearest(a, den);
    let y = nearest(b, den);
    if x > y {
        // The middle of the two lies at or below `a`, and at or above `b`.
        let (p, e) = lemma_nearest_fits(a, den);
        let (q, f) = lemma_nearest_fits(b, den);
        rounding_is_to_nearest(a, den, q, f);
        rounding_is_to_nearest(b, den, p, e);
        assert(x * den > y * den) by (nonlinear_arith)
            requires
                x > y,
                den > 0,
        ;
        assert(a == b);
    }
}

/// The rounded root is the nearest: the root of `x` lies on its side of the middle
/// between it and any other number that fits in a significand, with any power of
/// two.
pub proof fn roots_round_to_nearest(x: nat, p: nat, e: nat)
    requires
        p < pow2(24),
    ensures
        ({
            let r = nearest_root(x);
            let v = p * pow2(e);
            &&& v < r ==> (v + r) * (v + r) <= 4 * x
            &&& v > r ==> 4 * x <= (v + r) * (v + r)
        }),
{
    let k = root_spare_digits(x);
    let h = pow2(k);
    let unit = h * h;
    let m = whole_root(x / unit);
    let r = nearest_root(x);
    let v = p * pow2(e);
    lemma_root_spare(x);
    lemma_pow2_pos(k);
    let c = lemma_grid(p, e, k);
    assert(unit > 0) by (nonlinear_arith)
        requires
            unit == h * h,
            h > 0,
    ;
    lemma_whole_root(x / unit);
    lemma_fundamental_div_mod(x as int, unit as int);
    lemma_mod_bound(x as int, unit as int);
    let y = x as int / unit as int;
    assert(m * m * unit <= x < (m + 1) * (m + 1) * unit) by (nonlinear_arith)
        requires
            x == unit * y + x as int % unit as int,
            0 <= x as int % (unit as int) < unit,
            m * m <= y < (m + 1) * (m + 1),
            unit > 0,
    ;
    if e < k {
        // The root has digits to cut off, so it is no smaller.
        let b = pow2(23) * h;
        lemma_pow2_adds(23, k);
        assert(pow2(23) <= m) by (nonlinear_arith)
            requires
                b * b <= x,
                b == pow2(23) * h,
                x < (m + 1) * (m + 1) * unit,
                unit == h * h,
                h > 0,
        ;
        assert(v <= m * h) by (nonlinear_arith)
            requires
                v <= pow2(23) * h,
                pow2(23) <= m,
        ;
    } else {
        assert(c <= m ==> v <= m * h) by (nonlinear_arith)
            requires
                v == c * h,
        ;
        assert(c >= m + 1 ==> v >= (m + 1) * h) by (nonlinear_arith)
            requires
                v == c * h,
        ;
    }
    assert(v <= m * h || v >= (m + 1) * h);
    assert((m + 1) * h == m * h + h) by (nonlinear_arith);
    let up = 4 * x > (2 * m + 1) * (2 * m + 1) * unit;
    assert(r == if up {
        (m + 1) * h
    } else {
        m * h
    });
    let w = v + r;
    let low = m * h;
    assert(4 * (low * low) <= 4 * x) by (nonlinear_arith)
        requires
            m * m * unit <= x,
            unit == h * h,
            low == m * h,
    ;
    assert(4 * x < 4 * ((low + h) * (low + h))) by (nonlinear_arith)
        requires
            x < (m + 1) * (m + 1) * unit,
            unit == h * h,
            low == m * h,
    ;
    assert((2 * m + 1) * (2 * m + 1) * unit == (2 * low + h) * (2 * low + h)) by (nonlinear_arith)
        requires
            unit == h * h,
            low == m * h,
    ;
    if v < r {
        let bound: nat = if up {
            2 * low + h
        } else {
            2 * low
        };
        assert(w * w <= bound * bound) by (nonlinear_arith)
            requires
                w <= bound,
        ;
        assert((2 * low) * (2 * low) == 4 * (low * low)) by (nonlinear_arith);
    }
    if v > r {
        let bound: nat = if up {
            2 * (low + h)
        } else {
            2 * low + h
        };
        assert(w * w >= bound * bound) by (nonlinear_arith)
            requires
                w >= bound,
        ;
        assert((2 * (low + h)) * (2 * (low + h)) == 4 * ((low + h) * (low + h)))
            by (nonlinear_arith);
    }
}

/// Below `2^(24 + m)` units, rounding moves a number by at most half of `2^m` units.
pub proof fn lemma_error_below(num: nat, den: nat, m: nat)
    requires
        den > 0,
        num < den * pow2(24 + m),
    ensures
        2 * distance(nearest(num, den), num, den) <= den * pow2(m),
{
    let k = spare_digits(num, den);
    let d = den * pow2(k);
    lemma_spare_digits(num, den);
    lemma_pow2_pos(k);
    assert(d > 0) by (nonlinear_arith)
        requires
            den > 0,
            pow2(k) > 0,
            d == den * pow2(k),
    ;
    if k > m {
        if 24 + m < 23 + k {
            lemma_pow2_strictly_increases(24 + m, (23 + k) as nat);
        }
        assert(den * pow2(24 + m) <= den * pow2((23 + k) as nat)) by (nonlinear_arith)
            requires
                pow2(24 + m) <= pow2((23 + k) as nat),
        ;
    }
    if k < m {
        lemma_pow2_strictly_increases(k, m);
    }
    let q = num as int / d as int;
    let rest = num as int % d as int;
    let h = half_even(num, d);
    lemma_fundamental_div_mod(num as int, d as int);
    lemma_mod_bound(num as int, d as int);
    assert((h * pow2(k)) * den == h * d) by (nonlinear_arith)
        requires
            d == den * pow2(k),
    ;
    assert(q * d == d * q && (q + 1) * d == d * q + d) by (nonlinear_arith);
    assert(2 * distance(nearest(num, den), num, den) <= d);
    assert(d <= den * pow2(m)) by (nonlinear_arith)
        requires
            d == den * pow2(k),
            pow2(k) <= pow2(m),
    ;
}

/// Rounding moves a number by at most one part in 2^24, and by at most half a unit
/// where it does not fill a significand. A whole number of units that does not fill
/// one is not moved.
pub proof fn rounding_error_is_bounded(num: nat, den: nat)
    requires
        den > 0,
    ensures
        distance(nearest(num, den), num, den) * 0x100_0000 <= num + 0x80_0000 * den,
        num >= 0x80_0000 * den || den == 1 ==> distance(nearest(num, den), num, den) * 0x100_0000
            <= num,
{
    let k = spare_digits(num, den);
    let d = den * pow2(k);
    lemma_spare_digits(num, den);
    lemma_pow2_pos(k);
    lemma2_to64();
    assert(d > 0) by (nonlinear_arith)
        requires
            den > 0,
            pow2(k) > 0,
            d == den * pow2(k),
    ;
    let m = half_even(num, d);
    let q = num as int / d as int;
    let rest = num as int % d as int;
    lemma_fundamental_div_mod(num as int, d as int);
    lemma_mod_bound(num as int, d as int);
    assert((m * pow2(k)) * den == m * d) by (nonlinear_arith)
        requires
            d == den * pow2(k),
    ;
    assert(q * d == d * q && (q + 1) * d == d * q + d) by (nonlinear_arith);
    assert(2 * distance(nearest(num, den), num, den) <= d);
    if k > 0 {
        lemma_pow2_adds(23, k);
        assert(d * 0x80_0000 <= num) by (nonlinear_arith)
            requires
                d == den * pow2(k),
                den * (0x80_0000 * pow2(k)) <= num,
        ;
    } else {
        assert(d == den) by (nonlinear_arith)
            requires
                d == den * pow2(k),
                pow2(k) == 1,
        ;
    }
}

/// Rounding up adds at most one part in 2^24 to a number that fills a
/// significand.
pub proof fn lemma_nearest_error(num: nat, den: nat)
    requires
        den > 0,
        num >= den * pow2(23),
    ensures
        nearest(num, den) * den * 0x100_0000 <= num * 0x100_0001,
{
    let k = spare_digits(num, den);
    lemma_spare_digits(num, den);
    lemma_pow2_pos(k);
    lemma_pow2_adds(23, k);
    lemma2_to64();
    let d = den * pow2(k);
    assert(d > 0) by (nonlinear_arith)
        requires
            den > 0,
            pow2(k) > 0,
            d == den * pow2(k),
    ;
    assert(d * 0x80_0000 <= num) by (nonlinear_arith)
        requires
            d == den * pow2(k),
            den * (0x80_0000 * pow2(k)) <= num,
    ;
    let m = half_even(num, d);
    lemma_fundamental_div_mod(num as int, d as int);
    lemma_mod_bound(num as int, d as int);
    let q = num as int / d as int;
    let rest = num as int % d as int;
    assert(2 * (m * d) <= 2 * num + d) by (nonlinear_arith)
        requires
            num == d * q + rest,
            0 <= rest < d,
            m == q || (m == q + 1 && 2 * rest >= d),
    ;
    assert((m * pow2(k)) * den == m * d) by (nonlinear_arith)
        requires
            d == den * pow2(k),
    ;
}

/// A whole number is in the range of single precision.
pub proof fn lemma_whole_below(n: nat)
    requires
        n <= u64::MAX,
    ensures
        of_whole(n) < pow2(277),
{
    lemma2_to64();
    lemma2_to64_rest();
    lemma_pow2_strictly_increases(213, 277);
    if n > 0 {
        lemma_of_whole_range(n, 0, 64);
    } else {
        lemma_pow2_pos(213);
        lemma_nearest_bound(0, 1, 213);
    }
}

/// A whole number is within the range of the operations.
pub proof fn lemma_whole_range(n: nat)
    requires
        n <= u64::MAX,
    ensures
        of_whole(n) <= pow2(300),
        n > 0 ==> of_whole(n) > 0,
{
    lemma2_to64();
    lemma2_to64_rest();
    if n > 0 {
        lemma_of_whole_range(n, 0, 64);
        lemma_pow2_pos(149);
        lemma_pow2_strictly_increases(213, 300);
    } else {
        lemma_pow2_pos(300);
        lemma_nearest_bound(0, 1, 300);
    }
}

/// A whole number keeps, when rounded, between the powers of two around it.
pub proof fn lemma_of_whole_range(n: nat, lo: nat, hi: nat)
    requires
        pow2(lo) <= n <= pow2(hi),
    ensures
        pow2(149 + lo) <= of_whole(n) <= pow2(149 + hi),
{
    lemma_pow2_adds(149, lo);
    lemma_pow2_adds(149, hi);
    lemma_pow2_pos(149);
    assert(1 * pow2(149 + lo) <= n * one() <= 1 * pow2(149 + hi)) by (nonlinear_arith)
        requires
            pow2(lo) <= n <= pow2(hi),
            pow2(149 + lo) == one() * pow2(lo),
            pow2(149 + hi) == one() * pow2(hi),
    ;
    lemma_nearest_floor(n * one(), 1, 149 + lo);
    lemma_nearest_bound(n * one(), 1, 149 + hi);
}

/// `mant * 2^by`.
fn lift(mant: u64, by: u32) -> (r: u64)
    requires
        mant < 0x100_0000,
        by < 40,
    ensures
        r == mant * pow2(by as nat),
        r < 0x8000_0000_0000_0000,
{
    let mut r: u64 = mant;
    let mut i: u32 = 0;
    proof {
        lemma2_to64();
        lemma2_to64_rest();
    }
    while i < by
        invariant
            mant < 0x100_0000,
            i <= by < 40,
            r == mant * pow2(i as nat),
            pow2(39) == 0x80_0000_0000,
        decreases by - i,
    {
        proof {
            lemma_pow2_unfold((i + 1) as nat);
            if i + 1 < 39 {
                lemma_pow2_strictly_increases((i + 1) as nat, 39);
            }
            assert(mant * (2 * pow2(i as nat)) == 2 * (mant * pow2(i as nat)))
                by (nonlinear_arith);
            assert(mant * pow2((i + 1) as nat) <= 0xff_ffff * 0x80_0000_0000) by (nonlinear_arith)
                requires
                    mant <= 0xff_ffff,
                    pow2((i + 1) as nat) <= 0x80_0000_0000,
            ;
        }
        r = 2 * r;
        i = i + 1;
    }
    proof {
        if by < 39 {
            lemma_pow2_strictly_increases(by as nat, 39);
        }
        assert(mant * pow2(by as nat) <= 0xff_ffff * 0x80_0000_0000) by (nonlinear_arith)
            requires
                mant <= 0xff_ffff,
                pow2(by as nat) <= 0x80_0000_0000,
        ;
    }
    r
}

proof fn lemma_gap(a: Single, b: Single)
    requires
        a.wf(),
        b.wf(),
        a.exp >= b.exp + 26,
    ensures
        b.value() <= a.value(),
        nearest(a.value() + b.value(), 1) == a.value(),
        nearest((a.value() - b.value()) as nat, 1) == a.value(),
{
    lemma2_to64();
    let c = pow2(b.exp as nat);
    lemma_pow2_pos(b.exp as nat);
    lemma_pow2_adds(24, b.exp as nat);
    if b.exp + 24 < a.exp - 2 {
        lemma_pow2_strictly_increases((b.exp + 24) as nat, (a.exp - 2) as nat);
    }
    assert(b.mant * c < 0x100_0000 * c) by (nonlinear_arith)
        requires
            b.mant < 0x100_0000,
            c > 0,
    ;
    lemma_absorbs(a.mant as nat, a.exp as nat, b.value());
}

proof fn lemma_lifted(a: Single, b: Single, lifted: nat)
    requires
        a.exp >= b.exp,
        lifted == a.mant * pow2((a.exp - b.exp) as nat),
    ensures
        a.value() == lifted * pow2(b.exp as nat),
{
    let c = pow2(b.exp as nat);
    let d = pow2((a.exp - b.exp) as nat);
    lemma_pow2_adds((a.exp - b.exp) as nat, b.exp as nat);
    assert(a.mant * pow2(a.exp as nat) == (a.mant * d) * c) by (nonlinear_arith)
        requires
            pow2(a.exp as nat) == d * c,
    ;
}

impl Single {
    /// The number `mant * 2^exp` units.
    pub fn from_parts(mant: u64, exp: u32) -> (r: Single)
        requires
            mant < 0x100_0000,
            mant >= 0x80_0000 || exp == 0,
            exp < 3000,
        ensures
            r.wf(),
            r.value() == mant as nat * pow2(exp as nat),
    {
        Single { mant, exp }
    }

    /// The significand and the exponent.
    pub fn parts(self) -> (r: (u64, u32))
        requires
            self.wf(),
        ensures
            r.0 < 0x100_0000,
            r.0 >= 0x80_0000 || r.1 == 0,
            self.value() == r.0 as nat * pow2(r.1 as nat),
            self.value() < pow2(277) ==> r.1 < 254,
    {
        proof {
            self.lemma_huge();
        }
        (self.mant, self.exp)
    }

    /// Whether the number is too large for single precision.
    pub fn is_huge(self) -> (r: bool)
        requires
            self.wf(),
        ensures
            r == (self.value() >= pow2(277)),
    {
        proof {
            self.lemma_huge();
        }
        self.exp >= 254
    }

    proof fn lemma_huge(self)
        requires
            self.wf(),
        ensures
            self.exp >= 254 <==> self.value() >= pow2(277),
    {
        lemma2_to64();
        lemma_pow2_pos(self.exp as nat);
        let c = pow2(self.exp as nat);
        if self.exp >= 254 {
            lemma_pow2_adds(23, 254);
            if self.exp > 254 {
                lemma_pow2_strictly_increases(254, self.exp as nat);
            }
            assert(self.mant * c >= 0x80_0000 * pow2(254)) by (nonlinear_arith)
                requires
                    self.mant >= 0x80_0000,
                    c >= pow2(254),
            ;
        } else {
            lemma_pow2_adds(24, 253);
            if self.exp < 253 {
                lemma_pow2_strictly_increases(self.exp as nat, 253);
            }
            assert(self.mant * c < 0x100_0000 * pow2(253)) by (nonlinear_arith)
                requires
                    self.mant < 0x100_0000,
                    0 < c <= pow2(253),
            ;
        }
    }

    /// Whether the number is the smaller one.
    pub fn less(self, other: Single) -> (r: bool)
        requires
            self.wf(),
            other.wf(),
        ensures
            r == (self.value() < other.value()),
    {
        proof {
            lemma_pow2_pos(self.exp as nat);
            if self.exp < other.exp {
                lemma_less(self, other);
            } else if other.exp < self.exp {
                lemma_less(other, self);
            } else {
                let c = pow2(self.exp as nat);
                assert(self.mant * c < other.mant * c <==> self.mant < other.mant)
                    by (nonlinear_arith)
                    requires
                        c > 0,
                ;
            }
        }
        if self.exp == other.exp {
            self.mant < other.mant
        } else {
            self.exp < other.exp
        }
    }

    /// The whole number `n`, rounded.
    pub fn from_whole(n: u64) -> (r: Single)
        ensures
            r.wf(),
            r.value() == of_whole(n as nat),
    {
        round(n, 149)
    }

    proof fn lemma_exp(self)
        requires
            self.wf(),
            self.value() <= pow2(300),
        ensures
            self.exp <= 300,
    {
        if self.exp > 300 {
            lemma_pow2_strictly_increases(300, self.exp as nat);
            assert(self.mant * pow2(self.exp as nat) >= pow2(self.exp as nat)) by (nonlinear_arith)
                requires
                    self.mant >= 1,
            ;
        }
    }

    /// The rounded sum.
    pub fn plus(self, other: Single) -> (r: Single)
        requires
            self.wf(),
            other.wf(),
            self.value() <= pow2(300),
            other.value() <= pow2(300),
        ensures
            r.wf(),
            r.value() == nearest(self.value() + other.value(), 1),
    {
        if self.exp < other.exp {
            other.plus_smaller(self)
        } else {
            self.plus_smaller(other)
        }
    }

    fn plus_smaller(self, other: Single) -> (r: Single)
        requires
            self.wf(),
            other.wf(),
            self.exp >= other.exp,
            self.value() <= pow2(300),
        ensures
            r.wf(),
            r.value() == nearest(self.value() + other.value(), 1),
    {
        proof {
            self.lemma_exp();
        }
        let gap: u32 = self.exp - other.exp;
        if gap >= 26 {
            proof {
                lemma_gap(self, other);
            }
            self
        } else {
            let lifted: u64 = lift(self.mant, gap);
            proof {
                lemma_lifted(self, other, lifted as nat);
                let c = pow2(other.exp as nat);
                assert((lifted + other.mant) * c == self.value() + other.value())
                    by (nonlinear_arith)
                    requires
                        self.value() == lifted * c,
                        other.value() == other.mant * c,
                ;
            }
            round(lifted + other.mant, other.exp as i32)
        }
    }

    /// The rounded difference.
    pub fn minus(self, other: Single) -> (r: Single)
        requires
            self.wf(),
            other.wf(),
            other.value() <= self.value() <= pow2(300),
        ensures
            r.wf(),
            r.value() == nearest((self.value() - other.value()) as nat, 1),
    {
        proof {
            self.lemma_exp();
            if self.exp < other.exp {
                lemma_less(self, other);
            }
        }
        let gap: u32 = self.exp - other.exp;
        if gap >= 26 {
            proof {
                lemma_gap(self, other);
            }
            self
        } else {
            let lifted: u64 = lift(self.mant, gap);
            proof {
                lemma_lifted(self, other, lifted as nat);
                let c = pow2(other.exp as nat);
                lemma_pow2_pos(other.exp as nat);
                assert(lifted >= other.mant) by (nonlinear_arith)
                    requires
                        self.value() == lifted * c,
                        other.value() == other.mant * c,
                        self.value() >= other.value(),
                        c > 0,
                ;
                assert((lifted - other.mant) * c == self.value() - other.value())
                    by (nonlinear_arith)
                    requires
                        self.value() == lifted * c,
                        other.value() == other.mant * c,
                ;
            }
            round(lifted - other.mant, other.exp as i32)
        }
    }

    /// The rounded product.
    pub fn times(self, other: Single) -> (r: Single)
        requires
            self.wf(),
            other.wf(),
            self.value() <= pow2(300),
            other.value() <= pow2(300),
        ensures
            r.wf(),
            r.value() == product(self.value(), other.value()),
    {
        proof {
            self.lemma_exp();
            other.lemma_exp();
        }
        assert(self.mant * other.mant < 0x1_0000_0000_0000) by (nonlinear_arith)
            requires
                self.mant < 0x100_0000,
                other.mant < 0x100_0000,
        ;
        let p: u64 = self.mant * other.mant;
        let e: i32 = (self.exp + other.exp) as i32 - 149;
        proof {
            let up = (self.exp + other.exp) as nat;
            lemma_pow2_adds(self.exp as nat, other.exp as nat);
            assert(self.value() * other.value() == p * pow2(up)) by (nonlinear_arith)
                requires
                    self.value() == self.mant * pow2(self.exp as nat),
                    other.value() == other.mant * pow2(other.exp as nat),
                    p == self.mant * other.mant,
                    pow2(up) == pow2(self.exp as nat) * pow2(other.exp as nat),
            ;
            lemma_fraction(p as nat, 1, up, 149);
            assert(1 * pow2(149) == one() && 1 * scaled_den(e as int) == scaled_den(e as int))
                by (nonlinear_arith)
                requires
                    one() == pow2(149),
            ;
        }
        round(p, e)
    }

    /// The significand with all its digits in use, and how many were added.
    fn full(self) -> (r: (u64, u32))
        requires
            0 < self.mant < 0x100_0000,
        ensures
            0x80_0000 <= r.0 < 0x100_0000,
            r.1 < 24,
            r.0 == self.mant * pow2(r.1 as nat),
    {
        let mut mant: u64 = self.mant;
        let mut lift: u32 = 0;
        proof {
            lemma2_to64();
        }
        while mant < 0x80_0000
            invariant
                0 < mant < 0x100_0000,
                lift < 24,
                mant == self.mant * pow2(lift as nat),
                self.mant > 0,
                pow2(23) == 0x80_0000,
            decreases 0x100_0000 - mant,
        {
            proof {
                lemma_pow2_unfold((lift + 1) as nat);
                assert(self.mant * (2 * pow2(lift as nat)) == 2 * (self.mant * pow2(lift as nat)))
                    by (nonlinear_arith);
                if lift == 23 {
                    assert(self.mant * pow2(lift as nat) >= pow2(lift as nat)) by (nonlinear_arith)
                        requires
                            self.mant >= 1,
                    ;
                }
            }
            mant = 2 * mant;
            lift = lift + 1;
        }
        (mant, lift)
    }

    /// The rounded quotient.
    pub fn over(self, other: Single) -> (r: Single)
        requires
            self.wf(),
            other.wf(),
            self.value() <= pow2(300),
            0 < other.value() <= pow2(300),
        ensures
            r.wf(),
            r.value() == quotient(self.value(), other.value()),
    {
        proof {
            self.lemma_exp();
            other.lemma_exp();
            lemma_pow2_pos(other.exp as nat);
            if other.mant == 0 {
                assert(other.mant * pow2(other.exp as nat) == 0) by (nonlinear_arith)
                    requires
                        other.mant == 0,
                ;
            }
        }
        if self.mant == 0 {
            proof {
                assert(self.value() == 0) by (nonlinear_arith)
                    requires
                        self.value() == self.mant * pow2(self.exp as nat),
                        self.mant == 0,
                ;
                assert(0 * one() == 0);
                lemma_pow2_pos(0);
                lemma_pow2_pos(24);
                assert(other.value() * pow2(24) > 0 && other.value() * pow2(0) > 0)
                    by (nonlinear_arith)
                    requires
                        other.value() > 0,
                        pow2(24) > 0,
                        pow2(0) > 0,
                ;
                lemma_nearest(0, other.value(), 0);
                lemma_fundamental_div_mod_converse(0, (other.value() * pow2(0)) as int, 0, 0);
            }
            return Single { mant: 0, exp: 0 };
        }
        proof {
            lemma2_to64();
            lemma2_to64_rest();
        }
        let (mant, lift) = self.full();
        let n: u64 = mant * 0x80_0000_0000;
        let whole: u64 = n / other.mant;
        assert(whole >= 0x4000_0000 && whole <= n) by (nonlinear_arith)
            requires
                whole == n / other.mant,
                n >= 0x4000_0000_0000_0000,
                0 < other.mant < 0x100_0000,
        ;
        let p: u64 = if n % other.mant == 0 {
            2 * whole
        } else {
            2 * whole + 1
        };
        let e: i32 = self.exp as i32 + 109 - lift as i32 - other.exp as i32;
        proof {
            let up = (self.exp + 149) as nat;
            let down = (other.exp + 40 + lift) as nat;
            let twice = 2 * (n as nat);
            lemma_sticky_nearest(n as nat, other.mant as nat, p as nat, e as int);
            lemma_fraction(twice, other.mant as nat, up, down);
            assert(up - down == e);
            // Both sides of the fraction carry the factors that were added.
            let c = pow2((40 + lift) as nat);
            lemma_pow2_pos((40 + lift) as nat);
            lemma_pow2_adds(40, lift as nat);
            lemma_pow2_adds(self.exp as nat, 149);
            lemma_pow2_adds(other.exp as nat, (40 + lift) as nat);
            assert(twice == self.mant * c) by (nonlinear_arith)
                requires
                    twice == 2 * (mant * 0x80_0000_0000),
                    mant == self.mant * pow2(lift as nat),
                    c == 0x100_0000_0000 * pow2(lift as nat),
            ;
            let num = self.value() * one();
            let den = other.value();
            assert(twice * pow2(up) == c * num && other.mant * pow2(down) == c * den)
                by (nonlinear_arith)
                requires
                    twice == self.mant * c,
                    pow2(up) == pow2(self.exp as nat) * one(),
                    num == (self.mant * pow2(self.exp as nat)) * one(),
                    pow2(down) == pow2(other.exp as nat) * c,
                    den == other.mant * pow2(other.exp as nat),
            ;
            lemma_nearest_scaled(num, den, c);
        }
        round(p, e)
    }

    /// The rounded root.
    pub fn sqrt(self) -> (r: Single)
        requires
            self.wf(),
            self.value() <= pow2(300),
        ensures
            r.wf(),
            r.value() == root(self.value()),
    {
        proof {
            self.lemma_exp();
            lemma2_to64();
            lemma2_to64_rest();
        }
        if self.mant == 0 {
            proof {
                assert(self.value() * one() == 0) by (nonlinear_arith)
                    requires
                        self.value() == self.mant * pow2(self.exp as nat),
                        self.mant == 0,
                ;
                assert(pow2(0) * pow2(0) == 1) by (nonlinear_arith)
                    requires
                        pow2(0) == 1,
                ;
                assert(0nat / 1 == 0);
                assert((2 * 0nat + 1) * (2 * 0nat + 1) * 1 == 1);
            }
            return Single { mant: 0, exp: 0 };
        }
        // Under the root stands `n * 4^g`, with enough digits in `n`.
        let (mant, lift) = self.full();
        let e: u32 = self.exp + 149 - lift;
        let n: u64;
        let g: u32;
        if e % 2 == 0 {
            n = mant * 0x40_0000_0000;
            g = (e - 38) / 2;
        } else {
            n = mant * 0x80_0000_0000;
            g = (e - 39) / 2;
        }
        let f: u64 = whole_sqrt(n);
        assert(f * f <= n);
        let exact = f * f == n;
        let p: u64 = if exact {
            2 * f
        } else {
            2 * f + 1
        };
        proof {
            let x = self.value() * one();
            let d: nat = if e % 2 == 0 {
                38
            } else {
                39
            };
            assert(n == mant * pow2(d) && e == 2 * g + d);
            lemma_pow2_adds(self.exp as nat, 149);
            lemma_pow2_adds(lift as nat, e as nat);
            lemma_pow2_adds(d, (2 * g) as nat);
            lemma_pow2_adds(g as nat, g as nat);
            assert(x == n * (pow2(g as nat) * pow2(g as nat))) by (nonlinear_arith)
                requires
                    x == (self.mant * pow2(self.exp as nat)) * one(),
                    pow2((self.exp + 149) as nat) == pow2(self.exp as nat) * one(),
                    pow2((self.exp + 149) as nat) == pow2(lift as nat) * pow2(e as nat),
                    mant == self.mant * pow2(lift as nat),
                    pow2(e as nat) == pow2(d) * pow2((2 * g) as nat),
                    pow2((2 * g) as nat) == pow2(g as nat) * pow2(g as nat),
                    n == mant * pow2(d),
            ;
            assert(0x4000_0000 <= f < 0x1_0000_0000) by (nonlinear_arith)
                requires
                    f * f <= n < (f + 1) * (f + 1),
                    0x2000_0000_0000_0000 <= n < 0x8000_0000_0000_0000,
            ;
            assert(n % 0x40_0000_0000 == 0);
            lemma_root_rounds(x, n as nat, f as nat, p as nat, g as nat);
        }
        round(p, g as i32 - 1)
    }

    /// The whole part, or the largest `u64` if it is larger.
    pub fn whole(self) -> (r: u64)
        requires
            self.wf(),
        ensures
            r == if whole_part(self.value()) <= u64::MAX {
                whole_part(self.value())
            } else {
                u64::MAX as nat
            },
    {
        proof {
            lemma2_to64();
            lemma2_to64_rest();
            lemma_pow2_pos(149);
        }
        if self.exp >= 149 {
            let mut mant: u64 = self.mant;
            let mut left: u32 = self.exp - 149;
            proof {
                lemma_pow2_adds(149, left as nat);
                assert(self.value() == (mant * pow2(left as nat)) * one()) by (nonlinear_arith)
                    requires
                        self.value() == mant * pow2(self.exp as nat),
                        pow2(self.exp as nat) == one() * pow2(left as nat),
                ;
                lemma_div_by_multiple((mant * pow2(left as nat)) as int, one() as int);
            }
            while left > 0
                invariant
                    mant * pow2(left as nat) == whole_part(self.value()),
                decreases left,
            {
                proof {
                    lemma_pow2_unfold(left as nat);
                    lemma_pow2_pos((left - 1) as nat);
                    assert(mant * (2 * pow2((left - 1) as nat)) == (2 * mant) * pow2(
                        (left - 1) as nat,
                    )) by (nonlinear_arith);
                    assert((2 * mant) * pow2((left - 1) as nat) >= 2 * mant) by (nonlinear_arith)
                        requires
                            pow2((left - 1) as nat) >= 1,
                    ;
                }
                if mant > u64::MAX / 2 {
                    return u64::MAX;
                }
                mant = 2 * mant;
                left = left - 1;
            }
            assert(mant * pow2(0) == mant) by (nonlinear_arith)
                requires
                    pow2(0) == 1,
            ;
            mant
        } else {
            let mut mant: u64 = self.mant;
            let mut left: u32 = 149 - self.exp;
            proof {
                lemma_pow2_adds(self.exp as nat, left as nat);
                lemma_pow2_pos(self.exp as nat);
                lemma_pow2_pos(left as nat);
                assert(one() == pow2(self.exp as nat) * pow2(left as nat));
                assert(self.value() == pow2(self.exp as nat) * mant) by (nonlinear_arith)
                    requires
                        self.value() == mant * pow2(self.exp as nat),
                ;
                lemma_truncate_quotient(
                    mant as int,
                    pow2(self.exp as nat) as int,
                    pow2(left as nat) as int,
                );
            }
            while left > 0
                invariant
                    mant as nat / pow2(left as nat) == whole_part(self.value()),
                decreases left,
            {
                proof {
                    lemma_pow2_unfold(left as nat);
                    lemma_pow2_pos((left - 1) as nat);
                    lemma_div_denominator(mant as int, 2, pow2((left - 1) as nat) as int);
                }
                mant = mant / 2;
                left = left - 1;
            }
            assert(mant as nat / pow2(0) == mant) by {
                lemma_div_basics(mant as int);
            }
            mant
        }
    }
}

} // verus!
