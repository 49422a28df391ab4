//! How far single-precision sums, means and loudness are from the exact ones.
//!
//! The exact sums are plain sums of integers. What is proved here ties the rounded
//! results to them, for every block of samples within the bounds that are given.

use vstd::arithmetic::power2::*;
use vstd::prelude::*;

use crate::sample;
use crate::sample::Number;
use crate::single;

verus! {

/// `x` is `y` but for one part in 2^24.
pub open spec fn near(x: nat, y: nat) -> bool {
    y * 0xff_ffff <= x * 0x100_0000 <= y * 0x100_0001
}

/// A fraction that fills a significand is rounded to near.
pub proof fn lemma_near(num: nat, den: nat)
    requires
        den > 0,
        num >= 0x80_0000 * den,
    ensures
        near(single::nearest(num, den) * den, num),
{
    single::rounding_error_is_bounded(num, den);
}

/// A common factor does not matter.
pub proof fn lemma_near_scaled(x: nat, y: nat, c: nat)
    requires
        c > 0,
        near(x * c, y * c),
    ensures
        near(x, y),
{
    assert(y * 0xff_ffff <= x * 0x100_0000) by (nonlinear_arith)
        requires
            y * c * 0xff_ffff <= x * c * 0x100_0000,
            c > 0,
    ;
    assert(x * 0x100_0000 <= y * 0x100_0001) by (nonlinear_arith)
        requires
            x * c * 0x100_0000 <= y * c * 0x100_0001,
            c > 0,
    ;
}

/// A whole number is rounded to near.
pub proof fn lemma_near_whole(n: nat)
    requires
        n > 0,
    ensures
        near(single::of_whole(n), n * single::one()),
        single::of_whole(n) >= single::one(),
{
    let one = single::one();
    lemma2_to64();
    lemma_pow2_pos(149);
    lemma_pow2_strictly_increases(23, 149);
    assert(n * one >= one) by (nonlinear_arith)
        requires
            n > 0,
    ;
    lemma_near(n * one, 1);
    assert(single::of_whole(n) * 1 == single::of_whole(n));
    single::lemma_nearest_floor(n * one, 1, 149);
}

/// Four roundings up.
pub proof fn lemma_four_up(a: int, b: int, c: int, d: int, e: int)
    requires
        0 <= e,
        a * 0x100_0000 <= b * 0x100_0001,
        b * 0x100_0000 <= c * 0x100_0001,
        c * 0x100_0000 <= d * 0x100_0001,
        d * 0x100_0000 <= e * 0x100_0001,
    ensures
        a * 0x100_0000 <= e * 0x100_0005,
{
}

/// Four roundings down.
pub proof fn lemma_four_down(a: int, b: int, c: int, d: int, e: int)
    requires
        0 <= e,
        a * 0x100_0000 >= b * 0xff_ffff,
        b * 0x100_0000 >= c * 0xff_ffff,
        c * 0x100_0000 >= d * 0xff_ffff,
        d * 0x100_0000 >= e * 0xff_ffff,
    ensures
        a * 0x100_0000 >= e * 0xff_fffb,
{
}

/// The units of a finite number.
pub open spec fn units(a: Number) -> int {
    match a {
        Number::Finite { value } => value,
        _ => 0,
    }
}

/// The exact sum.
pub open spec fn total(block: Seq<Number>) -> int
    decreases block.len(),
{
    if block.len() == 0 {
        0
    } else {
        total(block.drop_last()) + units(block.last())
    }
}

/// The exact sum of the distances from zero.
pub open spec fn bulk(block: Seq<Number>) -> nat
    decreases block.len(),
{
    if block.len() == 0 {
        0
    } else {
        bulk(block.drop_last()) + sample::abs(units(block.last()))
    }
}

/// The exact sum of the squares.
pub open spec fn energy(block: Seq<Number>) -> nat
    decreases block.len(),
{
    if block.len() == 0 {
        0
    } else {
        energy(block.drop_last()) + sample::abs(units(block.last())) * sample::abs(
            units(block.last()),
        )
    }
}

/// All numbers are finite, and none is farther from zero than `bound`.
pub open spec fn bounded(block: Seq<Number>, bound: nat) -> bool {
    forall|i: int|
        0 <= i < block.len() ==> (#[trigger] block[i]) is Finite && sample::abs(units(block[i]))
            <= bound
}

proof fn lemma_bounded_fewer(block: Seq<Number>, bound: nat)
    requires
        bounded(block, bound),
        block.len() > 0,
    ensures
        bounded(block.drop_last(), bound),
        block.last() is Finite,
        sample::abs(units(block.last())) <= bound,
{
    let fewer = block.drop_last();
    assert forall|i: int| 0 <= i < fewer.len() implies (#[trigger] fewer[i]) is Finite
        && sample::abs(units(fewer[i])) <= bound by {
        assert(fewer[i] == block[i]);
    }
    assert(block[block.len() - 1] is Finite);
}

proof fn lemma_bulk(block: Seq<Number>, bound: nat)
    requires
        bounded(block, bound),
    ensures
        bulk(block) <= block.len() * bound,
        sample::abs(total(block)) <= bulk(block),
    decreases block.len(),
{
    if block.len() > 0 {
        lemma_bounded_fewer(block, bound);
        lemma_bulk(block.drop_last(), bound);
        assert((block.len() - 1) * bound + bound == block.len() * bound) by (nonlinear_arith);
    } else {
        assert(0 * bound == 0);
    }
}

/// A rounded sum is off by at most two parts in 2^24 of the bulk for each number.
pub proof fn sums_are_accurate(block: Seq<Number>, j: nat)
    requires
        block.len() <= 0x40_0000,
        j <= 250,
        bounded(block, pow2(j)),
    ensures
        sample::sum(block) is Finite,
        sample::abs(units(sample::sum(block)) - total(block)) * 0x100_0000 <= 2 * block.len()
            * bulk(block),
    decreases block.len(),
{
    if block.len() == 0 {
        assert(2 * 0 * bulk(block) == 0);
    } else {
        let fewer = block.drop_last();
        let n = block.len() as int;
        let x = units(sample::sum(fewer));
        let y = units(block.last());
        let t = total(fewer);
        let b = bulk(fewer) as int;
        let c = bulk(block) as int;
        lemma_bounded_fewer(block, pow2(j));
        sums_are_accurate(fewer, j);
        lemma_bulk(fewer, pow2(j));
        lemma_bulk(block, pow2(j));
        let z = sample::abs(x + y);
        assert(2 * (n - 1) * b <= 0x100_0000 * b) by (nonlinear_arith)
            requires
                n <= 0x40_0000,
                b >= 0,
        ;
        assert(sample::abs(x - t) <= b);
        assert(z <= 2 * c);
        lemma2_to64();
        lemma_pow2_adds(23, j);
        assert(2 * c <= 0x80_0000 * pow2(j)) by (nonlinear_arith)
            requires
                c <= n * pow2(j),
                n <= 0x40_0000,
        ;
        single::lemma_nearest_bound(z, 1, 23 + j);
        lemma_pow2_strictly_increases(23 + j, 277);
        single::rounding_error_is_bounded(z, 1);
        let s = units(sample::sum(block));
        assert(sample::abs(s) * 1 == sample::abs(s));
        assert(sample::abs(s - (x + y)) * 0x100_0000 <= z);
        assert(2 * (n - 1) * b + 2 * c <= 2 * n * c) by (nonlinear_arith)
            requires
                0 <= b <= c,
                n >= 1,
        ;
    }
}

/// The mean of numbers up to 2^32, taken `n` times, is the exact sum, but for two
/// parts in 2^24 of the bulk for each number, and half a unit for each time.
pub proof fn means_are_accurate(block: Seq<Number>, n: nat)
    requires
        block.len() <= n,
        0 < n <= 0x40_0000,
        bounded(block, pow2(181)),
    ensures
        sample::mean(block, n) is Finite,
        sample::abs(units(sample::mean(block, n)) * n - total(block)) * 0x100_0000 <= (2
            * block.len() + 2) * bulk(block) + 0x80_0000 * n,
{
    let one = single::one();
    sums_are_accurate(block, 181);
    lemma_bulk(block, pow2(181));
    let s = units(sample::sum(block));
    let b = bulk(block) as int;
    let len = block.len() as int;
    lemma2_to64();
    lemma_pow2_pos(149);
    single::lemma_exact(n, 149);
    single::lemma_nearest_scaled(sample::abs(s), n, one);
    assert(one * sample::abs(s) == sample::abs(s) * one && one * n == n * one)
        by (nonlinear_arith);
    let m = single::nearest(sample::abs(s), n);
    single::rounding_error_is_bounded(sample::abs(s), n);
    assert(2 * len * b <= 0x100_0000 * b) by (nonlinear_arith)
        requires
            len <= 0x40_0000,
            b >= 0,
    ;
    assert(sample::abs(s) <= 2 * b);
    lemma_pow2_adds(23, 181);
    assert(b <= 0x40_0000 * pow2(181)) by (nonlinear_arith)
        requires
            b <= len * pow2(181),
            len <= 0x40_0000,
    ;
    assert(sample::abs(s) <= n * pow2(204)) by (nonlinear_arith)
        requires
            sample::abs(s) <= 0x80_0000 * pow2(181),
            pow2(204) == 0x80_0000 * pow2(181),
            n >= 1,
    ;
    single::lemma_nearest_bound(sample::abs(s), n, 204);
    lemma_pow2_strictly_increases(204, 277);
    let mean = units(sample::mean(block, n));
    assert(mean == if s < 0 {
        -(m as int)
    } else {
        m as int
    });
    assert((-(m as int)) * n == -(m * n)) by (nonlinear_arith);
    assert(sample::abs(mean * n - s) == single::distance(m, sample::abs(s), n));
    assert((2 * len + 2) * b == 2 * len * b + 2 * b) by (nonlinear_arith);
}

/// The energy of numbers that are all at least one part in `c` of one.
pub proof fn energy_is_at_least(block: Seq<Number>, c: nat)
    requires
        forall|i: int|
            0 <= i < block.len() ==> single::one() <= c * sample::abs(
                units(#[trigger] block[i]),
            ),
    ensures
        block.len() * (single::one() * single::one()) <= energy(block) * (c * c),
    decreases block.len(),
{
    let one = single::one();
    if block.len() == 0 {
        assert(0 * (one * one) == 0 && 0 * (c * c) == 0);
    } else {
        let fewer = block.drop_last();
        assert forall|i: int| 0 <= i < fewer.len() implies single::one() <= c * sample::abs(
            units(#[trigger] fewer[i]),
        ) by {
            assert(fewer[i] == block[i]);
        }
        energy_is_at_least(fewer, c);
        assert(one <= c * sample::abs(units(block[block.len() - 1])));
        let v = sample::abs(units(block.last()));
        let n = block.len() as int;
        let w = one * one;
        let e = energy(fewer) as int;
        assert(w <= (v * v) * (c * c)) by (nonlinear_arith)
            requires
                one <= c * v,
                w == one * one,
        ;
        assert((e + v * v) * (c * c) == e * (c * c) + (v * v) * (c * c)) by (nonlinear_arith);
        assert(n * w == (n - 1) * w + w) by (nonlinear_arith);
    }
}

/// The energy of numbers that are all at most one part in `c` of one.
pub proof fn energy_is_at_most(block: Seq<Number>, c: nat)
    requires
        forall|i: int|
            0 <= i < block.len() ==> c * sample::abs(units(#[trigger] block[i]))
                <= single::one(),
    ensures
        block.len() * (single::one() * single::one()) >= energy(block) * (c * c),
    decreases block.len(),
{
    let one = single::one();
    if block.len() == 0 {
        assert(0 * (one * one) == 0 && 0 * (c * c) == 0);
    } else {
        let fewer = block.drop_last();
        assert forall|i: int| 0 <= i < fewer.len() implies c * sample::abs(
            units(#[trigger] fewer[i]),
        ) <= single::one() by {
            assert(fewer[i] == block[i]);
        }
        energy_is_at_most(fewer, c);
        assert(c * sample::abs(units(block[block.len() - 1])) <= one);
        let v = sample::abs(units(block.last()));
        let n = block.len() as int;
        let w = one * one;
        let e = energy(fewer) as int;
        assert(w >= (v * v) * (c * c)) by (nonlinear_arith)
            requires
                one >= c * v,
                w == one * one,
        ;
        assert((e + v * v) * (c * c) == e * (c * c) + (v * v) * (c * c)) by (nonlinear_arith);
        assert(n * w == (n - 1) * w + w) by (nonlinear_arith);
    }
}

/// A sum with a number that is undefined is undefined.
proof fn lemma_undefined_sum(block: Seq<Number>, i: int)
    requires
        0 <= i < block.len(),
        block[i] is Nan,
    ensures
        sample::sum(block) is Nan,
    decreases block.len(),
{
    if i < block.len() - 1 {
        assert(block.drop_last()[i] == block[i]);
        lemma_undefined_sum(block.drop_last(), i);
    }
}

/// The mean of a block with a number that is undefined is undefined.
pub proof fn undefined_means_stay(block: Seq<Number>, n: nat, i: int)
    requires
        0 <= i < block.len(),
        block[i] is Nan,
    ensures
        sample::mean(block, n) is Nan,
{
    lemma_undefined_sum(block, i);
}

/// The loudness of a block with a sample that is undefined is undefined.
pub proof fn undefined_stays(block: Seq<Number>, i: int)
    requires
        0 <= i < block.len(),
        block[i] is Nan,
    ensures
        sample::loudness(block) is Nan,
{
    let squares = block.map_values(|a: Number| sample::squared(a));
    assert(squares[i] is Nan);
    lemma_undefined_sum(squares, i);
}

/// A sum of numbers that are not negative, one of them infinite, is infinite.
proof fn lemma_infinite_sum(block: Seq<Number>, i: int)
    requires
        forall|k: int|
            0 <= k < block.len() ==> match #[trigger] block[k] {
                Number::Nan => false,
                Number::Infinite { negative } => !negative,
                Number::Finite { value } => value >= 0,
            },
    ensures
        match sample::sum(block) {
            Number::Nan => false,
            Number::Infinite { negative } => !negative,
            Number::Finite { value } => value >= 0,
        },
        0 <= i < block.len() && block[i] is Infinite ==> sample::sum(block) is Infinite,
    decreases block.len(),
{
    if block.len() > 0 {
        let fewer = block.drop_last();
        assert forall|k: int| 0 <= k < fewer.len() implies match #[trigger] fewer[k] {
            Number::Nan => false,
            Number::Infinite { negative } => !negative,
            Number::Finite { value } => value >= 0,
        } by {
            assert(fewer[k] == block[k]);
        }
        lemma_infinite_sum(fewer, i);
        assert(match block[block.len() - 1] {
            Number::Nan => false,
            Number::Infinite { negative } => !negative,
            Number::Finite { value } => value >= 0,
        });
        if 0 <= i < fewer.len() {
            assert(fewer[i] == block[i]);
        }
    }
}

/// The loudness of a block with an infinite sample, and none that is undefined, is
/// infinite.
pub proof fn infinite_stays(block: Seq<Number>, i: int)
    requires
        0 <= i < block.len(),
        block[i] is Infinite,
        forall|k: int| 0 <= k < block.len() ==> !((#[trigger] block[k]) is Nan),
    ensures
        sample::loudness(block) == (Number::Infinite { negative: false }),
{
    let squares = block.map_values(|a: Number| sample::squared(a));
    assert forall|k: int| 0 <= k < squares.len() implies match #[trigger] squares[k] {
        Number::Nan => false,
        Number::Infinite { negative } => !negative,
        Number::Finite { value } => value >= 0,
    } by {
        assert(!(block[k] is Nan));
    }
    assert(squares[i] is Infinite);
    lemma_infinite_sum(squares, i);
}

/// The rounded squares, and how far their sum is from that of the exact squares.
proof fn lemma_squares(block: Seq<Number>) -> (squares: Seq<Number>)
    requires
        bounded(block, pow2(181)),
    ensures
        squares == block.map_values(|a: Number| sample::squared(a)),
        bounded(squares, pow2(213)),
        bulk(squares) == total(squares),
        sample::abs(bulk(squares) * single::one() - energy(block)) * 0x100_0000 <= energy(block)
            + 0x80_0000 * single::one() * block.len(),
    decreases block.len(),
{
    let one = single::one();
    let squares = block.map_values(|a: Number| sample::squared(a));
    if block.len() == 0 {
        assert(0 * one == 0);
        assert(0x80_0000 * one * 0 == 0);
    } else {
        let fewer = block.drop_last();
        lemma_bounded_fewer(block, pow2(181));
        let rest = lemma_squares(fewer);
        assert(squares.drop_last() =~= rest);
        let v = sample::abs(units(block.last()));
        let q = single::product(v, v);
        lemma_pow2_pos(149);
        lemma_pow2_adds(181, 181);
        lemma_pow2_adds(149, 213);
        assert(v * v <= one * pow2(213)) by (nonlinear_arith)
            requires
                v <= pow2(181),
                pow2(181) * pow2(181) == one * pow2(213),
        ;
        single::lemma_nearest_bound(v * v, one, 213);
        lemma_pow2_strictly_increases(213, 277);
        single::rounding_error_is_bounded(v * v, one);
        assert(squares.last() == sample::signed(false, q));
        assert forall|i: int| 0 <= i < squares.len() implies (#[trigger] squares[i]) is Finite
            && sample::abs(units(squares[i])) <= pow2(213) by {
            if i < rest.len() {
                assert(squares[i] == rest[i]);
            }
        }
        let b = bulk(rest) as int;
        assert((b + q) * one == b * one + q * one) by (nonlinear_arith);
        let n = block.len() as int;
        assert(0x80_0000 * one * n == 0x80_0000 * one * (n - 1) + 0x80_0000 * one)
            by (nonlinear_arith);
    }
    squares
}

/// The mean square, in units, of which loudness is the root.
pub open spec fn mean_square(block: Seq<Number>) -> nat {
    units(sample::divided(sample::sum_of_squares(block), block.len())) as nat
}

/// What the roundings on the way to the mean square come to: with `e` the exact energy,
/// `x1` that of the rounded squares, `x2` that of their rounded sum and `x3` that of the
/// mean, for all samples.
proof fn lemma_mean_square(block: Seq<Number>) -> (x: (nat, nat))
    requires
        0 < block.len() <= 0x40_0000,
        bounded(block, pow2(181)),
    ensures
        ({
            let one = single::one() as int;
            let n = block.len() as int;
            let e = energy(block) as int;
            let x1 = x.0 as int;
            let x2 = x.1 as int;
            let x3 = mean_square(block) * n * one;
            &&& sample::loudness(block) == sample::in_range(
                false,
                single::root(mean_square(block)),
            )
            &&& mean_square(block) <= pow2(214)
            &&& sample::abs(x1 - e) * 0x100_0000 <= e + 0x80_0000 * one * n
            &&& sample::abs(x2 - x1) * 0x100_0000 <= 2 * n * x1
            &&& sample::abs(x3 - x2) * 0x100_0000 <= x2 + 0x80_0000 * one * n
        }),
{
    let one = single::one();
    let n = block.len();
    let squares = lemma_squares(block);
    sums_are_accurate(squares, 213);
    lemma_bulk(squares, pow2(213));
    let s = units(sample::sum(squares));
    let q = bulk(squares) as int;
    lemma2_to64();
    lemma_pow2_pos(149);
    assert(2 * n * q <= 0x80_0000 * q) by (nonlinear_arith)
        requires
            n <= 0x40_0000,
            q >= 0,
    ;
    assert(0 <= s <= 2 * q);
    single::lemma_exact(n, 149);
    single::lemma_nearest_scaled(s as nat, n, one);
    assert(one * (s as nat) == s * one && one * n == n * one) by (nonlinear_arith)
        requires
            s >= 0,
    ;
    let m = single::nearest(s as nat, n);
    single::rounding_error_is_bounded(s as nat, n);
    lemma_pow2_unfold(214);
    assert(s <= n * pow2(214)) by (nonlinear_arith)
        requires
            s <= 2 * q,
            q <= n * pow2(213),
            pow2(214) == 2 * pow2(213),
    ;
    single::lemma_nearest_bound(s as nat, n, 214);
    lemma_pow2_strictly_increases(214, 277);
    assert(mean_square(block) == m);
    let x1 = (q * one) as nat;
    let x2 = (s * one) as nat;
    assert(q * one >= 0 && s * one >= 0) by (nonlinear_arith)
        requires
            q >= 0,
            s >= 0,
            one > 0,
    ;
    lemma_scaled_distance(s, q, one as int, 2 * n * q);
    assert(2 * n * q * one == 2 * n * (q * one)) by (nonlinear_arith);
    lemma_scaled_distance((m * n) as int, s, one as int, s + 0x80_0000 * n);
    assert((s + 0x80_0000 * n) * one == s * one + 0x80_0000 * one * n) by (nonlinear_arith);
    (x1, x2)
}

proof fn lemma_scaled_distance(a: int, b: int, one: int, bound: int)
    requires
        one > 0,
        sample::abs(a - b) * 0x100_0000 <= bound,
    ensures
        sample::abs(a * one - b * one) * 0x100_0000 <= bound * one,
{
    assert(a * one - b * one == (a - b) * one) by (nonlinear_arith);
    if a >= b {
        assert((a - b) * one >= 0) by (nonlinear_arith)
            requires
                a >= b,
                one > 0,
        ;
        assert((a - b) * one * 0x100_0000 <= bound * one) by (nonlinear_arith)
            requires
                (a - b) * 0x100_0000 <= bound,
                one > 0,
        ;
    } else {
        assert((a - b) * one < 0) by (nonlinear_arith)
            requires
                a < b,
                one > 0,
        ;
        assert(-((a - b) * one) * 0x100_0000 <= bound * one) by (nonlinear_arith)
            requires
                (b - a) * 0x100_0000 <= bound,
                one > 0,
        ;
    }
}

/// A root reaches a number whose square its radicand reaches, and does not pass one
/// whose square its radicand does not pass.
proof fn lemma_root_side(x: nat, p: nat, e: nat)
    requires
        p < pow2(24),
    ensures
        x >= (p * pow2(e)) * (p * pow2(e)) ==> single::nearest_root(x) >= p * pow2(e),
        x <= (p * pow2(e)) * (p * pow2(e)) ==> single::nearest_root(x) <= p * pow2(e),
{
    let v = p * pow2(e);
    let r = single::nearest_root(x);
    single::roots_round_to_nearest(x, p, e);
    if x >= v * v && r < v {
        assert((v + r) * (v + r) < 4 * (v * v)) by (nonlinear_arith)
            requires
                0 <= r < v,
        ;
    }
    if x <= v * v && r > v {
        assert((v + r) * (v + r) > 4 * (v * v)) by (nonlinear_arith)
            requires
                r > v >= 0,
        ;
    }
}

/// The square of `p * 2^119` units, against that of one.
proof fn lemma_level_square(p: nat)
    ensures
        (p * pow2(119)) * (p * pow2(119)) * 0x1000_0000_0000_0000 == p * p * (single::one()
            * single::one()),
{
    lemma2_to64();
    lemma2_to64_rest();
    lemma_pow2_adds(119, 30);
    let h = pow2(119);
    assert((p * h) * (p * h) * 0x1000_0000_0000_0000 == p * p * ((h * 0x4000_0000) * (h
        * 0x4000_0000))) by (nonlinear_arith);
}

/// From the energy to the mean square, rounded down at each step.
proof fn lemma_chain_down(n: int, one: int, e: int, x1: int, x2: int, x3: int)
    requires
        0 < n <= 0x40_0000,
        one >= 0x1000_0000_0000_0000,
        e >= 0 && x1 >= 0 && x2 >= 0 && x3 >= 0,
        sample::abs(x1 - e) * 0x100_0000 <= e + 0x80_0000 * one * n,
        sample::abs(x2 - x1) * 0x100_0000 <= 2 * n * x1,
        sample::abs(x3 - x2) * 0x100_0000 <= x2 + 0x80_0000 * one * n,
        e * 1_000_000 * (0x100_0000 - 2 * n - 16) >= 144 * n * (one * one) * 0x100_0000,
    ensures
        x3 * 0x1000_0000_0000_0000 >= 166020725319409 * (one * one) * n,
{
    let k: int = 0x100_0000;
    let d = k - 2 * n;
    let w = one * one;
    let no = one * n;
    assert(e * 1_000_000 >= 144 * (n * w)) by (nonlinear_arith)
        requires
            e * 1_000_000 * (d - 16) >= 144 * n * w * k,
            16 < d <= k,
            e >= 0,
            n > 0,
            w >= 0,
            k == 0x100_0000,
    ;
    assert(n * w >= no * 0x1000_0000_0000_0000) by (nonlinear_arith)
        requires
            w == one * one,
            no == one * n,
            one >= 0x1000_0000_0000_0000,
            n > 0,
    ;
    assert(0x80_0000 * one * n == 0x80_0000 * no) by (nonlinear_arith)
        requires
            no == one * n,
    ;
    assert(no >= 0) by (nonlinear_arith)
        requires
            no == one * n,
            one > 0,
            n > 0,
    ;
    assert(e >= 0x80_0000 * no * 4);
    assert(x1 * k >= e * (k - 2)) by (nonlinear_arith)
        requires
            (e - x1) * k <= e + 0x80_0000 * no,
            e >= 0x80_0000 * no,
    ;
    assert(x1 * 2 >= e);
    assert(2 * n * x1 <= 0x80_0000 * x1) by (nonlinear_arith)
        requires
            n <= 0x40_0000,
            x1 >= 0,
    ;
    assert(x2 * k >= x1 * d) by (nonlinear_arith)
        requires
            (x1 - x2) * k <= 2 * n * x1,
            d == k - 2 * n,
    ;
    assert(x2 * 2 >= x1);
    assert(x3 * k >= x2 * (k - 2)) by (nonlinear_arith)
        requires
            (x2 - x3) * k <= x2 + 0x80_0000 * no,
            x2 >= 0x80_0000 * no,
    ;
    // One step after the other.
    assert(x3 * k * k >= x1 * d * (k - 2)) by (nonlinear_arith)
        requires
            x3 * k >= x2 * (k - 2),
            x2 * k >= x1 * d,
            k == 0x100_0000,
    ;
    assert(x3 * k * k * k >= e * (k - 2) * d * (k - 2)) by (nonlinear_arith)
        requires
            x3 * k * k >= x1 * d * (k - 2),
            x1 * k >= e * (k - 2),
            k == 0x100_0000,
            d > 0,
    ;
    let g = (k - 2) * (k - 2);
    assert(x3 * (k * k * k) >= (e * d) * g) by (nonlinear_arith)
        requires
            x3 * k * k * k >= e * (k - 2) * d * (k - 2),
            g == (k - 2) * (k - 2),
    ;
    let f = d - 16;
    let y = n * w;
    assert(e * 1_000_000 * f >= 144 * y * k) by (nonlinear_arith)
        requires
            e * 1_000_000 * f >= 144 * n * w * k,
            y == n * w,
    ;
    if x3 * 0x1000_0000_0000_0000 < 166020725319409 * w * n {
        let kkk = k * k * k;
        assert(166020725319409 * w * n == 166020725319409 * y) by (nonlinear_arith)
            requires
                y == n * w,
        ;
        // The constants: what was lost on the way is less than was asked for in advance.
        assert(g * 144 * 0x1000_0000_0000_0000 * d >= 166020725319409 * 1_000_000 * (k * k) * f)
            by (nonlinear_arith)
            requires
                k == 0x100_0000,
                g == (k - 2) * (k - 2),
                0x80_0000 <= d <= k,
                f == d - 16,
        ;
        let c: int = 0x1000_0000_0000_0000;
        assert((e * d) * g * 1_000_000 * f * c >= g * 144 * c * d * (y * k)) by (nonlinear_arith)
            requires
                e * 1_000_000 * f >= 144 * y * k,
                g >= 0,
                d >= 0,
                c >= 0,
        ;
        assert(g * 144 * c * d * (y * k) >= 166020725319409 * 1_000_000 * (k * k) * f * (y * k))
            by (nonlinear_arith)
            requires
                g * 144 * c * d >= 166020725319409 * 1_000_000 * (k * k) * f,
                y >= 0,
                k >= 0,
        ;
        assert(x3 * kkk * 1_000_000 * f * c >= (e * d) * g * 1_000_000 * f * c)
            by (nonlinear_arith)
            requires
                x3 * kkk >= (e * d) * g,
                f >= 0,
                c >= 0,
        ;
        assert(x3 * kkk * 1_000_000 * f * c < 166020725319409 * 1_000_000 * (k * k) * f * (y * k))
            by (nonlinear_arith)
            requires
                x3 * c < 166020725319409 * y,
                kkk == k * k * k,
                f > 0,
                k == 0x100_0000,
        ;
    }
}

/// From the energy to the mean square, rounded up at each step.
proof fn lemma_chain_up(n: int, one: int, e: int, x1: int, x2: int, x3: int)
    requires
        0 < n <= 0x40_0000,
        one >= 0x1000_0000_0000_0000_0000_0000,
        e >= 0 && x1 >= 0 && x2 >= 0 && x3 >= 0,
        sample::abs(x1 - e) * 0x100_0000 <= e + 0x80_0000 * one * n,
        sample::abs(x2 - x1) * 0x100_0000 <= 2 * n * x1,
        sample::abs(x3 - x2) * 0x100_0000 <= x2 + 0x80_0000 * one * n,
        e * 1_000_000 * (0x100_0000 + 2 * n + 16) <= 144 * n * (one * one) * 0x100_0000,
    ensures
        x3 * 0x1000_0000_0000_0000 <= 166020699549604 * (one * one) * n,
{
    let k: int = 0x100_0000;
    let d = k + 2 * n;
    let w = one * one;
    let no = one * n;
    let y = n * w;
    let f = d + 16;
    assert(0x80_0000 * one * n == 0x80_0000 * no) by (nonlinear_arith)
        requires
            no == one * n,
    ;
    assert(no >= 0) by (nonlinear_arith)
        requires
            no == one * n,
            one > 0,
            n > 0,
    ;
    assert(y >= no * 0x1000_0000_0000_0000_0000_0000) by (nonlinear_arith)
        requires
            y == n * (one * one),
            no == one * n,
            one >= 0x1000_0000_0000_0000_0000_0000,
            n > 0,
    ;
    // What half units there are is added in advance.
    let a = e + 0x100_0001 * no;
    let b = x1 + no;
    let c = x2 + no;
    assert(b * k <= a * (k + 1)) by (nonlinear_arith)
        requires
            (x1 - e) * k <= e + 0x80_0000 * no,
            a == e + 0x100_0001 * no,
            b == x1 + no,
            no >= 0,
            k == 0x100_0000,
    ;
    assert(c * k <= b * d) by (nonlinear_arith)
        requires
            (x2 - x1) * k <= 2 * n * x1,
            b == x1 + no,
            c == x2 + no,
            d == k + 2 * n,
            n > 0,
            no >= 0,
            k == 0x100_0000,
    ;
    assert(x3 * k <= c * (k + 1)) by (nonlinear_arith)
        requires
            (x3 - x2) * k <= x2 + 0x80_0000 * no,
            c == x2 + no,
            no >= 0,
            k == 0x100_0000,
    ;
    assert(x3 * k * k <= b * d * (k + 1)) by (nonlinear_arith)
        requires
            x3 * k <= c * (k + 1),
            c * k <= b * d,
            k == 0x100_0000,
    ;
    let g = (k + 1) * (k + 1);
    assert(x3 * (k * k * k) <= (a * d) * g) by (nonlinear_arith)
        requires
            x3 * k * k <= b * d * (k + 1),
            b * k <= a * (k + 1),
            k == 0x100_0000,
            d > 0,
            g == (k + 1) * (k + 1),
    ;
    assert(a * 1_000_000 * f == e * 1_000_000 * f + no * (0x100_0001 * 1_000_000 * f))
        by (nonlinear_arith)
        requires
            a == e + 0x100_0001 * no,
    ;
    assert(no * (0x100_0001 * 1_000_000 * f) <= y) by (nonlinear_arith)
        requires
            y >= no * 0x1000_0000_0000_0000_0000_0000,
            0 <= f <= 0x200_0000,
            no >= 0,
    ;
    assert(a * 1_000_000 * f <= y * (144 * k + 1)) by (nonlinear_arith)
        requires
            a * 1_000_000 * f == e * 1_000_000 * f + no * (0x100_0001 * 1_000_000 * f),
            no * (0x100_0001 * 1_000_000 * f) <= y,
            e * 1_000_000 * f <= 144 * n * w * k,
            y == n * w,
    ;
    if x3 * 0x1000_0000_0000_0000 > 166020699549604 * w * n {
        let kkk = k * k * k;
        let m: int = 0x1000_0000_0000_0000;
        assert(166020699549604 * w * n == 166020699549604 * y) by (nonlinear_arith)
            requires
                y == n * w,
        ;
        assert(g * (144 * k + 1) * m * d <= 166020699549604 * 1_000_000 * kkk * f)
            by (nonlinear_arith)
            requires
                k == 0x100_0000,
                m == 0x1000_0000_0000_0000,
                kkk == k * k * k,
                g == (k + 1) * (k + 1),
                k <= d <= 0x180_0000,
                f == d + 16,
        ;
        assert((a * d) * g * 1_000_000 * f * m <= g * (144 * k + 1) * m * d * y)
            by (nonlinear_arith)
            requires
                a * 1_000_000 * f <= y * (144 * k + 1),
                g >= 0,
                d >= 0,
                m >= 0,
        ;
        assert(g * (144 * k + 1) * m * d * y <= 166020699549604 * 1_000_000 * kkk * f * y)
            by (nonlinear_arith)
            requires
                g * (144 * k + 1) * m * d <= 166020699549604 * 1_000_000 * kkk * f,
                y >= 0,
        ;
        assert(x3 * kkk * 1_000_000 * f * m <= (a * d) * g * 1_000_000 * f * m)
            by (nonlinear_arith)
            requires
                x3 * kkk <= (a * d) * g,
                f >= 0,
                m >= 0,
        ;
        assert(x3 * kkk * 1_000_000 * f * m > 166020699549604 * 1_000_000 * kkk * f * y)
            by (nonlinear_arith)
            requires
                x3 * m > 166020699549604 * y,
                kkk > 0,
                f > 0,
        ;
    }
}

/// Loudness tells the mean square from the square of 0.012, on both sides of it, but
/// for two parts in 2^24 for each sample: if the exact energy of a block is above that
/// of as many samples of 0.012, its loudness is above 0.012, and if it is not, neither
/// is its loudness.
pub proof fn loudness_tells_the_mean_square(block: Seq<Number>)
    requires
        0 < block.len() <= 0x40_0000,
        bounded(block, pow2(181)),
    ensures
        ({
            let n = block.len();
            let square = single::one() * single::one();
            let level = 12_884_902 * pow2(119);
            &&& energy(block) * 1_000_000 * (0x100_0000 - 2 * n - 16) >= 144 * n * square
                * 0x100_0000 ==> sample::above(sample::loudness(block), level)
            &&& energy(block) * 1_000_000 * (0x100_0000 + 2 * n + 16) <= 144 * n * square
                * 0x100_0000 ==> !sample::above(sample::loudness(block), level)
        }),
{
    let one = single::one();
    let n = block.len();
    let square = one * one;
    let (x1, x2) = lemma_mean_square(block);
    let m = mean_square(block);
    let x3 = m * n * one;
    lemma2_to64();
    lemma2_to64_rest();
    lemma_pow2_strictly_increases(60, 149);
    lemma_pow2_strictly_increases(24, 149);
    lemma_pow2_pos(119);
    lemma_pow2_adds(60, 36);
    lemma_pow2_strictly_increases(96, 149);
    assert(x3 >= 0) by (nonlinear_arith)
        requires
            x3 == m * n * one,
    ;
    if energy(block) * 1_000_000 * (0x100_0000 - 2 * n - 16) >= 144 * n * square * 0x100_0000 {
        lemma_chain_down(
            n as int,
            one as int,
            energy(block) as int,
            x1 as int,
            x2 as int,
            x3 as int,
        );
        let v = 12884903 * pow2(119);
        lemma_level_square(12884903);
        assert(m * one >= v * v) by (nonlinear_arith)
            requires
                m * n * one * 0x1000_0000_0000_0000 >= 166020725319409 * square * n,
                v * v * 0x1000_0000_0000_0000 == 12884903 * 12884903 * square,
                n > 0,
        ;
        lemma_root_side(m * one, 12884903, 119);
    }
    if energy(block) * 1_000_000 * (0x100_0000 + 2 * n + 16) <= 144 * n * square * 0x100_0000 {
        lemma_chain_up(
            n as int,
            one as int,
            energy(block) as int,
            x1 as int,
            x2 as int,
            x3 as int,
        );
        let v = 12884902 * pow2(119);
        lemma_level_square(12884902);
        assert(m * one <= v * v) by (nonlinear_arith)
            requires
                m * n * one * 0x1000_0000_0000_0000 <= 166020699549604 * square * n,
                v * v * 0x1000_0000_0000_0000 == 12884902 * 12884902 * square,
                n > 0,
        ;
        lemma_root_side(m * one, 12884902, 119);
        lemma_pow2_adds(24, 119);
        lemma_pow2_strictly_increases(143, 277);
    }
}

} // verus!
