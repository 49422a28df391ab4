//! What resampling does to a recording, against the exact rates: how many samples come
//! out, where their windows lie, and what they are the means of.

use vstd::arithmetic::div_mod::*;
use vstd::arithmetic::power2::*;
use vstd::prelude::*;

use crate::accuracy;
use crate::audio;
use crate::sample;
use crate::single;

verus! {

/// The ratio of a rate to 16 kHz, against the rate.
proof fn lemma_near_ratio(in_rate: u32)
    requires
        in_rate > 0,
    ensures
        accuracy::near(audio::resample_ratio(in_rate) * 16_000, single::of_whole(in_rate as nat)),
        accuracy::near(single::of_whole(in_rate as nat), in_rate as nat * single::one()),
{
    let one = single::one();
    let w = single::of_whole(in_rate as nat);
    let r = audio::resample_ratio(in_rate);
    lemma2_to64();
    lemma_pow2_pos(149);
    lemma_pow2_adds(24, 24);
    lemma_pow2_strictly_increases(48, 149);
    accuracy::lemma_near_whole(in_rate as nat);
    single::lemma_exact(16_000, 149);
    let den = 16_000 * one;
    assert(w * one >= 0x80_0000 * den) by (nonlinear_arith)
        requires
            w >= one,
            one >= 0x1_0000_0000_0000,
            den == 16_000 * one,
    ;
    accuracy::lemma_near(w * one, den);
    assert(r * den == (r * 16_000) * one) by (nonlinear_arith)
        requires
            den == 16_000 * one,
    ;
    accuracy::lemma_near_scaled(r * 16_000, w, one);
}

/// From the length of a recording to that of its resampling, over the roundings on the
/// way: `f` is the rounded length, `w` the rounded rate, `r` their ratio and `q` the
/// quotient.
proof fn lemma_length_chain(frames: nat, rate: nat, one: nat, f: nat, w: nat, r: nat, q: nat)
    requires
        one > 0,
        accuracy::near(f, frames * one),
        accuracy::near(w, rate * one),
        accuracy::near(r * 16_000, w),
        accuracy::near(q * r, f * one),
    ensures
        q * rate * (0xff_ffff * 0xff_ffff) <= frames * 16_000 * one * (0x100_0001 * 0x100_0001),
        q * rate * (0x100_0001 * 0x100_0001) >= frames * 16_000 * one * (0xff_ffff * 0xff_ffff),
{
    let k: int = 0x100_0000;
    let u: int = 0x100_0001;
    let d: int = 0xff_ffff;
    let y = frames * 16_000 * one;
    let x = q * rate;
    assert(x * one * d <= q * w * k) by (nonlinear_arith)
        requires
            rate * one * d <= w * k,
            x == q * rate,
    ;
    assert(q * w * d <= q * r * 16_000 * k) by (nonlinear_arith)
        requires
            w * d <= r * 16_000 * k,
    ;
    assert(q * r * 16_000 * k <= f * one * 16_000 * u) by (nonlinear_arith)
        requires
            q * r * k <= f * one * u,
    ;
    assert(f * one * 16_000 * k <= y * one * u) by (nonlinear_arith)
        requires
            f * k <= frames * one * u,
            y == frames * 16_000 * one,
    ;
    assert(x * one * d * d <= y * one * u * u) by (nonlinear_arith)
        requires
            x * one * d <= q * w * k,
            q * w * d <= q * r * 16_000 * k,
            q * r * 16_000 * k <= f * one * 16_000 * u,
            f * one * 16_000 * k <= y * one * u,
            k == 0x100_0000,
            u == 0x100_0001,
            d == 0xff_ffff,
    ;
    assert(x * (d * d) <= y * (u * u)) by (nonlinear_arith)
        requires
            x * one * d * d <= y * one * u * u,
            one > 0,
    ;
    assert(x * one * u >= q * w * k) by (nonlinear_arith)
        requires
            rate * one * u >= w * k,
            x == q * rate,
    ;
    assert(q * w * u >= q * r * 16_000 * k) by (nonlinear_arith)
        requires
            w * u >= r * 16_000 * k,
    ;
    assert(q * r * 16_000 * k >= f * one * 16_000 * d) by (nonlinear_arith)
        requires
            q * r * k >= f * one * d,
    ;
    assert(f * one * 16_000 * k >= y * one * d) by (nonlinear_arith)
        requires
            f * k >= frames * one * d,
            y == frames * 16_000 * one,
    ;
    assert(x * one * u * u >= y * one * d * d) by (nonlinear_arith)
        requires
            x * one * u >= q * w * k,
            q * w * u >= q * r * 16_000 * k,
            q * r * 16_000 * k >= f * one * 16_000 * d,
            f * one * 16_000 * k >= y * one * d,
            k == 0x100_0000,
            u == 0x100_0001,
            d == 0xff_ffff,
    ;
    assert(x * (u * u) >= y * (d * d)) by (nonlinear_arith)
        requires
            x * one * u * u >= y * one * d * d,
            one > 0,
    ;
}

/// The whole part of a number of units, if it is within an index.
pub proof fn lemma_index(v: nat)
    ensures
        ({
            let one = single::one();
            let n = audio::as_index(v);
            &&& n * one <= v
            &&& v < 0x8000_0001 * one ==> v < (n + 1) * one
        }),
{
    let one = single::one();
    lemma_pow2_pos(149);
    let w = v as int / one as int;
    lemma_fundamental_div_mod(v as int, one as int);
    lemma_mod_bound(v as int, one as int);
    assert((w + 1) * one == one * w + one) by (nonlinear_arith);
    assert(audio::as_index(v) * one <= w * one) by (nonlinear_arith)
        requires
            audio::as_index(v) <= w,
    ;
    assert(w * one == one * w) by (nonlinear_arith);
    if v < 0x8000_0001 * one {
        assert(w < 0x8000_0001) by (nonlinear_arith)
            requires
                one * w <= v < 0x8000_0001 * one,
                one > 0,
        ;
    }
}

/// A recording is resampled as a whole: it comes to as many samples as its duration has
/// at 16 kHz, cut to a whole number, but for five parts in 2^24. No recording is cut
/// short, and none grows.
pub proof fn resampling_keeps_the_duration(frames: nat, in_rate: u32)
    requires
        in_rate > 0,
        frames * 16_000 <= in_rate * 0x7fff_0000,
    ensures
        ({
            let n = audio::resampled_len(frames, in_rate);
            &&& n * in_rate * 0x100_0000 <= frames * 16_000 * 0x100_0005
            &&& (n + 1) * in_rate * 0x100_0000 > frames * 16_000 * 0xff_fffb
        }),
{
    let one = single::one();
    let r = audio::resample_ratio(in_rate);
    let f = single::of_whole(frames);
    let w = single::of_whole(in_rate as nat);
    let q = single::quotient(f, r);
    let n = audio::resampled_len(frames, in_rate);
    let rate = in_rate as nat;
    lemma2_to64();
    lemma_pow2_pos(149);
    lemma_index(q);
    audio::lemma_ratio_range(in_rate);
    lemma_pow2_pos(135);
    if frames == 0 {
        lemma_zero_index(r);
        assert(n == 0);
        assert(0 * rate == 0);
        assert((0 + 1) * rate == rate) by (nonlinear_arith);
    } else {
        accuracy::lemma_near_whole(frames);
        lemma_near_ratio(in_rate);
        lemma_pow2_adds(149, 149);
        lemma_pow2_adds(168, 23);
        lemma_pow2_strictly_increases(191, 298);
        assert(f * one >= 0x80_0000 * r) by (nonlinear_arith)
            requires
                f >= one,
                one * one == pow2(298),
                r <= pow2(168),
                pow2(168) * 0x80_0000 == pow2(191),
                pow2(191) < pow2(298),
        ;
        accuracy::lemma_near(f * one, r);
        lemma_length_chain(frames, rate, one, f, w, r, q);
        let y = frames * 16_000;
        assert(q * rate * 0x100_0000 <= y * one * 0x100_0005 && q * rate * 0x100_0000 >= y * one
            * 0xff_fffb) by (nonlinear_arith)
            requires
                q * rate * (0xff_ffff * 0xff_ffff) <= y * one * (0x100_0001 * 0x100_0001),
                q * rate * (0x100_0001 * 0x100_0001) >= y * one * (0xff_ffff * 0xff_ffff),
        ;
        assert(y * one <= rate * one * 0x7fff_0000) by (nonlinear_arith)
            requires
                y <= rate * 0x7fff_0000,
        ;
        assert(q < 0x8000_0001 * one) by (nonlinear_arith)
            requires
                q * rate * 0x100_0000 <= y * one * 0x100_0005,
                y * one <= rate * one * 0x7fff_0000,
                rate > 0,
                one > 0,
        ;
        lemma_cut(n, one, rate, q, y);
    }
}

/// Nothing comes to nothing.
proof fn lemma_zero_index(r: nat)
    requires
        r > 0,
    ensures
        single::of_whole(0) == 0,
        audio::as_index(single::quotient(0, r)) == 0,
        audio::as_index(single::product(0, r)) == 0,
{
    let one = single::one();
    lemma2_to64();
    lemma_pow2_pos(149);
    assert(0 * one == 0 && 0 * r == 0 && 0 * pow2(0) == 0);
    assert(0 <= r * (0 * pow2(0)) && 0 <= one * (0 * pow2(0)) && 0 <= 1 * (0 * pow2(0)))
        by (nonlinear_arith);
    single::lemma_nearest_at_most(0, 1, 0, 0);
    single::lemma_nearest_at_most(0, r, 0, 0);
    single::lemma_nearest_at_most(0, one, 0, 0);
    lemma_div_basics(one as int);
}

/// Cut to a whole number, what is near stays near.
pub proof fn lemma_cut(n: nat, one: nat, rate: nat, q: nat, y: nat)
    requires
        one > 0,
        rate > 0,
        n * one <= q < (n + 1) * one,
        y * one * 0xff_fffb <= q * rate * 0x100_0000 <= y * one * 0x100_0005,
    ensures
        n * rate * 0x100_0000 <= y * 0x100_0005,
        (n + 1) * rate * 0x100_0000 > y * 0xff_fffb,
{
    assert(n * one * rate <= q * rate) by (nonlinear_arith)
        requires
            n * one <= q,
    ;
    assert(n * rate * 0x100_0000 <= y * 0x100_0005) by (nonlinear_arith)
        requires
            n * one * rate <= q * rate,
            q * rate * 0x100_0000 <= y * one * 0x100_0005,
            one > 0,
    ;
    assert((n + 1) * one * rate > q * rate) by (nonlinear_arith)
        requires
            (n + 1) * one > q,
            rate > 0,
    ;
    assert((n + 1) * rate * 0x100_0000 > y * 0xff_fffb) by (nonlinear_arith)
        requires
            (n + 1) * one * rate > q * rate,
            q * rate * 0x100_0000 >= y * one * 0xff_fffb,
            one > 0,
    ;
}

/// From the place of a sample to where its window begins, over the roundings on the way.
proof fn lemma_place_chain(i: nat, rate: nat, one: nat, v: nat, w: nat, r: nat, p: nat)
    requires
        one > 0,
        accuracy::near(v, i * one),
        accuracy::near(w, rate * one),
        accuracy::near(r * 16_000, w),
        accuracy::near(p * one, v * r),
    ensures
        p * 16_000 * 0x100_0000 <= i * rate * one * 0x100_0005,
        p * 16_000 * 0x100_0000 >= i * rate * one * 0xff_fffb,
{
    let k: int = 0x100_0000;
    let u: int = 0x100_0001;
    let d: int = 0xff_ffff;
    let x = p * 16_000;
    let y = i * rate;
    assert(x * one * k <= v * r * 16_000 * u) by (nonlinear_arith)
        requires
            p * one * k <= v * r * u,
            x == p * 16_000,
    ;
    assert(v * r * 16_000 * k <= v * w * u) by (nonlinear_arith)
        requires
            r * 16_000 * k <= w * u,
    ;
    assert(v * w * k <= v * rate * one * u) by (nonlinear_arith)
        requires
            w * k <= rate * one * u,
    ;
    assert(v * rate * one * k <= y * one * one * u) by (nonlinear_arith)
        requires
            v * k <= i * one * u,
            y == i * rate,
    ;
    accuracy::lemma_four_up(
        (x * one) as int,
        (v * r * 16_000) as int,
        (v * w) as int,
        (v * rate * one) as int,
        (y * one * one) as int,
    );
    assert(x * 0x100_0000 <= y * one * 0x100_0005) by (nonlinear_arith)
        requires
            x * one * 0x100_0000 <= y * one * one * 0x100_0005,
            one > 0,
    ;
    assert(x * one * k >= v * r * 16_000 * d) by (nonlinear_arith)
        requires
            p * one * k >= v * r * d,
            x == p * 16_000,
    ;
    assert(v * r * 16_000 * k >= v * w * d) by (nonlinear_arith)
        requires
            r * 16_000 * k >= w * d,
    ;
    assert(v * w * k >= v * rate * one * d) by (nonlinear_arith)
        requires
            w * k >= rate * one * d,
    ;
    assert(v * rate * one * k >= y * one * one * d) by (nonlinear_arith)
        requires
            v * k >= i * one * d,
            y == i * rate,
    ;
    accuracy::lemma_four_down(
        (x * one) as int,
        (v * r * 16_000) as int,
        (v * w) as int,
        (v * rate * one) as int,
        (y * one * one) as int,
    );
    assert(x * 0x100_0000 >= y * one * 0xff_fffb) by (nonlinear_arith)
        requires
            x * one * 0x100_0000 >= y * one * one * 0xff_fffb,
            one > 0,
    ;
}

/// The window of a sample begins where the sample lies in time: at its place at 16 kHz,
/// counted in frames and cut to a whole number, but for five parts in 2^24.
pub proof fn windows_begin_in_time(i: nat, in_rate: u32)
    requires
        in_rate > 0,
        i * in_rate <= 16_000 * 0x7fff_0000,
    ensures
        ({
            let start = audio::window_start(i, in_rate);
            &&& start * 16_000 * 0x100_0000 <= i * in_rate * 0x100_0005
            &&& (start + 1) * 16_000 * 0x100_0000 > i * in_rate * 0xff_fffb
        }),
{
    let one = single::one();
    let r = audio::resample_ratio(in_rate);
    let v = single::of_whole(i);
    let w = single::of_whole(in_rate as nat);
    let p = single::product(v, r);
    let start = audio::window_start(i, in_rate);
    let rate = in_rate as nat;
    lemma2_to64();
    lemma_pow2_pos(149);
    lemma_pow2_pos(135);
    audio::lemma_ratio_range(in_rate);
    lemma_index(p);
    if i == 0 {
        lemma_zero_index(r);
        assert(0 * rate == 0);
    } else {
        accuracy::lemma_near_whole(i);
        lemma_near_ratio(in_rate);
        lemma_pow2_strictly_increases(23, 135);
        assert(v * r >= 0x80_0000 * one) by (nonlinear_arith)
            requires
                v >= one,
                r >= 0x80_0000,
        ;
        accuracy::lemma_near(v * r, one);
        lemma_place_chain(i, rate, one, v, w, r, p);
        let y = i * rate;
        assert(y * one <= 16_000 * one * 0x7fff_0000) by (nonlinear_arith)
            requires
                y <= 16_000 * 0x7fff_0000,
        ;
        assert(p < 0x8000_0001 * one);
        lemma_cut(start, one, 16_000, p, y);
    }
}

/// Windows follow each other: the first begins with the recording, none begins before
/// the one in front of it, and each reaches to where the next one begins or to the end
/// of the recording, and no farther than that or one frame. So no frame between them is
/// left out.
pub proof fn windows_follow_each_other(i: nat, frames: nat, in_rate: u32)
    requires
        in_rate > 0,
    ensures
        ({
            let start = audio::window_start(i, in_rate);
            let next = audio::window_start(i + 1, in_rate);
            let end = audio::window_end(i, frames, in_rate);
            &&& audio::window_start(0, in_rate) == 0
            &&& start <= next
            &&& end >= next || end == frames
            &&& end > start || end == frames
            &&& end <= frames
            &&& end <= next || end <= start + 1
        }),
{
    let one = single::one();
    let r = audio::resample_ratio(in_rate);
    lemma_pow2_pos(149);
    lemma_pow2_pos(135);
    audio::lemma_ratio_range(in_rate);
    lemma_zero_index(r);
    let v = single::of_whole(i);
    let w = single::of_whole(i + 1);
    assert(i * one <= (i + 1) * one) by (nonlinear_arith);
    single::rounding_is_monotone(i * one, (i + 1) * one, 1);
    assert(v * r <= w * r) by (nonlinear_arith)
        requires
            v <= w,
    ;
    single::rounding_is_monotone(v * r, w * r, one);
    lemma_div_is_ordered(
        single::product(v, r) as int,
        single::product(w, r) as int,
        one as int,
    );
}

/// The windows reach to the end of the recording: the last one ends with it, or what is
/// left is less than one sample of output takes up, but for ten parts in 2^24 and a
/// frame.
pub proof fn windows_reach_the_end(frames: nat, in_rate: u32)
    requires
        in_rate > 0,
        frames * 16_000 <= in_rate * 0x7ffe_0000,
        frames <= 0x7ffe_0000,
        audio::resampled_len(frames, in_rate) > 0,
    ensures
        ({
            let n = audio::resampled_len(frames, in_rate);
            let end = audio::window_end((n - 1) as nat, frames, in_rate);
            end == frames || (end + 1) * 16_000 * 0x100_0000 + in_rate * 0x100_0000 > frames
                * 16_000 * 0xff_fff6
        }),
{
    let n = audio::resampled_len(frames, in_rate);
    let i = (n - 1) as nat;
    let rate = in_rate as nat;
    let end = audio::window_end(i, frames, in_rate) as int;
    resampling_keeps_the_duration(frames, in_rate);
    windows_follow_each_other(i, frames, in_rate);
    let x = n * rate;
    let y = frames * 16_000;
    assert((n + 1) * rate == x + rate) by (nonlinear_arith)
        requires
            x == n * rate,
    ;
    assert(x * 0x100_0000 <= y * 0x100_0005);
    assert((x + rate) * 0x100_0000 > y * 0xff_fffb);
    assert(i + 1 == n);
    windows_begin_in_time(n, in_rate);
    let next = audio::window_start(n, in_rate) as int;
    assert(n * rate == x);
    assert((next + 1) * 16_000 * 0x100_0000 > x * 0xff_fffb);
    assert((next + 1) * 16_000 * 0x100_0000 * 0x100_0000 > (y * 0xff_fffb - rate * 0x100_0000)
        * 0xff_fffb);
    assert((next + 1) * 16_000 * 0x100_0000 + rate * 0x100_0000 > y * 0xff_fff6);
}

/// Above 32 kHz every recording of less than 2^25 frames can be resampled.
pub proof fn long_recordings_can_be_resampled(frames: nat, in_rate: u32)
    requires
        in_rate > 32_000,
        frames < 0x200_0000,
    ensures
        audio::resampleable(frames, in_rate),
{
    if frames > 0 {
        assert forall|i: nat|
            i < audio::resampled_len(frames, in_rate) implies #[trigger] audio::window_start(
            i,
            in_rate,
        ) <= frames by {
            lemma_long_start(frames, in_rate, i);
        }
    }
}

proof fn lemma_long_start(frames: nat, in_rate: u32, i: nat)
    requires
        in_rate > 32_000,
        0 < frames < 0x200_0000,
        i < audio::resampled_len(frames, in_rate),
    ensures
        audio::window_start(i, in_rate) <= frames,
{
    let one = single::one();
    let r = audio::resample_ratio(in_rate);
    let w = single::of_whole(in_rate as nat);
    let f = single::of_whole(frames);
    let q = single::quotient(f, r);
    let n = audio::resampled_len(frames, in_rate);
    let v = single::of_whole(i);
    let p = single::product(v, r);
    lemma2_to64();
    lemma_pow2_pos(149);
    lemma_pow2_unfold(150);
    lemma_pow2_adds(25, 149);
    lemma_near_ratio(in_rate);
    assert(r > 2 * one) by (nonlinear_arith)
        requires
            r * 16_000 * 0x100_0000 >= w * 0xff_ffff,
            w * 0x100_0000 >= in_rate * one * 0xff_ffff,
            in_rate >= 32_001,
            one > 0,
    ;
    // Each rounding moves by no more than the spacing allows.
    assert(frames * one < 0x200_0000 * one) by (nonlinear_arith)
        requires
            frames < 0x200_0000,
            one > 0,
    ;
    single::lemma_error_below(frames * one, 1, 150);
    assert(1 * pow2(150) == pow2(150) && 1 * pow2(174) == pow2(174) && f * 1 == f);
    assert(f <= frames * one + one);
    single::lemma_nearest_bound(frames * one, 1, 174);
    lemma_pow2_adds(24, 149);
    assert(f * one < r * pow2(173)) by (nonlinear_arith)
        requires
            f <= 0x200_0000 * one,
            r > 2 * one,
            pow2(173) == 0x100_0000 * one,
            one > 0,
    ;
    single::lemma_error_below(f * one, r, 149);
    assert(2 * (q * r) <= 2 * (f * one) + r * one);
    lemma_index(q);
    assert((i + 1) * one <= q) by (nonlinear_arith)
        requires
            n * one <= q,
            i + 1 <= n,
            one > 0,
    ;
    let x = i * one;
    assert(x + one <= q) by (nonlinear_arith)
        requires
            (i + 1) * one <= q,
            x == i * one,
    ;
    assert(2 * (x * r) + r * one <= 2 * (f * one)) by (nonlinear_arith)
        requires
            x + one <= q,
            2 * (q * r) <= 2 * (f * one) + r * one,
            r > 0,
    ;
    assert(i < 0x100_0000) by (nonlinear_arith)
        requires
            2 * (x * r) + r * one <= 2 * (f * one),
            x == i * one,
            f <= 0x200_0000 * one,
            r > 2 * one,
            one > 0,
    ;
    single::lemma_exact(i, 149);
    assert(v == x);
    assert(v * r < one * pow2(174)) by (nonlinear_arith)
        requires
            2 * (v * r) + r * one <= 2 * (f * one),
            f <= 0x200_0000 * one,
            pow2(174) == 0x200_0000 * one,
            r > 0,
            one > 0,
    ;
    single::lemma_error_below(v * r, one, 150);
    assert(2 * (p * one) <= 2 * (v * r) + one * (2 * one));
    assert(p < f) by (nonlinear_arith)
        requires
            2 * (p * one) <= 2 * (v * r) + one * (2 * one),
            2 * (v * r) + r * one <= 2 * (f * one),
            r > 2 * one,
            one > 0,
    ;
    lemma_index(p);
    let start = audio::window_start(i, in_rate);
    assert(start <= frames) by (nonlinear_arith)
        requires
            start * one <= p,
            p < frames * one + one,
            one > 0,
    ;
}

/// At a multiple of 16 kHz the ratio is exact.
proof fn lemma_whole_ratio(d: nat)
    requires
        0 < d <= 100_000,
    ensures
        audio::resample_ratio((16_000 * d) as u32) == d * single::one(),
{
    let one = single::one();
    let rate = (16_000 * d) as u32;
    lemma2_to64();
    lemma_pow2_pos(149);
    lemma_pow2_adds(7, 149);
    single::lemma_exact(125 * d, 156);
    assert((125 * d) * (128 * one) == rate * one) by (nonlinear_arith)
        requires
            rate == 16_000 * d,
    ;
    single::lemma_exact(16_000, 149);
    single::lemma_exact(d, 149);
    let c = 16_000 * one;
    assert(c > 0);
    assert((rate * one) * one == c * (d * one)) by (nonlinear_arith)
        requires
            rate == 16_000 * d,
            c == 16_000 * one,
    ;
    single::lemma_nearest_scaled(d * one, 1, c);
    assert(c * 1 == c);
}

/// At `d` times 16 kHz, every `d` frames come to one sample: there are as many samples
/// as whole groups of `d` frames, and sample `i` is the mean of group `i`.
pub proof fn multiples_of_16k_are_grouped(frames: nat, d: nat, i: nat)
    requires
        0 < d <= 100_000,
        frames < 0x100_0000,
        i * d + d <= frames,
    ensures
        audio::resampled_len(frames, (16_000 * d) as u32) == frames / d,
        i < frames / d,
        audio::window_start(i, (16_000 * d) as u32) == i * d,
        audio::window_end(i, frames, (16_000 * d) as u32) == i * d + d,
{
    let one = single::one();
    let rate = (16_000 * d) as u32;
    lemma2_to64();
    lemma_pow2_pos(149);
    lemma_whole_ratio(d);
    lemma_group_start(i, d);
    assert((i + 1) * d == i * d + d) by (nonlinear_arith);
    lemma_group_start(i + 1, d);
    // The length.
    let k = frames / d;
    lemma_fundamental_div_mod(frames as int, d as int);
    lemma_mod_bound(frames as int, d as int);
    assert(d * k == k * d && (k + 1) * d == k * d + d) by (nonlinear_arith);
    assert(k <= frames) by (nonlinear_arith)
        requires
            k * d <= frames,
            d >= 1,
    ;
    assert(i < k) by (nonlinear_arith)
        requires
            (i + 1) * d <= frames,
            frames < (k + 1) * d,
            d > 0,
    ;
    single::lemma_exact(frames, 149);
    single::lemma_exact(k, 149);
    let f = frames * one;
    single::lemma_nearest_scaled(f, d, one);
    assert(one * f == f * one && one * d == d * one) by (nonlinear_arith);
    let q = single::nearest(f, d);
    single::lemma_nearest_scaled(k * one, 1, d);
    assert(d * (k * one) <= f) by (nonlinear_arith)
        requires
            k * d <= frames,
            f == frames * one,
    ;
    assert(d * 1 == d);
    single::rounding_is_monotone(d * (k * one), f, d);
    lemma2_to64_rest();
    lemma_pow2_strictly_increases(56, 149);
    assert(f >= 0x80_0000 * d) by (nonlinear_arith)
        requires
            f == frames * one,
            frames >= 1,
            one >= 0x100_0000_0000_0000,
            d <= 100_000,
    ;
    single::rounding_error_is_bounded(f, d);
    assert(q * d < f + one) by (nonlinear_arith)
        requires
            (q * d - f) * 0x100_0000 <= f,
            f == frames * one,
            frames < 0x100_0000,
            one > 0,
    ;
    assert(q < (k + 1) * one) by (nonlinear_arith)
        requires
            q * d < f + one,
            f == frames * one,
            frames + 1 <= (k + 1) * d,
            d > 0,
            one > 0,
    ;
    lemma_whole_is(q, k);
}

/// A number between two whole ones has the lower one as its whole part.
pub proof fn lemma_whole_is(q: nat, k: nat)
    requires
        k < 0x1_0000_0000,
        k * single::one() <= q < (k + 1) * single::one(),
    ensures
        audio::as_index(q) == k,
{
    let one = single::one();
    lemma_pow2_pos(149);
    assert((k + 1) * one == k * one + one) by (nonlinear_arith);
    lemma_fundamental_div_mod_converse(q as int, one as int, k as int, q - k * one);
}

/// Group `i` begins at frame `i * d`.
proof fn lemma_group_start(i: nat, d: nat)
    requires
        0 < d <= 100_000,
        i * d < 0x100_0000,
    ensures
        audio::window_start(i, (16_000 * d) as u32) == i * d,
{
    let one = single::one();
    lemma2_to64();
    lemma_pow2_pos(149);
    lemma_whole_ratio(d);
    assert(i <= i * d) by (nonlinear_arith)
        requires
            d >= 1,
    ;
    single::lemma_exact(i, 149);
    single::lemma_exact(i * d, 149);
    let g = i * d;
    assert((i * one) * (d * one) == one * (g * one)) by (nonlinear_arith)
        requires
            g == i * d,
    ;
    single::lemma_nearest_scaled(g * one, 1, one);
    assert(one * 1 == one);
    assert((g + 1) * one == g * one + one) by (nonlinear_arith);
    lemma_whole_is(g * one, g);
}

/// Frames are counted: as many as the samples fill, with one more for what is left.
pub proof fn frames_are_counted(len: nat, channels: u16)
    ensures
        channels > 0 ==> (audio::frame_count(len, channels) - 1) * channels < len
            <= audio::frame_count(len, channels) * channels || len == 0,
        len == 0 ==> audio::frame_count(len, channels) == 0,
        channels == 0 ==> audio::frame_count(len, channels) == len,
{
    let size: int = if channels == 0 {
        1
    } else {
        channels as int
    };
    let n = audio::frame_count(len, channels) as int;
    lemma_fundamental_div_mod(len + size - 1, size);
    lemma_mod_bound(len + size - 1, size);
    assert(n * size == size * n && (n - 1) * size == n * size - size) by (nonlinear_arith);
    if channels == 0 {
        lemma_div_basics(len as int);
    }
    if len == 0 {
        lemma_basic_div(size - 1, size);
    }
}

/// `bits` is the mean of the samples from `from` up to `to`, taken `n` times: the exact
/// sum, but for two parts in 2^24 of the bulk for each sample, and half a unit for each
/// time.
pub open spec fn is_mean_of(bits: u32, samples: Seq<u32>, from: int, to: int, n: nat) -> bool {
    let part = sample::numbers(samples.subrange(from, to));
    &&& sample::number(bits) is Finite
    &&& sample::abs(accuracy::units(sample::number(bits)) * n - accuracy::total(part))
        * 0x100_0000 <= (2 * part.len() + 2) * accuracy::bulk(part) + 0x80_0000 * n
}

proof fn lemma_part(bits: u32, samples: Seq<u32>, from: int, to: int, n: nat)
    requires
        0 <= from <= to <= samples.len(),
        to - from <= n,
        0 < n <= 0x40_0000,
        accuracy::bounded(sample::numbers(samples), pow2(181)),
        sample::number(bits) == sample::mean(
            sample::numbers(samples.subrange(from, to)),
            n,
        ),
    ensures
        is_mean_of(bits, samples, from, to, n),
{
    let part = sample::numbers(samples.subrange(from, to));
    assert forall|i: int| 0 <= i < part.len() implies (#[trigger] part[i]) is Finite
        && sample::abs(accuracy::units(part[i])) <= pow2(181) by {
        assert(part[i] == sample::numbers(samples)[from + i]);
    }
    accuracy::means_are_accurate(part, n);
}

/// A recording at 16 kHz has one sample for each frame, a last one that is cut short
/// included: the mean over its channels.
pub proof fn downmixing_averages_the_channels(
    samples: Seq<u32>,
    channels: u16,
    out: Seq<u32>,
    k: int,
)
    requires
        channels > 0,
        accuracy::bounded(sample::numbers(samples), pow2(181)),
        audio::is_16k_mono(samples, 16_000, channels, out),
        0 <= k < out.len(),
    ensures
        (out.len() - 1) * channels < samples.len() <= out.len() * channels,
        is_mean_of(
            out[k],
            samples,
            k * channels,
            if (k + 1) * channels <= samples.len() {
                (k + 1) * channels
            } else {
                samples.len() as int
            },
            channels as nat,
        ),
{
    let len = samples.len() as int;
    let size = channels as int;
    let n = out.len() as int;
    assert((k + 1) * size == k * size + size) by (nonlinear_arith);
    if channels == 1 {
        let part = sample::numbers(samples.subrange(k, k + 1));
        assert(out == samples);
        assert(k * size == k && n * size == n && (n - 1) * size == n - 1) by (nonlinear_arith)
            requires
                size == 1,
        ;
        assert(part.drop_last() =~= Seq::<sample::Number>::empty());
        assert(part.last() == sample::number(samples[k]));
        assert(sample::numbers(samples)[k] is Finite);
        let v = accuracy::units(sample::number(out[k]));
        assert(accuracy::total(part) == accuracy::total(part.drop_last()) + v);
        assert(v * 1 == v);
        assert((2 * part.len() + 2) * accuracy::bulk(part) >= 0) by (nonlinear_arith);
    } else {
        lemma_fundamental_div_mod(len + size - 1, size);
        lemma_mod_bound(len + size - 1, size);
        assert(n * size == size * n && (n - 1) * size == n * size - size) by (nonlinear_arith);
        assert(0 <= k * size < len) by (nonlinear_arith)
            requires
                0 <= k <= n - 1,
                (n - 1) * size < len,
                size > 1,
        ;
        let end = if k * size + size <= len {
            k * size + size
        } else {
            len
        };
        assert(audio::frame(samples, channels, k) == samples.subrange(k * size, end));
        lemma_part(out[k], samples, k * size, end, channels as nat);
    }
}

/// A recording in mono at another rate has as many samples as its duration has at
/// 16 kHz, each the mean over its window.
pub proof fn resampling_averages_the_windows(
    samples: Seq<u32>,
    in_rate: u32,
    out: Seq<u32>,
    i: int,
)
    requires
        in_rate > 0,
        in_rate != 16_000,
        samples.len() > 0,
        audio::resampleable(samples.len(), in_rate),
        accuracy::bounded(sample::numbers(samples), pow2(181)),
        audio::is_16k_mono(samples, in_rate, 1, out),
        0 <= i < out.len(),
        audio::window_start(i as nat, in_rate) < audio::window_end(i as nat, samples.len(), in_rate)
            <= audio::window_start(i as nat, in_rate) + 0x40_0000,
    ensures
        out.len() == audio::resampled_len(samples.len(), in_rate),
        ({
            let start = audio::window_start(i as nat, in_rate) as int;
            let end = audio::window_end(i as nat, samples.len(), in_rate) as int;
            is_mean_of(out[i], samples, start, end, (end - start) as nat)
        }),
{
    let start = audio::window_start(i as nat, in_rate) as int;
    let end = audio::window_end(i as nat, samples.len(), in_rate) as int;
    lemma_part(out[i], samples, start, end, (end - start) as nat);
}

/// A recording in mono at `d` times 16 kHz, such as 48 kHz, comes to one sample for
/// every `d` frames: the mean of these.
pub proof fn groups_are_averaged(samples: Seq<u32>, d: nat, out: Seq<u32>, i: int)
    requires
        1 < d <= 100_000,
        samples.len() < 0x100_0000,
        accuracy::bounded(sample::numbers(samples), pow2(181)),
        audio::is_16k_mono(samples, (16_000 * d) as u32, 1, out),
    ensures
        out.len() == samples.len() / d,
        0 <= i < out.len() ==> i * d + d <= samples.len() && is_mean_of(
            out[i],
            samples,
            i * d,
            i * d + d,
            d,
        ),
{
    let rate = (16_000 * d) as u32;
    let len = samples.len();
    assert(rate == 16_000 * d);
    lemma_fundamental_div_mod(len as int, d as int);
    lemma_mod_bound(len as int, d as int);
    let k = len / d;
    assert(d * k == k * d) by (nonlinear_arith);
    if len == 0 {
        lemma_div_basics(d as int);
    } else {
        audio::recordings_can_be_resampled(len, rate);
        if len >= d {
            assert(0 * d == 0);
            multiples_of_16k_are_grouped(len, d, 0);
        } else {
            lemma_basic_div(len as int, d as int);
            lemma_short_recording(len, d);
        }
        if 0 <= i < out.len() {
            assert(i * d + d <= len) by (nonlinear_arith)
                requires
                    i + 1 <= k,
                    k * d <= len,
            ;
            multiples_of_16k_are_grouped(len, d, i as nat);
            resampling_averages_the_windows(samples, rate, out, i);
        }
    }
}

/// Less than a group comes to nothing.
proof fn lemma_short_recording(frames: nat, d: nat)
    requires
        0 < frames < d <= 100_000,
    ensures
        audio::resampled_len(frames, (16_000 * d) as u32) == 0,
{
    let one = single::one();
    lemma2_to64();
    lemma_pow2_pos(149);
    lemma_whole_ratio(d);
    single::lemma_exact(frames, 149);
    let f = frames * one;
    single::lemma_nearest_scaled(f, d, one);
    assert(one * f == f * one && one * d == d * one) by (nonlinear_arith);
    let q = single::nearest(f, d);
    lemma2_to64_rest();
    lemma_pow2_strictly_increases(56, 149);
    assert(f >= 0x80_0000 * d) by (nonlinear_arith)
        requires
            f == frames * one,
            frames >= 1,
            one >= 0x100_0000_0000_0000,
            d <= 100_000,
    ;
    single::rounding_error_is_bounded(f, d);
    assert(q * d < f + one) by (nonlinear_arith)
        requires
            (q * d - f) * 0x100_0000 <= f,
            f == frames * one,
            frames < 0x100_0000,
            one > 0,
    ;
    assert(q < one) by (nonlinear_arith)
        requires
            q * d < f + one,
            f == frames * one,
            frames + 1 <= d,
            one > 0,
    ;
    assert(0 * one == 0 && (0 + 1) * one == one) by (nonlinear_arith);
    lemma_whole_is(q, 0);
}

} // verus!
