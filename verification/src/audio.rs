//! Downmixing, resampling to 16 kHz and encoding of recorded audio.
//!
//! Samples are bit patterns (see [`crate::sample`]). Positions in a recording
//! are worked out in single precision too, so the windows that are averaged are
//! those of single-precision arithmetic.

use vstd::arithmetic::div_mod::*;
use vstd::arithmetic::power2::*;
use vstd::prelude::*;
use vstd::slice::slice_to_vec;

use crate::sample;
use crate::sample::{Number, Real};
use crate::single;
use crate::single::Single;
use crate::wav;

verus! {

/// Samples per second of what is transcribed.
pub const TARGET_RATE: u32 = 16_000;

/// Samples that one frame takes up: at least one.
pub open spec fn frame_size(channels: u16) -> nat {
    if channels == 0 {
        1
    } else {
        channels as nat
    }
}

/// Frames in `len` samples; the last one may be cut short.
pub open spec fn frame_count(len: nat, channels: u16) -> nat {
    (len + frame_size(channels) - 1) as nat / frame_size(channels)
}

/// A nonnegative number as an index: its whole part, as far as an index goes.
pub open spec fn as_index(value: nat) -> nat {
    if single::whole_part(value) <= usize::MAX {
        single::whole_part(value)
    } else {
        usize::MAX as nat
    }
}

/// Frames of input for one sample of output, in single precision.
pub open spec fn resample_ratio(in_rate: u32) -> nat {
    single::quotient(single::of_whole(in_rate as nat), single::of_whole(TARGET_RATE as nat))
}

/// How many samples `frames` frames are resampled to.
pub open spec fn resampled_len(frames: nat, in_rate: u32) -> nat {
    as_index(single::quotient(single::of_whole(frames), resample_ratio(in_rate)))
}

/// The frame at which output sample `i` begins.
pub open spec fn window_start(i: nat, in_rate: u32) -> nat {
    as_index(single::product(single::of_whole(i), resample_ratio(in_rate)))
}

/// The frame before which output sample `i` ends: where the next one begins,
/// but at least one frame on, and not past the recording.
pub open spec fn window_end(i: nat, frames: nat, in_rate: u32) -> nat {
    let start = window_start(i, in_rate);
    let next = window_start(i + 1, in_rate);
    let end = if next <= start {
        start + 1
    } else {
        next
    };
    if end <= frames {
        end
    } else {
        frames
    }
}

/// Every window begins within the recording. Single precision may place the
/// last ones of a very long recording past its end.
pub open spec fn resampleable(frames: nat, in_rate: u32) -> bool {
    ||| frames == 0
    ||| in_rate == TARGET_RATE
    ||| in_rate > 0 && forall|i: nat|
        i < resampled_len(frames, in_rate) ==> #[trigger] window_start(i, in_rate) <= frames
}

/// The samples of frame `k`; the last frame may be cut short.
pub open spec fn frame(samples: Seq<u32>, channels: u16, k: int) -> Seq<u32> {
    let start = k * frame_size(channels);
    let end = start + frame_size(channels);
    samples.subrange(
        start,
        if end <= samples.len() {
            end
        } else {
            samples.len() as int
        },
    )
}

/// `mono` has one sample for each frame of `samples`: the sample itself, or
/// the sum over the frame divided by the number of channels.
pub open spec fn is_downmix(samples: Seq<u32>, channels: u16, mono: Seq<u32>) -> bool {
    if channels <= 1 {
        mono == samples
    } else {
        &&& mono.len() == frame_count(samples.len(), channels)
        &&& forall|k: int|
            0 <= k < mono.len() ==> sample::number(#[trigger] mono[k]) == sample::mean(
                sample::numbers(frame(samples, channels, k)),
                channels as nat,
            )
    }
}

/// The frames that output sample `i` is the mean of.
pub open spec fn window(mono: Seq<u32>, in_rate: u32, i: int) -> Seq<u32> {
    mono.subrange(
        window_start(i as nat, in_rate) as int,
        window_end(i as nat, mono.len(), in_rate) as int,
    )
}

/// `out` is `mono` at 16 kHz: `mono` itself, or the mean over each window.
pub open spec fn is_resampled(mono: Seq<u32>, in_rate: u32, out: Seq<u32>) -> bool {
    if in_rate == TARGET_RATE || mono.len() == 0 {
        out == mono
    } else {
        &&& out.len() == resampled_len(mono.len(), in_rate)
        &&& forall|i: int|
            0 <= i < out.len() ==> sample::number(#[trigger] out[i]) == sample::mean(
                sample::numbers(window(mono, in_rate, i)),
                window(mono, in_rate, i).len(),
            )
    }
}

/// `out` is what `samples` come to in mono at 16 kHz.
pub open spec fn is_16k_mono(
    samples: Seq<u32>,
    in_rate: u32,
    channels: u16,
    out: Seq<u32>,
) -> bool {
    exists|mono: Seq<u32>| #[trigger]
        is_downmix(samples, channels, mono) && is_resampled(mono, in_rate, out)
}

/// How many samples a recording comes to in mono at 16 kHz.
pub open spec fn mono_len(len: nat, in_rate: u32, channels: u16) -> nat {
    let frames = frame_count(len, channels);
    if in_rate == TARGET_RATE || frames == 0 {
        frames
    } else {
        resampled_len(frames, in_rate)
    }
}

/// The 16-bit levels of samples.
pub open spec fn levels(samples: Seq<u32>) -> Seq<i16> {
    samples.map_values(|bits: u32| sample::level(sample::number(bits)) as i16)
}

/// The ratio is within powers of two.
pub proof fn lemma_ratio_range(in_rate: u32)
    requires
        in_rate > 0,
    ensures
        pow2(135) <= resample_ratio(in_rate) <= pow2(168),
{
    lemma2_to64();
    single::lemma_of_whole_range(in_rate as nat, 0, 32);
    single::lemma_of_whole_range(16_000, 13, 14);
    let num = single::of_whole(in_rate as nat) * single::one();
    let den = single::of_whole(16_000);
    lemma_pow2_pos(149);
    lemma_pow2_pos(162);
    lemma_pow2_adds(149, 149);
    lemma_pow2_adds(181, 149);
    lemma_pow2_adds(162, 168);
    lemma_pow2_adds(163, 135);
    assert(den * pow2(135) <= num <= den * pow2(168)) by (nonlinear_arith)
        requires
            num == single::of_whole(in_rate as nat) * single::one(),
            single::one() == pow2(149),
            pow2(149) <= single::of_whole(in_rate as nat) <= pow2(181),
            pow2(162) <= den <= pow2(163),
            pow2(298) == pow2(149) * pow2(149),
            pow2(330) == pow2(181) * pow2(149),
            pow2(330) == pow2(162) * pow2(168),
            pow2(298) == pow2(163) * pow2(135),
    ;
    single::lemma_nearest_floor(num, den, 135);
    single::lemma_nearest_bound(num, den, 168);
}

/// Rounding makes a recording at most one part in 2^24 longer.
proof fn lemma_length(frames: nat, in_rate: u32, i: nat)
    requires
        0 < frames < 0x100_0000,
        0 < in_rate,
        i < resampled_len(frames, in_rate),
    ensures
        (i + 1) * resample_ratio(in_rate) * 0x100_0000 <= frames * single::one() * 0x100_0001,
{
    let one = single::one();
    let r = resample_ratio(in_rate);
    let whole = frames * one;
    let q = single::quotient(single::of_whole(frames), r);
    lemma2_to64();
    lemma_ratio_range(in_rate);
    lemma_pow2_pos(149);
    lemma_pow2_pos(135);
    single::lemma_exact(frames, 149);
    lemma_pow2_adds(149, 149);
    lemma_pow2_adds(168, 23);
    lemma_pow2_strictly_increases(191, 298);
    assert(whole * one >= r * pow2(23)) by (nonlinear_arith)
        requires
            whole == frames * one,
            frames >= 1,
            one * one == pow2(298),
            r <= pow2(168),
            pow2(168) * pow2(23) == pow2(191),
            pow2(191) < pow2(298),
    ;
    single::lemma_nearest_error(whole * one, r);
    lemma_fundamental_div_mod(q as int, one as int);
    lemma_mod_bound(q as int, one as int);
    assert((i + 1) * one <= q) by (nonlinear_arith)
        requires
            q >= one * (q as int / one as int),
            i + 1 <= q as int / one as int,
            one > 0,
    ;
    assert(((i + 1) * r * 0x100_0000) * one <= (whole * 0x100_0001) * one) by (nonlinear_arith)
        requires
            (i + 1) * one <= q,
            q * r * 0x100_0000 <= whole * one * 0x100_0001,
            r >= 0,
    ;
    assert((i + 1) * r * 0x100_0000 <= whole * 0x100_0001) by (nonlinear_arith)
        requires
            ((i + 1) * r * 0x100_0000) * one <= (whole * 0x100_0001) * one,
            one > 0,
    ;
}

/// From the target rate on, the ratio is at least one.
proof fn lemma_ratio_from_one(in_rate: u32)
    requires
        in_rate >= TARGET_RATE,
    ensures
        resample_ratio(in_rate) >= single::one(),
{
    let one = single::one();
    lemma2_to64();
    lemma_pow2_pos(149);
    single::lemma_exact(16_000, 149);
    if in_rate < 0x100_0000 {
        single::lemma_exact(in_rate as nat, 149);
    } else {
        single::lemma_of_whole_range(in_rate as nat, 24, 32);
        lemma_pow2_adds(149, 24);
    }
    let num = single::of_whole(in_rate as nat);
    let den = single::of_whole(16_000);
    assert(num >= den && den > 0) by (nonlinear_arith)
        requires
            den == 16_000 * one,
            num == in_rate * one || num >= one * 0x100_0000,
            in_rate >= 16_000,
            one > 0,
    ;
    assert(num * one >= den * one) by (nonlinear_arith)
        requires
            num >= den,
    ;
    single::lemma_nearest_floor(num * one, den, 149);
}

/// Rounding moves the place at which an output sample begins by less than what
/// would take it past the recording.
proof fn lemma_start(frames: nat, in_rate: u32, i: nat)
    requires
        0 < frames,
        0 < in_rate,
        frames <= 5_000_000 || (frames < 0x100_0000 && in_rate >= TARGET_RATE),
        i < resampled_len(frames, in_rate),
    ensures
        window_start(i, in_rate) <= frames,
{
    let one = single::one();
    let r = resample_ratio(in_rate);
    let w = single::of_whole(i);
    let p = single::product(w, r);
    lemma2_to64();
    lemma_pow2_pos(149);
    lemma_pow2_strictly_increases(23, 149);
    lemma_length(frames, in_rate, i);
    if w * r < one * pow2(23) {
        single::lemma_nearest_bound(w * r, one, 23);
        assert(p < (frames + 1) * one) by (nonlinear_arith)
            requires
                p <= pow2(23) < one,
        ;
    } else {
        single::lemma_nearest_error(w * r, one);
        if frames <= 5_000_000 {
            if i == 0 {
                assert(0 * one == 0);
                single::lemma_nearest_at_most(0, 1, 0, 0);
                assert(0 * pow2(0) == 0);
                assert(w == 0);
                assert(0 * r == 0);
                assert(w * 0x100_0000 <= i * one * 0x100_0001);
            } else {
                assert(i * one >= 1 * pow2(23)) by (nonlinear_arith)
                    requires
                        i >= 1,
                        one > pow2(23),
                ;
                single::lemma_nearest_error(i * one, 1);
            }
            lemma_place(frames, one, r, w, p, i);
        } else {
            lemma_ratio_from_one(in_rate);
            assert(i + 1 < 0x100_0000) by (nonlinear_arith)
                requires
                    (i + 1) * r * 0x100_0000 <= frames * one * 0x100_0001,
                    r >= one > 0,
                    frames < 0x100_0000,
            ;
            single::lemma_exact(i, 149);
            lemma_exact_place(frames, one, r, p, i);
        }
    }
    lemma_fundamental_div_mod(p as int, one as int);
    lemma_mod_bound(p as int, one as int);
    assert(p as int / one as int <= frames) by (nonlinear_arith)
        requires
            p == one * (p as int / one as int) + p as int % one as int,
            0 <= p as int % (one as int),
            p < (frames + 1) * one,
            one > 0,
    ;
}

/// Three roundings of a short recording stay within a frame.
proof fn lemma_place(frames: nat, one: nat, r: nat, w: nat, p: nat, i: nat)
    requires
        frames <= 5_000_000,
        one > 0,
        (i + 1) * r * 0x100_0000 <= frames * one * 0x100_0001,
        w * 0x100_0000 <= i * one * 0x100_0001,
        p * one * 0x100_0000 <= w * r * 0x100_0001,
    ensures
        p < (frames + 1) * one,
{
    let c: int = 0x100_0000;
    let d: int = 0x100_0001;
    assert(w * r * c <= i * r * one * d) by (nonlinear_arith)
        requires
            w * c <= i * one * d,
            r >= 0,
    ;
    assert(i * r * c <= frames * one * d) by (nonlinear_arith)
        requires
            (i + 1) * r * c <= frames * one * d,
            r >= 0,
            c > 0,
    ;
    let ir = i * r;
    let x = frames * one;
    let wr = w * r;
    assert(i * r * one * d == ir * one * d);
    assert(wr * c * c <= x * d * one * d) by (nonlinear_arith)
        requires
            wr * c <= ir * one * d,
            ir * c <= x * d,
            one > 0,
            c > 0,
            d > 0,
    ;
    assert(p * one * c * c * c <= x * d * one * d * d) by (nonlinear_arith)
        requires
            p * one * c <= wr * d,
            wr * c * c <= x * d * one * d,
            c > 0,
            d > 0,
    ;
    assert((p * c * c * c) * one <= (x * d * d * d) * one) by (nonlinear_arith)
        requires
            p * one * c * c * c <= x * d * one * d * d,
    ;
    assert(p * c * c * c <= x * d * d * d) by (nonlinear_arith)
        requires
            (p * c * c * c) * one <= (x * d * d * d) * one,
            one > 0,
    ;
    assert(p * 0x1_0000_0000_0000_0000_00 <= x * 0x1_0000_0300_0003_0000_01) by (nonlinear_arith)
        requires
            p * c * c * c <= x * d * d * d,
            c == 0x100_0000,
            d == 0x100_0001,
    ;
    assert(x <= 5_000_000 * one) by (nonlinear_arith)
        requires
            x == frames * one,
            frames <= 5_000_000,
    ;
    assert((frames + 1) * one == x + one) by (nonlinear_arith)
        requires
            x == frames * one,
    ;
}

/// Two roundings of a longer recording stay within a frame.
proof fn lemma_exact_place(frames: nat, one: nat, r: nat, p: nat, i: nat)
    requires
        frames < 0x100_0000,
        r >= one > 0,
        (i + 1) * r * 0x100_0000 <= frames * one * 0x100_0001,
        p * one * 0x100_0000 <= i * one * r * 0x100_0001,
    ensures
        p < (frames + 1) * one,
{
    let c: int = 0x100_0000;
    let d: int = 0x100_0001;
    let ir = i * r;
    let x = frames * one;
    assert((p * c) * one <= (ir * d) * one) by (nonlinear_arith)
        requires
            p * one * c <= i * one * r * d,
            ir == i * r,
    ;
    assert(p * c <= ir * d) by (nonlinear_arith)
        requires
            (p * c) * one <= (ir * d) * one,
            one > 0,
    ;
    assert(ir + r == (i + 1) * r) by (nonlinear_arith)
        requires
            ir == i * r,
    ;
    assert(x <= 0xff_ffff * one) by (nonlinear_arith)
        requires
            x == frames * one,
            frames <= 0xff_ffff,
    ;
    assert((frames + 1) * one == x + one) by (nonlinear_arith)
        requires
            x == frames * one,
    ;
}

/// Every recording of up to 5 000 000 frames can be resampled, and at 16 kHz or
/// more every one of less than 2^24 frames: rounding places no window past its
/// end.
pub proof fn recordings_can_be_resampled(frames: nat, in_rate: u32)
    requires
        in_rate > 0,
        frames <= 5_000_000 || (frames < 0x100_0000 && in_rate >= TARGET_RATE),
    ensures
        resampleable(frames, in_rate),
{
    if frames > 0 {
        assert forall|i: nat| i < resampled_len(frames, in_rate) implies #[trigger] window_start(
            i,
            in_rate,
        ) <= frames by {
            lemma_start(frames, in_rate, i);
        }
    }
}

/// At 16 kHz or more, resampling a recording of less than 2^24 frames gives no
/// more samples than it had frames.
pub proof fn resampling_does_not_lengthen(frames: nat, in_rate: u32)
    requires
        in_rate >= TARGET_RATE,
        frames < 0x100_0000,
    ensures
        frames > 0 ==> resampled_len(frames, in_rate) <= frames,
{
    if frames > 0 && resampled_len(frames, in_rate) > frames {
        let one = single::one();
        let r = resample_ratio(in_rate);
        lemma_length(frames, in_rate, frames);
        lemma_ratio_from_one(in_rate);
        lemma_pow2_pos(149);
        assert((frames + 1) * one * 0x100_0000 <= frames * one * 0x100_0001) by (nonlinear_arith)
            requires
                (frames + 1) * r * 0x100_0000 <= frames * one * 0x100_0001,
                r >= one,
        ;
        assert((frames + 1) * one * 0x100_0000 > frames * one * 0x100_0001) by (nonlinear_arith)
            requires
                frames < 0x100_0000,
                one > 0,
        ;
    }
}

/// Mono at 16 kHz stays as it is.
pub proof fn mono_at_16k_is_unchanged(samples: Seq<u32>, channels: u16, out: Seq<u32>)
    requires
        channels <= 1,
        is_16k_mono(samples, TARGET_RATE, channels, out),
    ensures
        out == samples,
{
}

/// What a recording comes to is fixed, number for number.
pub proof fn results_are_fixed(
    samples: Seq<u32>,
    in_rate: u32,
    channels: u16,
    a: Seq<u32>,
    b: Seq<u32>,
)
    requires
        resampleable(frame_count(samples.len(), channels), in_rate),
        is_16k_mono(samples, in_rate, channels, a),
        is_16k_mono(samples, in_rate, channels, b),
    ensures
        sample::numbers(a) == sample::numbers(b),
{
    let m = choose|m: Seq<u32>| #[trigger]
        is_downmix(samples, channels, m) && is_resampled(m, in_rate, a);
    let n = choose|n: Seq<u32>| #[trigger]
        is_downmix(samples, channels, n) && is_resampled(n, in_rate, b);
    lemma_same_downmix(samples, channels, m, n);
    if channels <= 1 {
        lemma_div_basics(samples.len() as int);
    }
    lemma_same_resampled(m, n, in_rate, a, b);
}

/// Two downmixes of a recording are the same, number for number.
proof fn lemma_same_downmix(samples: Seq<u32>, channels: u16, m: Seq<u32>, n: Seq<u32>)
    requires
        is_downmix(samples, channels, m),
        is_downmix(samples, channels, n),
    ensures
        sample::numbers(m) == sample::numbers(n),
{
    if channels > 1 {
        assert forall|k: int| 0 <= k < m.len() implies sample::number(m[k]) == sample::number(
            #[trigger] n[k],
        ) by {
            assert(sample::number(m[k]) == sample::number(n[k]));
        }
    }
    assert(sample::numbers(m) =~= sample::numbers(n));
}

/// What two recordings in mono are resampled to is the same if they are, number for
/// number.
proof fn lemma_same_resampled(
    m: Seq<u32>,
    n: Seq<u32>,
    in_rate: u32,
    a: Seq<u32>,
    b: Seq<u32>,
)
    requires
        resampleable(m.len(), in_rate),
        sample::numbers(m) == sample::numbers(n),
        is_resampled(m, in_rate, a),
        is_resampled(n, in_rate, b),
    ensures
        sample::numbers(a) == sample::numbers(b),
{
    assert(m.len() == sample::numbers(m).len() && n.len() == sample::numbers(n).len());
    if in_rate != TARGET_RATE && m.len() > 0 {
        assert forall|i: int| 0 <= i < a.len() implies sample::number(#[trigger] a[i])
            == sample::number(b[i]) by {
            assert(window_start(i as nat, in_rate) <= m.len());
            lemma_same_window(m, n, in_rate, i);
            assert(sample::number(b[i]) == sample::mean(
                sample::numbers(window(n, in_rate, i)),
                window(n, in_rate, i).len(),
            ));
        }
    }
    assert(sample::numbers(a) =~= sample::numbers(b));
}

/// Windows of recordings that are the same are the same, number for number.
proof fn lemma_same_window(m: Seq<u32>, n: Seq<u32>, in_rate: u32, i: int)
    requires
        sample::numbers(m) == sample::numbers(n),
        m.len() == n.len(),
        0 <= window_start(i as nat, in_rate) <= window_end(i as nat, m.len(), in_rate) <= m.len(),
    ensures
        sample::numbers(window(m, in_rate, i)) == sample::numbers(window(n, in_rate, i)),
        window(m, in_rate, i).len() == window(n, in_rate, i).len(),
{
    let start = window_start(i as nat, in_rate) as int;
    let v = sample::numbers(window(m, in_rate, i));
    let w = sample::numbers(window(n, in_rate, i));
    assert forall|k: int| 0 <= k < v.len() implies v[k] == w[k] by {
        assert(window(m, in_rate, i)[k] == m[start + k]);
        assert(window(n, in_rate, i)[k] == n[start + k]);
        assert(sample::numbers(m)[start + k] == sample::number(m[start + k]));
        assert(sample::numbers(n)[start + k] == sample::number(n[start + k]));
    }
    assert(v =~= w);
}

/// Downmixing comes first, and resampling after it: a recording comes to what its
/// downmix at 16 kHz comes to when it is taken as one channel, number for number. The
/// one can be resampled exactly if the other can.
pub proof fn downmixing_comes_first(
    samples: Seq<u32>,
    in_rate: u32,
    channels: u16,
    mono: Seq<u32>,
    direct: Seq<u32>,
    staged: Seq<u32>,
)
    requires
        resampleable(frame_count(samples.len(), channels), in_rate),
        is_16k_mono(samples, TARGET_RATE, channels, mono),
        is_16k_mono(samples, in_rate, channels, direct),
        is_16k_mono(mono, in_rate, 1, staged),
    ensures
        sample::numbers(direct) == sample::numbers(staged),
        frame_count(mono.len(), 1) == frame_count(samples.len(), channels),
{
    let m = choose|m: Seq<u32>| #[trigger]
        is_downmix(samples, channels, m) && is_resampled(m, in_rate, direct);
    let n = choose|n: Seq<u32>| #[trigger]
        is_downmix(mono, 1, n) && is_resampled(n, in_rate, staged);
    lemma_same_downmix(samples, channels, m, mono);
    lemma_div_basics(mono.len() as int);
    if channels <= 1 {
        lemma_div_basics(samples.len() as int);
    }
    lemma_same_resampled(m, n, in_rate, direct, staged);
}

/// No channels count as one.
pub proof fn no_channels_count_as_one(samples: Seq<u32>, in_rate: u32, out: Seq<u32>)
    ensures
        is_16k_mono(samples, in_rate, 0, out) <==> is_16k_mono(samples, in_rate, 1, out),
        frame_count(samples.len(), 0) == frame_count(samples.len(), 1),
{
    assert forall|mono: Seq<u32>| #[trigger]
        is_downmix(samples, 0, mono) == is_downmix(samples, 1, mono) by {}
    if is_16k_mono(samples, in_rate, 0, out) {
        let mono = choose|mono: Seq<u32>| #[trigger]
            is_downmix(samples, 0, mono) && is_resampled(mono, in_rate, out);
        assert(is_downmix(samples, 1, mono));
    }
    if is_16k_mono(samples, in_rate, 1, out) {
        let mono = choose|mono: Seq<u32>| #[trigger]
            is_downmix(samples, 1, mono) && is_resampled(mono, in_rate, out);
        assert(is_downmix(samples, 0, mono));
    }
}

/// Sample `i` as it is read back from the WAV file of `samples`.
pub open spec fn decoded(samples: Seq<u32>, i: int) -> int {
    wav::read_i16(
        wav::wav_bytes(levels(samples))[44 + 2 * i],
        wav::wav_bytes(levels(samples))[45 + 2 * i],
    )
}

/// What is read back from a WAV file is the level of the sample.
pub proof fn decoding_gives_the_level(samples: Seq<u32>, i: int)
    requires
        0 <= i < samples.len(),
    ensures
        decoded(samples, i) == sample::level(sample::number(samples[i])),
        levels(samples)[i] == sample::level(sample::number(samples[i])),
        -32767 <= decoded(samples, i) <= 32767,
{
    wav::samples_can_be_read_back(levels(samples));
    sample::levels_are_bounded(sample::number(samples[i]));
    assert(decoded(samples, i) == levels(samples)[i]);
}

/// The levels of samples, as written and as read back, are in their order: of two
/// samples that are not NaN, the one that is no larger has a level that is no larger.
pub proof fn levels_keep_the_order(samples: Seq<u32>, i: int, j: int)
    requires
        0 <= i < samples.len(),
        0 <= j < samples.len(),
        sample::no_larger(sample::number(samples[i]), sample::number(samples[j])),
    ensures
        levels(samples)[i] <= levels(samples)[j],
        decoded(samples, i) <= decoded(samples, j),
{
    decoding_gives_the_level(samples, i);
    decoding_gives_the_level(samples, j);
    sample::levels_are_monotone(sample::number(samples[i]), sample::number(samples[j]));
}

/// Opposite samples have opposite levels, as written and as read back.
pub proof fn levels_of_opposites_are_opposite(samples: Seq<u32>, opposites: Seq<u32>, i: int)
    requires
        0 <= i < samples.len(),
        opposites.len() == samples.len(),
        sample::number(opposites[i]) == sample::opposite(sample::number(samples[i])),
    ensures
        levels(opposites)[i] == -levels(samples)[i],
        decoded(opposites, i) == -decoded(samples, i),
{
    decoding_gives_the_level(samples, i);
    decoding_gives_the_level(opposites, i);
    sample::opposites_have_opposite_levels(sample::number(samples[i]));
}

/// An empty recording stays empty.
pub proof fn nothing_stays_nothing(in_rate: u32, channels: u16, out: Seq<u32>)
    requires
        is_16k_mono(Seq::empty(), in_rate, channels, out),
    ensures
        out == Seq::<u32>::empty(),
{
    let mono = choose|mono: Seq<u32>| #[trigger]
        is_downmix(Seq::empty(), channels, mono) && is_resampled(mono, in_rate, out);
    if channels > 1 {
        lemma_basic_div(channels - 1, channels as int);
    }
    assert(mono =~= Seq::<u32>::empty());
}

/// From half the target rate on, the ratio is at least one half.
proof fn lemma_ratio_from_half(in_rate: u32)
    requires
        in_rate >= 8_000,
    ensures
        2 * resample_ratio(in_rate) >= single::one(),
{
    let one = single::one();
    lemma2_to64();
    lemma_pow2_pos(149);
    lemma_pow2_pos(148);
    lemma_pow2_unfold(149);
    single::lemma_exact(16_000, 149);
    if in_rate < 0x100_0000 {
        single::lemma_exact(in_rate as nat, 149);
    } else {
        single::lemma_of_whole_range(in_rate as nat, 24, 32);
        lemma_pow2_adds(149, 24);
    }
    let num = single::of_whole(in_rate as nat);
    let den = single::of_whole(16_000);
    assert(2 * num >= den && den > 0) by (nonlinear_arith)
        requires
            den == 16_000 * one,
            num == in_rate * one || num >= one * 0x100_0000,
            in_rate >= 8_000,
            one > 0,
    ;
    assert(num * one >= den * pow2(148)) by (nonlinear_arith)
        requires
            2 * num >= den,
            one == 2 * pow2(148),
    ;
    single::lemma_nearest_floor(num * one, den, 148);
}

/// Two roundings leave the place before the end, if the ratio is at least one half.
proof fn lemma_inner_place(frames: nat, one: nat, r: nat, p: nat, i: nat)
    requires
        frames <= 0x40_0000,
        2 * r >= one > 0,
        (i + 1) * r * 0x100_0000 <= frames * one * 0x100_0001,
        p * one * 0x100_0000 <= i * one * r * 0x100_0001,
    ensures
        p < frames * one,
{
    let c: int = 0x100_0000;
    let d: int = 0x100_0001;
    let ir = i * r;
    let x = frames * one;
    assert((p * c) * one <= (ir * d) * one) by (nonlinear_arith)
        requires
            p * one * c <= i * one * r * d,
            ir == i * r,
    ;
    assert(p * c <= ir * d) by (nonlinear_arith)
        requires
            (p * c) * one <= (ir * d) * one,
            one > 0,
    ;
    assert(ir + r == (i + 1) * r) by (nonlinear_arith)
        requires
            ir == i * r,
    ;
    assert(x <= 0x40_0000 * one) by (nonlinear_arith)
        requires
            x == frames * one,
            frames <= 0x40_0000,
    ;
}

/// At 8 kHz or more, no window of a recording of up to 2^22 frames is empty: each
/// begins before the end of the recording and ends behind its beginning.
pub proof fn no_window_is_empty(frames: nat, in_rate: u32, i: nat)
    requires
        0 < frames <= 0x40_0000,
        in_rate >= 8_000,
        i < resampled_len(frames, in_rate),
    ensures
        window_start(i, in_rate) < window_end(i, frames, in_rate) <= frames,
{
    let one = single::one();
    let r = resample_ratio(in_rate);
    let w = single::of_whole(i);
    let p = single::product(w, r);
    lemma2_to64();
    lemma_pow2_pos(149);
    lemma_pow2_strictly_increases(23, 149);
    lemma_length(frames, in_rate, i);
    lemma_ratio_from_half(in_rate);
    assert(i + 1 < 0x100_0000) by (nonlinear_arith)
        requires
            (i + 1) * r * 0x100_0000 <= frames * one * 0x100_0001,
            2 * r >= one > 0,
            frames <= 0x40_0000,
    ;
    single::lemma_exact(i, 149);
    if w * r < one * pow2(23) {
        single::lemma_nearest_bound(w * r, one, 23);
        assert(p < frames * one) by (nonlinear_arith)
            requires
                p <= pow2(23) < one,
                frames >= 1,
        ;
    } else {
        single::lemma_nearest_error(w * r, one);
        lemma_inner_place(frames, one, r, p, i);
    }
    lemma_fundamental_div_mod(p as int, one as int);
    lemma_mod_bound(p as int, one as int);
    assert((p as int / one as int) < frames) by (nonlinear_arith)
        requires
            p == one * (p as int / one as int) + p as int % one as int,
            0 <= p as int % (one as int),
            p < frames * one,
            one > 0,
    ;
}

/// The samples are all within the range from -1 to 1.
pub open spec fn all_in_unit(samples: Seq<u32>) -> bool {
    forall|i: int| 0 <= i < samples.len() ==> sample::in_unit(sample::number(#[trigger] samples[i]))
}

/// A part of samples within the range has its mean within the range.
proof fn lemma_part_in_unit(samples: Seq<u32>, start: int, end: int, n: nat)
    requires
        all_in_unit(samples),
        0 <= start <= end <= samples.len(),
        end - start <= n,
        0 < n < 0x100_0000,
    ensures
        sample::in_unit(
            sample::mean(sample::numbers(samples.subrange(start, end)), n),
        ),
{
    let block = sample::numbers(samples.subrange(start, end));
    assert forall|i: int| 0 <= i < block.len() implies sample::in_unit(#[trigger] block[i]) by {
        assert(sample::in_unit(sample::number(samples[start + i])));
    }
    sample::means_stay_in_range(block, n);
}

/// Samples within the range from -1 to 1 stay there when they are downmixed.
pub proof fn downmixing_stays_in_range(samples: Seq<u32>, channels: u16, mono: Seq<u32>)
    requires
        all_in_unit(samples),
        is_downmix(samples, channels, mono),
    ensures
        all_in_unit(mono),
{
    if channels > 1 {
        let size = channels as int;
        let len = samples.len() as int;
        assert forall|k: int| 0 <= k < mono.len() implies sample::in_unit(
            sample::number(#[trigger] mono[k]),
        ) by {
            lemma_fundamental_div_mod(len + size - 1, size);
            lemma_mod_bound(len + size - 1, size);
            let n = mono.len() as int;
            assert(0 <= k * size < len) by (nonlinear_arith)
                requires
                    0 <= k <= n - 1,
                    size > 1,
                    size * n <= len + size - 1,
            ;
            let end = if k * size + size <= len {
                k * size + size
            } else {
                len
            };
            assert(frame(samples, channels, k) == samples.subrange(k * size, end));
            lemma_part_in_unit(samples, k * size, end, channels as nat);
        }
    }
}

/// Samples within the range from -1 to 1 stay there in mono at 16 kHz, for
/// recordings of up to 2^22 frames at 8 kHz or more, and of any length at 16 kHz.
pub proof fn samples_stay_in_range(
    samples: Seq<u32>,
    in_rate: u32,
    channels: u16,
    out: Seq<u32>,
)
    requires
        all_in_unit(samples),
        is_16k_mono(samples, in_rate, channels, out),
        in_rate == TARGET_RATE || (in_rate >= 8_000 && frame_count(samples.len(), channels)
            <= 0x40_0000),
    ensures
        all_in_unit(out),
{
    let mono = choose|mono: Seq<u32>| #[trigger]
        is_downmix(samples, channels, mono) && is_resampled(mono, in_rate, out);
    downmixing_stays_in_range(samples, channels, mono);
    if channels <= 1 {
        lemma_div_basics(samples.len() as int);
    }
    if in_rate != TARGET_RATE && mono.len() > 0 {
        assert forall|i: int| 0 <= i < out.len() implies sample::in_unit(
            sample::number(#[trigger] out[i]),
        ) by {
            no_window_is_empty(mono.len(), in_rate, i as nat);
            let start = window_start(i as nat, in_rate) as int;
            let end = window_end(i as nat, mono.len(), in_rate) as int;
            lemma_part_in_unit(mono, start, end, (end - start) as nat);
        }
    }
}

/// The ratio of `in_rate` to the target rate.
fn ratio(in_rate: u32) -> (r: Single)
    requires
        in_rate > 0,
    ensures
        r.wf(),
        r.value() == resample_ratio(in_rate),
{
    proof {
        single::lemma_whole_range(in_rate as nat);
        single::lemma_whole_range(TARGET_RATE as nat);
    }
    Single::from_whole(in_rate as u64).over(Single::from_whole(TARGET_RATE as u64))
}

/// The whole part as an index.
pub fn to_index(value: Single) -> (r: usize)
    requires
        value.wf(),
    ensures
        r == as_index(value.value()),
{
    let whole: u64 = value.whole();
    if whole <= usize::MAX as u64 {
        whole as usize
    } else {
        usize::MAX
    }
}

fn out_len(frames: usize, in_rate: u32, ratio: Single) -> (r: usize)
    requires
        in_rate > 0,
        ratio.wf(),
        ratio.value() == resample_ratio(in_rate),
    ensures
        r == resampled_len(frames as nat, in_rate),
{
    proof {
        single::lemma_whole_range(frames as nat);
        lemma_ratio_range(in_rate);
        lemma_pow2_pos(135);
        lemma_pow2_strictly_increases(168, 300);
    }
    to_index(Single::from_whole(frames as u64).over(ratio))
}

fn start_of(i: usize, in_rate: u32, ratio: Single) -> (r: usize)
    requires
        in_rate > 0,
        ratio.wf(),
        ratio.value() == resample_ratio(in_rate),
    ensures
        r == window_start(i as nat, in_rate),
{
    proof {
        single::lemma_whole_range(i as nat);
        lemma_ratio_range(in_rate);
        lemma_pow2_strictly_increases(168, 300);
    }
    to_index(Single::from_whole(i as u64).times(ratio))
}

/// Frames in `len` samples.
pub fn frames_of(len: usize, channels: u16) -> (r: usize)
    ensures
        r == frame_count(len as nat, channels),
{
    let size: usize = if channels == 0 {
        1
    } else {
        channels as usize
    };
    let whole: usize = len / size;
    let rest: usize = len % size;
    proof {
        lemma_fundamental_div_mod(len as int, size as int);
        lemma_mod_bound(len as int, size as int);
        let n = len + size - 1;
        assert(len == whole * size + rest) by (nonlinear_arith)
            requires
                len == size * whole + rest,
        ;
        if rest == 0 {
            assert(n == whole * size + (size - 1));
            lemma_fundamental_div_mod_converse(n, size as int, whole as int, size - 1);
        } else {
            assert((whole + 1) * size == whole * size + size) by (nonlinear_arith);
            assert(n == (whole + 1) * size + (rest - 1));
            lemma_fundamental_div_mod_converse(n, size as int, whole + 1, rest - 1);
        }
        assert(frame_size(channels) == size);
        if rest > 0 && whole == usize::MAX {
            assert(size * whole >= whole) by (nonlinear_arith)
                requires
                    size >= 1,
            ;
        }
    }
    if rest == 0 {
        whole
    } else {
        whole + 1
    }
}

/// How many samples `frames` frames come to at 16 kHz.
pub fn len_at_16k(frames: usize, in_rate: u32) -> (r: usize)
    requires
        in_rate > 0,
    ensures
        r == if in_rate == TARGET_RATE {
            frames as nat
        } else {
            resampled_len(frames as nat, in_rate)
        },
{
    if in_rate == TARGET_RATE {
        frames
    } else {
        out_len(frames, in_rate, ratio(in_rate))
    }
}

/// Whether a recording of `frames` frames can be resampled.
pub fn can_resample(frames: usize, in_rate: u32) -> (r: bool)
    ensures
        r == resampleable(frames as nat, in_rate),
{
    if frames == 0 || in_rate == TARGET_RATE {
        return true;
    }
    if in_rate == 0 {
        return false;
    }
    let ratio = ratio(in_rate);
    let len: usize = out_len(frames, in_rate, ratio);
    let mut i: usize = 0;
    while i < len
        invariant
            frames > 0,
            in_rate > 0,
            in_rate != TARGET_RATE,
            ratio.wf(),
            ratio.value() == resample_ratio(in_rate),
            len == resampled_len(frames as nat, in_rate),
            i <= len,
            forall|j: nat| j < i ==> #[trigger] window_start(j, in_rate) <= frames,
        decreases len - i,
    {
        if start_of(i, in_rate, ratio) > frames {
            return false;
        }
        i = i + 1;
    }
    true
}

/// The mean of the samples from `start` up to `end`, divided by `n`.
fn mean(samples: &[u32], start: usize, end: usize, n: usize) -> (bits: u32)
    requires
        start <= end <= samples@.len(),
    ensures
        sample::number(bits) == sample::mean(
            sample::numbers(samples@.subrange(start as int, end as int)),
            n as nat,
        ),
{
    let ghost block = sample::numbers(samples@.subrange(start as int, end as int));
    let mut sum = Real::zero();
    let mut i: usize = start;
    while i < end
        invariant
            start <= i <= end <= samples@.len(),
            block == sample::numbers(samples@.subrange(start as int, end as int)),
            sum.wf(),
            sum.number() == sample::sum(block.take(i - start)),
        decreases end - i,
    {
        proof {
            let next = block.take(i - start + 1);
            assert(next.drop_last() =~= block.take(i - start));
            assert(next.last() == sample::number(samples@[i as int]));
        }
        sum = sum.plus(Real::from_bits(samples[i]));
        i = i + 1;
    }
    assert(block.take(end - start) =~= block);
    sum.over(n).to_bits()
}

/// The RMS loudness of a block of samples.
pub fn rms(samples: &[u32]) -> (bits: u32)
    ensures
        sample::number(bits) == sample::loudness(sample::numbers(samples@)),
{
    loudness(samples).to_bits()
}

fn loudness(samples: &[u32]) -> (r: Real)
    ensures
        r.wf(),
        r.number() == sample::loudness(sample::numbers(samples@)),
{
    if samples.len() == 0 {
        return Real::zero();
    }
    let ghost block = sample::numbers(samples@);
    let ghost squares = block.map_values(|a: Number| sample::squared(a));
    let mut sum = Real::zero();
    let mut i: usize = 0;
    while i < samples.len()
        invariant
            i <= samples@.len(),
            block == sample::numbers(samples@),
            squares == block.map_values(|a: Number| sample::squared(a)),
            sum.wf(),
            sum.number() == sample::sum(squares.take(i as int)),
        decreases samples@.len() - i,
    {
        proof {
            let next = squares.take(i + 1);
            assert(next.drop_last() =~= squares.take(i as int));
            assert(next.last() == sample::squared(sample::number(samples@[i as int])));
        }
        sum = sum.plus(Real::from_bits(samples[i]).square());
        i = i + 1;
    }
    assert(squares.take(samples@.len() as int) =~= squares);
    sum.over(samples.len()).sqrt()
}

/// One sample for each frame.
fn downmix(samples: &[u32], channels: u16) -> (mono: Vec<u32>)
    ensures
        is_downmix(samples@, channels, mono@),
        mono@.len() == frame_count(samples@.len(), channels),
{
    if channels <= 1 {
        proof {
            lemma_div_basics(samples@.len() as int);
        }
        return slice_to_vec(samples);
    }
    let size: usize = channels as usize;
    let mut mono: Vec<u32> = Vec::new();
    let mut start: usize = 0;
    assert(0 * size == 0);
    while start < samples.len()
        invariant
            size == channels > 1,
            start == mono@.len() * size || (start == samples@.len() && start <= mono@.len() * size),
            start <= samples@.len(),
            (mono@.len() - 1) * size < samples@.len() || mono@.len() == 0,
            forall|k: int|
                0 <= k < mono@.len() ==> sample::number(#[trigger] mono@[k]) == sample::mean(
                    sample::numbers(frame(samples@, channels, k)),
                    channels as nat,
                ),
        decreases samples@.len() - start,
    {
        let end: usize = if samples.len() - start <= size {
            samples.len()
        } else {
            start + size
        };
        proof {
            let k = mono@.len() as int;
            assert((k + 1) * size == k * size + size) by (nonlinear_arith);
            assert(k * size == k * frame_size(channels));
            assert(samples@.subrange(start as int, end as int) == frame(samples@, channels, k));
        }
        mono.push(mean(samples, start, end, size));
        start = end;
    }
    proof {
        let n = mono@.len() as int;
        let len = samples@.len() as int;
        if n > 0 {
            assert((n - 1) * size == n * size - size) by (nonlinear_arith);
        }
        assert(n * size == size * n) by (nonlinear_arith);
        lemma_fundamental_div_mod_converse(
            len + size - 1,
            size as int,
            n,
            len + size - 1 - n * size,
        );
    }
    mono
}

/// The mean over each window.
fn resample(mono: &Vec<u32>, in_rate: u32) -> (out: Vec<u32>)
    requires
        mono@.len() > 0,
        in_rate != TARGET_RATE,
        resampleable(mono@.len(), in_rate),
    ensures
        is_resampled(mono@, in_rate, out@),
{
    let ratio = ratio(in_rate);
    let frames: usize = mono.len();
    let len: usize = out_len(frames, in_rate, ratio);
    let mut out: Vec<u32> = Vec::new();
    let mut i: usize = 0;
    while i < len
        invariant
            frames == mono@.len() > 0,
            in_rate > 0,
            in_rate != TARGET_RATE,
            ratio.wf(),
            ratio.value() == resample_ratio(in_rate),
            len == resampled_len(frames as nat, in_rate),
            i == out@.len() <= len,
            resampleable(mono@.len(), in_rate),
            forall|j: int|
                0 <= j < i ==> sample::number(#[trigger] out@[j]) == sample::mean(
                    sample::numbers(window(mono@, in_rate, j)),
                    window(mono@, in_rate, j).len(),
                ),
        decreases len - i,
    {
        let start: usize = start_of(i, in_rate, ratio);
        let next: usize = start_of(i + 1, in_rate, ratio);
        assert(window_start(i as nat, in_rate) <= frames);
        let end: usize = if start == frames {
            frames
        } else if next <= start {
            start + 1
        } else if next <= frames {
            next
        } else {
            frames
        };
        out.push(mean(mono.as_slice(), start, end, end - start));
        i = i + 1;
    }
    out
}

/// Downmixes to mono and resamples to 16 kHz by averaging windows.
pub fn to_16k_mono(samples: &[u32], in_rate: u32, channels: u16) -> (out: Vec<u32>)
    requires
        resampleable(frame_count(samples@.len(), channels), in_rate),
    ensures
        is_16k_mono(samples@, in_rate, channels, out@),
        out@.len() == mono_len(samples@.len(), in_rate, channels),
{
    let mono: Vec<u32> = downmix(samples, channels);
    if in_rate == TARGET_RATE || mono.len() == 0 {
        return mono;
    }
    resample(&mono, in_rate)
}

/// Encodes mono samples at 16 kHz as a 16-bit PCM WAV file in memory.
pub fn encode_wav_16k_mono(samples: &[u32]) -> (bytes: Vec<u8>)
    requires
        samples@.len() <= wav::MAX_SAMPLES,
    ensures
        bytes@ == wav::wav_bytes(levels(samples@)),
{
    let mut pcm: Vec<i16> = Vec::new();
    let mut i: usize = 0;
    while i < samples.len()
        invariant
            i == pcm@.len() <= samples@.len(),
            forall|j: int| 0 <= j < i ==> pcm@[j] == levels(samples@)[j],
        decreases samples@.len() - i,
    {
        pcm.push(Real::from_bits(samples[i]).level());
        i = i + 1;
    }
    assert(pcm@ =~= levels(samples@));
    wav::write_wav(pcm.as_slice())
}

/// How far a 16-bit signed sample is from zero, the lowest one no farther than the
/// highest.
pub open spec fn excursion(s: i16) -> nat {
    if s == i16::MIN {
        32767
    } else {
        sample::abs(s as int)
    }
}

/// A 16-bit signed sample as a share of the highest one. The lowest one is -1, as is
/// the one above it.
pub open spec fn scaled_i16(s: i16) -> Number {
    sample::divided(sample::signed(s < 0, single::of_whole(excursion(s))), 32767)
}

/// A 16-bit unsigned sample: twice its share of the largest one, less one.
pub open spec fn scaled_u16(s: u16) -> Number {
    sample::plus(
        sample::twice(sample::divided(sample::signed(false, single::of_whole(s as nat)), 65535)),
        sample::signed(true, single::one()),
    )
}

/// A 16-bit signed sample from the microphone, as a share of the largest one.
pub fn sample_of_i16(s: i16) -> (bits: u32)
    ensures
        sample::number(bits) == scaled_i16(s),
        sample::in_unit(sample::number(bits)),
{
    proof {
        sample::lemma_share(s < 0, excursion(s), 32767);
    }
    Real::from_whole(
        s < 0,
        if s == i16::MIN {
            32767
        } else if s < 0 {
            (-(s as i32)) as u64
        } else {
            s as u64
        },
    ).over(32767).to_bits()
}

/// A 16-bit unsigned sample from the microphone: twice its share of the largest
/// one, less one.
pub fn sample_of_u16(s: u16) -> (bits: u32)
    ensures
        sample::number(bits) == scaled_u16(s),
        sample::in_unit(sample::number(bits)),
{
    proof {
        sample::lemma_share(false, s as nat, 65535);
        sample::lemma_twice_less_one(
            sample::divided(sample::signed(false, single::of_whole(s as nat)), 65535),
        );
    }
    let share = Real::from_whole(false, s as u64).over(65535);
    share.twice().plus(Real::minus_one()).to_bits()
}

/// Takes in signed samples from the microphone.
pub fn capture_i16(buffer: &mut Vec<u32>, data: &[i16])
    ensures
        final(buffer)@.len() == old(buffer)@.len() + data@.len(),
        final(buffer)@.take(old(buffer)@.len() as int) == old(buffer)@,
        forall|i: int|
            0 <= i < data@.len() ==> {
                let captured = sample::number(#[trigger] final(buffer)@[old(buffer)@.len() + i]);
                captured == scaled_i16(data@[i]) && sample::in_unit(captured)
            },
{
    let ghost before = buffer@;
    let mut i: usize = 0;
    while i < data.len()
        invariant
            i <= data@.len(),
            buffer@.len() == before.len() + i,
            buffer@.take(before.len() as int) == before,
            forall|j: int|
                0 <= j < i ==> {
                    let captured = sample::number(#[trigger] buffer@[before.len() + j]);
                    captured == scaled_i16(data@[j]) && sample::in_unit(captured)
                },
        decreases data@.len() - i,
    {
        let ghost last = buffer@;
        buffer.push(sample_of_i16(data[i]));
        assert(buffer@.take(before.len() as int) =~= last.take(before.len() as int));
        i = i + 1;
    }
}

/// Takes in unsigned samples from the microphone.
pub fn capture_u16(buffer: &mut Vec<u32>, data: &[u16])
    ensures
        final(buffer)@.len() == old(buffer)@.len() + data@.len(),
        final(buffer)@.take(old(buffer)@.len() as int) == old(buffer)@,
        forall|i: int|
            0 <= i < data@.len() ==> {
                let captured = sample::number(#[trigger] final(buffer)@[old(buffer)@.len() + i]);
                captured == scaled_u16(data@[i]) && sample::in_unit(captured)
            },
{
    let ghost before = buffer@;
    let mut i: usize = 0;
    while i < data.len()
        invariant
            i <= data@.len(),
            buffer@.len() == before.len() + i,
            buffer@.take(before.len() as int) == before,
            forall|j: int|
                0 <= j < i ==> {
                    let captured = sample::number(#[trigger] buffer@[before.len() + j]);
                    captured == scaled_u16(data@[j]) && sample::in_unit(captured)
                },
        decreases data@.len() - i,
    {
        let ghost last = buffer@;
        buffer.push(sample_of_u16(data[i]));
        assert(buffer@.take(before.len() as int) =~= last.take(before.len() as int));
        i = i + 1;
    }
}

} // verus!
