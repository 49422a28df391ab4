//! Samples: single-precision numbers given by their bit patterns.
//!
//! A sample is kept as the `u32` that encodes it. What it stands for is a
//! [`Number`]; sums, means and loudness are defined on these, each operation
//! rounded to single precision as it is carried out.

use vstd::arithmetic::div_mod::*;
use vstd::arithmetic::power2::*;
use vstd::prelude::*;

use crate::single;
use crate::single::Single;

verus! {

/// What a bit pattern stands for. A finite number is counted in units of
/// 2^-149, and zero has no sign.
pub enum Number {
    Nan,
    Infinite { negative: bool },
    Finite { value: int },
}

/// The number that a bit pattern encodes.
pub open spec fn number(bits: u32) -> Number {
    let negative = bits >= 0x8000_0000;
    let field = (bits / 0x80_0000) % 0x100;
    let fraction = bits % 0x80_0000;
    if field == 255 {
        if fraction == 0 {
            Number::Infinite { negative }
        } else {
            Number::Nan
        }
    } else if field == 0 {
        signed(negative, fraction as nat)
    } else {
        signed(negative, (0x80_0000 + fraction) as nat * pow2((field - 1) as nat))
    }
}

/// The numbers that bit patterns encode.
pub open spec fn numbers(samples: Seq<u32>) -> Seq<Number> {
    samples.map_values(|bits: u32| number(bits))
}

/// A finite number from its sign and magnitude.
pub open spec fn signed(negative: bool, magnitude: nat) -> Number {
    Number::Finite {
        value: if negative {
            -(magnitude as int)
        } else {
            magnitude as int
        },
    }
}

/// A rounded magnitude with its sign: infinite where it is out of range.
pub open spec fn in_range(negative: bool, magnitude: nat) -> Number {
    if magnitude < pow2(277) {
        signed(negative, magnitude)
    } else {
        Number::Infinite { negative }
    }
}

/// The distance from zero.
pub open spec fn abs(value: int) -> nat {
    if value < 0 {
        (-value) as nat
    } else {
        value as nat
    }
}

/// The number is within the range from -1 to 1.
pub open spec fn in_unit(a: Number) -> bool {
    match a {
        Number::Finite { value } => abs(value) <= single::one(),
        _ => false,
    }
}

/// The rounded sum.
pub open spec fn plus(a: Number, b: Number) -> Number {
    match (a, b) {
        (Number::Finite { value: x }, Number::Finite { value: y }) => in_range(
            x + y < 0,
            single::nearest(abs(x + y), 1),
        ),
        (Number::Nan, _) => Number::Nan,
        (_, Number::Nan) => Number::Nan,
        (Number::Finite { .. }, Number::Infinite { .. }) => b,
        (Number::Infinite { .. }, Number::Finite { .. }) => a,
        (Number::Infinite { negative: m }, Number::Infinite { negative: n }) => if m == n {
            a
        } else {
            Number::Nan
        },
    }
}

/// The rounded square.
pub open spec fn squared(a: Number) -> Number {
    match a {
        Number::Nan => Number::Nan,
        Number::Infinite { .. } => Number::Infinite { negative: false },
        Number::Finite { value } => in_range(false, single::product(abs(value), abs(value))),
    }
}

/// The rounded product with two.
pub open spec fn twice(a: Number) -> Number {
    match a {
        Number::Finite { value } => in_range(
            value < 0,
            single::product(abs(value), single::of_whole(2)),
        ),
        _ => a,
    }
}

/// The rounded quotient by the whole number `n`, which is rounded first.
pub open spec fn divided(a: Number, n: nat) -> Number {
    match a {
        Number::Nan => Number::Nan,
        Number::Infinite { .. } => a,
        Number::Finite { value } => if n == 0 {
            if value == 0 {
                Number::Nan
            } else {
                Number::Infinite { negative: value < 0 }
            }
        } else {
            in_range(value < 0, single::quotient(abs(value), single::of_whole(n)))
        },
    }
}

/// The rounded root.
pub open spec fn square_root(a: Number) -> Number {
    match a {
        Number::Nan => Number::Nan,
        Number::Infinite { negative } => if negative {
            Number::Nan
        } else {
            a
        },
        Number::Finite { value } => if value < 0 {
            Number::Nan
        } else {
            in_range(false, single::root(value as nat))
        },
    }
}

/// Neither is undefined, and `a` is no larger than `b`.
pub open spec fn no_larger(a: Number, b: Number) -> bool {
    match (a, b) {
        (Number::Nan, _) => false,
        (_, Number::Nan) => false,
        (Number::Infinite { negative: true }, _) => true,
        (_, Number::Infinite { negative: false }) => true,
        (Number::Finite { value: x }, Number::Finite { value: y }) => x <= y,
        _ => false,
    }
}

/// The number with the other sign.
pub open spec fn opposite(a: Number) -> Number {
    match a {
        Number::Nan => Number::Nan,
        Number::Infinite { negative } => Number::Infinite { negative: !negative },
        Number::Finite { value } => Number::Finite { value: -value },
    }
}

/// Whether the number is above `bound` units.
pub open spec fn above(a: Number, bound: nat) -> bool {
    match a {
        Number::Nan => false,
        Number::Infinite { negative } => !negative,
        Number::Finite { value } => value > bound,
    }
}

/// The sum from first to last.
pub open spec fn sum(block: Seq<Number>) -> Number
    decreases block.len(),
{
    if block.len() == 0 {
        Number::Finite { value: 0 }
    } else {
        plus(sum(block.drop_last()), block.last())
    }
}

/// The sum of the squares from first to last.
pub open spec fn sum_of_squares(block: Seq<Number>) -> Number {
    sum(block.map_values(|a: Number| squared(a)))
}

/// The sum divided by `n`.
pub open spec fn mean(block: Seq<Number>, n: nat) -> Number {
    divided(sum(block), n)
}

/// The loudness of a block: the root of the mean square, zero for no samples.
pub open spec fn loudness(block: Seq<Number>) -> Number {
    if block.len() == 0 {
        Number::Finite { value: 0 }
    } else {
        square_root(divided(sum_of_squares(block), block.len()))
    }
}

/// The 16-bit level of a sample: clamped to the range from -1 to 1, scaled by
/// 32767 and cut to a whole number.
pub open spec fn level(a: Number) -> int {
    match a {
        Number::Nan => 0,
        Number::Infinite { negative } => if negative {
            -32767
        } else {
            32767
        },
        Number::Finite { value } => {
            let magnitude = if abs(value) <= single::one() {
                abs(value)
            } else {
                single::one()
            };
            let scaled = single::whole_part(
                single::product(magnitude, single::of_whole(32767)),
            ) as int;
            if value < 0 {
                -scaled
            } else {
                scaled
            }
        },
    }
}

/// Zero rounds to zero.
proof fn lemma_zero(den: nat)
    requires
        den > 0,
    ensures
        single::nearest(0, den) == 0,
{
    lemma2_to64();
    assert(0 * pow2(0) == 0);
    assert(0 <= den * (0 * pow2(0))) by (nonlinear_arith);
    single::lemma_nearest_at_most(0, den, 0, 0);
}

/// No sample is louder than full scale.
proof fn lemma_level(magnitude: nat)
    requires
        magnitude <= single::one(),
    ensures
        single::whole_part(single::product(magnitude, single::of_whole(32767))) <= 32767,
        magnitude == 0 ==> single::whole_part(
            single::product(magnitude, single::of_whole(32767)),
        ) == 0,
{
    let one = single::one();
    let full = 32767 * one;
    lemma2_to64();
    single::lemma_exact(32767, 149);
    lemma_pow2_pos(149);
    let num = magnitude * full;
    assert(num <= one * full) by (nonlinear_arith)
        requires
            num == magnitude * full,
            magnitude <= one,
    ;
    single::lemma_nearest_at_most(num, one, 32767, 149);
    lemma_div_is_ordered(single::nearest(num, one) as int, full as int, one as int);
    lemma_div_by_multiple(32767, one as int);
    if magnitude == 0 {
        assert(0 * full == 0);
        assert(0 <= one * (0 * pow2(0))) by (nonlinear_arith);
        single::lemma_nearest_at_most(0, one, 0, 0);
        assert(0 * pow2(0) == 0);
        lemma_div_basics(one as int);
    }
}

/// Zeros sum to zero.
proof fn lemma_sum_of_zeros(block: Seq<Number>)
    requires
        forall|i: int| 0 <= i < block.len() ==> block[i] == (Number::Finite { value: 0 }),
    ensures
        sum(block) == (Number::Finite { value: 0 }),
    decreases block.len(),
{
    if block.len() > 0 {
        lemma_sum_of_zeros(block.drop_last());
        lemma_zero(1);
        lemma_pow2_pos(277);
    }
}

/// The root of zero is zero.
proof fn lemma_zero_root()
    ensures
        single::nearest_root(0) == 0,
{
    lemma2_to64();
    let unit = pow2(0) * pow2(0);
    assert(unit == 1) by (nonlinear_arith)
        requires
            unit == pow2(0) * pow2(0),
            pow2(0) == 1,
    ;
    lemma_div_basics(0);
    assert(single::root_spare_digits(0) == 0);
    assert(single::whole_root(0) == 0);
    assert((2 * 0 + 1) * (2 * 0 + 1) * unit == 1) by (nonlinear_arith)
        requires
            unit == 1,
    ;
    assert(0 * pow2(0) == 0);
}

/// A silent block has no loudness, and neither has one without samples.
pub proof fn silence_has_no_loudness(block: Seq<Number>)
    requires
        forall|i: int| 0 <= i < block.len() ==> block[i] == (Number::Finite { value: 0 }),
    ensures
        loudness(block) == (Number::Finite { value: 0 }),
{
    if block.len() > 0 {
        let one = single::one();
        let squares = block.map_values(|a: Number| squared(a));
        lemma_pow2_pos(149);
        lemma_pow2_pos(277);
        lemma_zero(one);
        assert(0 * 0 == 0);
        assert forall|i: int| 0 <= i < squares.len() implies squares[i] == (Number::Finite {
            value: 0,
        }) by {
            assert(block[i] == (Number::Finite { value: 0 }));
            assert(abs(0) * abs(0) == 0);
        }
        lemma_sum_of_zeros(squares);
        let n = block.len();
        lemma_whole_positive(n);
        assert(0 * one == 0);
        lemma_zero(single::of_whole(n));
        lemma2_to64();
        lemma_zero_root();
    }
}

/// A positive whole number does not round to zero.
proof fn lemma_whole_positive(n: nat)
    requires
        n > 0,
    ensures
        single::of_whole(n) > 0,
{
    lemma_pow2_pos(149);
    assert(n * single::one() >= 1 * pow2(149)) by (nonlinear_arith)
        requires
            n > 0,
            single::one() == pow2(149),
    ;
    single::lemma_nearest_floor(n * single::one(), 1, 149);
}

/// A level is at most full scale, positive or negative.
pub proof fn levels_are_bounded(a: Number)
    ensures
        -32767 <= level(a) <= 32767,
{
    match a {
        Number::Finite { value } => {
            lemma_level(
                if abs(value) <= single::one() {
                    abs(value)
                } else {
                    single::one()
                },
            );
        },
        _ => {},
    }
}

/// A number of one or more is cut to full scale, positive or negative.
pub proof fn loud_samples_are_clipped(value: int)
    requires
        abs(value) >= single::one(),
    ensures
        level(Number::Finite { value }) == if value < 0 {
            -32767int
        } else {
            32767int
        },
{
    let one = single::one();
    let full = single::of_whole(32767);
    lemma2_to64();
    lemma_pow2_pos(149);
    single::lemma_exact(32767, 149);
    lemma_level(one);
    single::lemma_nearest_scaled(full, 1, one);
    assert(full * one == one * full) by (nonlinear_arith);
    lemma_div_by_multiple(32767, one as int);
}

/// The level of a number and that of its opposite cancel.
pub proof fn levels_are_symmetric(value: int)
    ensures
        level(Number::Finite { value: -value }) == -level(Number::Finite { value }),
{
    if value == 0 {
        lemma_pow2_pos(149);
        lemma_level(0);
    }
}

/// A bit pattern of a sign, an exponent field and a fraction stands for a fraction of
/// 2^23 parts, from one to two, times a power of two; at field 1 the parts are units, and
/// every further field doubles them. Below that are the fractions themselves, and the last
/// field is infinite or undefined.
pub proof fn patterns_encode_numbers(negative: bool, field: u32, fraction: u32)
    requires
        field < 256,
        fraction < 0x80_0000,
    ensures
        ({
            let bits = ((if negative {
                0x8000_0000int
            } else {
                0
            }) + field * 0x80_0000 + fraction) as u32;
            let sign: int = if negative {
                -1
            } else {
                1
            };
            &&& field == 0 ==> number(bits) == (Number::Finite { value: sign * fraction })
            &&& 0 < field < 255 ==> number(bits) == (Number::Finite {
                value: sign * ((0x80_0000 + fraction) * pow2((field - 1) as nat)),
            })
            &&& field == 255 && fraction == 0 ==> number(bits) == (Number::Infinite { negative })
            &&& field == 255 && fraction > 0 ==> number(bits) is Nan
        }),
{
    let top: int = if negative {
        0x8000_0000
    } else {
        0
    };
    let bits = (top + field * 0x80_0000 + fraction) as u32;
    assert(bits == top + field * 0x80_0000 + fraction);
    assert(bits / 0x80_0000 == (if negative {
        256int
    } else {
        0
    }) + field);
    assert(bits % 0x80_0000 == fraction);
    let v = (0x80_0000 + fraction) * pow2((field - 1) as nat);
    assert(1 * v == v && (-1) * v == -v) by (nonlinear_arith);
}

/// The level of a sample from -1 to 1 is its share of full scale: its magnitude times
/// 32767, cut to a whole number, but for one part in 2^24 and half a unit; and it has its
/// sign.
pub proof fn levels_are_shares_of_full_scale(value: int)
    requires
        abs(value) <= single::one(),
    ensures
        ({
            let l = level(Number::Finite { value });
            &&& abs(l) * single::one() * 0x100_0000 <= abs(value) * 32767 * 0x100_0001 + 0x80_0000
            &&& (abs(l) + 1) * single::one() * 0x100_0000 > abs(value) * 32767 * 0xff_ffff
                - 0x80_0000
            &&& value > 0 ==> l >= 0
            &&& value < 0 ==> l <= 0
            &&& value == 0 ==> l == 0
        }),
{
    let one = single::one();
    let full = single::of_whole(32767);
    let v = abs(value);
    lemma2_to64();
    lemma_pow2_pos(149);
    single::lemma_exact(32767, 149);
    lemma_zero_level();
    let p = single::product(v, full);
    assert(v * full == one * (v * 32767)) by (nonlinear_arith)
        requires
            full == 32767 * one,
    ;
    single::lemma_nearest_scaled(v * 32767, 1, one);
    assert(one * 1 == one);
    let x = v * 32767;
    single::rounding_error_is_bounded(x, 1);
    assert(p * 1 == p);
    let l = p as int / one as int;
    lemma_fundamental_div_mod(p as int, one as int);
    lemma_mod_bound(p as int, one as int);
    assert(l * one == one * l && (l + 1) * one == one * l + one) by (nonlinear_arith);
    levels_are_symmetric(value);
}

/// The level of a finite number that is at least zero.
proof fn lemma_level_monotone(x: nat, y: nat)
    requires
        x <= y,
    ensures
        level(Number::Finite { value: x as int }) <= level(Number::Finite { value: y as int }),
{
    let one = single::one();
    let full = single::of_whole(32767);
    let a = if x <= one {
        x
    } else {
        one
    };
    let b = if y <= one {
        y
    } else {
        one
    };
    lemma_pow2_pos(149);
    assert(a * full <= b * full) by (nonlinear_arith)
        requires
            a <= b,
    ;
    single::rounding_is_monotone(a * full, b * full, one);
    lemma_div_is_ordered(
        single::product(a, full) as int,
        single::product(b, full) as int,
        one as int,
    );
}

/// A larger sample never gets a smaller level.
pub proof fn levels_are_monotone(a: Number, b: Number)
    requires
        no_larger(a, b),
    ensures
        level(a) <= level(b),
{
    levels_are_bounded(a);
    levels_are_bounded(b);
    match (a, b) {
        (Number::Finite { value: x }, Number::Finite { value: y }) => {
            lemma_zero_level();
            if x >= 0 {
                lemma_level_monotone(x as nat, y as nat);
            } else if y <= 0 {
                lemma_level_monotone((-y) as nat, (-x) as nat);
                levels_are_symmetric(x);
                levels_are_symmetric(y);
            } else {
                lemma_level_monotone(0, (-x) as nat);
                lemma_level_monotone(0, y as nat);
                levels_are_symmetric(x);
            }
        },
        _ => {},
    }
}

/// Zero has level zero.
proof fn lemma_zero_level()
    ensures
        level(Number::Finite { value: 0 }) == 0,
{
    lemma_pow2_pos(149);
    lemma_level(0);
}

/// The level of a number and that of its opposite cancel, infinite ones included.
pub proof fn opposites_have_opposite_levels(a: Number)
    ensures
        level(opposite(a)) == -level(a),
{
    match a {
        Number::Finite { value } => levels_are_symmetric(value),
        _ => {},
    }
}

/// A whole number below 2^24 is in range.
proof fn lemma_whole_in_range(n: nat)
    requires
        n < 0x100_0000,
    ensures
        single::of_whole(n) == n * single::one(),
        n * single::one() < pow2(277),
{
    lemma2_to64();
    single::lemma_exact(n, 149);
    lemma_pow2_pos(149);
    lemma_pow2_adds(24, 149);
    lemma_pow2_strictly_increases(173, 277);
    assert(n * single::one() <= pow2(24) * pow2(149)) by (nonlinear_arith)
        requires
            n < pow2(24),
            single::one() == pow2(149),
    ;
}

/// The sum of numbers from -1 to 1 is at most as far from zero as they are many.
proof fn lemma_sum_in_range(block: Seq<Number>)
    requires
        block.len() < 0x100_0000,
        forall|i: int| 0 <= i < block.len() ==> in_unit(#[trigger] block[i]),
    ensures
        match sum(block) {
            Number::Finite { value } => abs(value) <= block.len() * single::one(),
            _ => false,
        },
    decreases block.len(),
{
    let one = single::one();
    if block.len() == 0 {
        assert(0 * one == 0);
    } else {
        let fewer = block.drop_last();
        let n = block.len();
        assert forall|i: int| 0 <= i < fewer.len() implies in_unit(#[trigger] fewer[i]) by {
            assert(in_unit(block[i]));
        }
        lemma_sum_in_range(fewer);
        assert(in_unit(block[n - 1]));
        match (sum(fewer), block.last()) {
            (Number::Finite { value: x }, Number::Finite { value: y }) => {
                assert((n - 1) * one + one == n * one) by (nonlinear_arith);
                lemma2_to64();
                assert(1 * (n * pow2(149)) == n * one) by (nonlinear_arith)
                    requires
                        one == pow2(149),
                ;
                single::lemma_nearest_at_most(abs(x + y), 1, n, 149);
                lemma_whole_in_range(n);
            },
            _ => {},
        }
    }
}

/// Numbers from -1 to 1 divided by one that is no smaller stay there.
proof fn lemma_share_in_unit(value: int, n: nat)
    requires
        0 < n < 0x100_0000,
        abs(value) <= n * single::one(),
    ensures
        in_unit(divided(Number::Finite { value }, n)),
        abs(value) == n * single::one() ==> divided(Number::Finite { value }, n) == signed(
            value < 0,
            single::one(),
        ),
{
    let one = single::one();
    lemma2_to64();
    lemma_pow2_pos(149);
    lemma_pow2_strictly_increases(149, 277);
    lemma_whole_in_range(n);
    let den = n * one;
    let num = abs(value) * one;
    assert(den > 0) by (nonlinear_arith)
        requires
            den == n * one,
            n > 0,
            one > 0,
    ;
    assert(1 * pow2(149) == one);
    assert(num <= den * (1 * pow2(149))) by (nonlinear_arith)
        requires
            num == abs(value) * one,
            abs(value) <= den,
            1 * pow2(149) == one,
    ;
    single::lemma_nearest_at_most(num, den, 1, 149);
    if abs(value) == den {
        single::lemma_nearest_floor(num, den, 149);
    }
}

/// The mean of numbers from -1 to 1 is one of them too.
pub proof fn means_stay_in_range(block: Seq<Number>, n: nat)
    requires
        block.len() <= n,
        0 < n < 0x100_0000,
        forall|i: int| 0 <= i < block.len() ==> in_unit(#[trigger] block[i]),
    ensures
        in_unit(mean(block, n)),
{
    lemma_sum_in_range(block);
    match sum(block) {
        Number::Finite { value } => {
            assert(block.len() * single::one() <= n * single::one()) by (nonlinear_arith)
                requires
                    block.len() <= n,
            ;
            lemma_share_in_unit(value, n);
        },
        _ => {},
    }
}

/// A whole number as a share of one that is no smaller is in range.
pub proof fn lemma_share(negative: bool, m: nat, n: nat)
    requires
        m <= n,
        0 < n < 0x100_0000,
    ensures
        in_unit(divided(signed(negative, single::of_whole(m)), n)),
        m == n ==> divided(signed(negative, single::of_whole(m)), n) == signed(
            negative,
            single::one(),
        ),
        !negative ==> divided(signed(negative, single::of_whole(m)), n)->value >= 0,
{
    let one = single::one();
    lemma_pow2_pos(149);
    lemma_whole_in_range(m);
    assert(m * one <= n * one) by (nonlinear_arith)
        requires
            m <= n,
    ;
    if m == n {
        assert(m * one > 0) by (nonlinear_arith)
            requires
                m > 0,
                one > 0,
        ;
    }
    let value: int = if negative {
        -(m * one as int)
    } else {
        m * one as int
    };
    lemma_share_in_unit(value, n);
}

/// Twice a share, less one, is in range.
pub proof fn lemma_twice_less_one(a: Number)
    requires
        in_unit(a),
        a->value >= 0,
    ensures
        in_unit(plus(twice(a), signed(true, single::one()))),
{
    let one = single::one();
    let v = a->value as nat;
    lemma2_to64();
    lemma_pow2_pos(149);
    lemma_pow2_strictly_increases(149, 277);
    lemma_whole_in_range(2);
    assert(v * (2 * one) <= one * (2 * pow2(149))) by (nonlinear_arith)
        requires
            v <= one,
            one == pow2(149),
    ;
    single::lemma_nearest_at_most(v * (2 * one), one, 2, 149);
    let t = single::product(v, single::of_whole(2));
    assert(t <= 2 * one);
    assert(1 * (1 * pow2(149)) == one);
    single::lemma_nearest_at_most(abs(t - one), 1, 1, 149);
}

/// A number to calculate with.
#[derive(Clone, Copy)]
pub enum Real {
    Nan,
    Infinite { negative: bool },
    Finite { negative: bool, magnitude: Single },
}

impl Real {
    /// The number it is.
    pub open spec fn number(self) -> Number {
        match self {
            Real::Nan => Number::Nan,
            Real::Infinite { negative } => Number::Infinite { negative },
            Real::Finite { negative, magnitude } => signed(negative, magnitude.value()),
        }
    }

    /// A finite one is in range.
    pub open spec fn wf(self) -> bool {
        match self {
            Real::Finite { magnitude, .. } => magnitude.wf() && magnitude.value() < pow2(277),
            _ => true,
        }
    }

    /// Zero.
    pub fn zero() -> (r: Real)
        ensures
            r.wf(),
            r.number() == (Number::Finite { value: 0 }),
    {
        let magnitude = Single::from_parts(0, 0);
        proof {
            lemma_pow2_pos(277);
            assert(0 * pow2(0) == 0);
        }
        Real::Finite { negative: false, magnitude }
    }

    /// Minus one.
    pub fn minus_one() -> (r: Real)
        ensures
            r.wf(),
            r.number() == signed(true, single::one()),
    {
        let magnitude = Single::from_parts(0x80_0000, 126);
        proof {
            lemma2_to64();
            lemma_pow2_adds(23, 126);
            lemma_pow2_strictly_increases(149, 277);
        }
        Real::Finite { negative: true, magnitude }
    }

    /// A whole number with a sign, rounded.
    pub fn from_whole(negative: bool, n: u64) -> (r: Real)
        ensures
            r.wf(),
            r.number() == signed(negative, single::of_whole(n as nat)),
    {
        let magnitude = Single::from_whole(n);
        proof {
            single::lemma_whole_below(n as nat);
        }
        Real::Finite { negative, magnitude }
    }

    /// Decodes a bit pattern.
    pub fn from_bits(bits: u32) -> (r: Real)
        ensures
            r.wf(),
            r.number() == number(bits),
    {
        let negative = bits >= 0x8000_0000;
        let field: u32 = (bits / 0x80_0000) % 0x100;
        let fraction: u32 = bits % 0x80_0000;
        proof {
            lemma2_to64();
        }
        if field == 255 {
            if fraction == 0 {
                Real::Infinite { negative }
            } else {
                Real::Nan
            }
        } else if field == 0 {
            let magnitude = Single::from_parts(fraction as u64, 0);
            proof {
                assert(fraction * pow2(0) == fraction) by (nonlinear_arith)
                    requires
                        pow2(0) == 1,
                ;
                lemma_pow2_strictly_increases(23, 277);
            }
            Real::Finite { negative, magnitude }
        } else {
            let magnitude = Single::from_parts(0x80_0000 + fraction as u64, field - 1);
            proof {
                let c = pow2((field - 1) as nat);
                lemma_pow2_adds(24, 253);
                lemma_pow2_pos((field - 1) as nat);
                if field - 1 < 253 {
                    lemma_pow2_strictly_increases((field - 1) as nat, 253);
                }
                assert((0x80_0000 + fraction) * c < 0x100_0000 * pow2(253)) by (nonlinear_arith)
                    requires
                        fraction < 0x80_0000,
                        0 < c <= pow2(253),
                ;
            }
            Real::Finite { negative, magnitude }
        }
    }

    /// Encodes the number as a bit pattern.
    pub fn to_bits(self) -> (bits: u32)
        requires
            self.wf(),
        ensures
            number(bits) == self.number(),
    {
        match self {
            Real::Nan => 0x7fc0_0000,
            Real::Infinite { negative } => if negative {
                0xff80_0000
            } else {
                0x7f80_0000
            },
            Real::Finite { negative, magnitude } => {
                let (mant, exp) = magnitude.parts();
                let top: u32 = if negative {
                    0x8000_0000
                } else {
                    0
                };
                proof {
                    lemma2_to64();
                    assert(mant * pow2(0) == mant) by (nonlinear_arith)
                        requires
                            pow2(0) == 1,
                    ;
                }
                if mant < 0x80_0000 {
                    top + mant as u32
                } else {
                    top + (exp + 1) * 0x80_0000 + (mant as u32 - 0x80_0000)
                }
            },
        }
    }

    /// A rounded magnitude with its sign.
    fn settled(negative: bool, magnitude: Single) -> (r: Real)
        requires
            magnitude.wf(),
        ensures
            r.wf(),
            r.number() == in_range(negative, magnitude.value()),
    {
        if magnitude.is_huge() {
            Real::Infinite { negative }
        } else {
            Real::Finite { negative, magnitude }
        }
    }

    /// The rounded sum.
    pub fn plus(self, other: Real) -> (r: Real)
        requires
            self.wf(),
            other.wf(),
        ensures
            r.wf(),
            r.number() == plus(self.number(), other.number()),
    {
        match (self, other) {
            (
                Real::Finite { negative: m, magnitude: a },
                Real::Finite { negative: n, magnitude: b },
            ) => {
                proof {
                    lemma_pow2_strictly_increases(277, 300);
                }
                if m == n {
                    let sum = a.plus(b);
                    proof {
                        lemma_zero(1);
                    }
                    Real::settled(m, sum)
                } else if a.less(b) {
                    Real::settled(n, b.minus(a))
                } else {
                    proof {
                        lemma_zero(1);
                    }
                    Real::settled(m, a.minus(b))
                }
            },
            (Real::Nan, _) => Real::Nan,
            (_, Real::Nan) => Real::Nan,
            (Real::Finite { .. }, Real::Infinite { .. }) => other,
            (Real::Infinite { .. }, Real::Finite { .. }) => self,
            (Real::Infinite { negative: m }, Real::Infinite { negative: n }) => if m == n {
                self
            } else {
                Real::Nan
            },
        }
    }

    /// The rounded square.
    pub fn square(self) -> (r: Real)
        requires
            self.wf(),
        ensures
            r.wf(),
            r.number() == squared(self.number()),
    {
        match self {
            Real::Nan => Real::Nan,
            Real::Infinite { .. } => Real::Infinite { negative: false },
            Real::Finite { magnitude, .. } => {
                proof {
                    lemma_pow2_strictly_increases(277, 300);
                }
                Real::settled(false, magnitude.times(magnitude))
            },
        }
    }

    /// The rounded product with two.
    pub fn twice(self) -> (r: Real)
        requires
            self.wf(),
        ensures
            r.wf(),
            r.number() == twice(self.number()),
    {
        match self {
            Real::Finite { negative, magnitude } => {
                proof {
                    lemma_pow2_strictly_increases(277, 300);
                    single::lemma_whole_range(2);
                    assert(0 * pow2(0) == 0);
                }
                let zero = !Single::from_parts(0, 0).less(magnitude);
                Real::settled(negative && !zero, magnitude.times(Single::from_whole(2)))
            },
            _ => self,
        }
    }

    /// The rounded quotient by a whole number.
    pub fn over(self, n: usize) -> (r: Real)
        requires
            self.wf(),
        ensures
            r.wf(),
            r.number() == divided(self.number(), n as nat),
    {
        match self {
            Real::Nan => Real::Nan,
            Real::Infinite { .. } => self,
            Real::Finite { negative, magnitude } => {
                proof {
                    lemma_pow2_strictly_increases(277, 300);
                    single::lemma_whole_range(n as nat);
                }
                let zero = !Single::from_parts(0, 0).less(magnitude);
                proof {
                    assert(0 * pow2(0) == 0);
                }
                if n == 0 {
                    if zero {
                        Real::Nan
                    } else {
                        Real::Infinite { negative }
                    }
                } else {
                    Real::settled(negative && !zero, magnitude.over(Single::from_whole(n as u64)))
                }
            },
        }
    }

    /// The rounded root.
    pub fn sqrt(self) -> (r: Real)
        requires
            self.wf(),
        ensures
            r.wf(),
            r.number() == square_root(self.number()),
    {
        match self {
            Real::Nan => Real::Nan,
            Real::Infinite { negative } => if negative {
                Real::Nan
            } else {
                self
            },
            Real::Finite { negative, magnitude } => {
                proof {
                    lemma_pow2_strictly_increases(277, 300);
                    assert(0 * pow2(0) == 0);
                }
                if negative && Single::from_parts(0, 0).less(magnitude) {
                    Real::Nan
                } else {
                    Real::settled(false, magnitude.sqrt())
                }
            },
        }
    }

    /// Whether the number is above `bound`.
    pub fn exceeds(self, bound: Single) -> (r: bool)
        requires
            self.wf(),
            bound.wf(),
        ensures
            r == above(self.number(), bound.value()),
    {
        match self {
            Real::Nan => false,
            Real::Infinite { negative } => !negative,
            Real::Finite { negative, magnitude } => !negative && bound.less(magnitude),
        }
    }

    /// The 16-bit level.
    pub fn level(self) -> (r: i16)
        requires
            self.wf(),
        ensures
            r == level(self.number()),
    {
        match self {
            Real::Nan => 0,
            Real::Infinite { negative } => if negative {
                -32767
            } else {
                32767
            },
            Real::Finite { negative, magnitude } => {
                let one = Single::from_parts(0x80_0000, 126);
                proof {
                    lemma2_to64();
                    lemma_pow2_adds(23, 126);
                    lemma_pow2_strictly_increases(149, 300);
                    single::lemma_whole_range(32767);
                }
                let clamped = if one.less(magnitude) {
                    one
                } else {
                    magnitude
                };
                let scaled: u64 = clamped.times(Single::from_whole(32767)).whole();
                proof {
                    lemma_level(clamped.value());
                }
                if negative {
                    -(scaled as i16)
                } else {
                    scaled as i16
                }
            },
        }
    }
}

} // verus!
