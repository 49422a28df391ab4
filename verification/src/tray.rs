//! The tray icon: the microphone glyph, and which color stands for which state.

use vstd::prelude::*;

verus! {

/// What the worker tells the tray.
#[derive(Clone, Copy, Debug, PartialEq, Eq, Structural)]
pub enum UiEvent {
    /// The microphone is being recorded.
    Listening,
    /// A recording is being transcribed.
    Processing,
    /// Nothing is going on.
    Idle,
    /// A recording came to nothing: the icon flashes.
    Failed,
}

/// Pixels on each side of the icon.
pub const SIZE: usize = 32;

/// The idle icon is blue.
pub const IDLE_RGBA: [u8; 4] = [0x2e, 0x7d, 0xff, 0xff];

/// The listening icon is red.
pub const LISTENING_RGBA: [u8; 4] = [0xff, 0x3b, 0x30, 0xff];

/// The processing icon is amber.
pub const PROCESSING_RGBA: [u8; 4] = [0xff, 0xa5, 0x00, 0xff];

/// The icon flashes red where something failed.
pub const FAILED_RGBA: [u8; 4] = [0xd0, 0x3b, 0x30, 0xff];

/// How long the icon flashes, in milliseconds.
pub const FLASH_MS: u64 = 400;

/// The color of a state.
pub open spec fn color(ui: UiEvent) -> Seq<u8> {
    match ui {
        UiEvent::Listening => seq![0xffu8, 0x3b, 0x30, 0xff],
        UiEvent::Processing => seq![0xffu8, 0xa5, 0x00, 0xff],
        UiEvent::Idle => seq![0x2eu8, 0x7d, 0xff, 0xff],
        UiEvent::Failed => seq![0xd0u8, 0x3b, 0x30, 0xff],
    }
}

/// Twice the distance of a pixel's center from the vertical axis.
pub open spec fn across(x: int) -> int {
    2 * x + 1 - 32
}

/// Twice the height of a pixel's center below the top.
pub open spec fn down(y: int) -> int {
    2 * y + 1
}

/// The capsule: within 5 of the segment of the axis from 9 to 15 below the top.
pub open spec fn in_capsule(x: int, y: int) -> bool {
    let v = down(y);
    let dv = if v < 18 {
        18 - v
    } else if v > 30 {
        v - 30
    } else {
        0
    };
    across(x) * across(x) + dv * dv <= 100
}

/// The cradle: the lower half of a ring around the point of the axis that is 15
/// below the top, from 6.5 to 9.5 away from it, no lower than 23.
pub open spec fn in_cradle(x: int, y: int) -> bool {
    let v = down(y);
    let dv = v - 30;
    let d = across(x) * across(x) + dv * dv;
    30 <= v <= 46 && 169 <= d <= 361
}

/// The stem: within 1.5 of the axis, from 22 to 27 below the top.
pub open spec fn in_stem(x: int, y: int) -> bool {
    -3 <= across(x) <= 3 && 44 <= down(y) <= 54
}

/// The base: within 6 of the axis, from 26 to 28 below the top.
pub open spec fn in_base(x: int, y: int) -> bool {
    -12 <= across(x) <= 12 && 52 <= down(y) <= 56
}

/// The pixels of the microphone.
pub open spec fn in_glyph(x: int, y: int) -> bool {
    in_capsule(x, y) || in_cradle(x, y) || in_stem(x, y) || in_base(x, y)
}

/// Byte `i` of an icon: rows from the top, four bytes for each pixel. What is
/// not part of the glyph is transparent.
pub open spec fn icon_byte(rgba: Seq<u8>, i: int) -> u8 {
    if in_glyph(i / 4 % 32, i / 4 / 32) {
        rgba[i % 4]
    } else {
        0
    }
}

/// The bytes of an icon.
pub open spec fn icon(rgba: Seq<u8>) -> Seq<u8> {
    Seq::new(4096, |i: int| icon_byte(rgba, i))
}

/// Whether a pixel is part of the glyph.
fn glyph(x: usize, y: usize) -> (r: bool)
    requires
        x < SIZE,
        y < SIZE,
    ensures
        r == in_glyph(x as int, y as int),
{
    let u: i32 = 2 * (x as i32) - 31;
    let v: i32 = 2 * (y as i32) + 1;
    let dv: i32 = if v < 18 {
        18 - v
    } else if v > 30 {
        v - 30
    } else {
        0
    };
    let dc: i32 = v - 30;
    assert(0 <= u * u <= 31 * 31) by (nonlinear_arith)
        requires
            -31 <= u <= 31,
    ;
    assert(0 <= dv * dv <= 63 * 63) by (nonlinear_arith)
        requires
            0 <= dv <= 63,
    ;
    assert(0 <= dc * dc <= 63 * 63) by (nonlinear_arith)
        requires
            -63 <= dc <= 63,
    ;
    let head = u * u + dv * dv <= 100;
    let ring: i32 = u * u + dc * dc;
    let cradle = 30 <= v && v <= 46 && 169 <= ring && ring <= 361;
    let stem = -3 <= u && u <= 3 && 44 <= v && v <= 54;
    let base = -12 <= u && u <= 12 && 52 <= v && v <= 56;
    head || cradle || stem || base
}

/// Draws the microphone in one color on a transparent background.
pub fn make_icon(rgba: [u8; 4]) -> (pixels: Vec<u8>)
    ensures
        pixels@ == icon(rgba@),
{
    let mut pixels: Vec<u8> = Vec::new();
    let mut i: usize = 0;
    while i < 4 * SIZE * SIZE
        invariant
            i <= 4096,
            i == pixels@.len(),
            forall|j: int| 0 <= j < i ==> pixels@[j] == icon_byte(rgba@, j),
        decreases 4096 - i,
    {
        let byte: u8 = if glyph(i / 4 % SIZE, i / 4 / SIZE) {
            rgba[i % 4]
        } else {
            0
        };
        pixels.push(byte);
        i = i + 1;
    }
    assert(pixels@ =~= icon(rgba@));
    pixels
}

/// The icon for the initial tray: idle.
pub fn idle_icon() -> (pixels: Vec<u8>)
    ensures
        pixels@ == icon(color(UiEvent::Idle)),
{
    assert(IDLE_RGBA@ =~= color(UiEvent::Idle));
    make_icon(IDLE_RGBA)
}

/// The icon for a state.
pub fn icon_for_event(ui: &UiEvent) -> (pixels: Vec<u8>)
    ensures
        pixels@ == icon(color(*ui)),
{
    let rgba: [u8; 4] = match ui {
        UiEvent::Listening => LISTENING_RGBA,
        UiEvent::Processing => PROCESSING_RGBA,
        UiEvent::Idle => IDLE_RGBA,
        UiEvent::Failed => FAILED_RGBA,
    };
    assert(rgba@ =~= color(*ui));
    make_icon(rgba)
}

/// Different states have different icons.
pub proof fn icons_tell_states_apart(a: UiEvent, b: UiEvent)
    requires
        a != b,
    ensures
        icon(color(a)) != icon(color(b)),
{
    // A pixel in the middle of the capsule.
    let i: int = 1600;
    let u = across(16);
    assert(u * u + 0 * 0 <= 100) by (nonlinear_arith)
        requires
            u == 1,
    ;
    assert(in_capsule(16, 12));
    assert(icon(color(a))[i] == color(a)[0] && icon(color(b))[i] == color(b)[0]);
    assert(icon(color(a))[i + 1] == color(a)[1] && icon(color(b))[i + 1] == color(b)[1]);
}

/// Every pixel is either of the color or transparent, all four bytes of it, and which of
/// them it is does not depend on the color: icons of two colors have the same shape.
pub proof fn icons_differ_in_color_only(a: Seq<u8>, b: Seq<u8>, x: int, y: int, c: int, d: int)
    requires
        0 <= x < 32,
        0 <= y < 32,
        0 <= c < 4,
        0 <= d < 4,
    ensures
        icon(a).len() == 4096,
        ({
            let i = 4 * (32 * y + x);
            ||| icon(a)[i + c] == a[c] && icon(b)[i + d] == b[d]
            ||| icon(a)[i + c] == 0 && icon(b)[i + d] == 0
        }),
        in_glyph(x, y) ==> icon(a)[4 * (32 * y + x) + c] == a[c],
        !in_glyph(x, y) ==> icon(a)[4 * (32 * y + x) + c] == 0,
{
    let i = 4 * (32 * y + x);
    assert((i + c) / 4 == 32 * y + x && (i + c) % 4 == c);
    assert((i + d) / 4 == 32 * y + x && (i + d) % 4 == d);
    assert((32 * y + x) / 32 == y && (32 * y + x) % 32 == x);
}

/// The glyph is its own mirror image.
pub proof fn glyph_is_symmetric(x: int, y: int)
    ensures
        in_glyph(x, y) == in_glyph(31 - x, y),
{
    assert(across(31 - x) == -across(x));
    assert((-across(x)) * (-across(x)) == across(x) * across(x)) by (nonlinear_arith);
}

} // verus!
