use voicetyper::tray::{icon_for_event, idle_icon, make_icon, UiEvent};

/// The glyph in floating point.
fn in_glyph(x: usize, y: usize) -> bool {
    let fx = x as f32 + 0.5;
    let fy = y as f32 + 0.5;
    let dx = fx - 16.0;
    let cyy = fy.clamp(9.0, 15.0);
    let head = (dx * dx + (fy - cyy) * (fy - cyy)).sqrt() <= 5.0;
    let dr = (dx * dx + (fy - 15.0) * (fy - 15.0)).sqrt();
    let cradle = (15.0..=23.0).contains(&fy) && (dr - 8.0).abs() <= 1.5;
    let stem = dx.abs() <= 1.5 && (22.0..=27.0).contains(&fy);
    let base = dx.abs() <= 6.0 && (26.0..=28.0).contains(&fy);
    head || cradle || stem || base
}

#[test]
fn the_glyph_is_drawn_in_its_color() {
    let rgba = [1, 2, 3, 4];
    let pixels = make_icon(rgba);
    assert_eq!(pixels.len(), 32 * 32 * 4);
    for y in 0..32 {
        for x in 0..32 {
            let i = (y * 32 + x) * 4;
            let expected = if in_glyph(x, y) { rgba } else { [0; 4] };
            assert_eq!(pixels[i..i + 4], expected, "at {x}, {y}");
        }
    }
}

#[test]
fn each_state_has_its_color() {
    assert_eq!(idle_icon(), make_icon([0x2e, 0x7d, 0xff, 0xff]));
    assert_eq!(icon_for_event(&UiEvent::Idle), idle_icon());
    assert_eq!(icon_for_event(&UiEvent::Listening), make_icon([0xff, 0x3b, 0x30, 0xff]));
    assert_eq!(icon_for_event(&UiEvent::Processing), make_icon([0xff, 0xa5, 0x00, 0xff]));
    assert_eq!(icon_for_event(&UiEvent::Failed), make_icon([0xd0, 0x3b, 0x30, 0xff]));
}

#[test]
fn icons_of_different_states_differ() {
    assert_ne!(icon_for_event(&UiEvent::Idle), icon_for_event(&UiEvent::Listening));
    assert_ne!(icon_for_event(&UiEvent::Idle), icon_for_event(&UiEvent::Processing));
    assert_ne!(icon_for_event(&UiEvent::Listening), icon_for_event(&UiEvent::Processing));
    for ui in [UiEvent::Idle, UiEvent::Listening, UiEvent::Processing] {
        assert_ne!(icon_for_event(&UiEvent::Failed), icon_for_event(&ui));
    }
}

#[test]
fn the_icon_is_its_own_mirror_image() {
    let pixels = idle_icon();
    for y in 0..32 {
        for x in 0..32 {
            let i = (y * 32 + x) * 4;
            let j = (y * 32 + 31 - x) * 4;
            assert_eq!(pixels[i..i + 4], pixels[j..j + 4]);
        }
    }
}
