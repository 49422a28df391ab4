use voicetyper::hotkey::{keyboard_hook, Chord, HookEvent, HookMsg};

const DOWN: u32 = 0x100;
const UP: u32 = 0x101;
const SYS_DOWN: u32 = 0x104;
const SYS_UP: u32 = 0x105;
const LWIN: u32 = 0x5b;
const RWIN: u32 = 0x5c;
const LCTRL: u32 = 0xa2;
const RCTRL: u32 = 0xa3;
const LETTER: u32 = 0x41;

/// The events at which the hotkey fires.
fn firings(events: &[(u32, u32)]) -> Vec<usize> {
    let mut chord = Chord::new();
    let mut fired = Vec::new();
    for (i, (msg, vk)) in events.iter().enumerate() {
        let event = HookEvent { code: 0, msg: *msg, vk: *vk };
        if keyboard_hook(&mut chord, event) == Some(HookMsg::Toggle) {
            fired.push(i);
        }
    }
    fired
}

#[test]
fn the_key_that_completes_the_chord_fires() {
    assert_eq!(firings(&[(DOWN, LCTRL), (DOWN, LWIN)]), vec![1]);
    assert_eq!(firings(&[(DOWN, RWIN), (DOWN, RCTRL)]), vec![1]);
    assert_eq!(firings(&[(SYS_DOWN, LCTRL), (SYS_DOWN, RWIN)]), vec![1]);
}

#[test]
fn one_key_alone_does_not_fire() {
    assert!(firings(&[(DOWN, LCTRL), (UP, LCTRL), (DOWN, LWIN)]).is_empty());
    assert!(firings(&[(DOWN, LCTRL), (DOWN, RCTRL), (DOWN, LETTER)]).is_empty());
}

#[test]
fn repeats_of_a_held_chord_do_not_fire() {
    let events =
        [(DOWN, LCTRL), (DOWN, LWIN), (DOWN, LWIN), (DOWN, LCTRL), (DOWN, LETTER), (DOWN, LWIN)];
    assert_eq!(firings(&events), vec![1]);
}

#[test]
fn a_chord_fires_again_after_a_key_was_let_go() {
    let events = [(DOWN, LCTRL), (DOWN, LWIN), (UP, LWIN), (DOWN, LWIN), (SYS_UP, LCTRL)];
    assert_eq!(firings(&events), vec![1, 3]);
}

#[test]
fn events_with_another_code_are_passed_on() {
    let mut chord = Chord::new();
    for code in [-1, 1, 3] {
        for vk in [LCTRL, LWIN] {
            assert_eq!(keyboard_hook(&mut chord, HookEvent { code, msg: DOWN, vk }), None);
        }
    }
    assert_eq!(chord, Chord::new());
}

#[test]
fn letting_go_of_one_of_two_ctrl_keys_leaves_the_other_down() {
    let events = [(DOWN, LCTRL), (DOWN, RCTRL), (UP, RCTRL), (DOWN, LWIN), (DOWN, LCTRL)];
    assert_eq!(firings(&events), vec![3]);
}

#[test]
fn a_chord_that_is_held_throughout_fires_once() {
    let events = [(DOWN, LCTRL), (DOWN, RCTRL), (DOWN, LWIN), (UP, RCTRL), (DOWN, LCTRL)];
    assert_eq!(firings(&events), vec![2]);
    let events = [(DOWN, LWIN), (DOWN, RWIN), (DOWN, RCTRL), (UP, LWIN), (DOWN, LWIN), (UP, RWIN)];
    assert_eq!(firings(&events), vec![2]);
}

#[test]
fn a_chord_fires_again_when_the_last_ctrl_key_was_let_go() {
    let events =
        [(DOWN, LCTRL), (DOWN, LWIN), (DOWN, RCTRL), (UP, LCTRL), (UP, RCTRL), (DOWN, RCTRL)];
    assert_eq!(firings(&events), vec![1, 5]);
}
