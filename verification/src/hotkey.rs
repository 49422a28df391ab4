//! The global Ctrl+Win hotkey: which key events of the raw key stream fire it.
//!
//! Ctrl+Win is a chord of modifiers alone. It fires once when both are down, on
//! the key-down that completes it, and again only after it was no longer held. Each of
//! the two Ctrl keys and of the two Windows keys counts by itself.

use vstd::prelude::*;

verus! {

/// The hook code of an event that is to be looked at.
pub const HC_ACTION: i32 = 0;

/// Key-down of an ordinary key.
pub const WM_KEYDOWN: u32 = 0x100;

/// Key-up of an ordinary key.
pub const WM_KEYUP: u32 = 0x101;

/// Key-down while Alt is held.
pub const WM_SYSKEYDOWN: u32 = 0x104;

/// Key-up while Alt is held.
pub const WM_SYSKEYUP: u32 = 0x105;

/// Left Windows key.
pub const VK_LWIN: u32 = 0x5b;

/// Right Windows key.
pub const VK_RWIN: u32 = 0x5c;

/// Left Ctrl key.
pub const VK_LCONTROL: u32 = 0xa2;

/// Right Ctrl key.
pub const VK_RCONTROL: u32 = 0xa3;

/// Messages from the keyboard hook to the worker.
#[derive(Clone, Copy, Debug, PartialEq, Eq, Structural)]
pub enum HookMsg {
    Toggle,
}

/// An event as the keyboard hook gets it.
#[derive(Clone, Copy, Debug, PartialEq, Eq, Structural)]
pub struct HookEvent {
    /// The hook code.
    pub code: i32,
    /// The window message.
    pub msg: u32,
    /// The virtual key.
    pub vk: u32,
}

impl HookEvent {
    pub open spec fn counts(self) -> bool {
        self.code == HC_ACTION
    }

    pub open spec fn is_down(self) -> bool {
        self.msg == WM_KEYDOWN || self.msg == WM_SYSKEYDOWN
    }

    pub open spec fn is_up(self) -> bool {
        self.msg == WM_KEYUP || self.msg == WM_SYSKEYUP
    }

    pub open spec fn is_ctrl(self) -> bool {
        self.vk == VK_LCONTROL || self.vk == VK_RCONTROL
    }

    pub open spec fn is_win(self) -> bool {
        self.vk == VK_LWIN || self.vk == VK_RWIN
    }
}

/// Which keys of the chord are down.
#[derive(Clone, Copy, Debug, PartialEq, Eq, Structural)]
pub struct Chord {
    pub left_ctrl: bool,
    pub right_ctrl: bool,
    pub left_win: bool,
    pub right_win: bool,
    /// The chord has fired and is still held.
    pub combo_active: bool,
}

/// The key `vk` is down after an event: as the event says, if it is about that key.
pub open spec fn key_after(down: bool, vk: u32, event: HookEvent) -> bool {
    if event.vk == vk && event.is_down() {
        true
    } else if event.vk == vk && event.is_up() {
        false
    } else {
        down
    }
}

impl Chord {
    /// A Ctrl key and a Windows key are down.
    pub open spec fn held(self) -> bool {
        (self.left_ctrl || self.right_ctrl) && (self.left_win || self.right_win)
    }

    /// The chord has fired exactly if it is held.
    pub open spec fn wf(self) -> bool {
        self.combo_active == self.held()
    }

    /// The chord after an event, which changes its own key only.
    pub open spec fn after(self, event: HookEvent) -> Chord {
        if event.counts() {
            let keys = Chord {
                left_ctrl: key_after(self.left_ctrl, VK_LCONTROL, event),
                right_ctrl: key_after(self.right_ctrl, VK_RCONTROL, event),
                left_win: key_after(self.left_win, VK_LWIN, event),
                right_win: key_after(self.right_win, VK_RWIN, event),
                ..self
            };
            Chord { combo_active: keys.held(), ..keys }
        } else {
            self
        }
    }

    /// The event fires the hotkey.
    pub open spec fn fires(self, event: HookEvent) -> bool {
        event.counts() && self.after(event).held() && !self.combo_active
    }

    /// The chord after a stream of events.
    pub open spec fn after_all(self, events: Seq<HookEvent>) -> Chord
        decreases events.len(),
    {
        if events.len() == 0 {
            self
        } else {
            self.after_all(events.drop_last()).after(events.last())
        }
    }

    /// Event `i` of a stream fires the hotkey.
    pub open spec fn fires_at(self, events: Seq<HookEvent>, i: int) -> bool {
        self.after_all(events.take(i)).fires(events[i])
    }

    /// No key is down.
    pub fn new() -> (r: Chord)
        ensures
            r.wf(),
            r == (Chord {
                left_ctrl: false,
                right_ctrl: false,
                left_win: false,
                right_win: false,
                combo_active: false,
            }),
    {
        Chord {
            left_ctrl: false,
            right_ctrl: false,
            left_win: false,
            right_win: false,
            combo_active: false,
        }
    }
}

/// Takes note of a key event, and says whether the hotkey fires.
pub fn keyboard_hook(chord: &mut Chord, event: HookEvent) -> (fired: Option<HookMsg>)
    ensures
        *final(chord) == old(chord).after(event),
        fired == (if old(chord).fires(event) {
            Some(HookMsg::Toggle)
        } else {
            None
        }),
        old(chord).wf() ==> final(chord).wf(),
{
    if event.code != HC_ACTION {
        return None;
    }
    let is_down = event.msg == WM_KEYDOWN || event.msg == WM_SYSKEYDOWN;
    let is_up = event.msg == WM_KEYUP || event.msg == WM_SYSKEYUP;
    if is_down || is_up {
        if event.vk == VK_LCONTROL {
            chord.left_ctrl = is_down;
        } else if event.vk == VK_RCONTROL {
            chord.right_ctrl = is_down;
        } else if event.vk == VK_LWIN {
            chord.left_win = is_down;
        } else if event.vk == VK_RWIN {
            chord.right_win = is_down;
        }
    }
    let held = (chord.left_ctrl || chord.right_ctrl) && (chord.left_win || chord.right_win);
    let fires = held && !chord.combo_active;
    chord.combo_active = held;
    if fires {
        Some(HookMsg::Toggle)
    } else {
        None
    }
}

/// The hotkey fires on exactly the events that complete the chord.
pub proof fn fires_when_the_chord_completes(chord: Chord, event: HookEvent)
    requires
        chord.wf(),
    ensures
        chord.fires(event) <==> !chord.held() && chord.after(event).held(),
        chord.fires(event) ==> event.is_down() && (event.is_ctrl() || event.is_win()),
        chord.after(event).wf(),
{
}

/// Between two firings the chord was not held: it fires once for as long as it is
/// held, whatever keys repeat and whichever of two Ctrl or Windows keys go up.
pub proof fn fires_once_per_chord(chord: Chord, events: Seq<HookEvent>, i: int, j: int)
    requires
        chord.wf(),
        0 <= i < j < events.len(),
        chord.fires_at(events, i),
        chord.fires_at(events, j),
    ensures
        exists|k: int|
            i < k < j && !(#[trigger] chord.after_all(events.take(k + 1))).held(),
{
    // The event before the second firing leaves the chord not held.
    let k = j - 1;
    assert(events.take(k + 1) == events.take(j));
    lemma_wf(chord, events.take(j));
    assert(!chord.after_all(events.take(k + 1)).held());
    if k == i {
        assert(events.take(j).drop_last() =~= events.take(i));
        assert(events.take(j).last() == events[i]);
    }
}

/// The event is a press of key `vk`, or a repeat of it: key-down (0x100), or key-down
/// with Alt held (0x104), of an event that is to be looked at (code 0).
pub open spec fn presses(event: HookEvent, vk: u32) -> bool {
    event.code == 0 && event.vk == vk && (event.msg == 0x100 || event.msg == 0x104)
}

/// The event lets go of key `vk`: key-up (0x101), or key-up with Alt held (0x105).
pub open spec fn lets_go(event: HookEvent, vk: u32) -> bool {
    event.code == 0 && event.vk == vk && (event.msg == 0x101 || event.msg == 0x105)
}

/// Key `vk` is held after a stream of events: it was pressed, and has not been let go
/// since.
pub open spec fn is_held_after(events: Seq<HookEvent>, vk: u32) -> bool {
    exists|i: int|
        0 <= i < events.len() && #[trigger] presses(events[i], vk) && (forall|k: int|
            i < k < events.len() ==> !(#[trigger] lets_go(events[k], vk)))
}

/// A Ctrl key (0xa2 or 0xa3) and a Windows key (0x5b or 0x5c) are held after a stream of
/// events.
pub open spec fn ctrl_and_win_held(events: Seq<HookEvent>) -> bool {
    &&& is_held_after(events, 0xa2) || is_held_after(events, 0xa3)
    &&& is_held_after(events, 0x5b) || is_held_after(events, 0x5c)
}

/// A press makes a key held, letting it go makes it not held, and any other event leaves
/// it as it was.
proof fn lemma_held_step(events: Seq<HookEvent>, vk: u32)
    requires
        events.len() > 0,
    ensures
        is_held_after(events, vk) == if presses(events.last(), vk) {
            true
        } else if lets_go(events.last(), vk) {
            false
        } else {
            is_held_after(events.drop_last(), vk)
        },
{
    let n = events.len() as int;
    let fewer = events.drop_last();
    if presses(events.last(), vk) {
        assert(presses(events[n - 1], vk));
    } else if lets_go(events.last(), vk) {
        assert(lets_go(events[n - 1], vk));
    } else {
        if is_held_after(fewer, vk) {
            let i = choose|i: int|
                0 <= i < fewer.len() && #[trigger] presses(fewer[i], vk) && (forall|k: int|
                    i < k < fewer.len() ==> !(#[trigger] lets_go(fewer[k], vk)));
            assert(presses(events[i], vk));
            assert forall|k: int| i < k < n implies !(#[trigger] lets_go(events[k], vk)) by {
                if k < n - 1 {
                    assert(!lets_go(fewer[k], vk));
                }
            }
        }
        if is_held_after(events, vk) {
            let i = choose|i: int|
                0 <= i < events.len() && #[trigger] presses(events[i], vk) && (forall|k: int|
                    i < k < events.len() ==> !(#[trigger] lets_go(events[k], vk)));
            assert(presses(fewer[i], vk));
            assert forall|k: int| i < k < fewer.len() implies !(#[trigger] lets_go(
                fewer[k],
                vk,
            )) by {
                assert(!lets_go(events[k], vk));
            }
        }
    }
}

/// After any stream of events, a key counts as down exactly if it is held: if it was
/// pressed, and has not been let go since, whatever the other keys do.
pub proof fn keys_count_as_they_are_held(events: Seq<HookEvent>)
    ensures
        ({
            let fresh = Chord {
                left_ctrl: false,
                right_ctrl: false,
                left_win: false,
                right_win: false,
                combo_active: false,
            };
            let chord = fresh.after_all(events);
            &&& chord.left_ctrl == is_held_after(events, 0xa2)
            &&& chord.right_ctrl == is_held_after(events, 0xa3)
            &&& chord.left_win == is_held_after(events, 0x5b)
            &&& chord.right_win == is_held_after(events, 0x5c)
            &&& chord.combo_active == ctrl_and_win_held(events)
        }),
    decreases events.len(),
{
    if events.len() > 0 {
        keys_count_as_they_are_held(events.drop_last());
        lemma_held_step(events, 0xa2);
        lemma_held_step(events, 0xa3);
        lemma_held_step(events, 0x5b);
        lemma_held_step(events, 0x5c);
    }
}

/// The hotkey fires at an event exactly if a Ctrl key and a Windows key are held after
/// it, and were not before it.
pub proof fn fires_when_ctrl_and_win_become_held(events: Seq<HookEvent>, i: int)
    requires
        0 <= i < events.len(),
    ensures
        (Chord {
            left_ctrl: false,
            right_ctrl: false,
            left_win: false,
            right_win: false,
            combo_active: false,
        }).fires_at(events, i) <==> ctrl_and_win_held(events.take(i + 1)) && !ctrl_and_win_held(
            events.take(i),
        ),
{
    keys_count_as_they_are_held(events.take(i));
    keys_count_as_they_are_held(events.take(i + 1));
    assert(events.take(i + 1).drop_last() =~= events.take(i));
    assert(events.take(i + 1).last() == events[i]);
}

/// As long as the chord is held, no event fires.
pub proof fn does_not_fire_while_held(chord: Chord, event: HookEvent)
    requires
        chord.wf(),
        chord.held(),
    ensures
        !chord.fires(event),
{
}

proof fn lemma_wf(chord: Chord, events: Seq<HookEvent>)
    requires
        chord.wf(),
    ensures
        chord.after_all(events).wf(),
    decreases events.len(),
{
    if events.len() > 0 {
        lemma_wf(chord, events.drop_last());
    }
}

} // verus!
