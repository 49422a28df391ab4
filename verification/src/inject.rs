//! Typing into the focused window: the text is put on the clipboard and pasted
//! with Ctrl+V, and the clipboard gets back the text it held.
//!
//! The clipboard, the keyboard and the clock belong to the caller. An
//! [`Injection`] says what to do next, and is told how that went.

use vstd::prelude::*;
use vstd::string::*;

verus! {

/// The Ctrl key.
pub const VK_CONTROL: u16 = 0x11;

/// The Shift key.
pub const VK_SHIFT: u16 = 0x10;

/// The Alt key.
pub const VK_MENU: u16 = 0x12;

/// The left Windows key.
pub const VK_LWIN: u16 = 0x5b;

/// The right Windows key.
pub const VK_RWIN: u16 = 0x5c;

/// The letter V.
pub const VK_V: u16 = 0x56;

/// Marks an event of a key that goes up.
pub const KEYEVENTF_KEYUP: u32 = 2;

/// How long the clipboard takes to settle, in milliseconds.
pub const SETTLE_MS: u64 = 30;

/// How long to wait for the modifiers between two looks at them.
pub const POLL_MS: u64 = 10;

/// How often to look at the modifiers at most.
pub const MAX_POLLS: u32 = 50;

/// How long the focused window takes to paste.
pub const PASTE_MS: u64 = 150;

/// An event of the keyboard.
#[derive(Clone, Copy, Debug, PartialEq, Eq, Structural)]
pub struct KeyEvent {
    /// The virtual key.
    pub vk: u16,
    /// The hardware code: none.
    pub scan: u16,
    /// What happens to the key.
    pub flags: u32,
    /// When: now.
    pub time: u32,
    /// What else belongs to the event: nothing.
    pub extra: usize,
}

impl KeyEvent {
    /// The event of a key that goes up or down.
    pub open spec fn of(vk: u16, up: bool) -> KeyEvent {
        KeyEvent {
            vk,
            scan: 0,
            flags: if up {
                KEYEVENTF_KEYUP
            } else {
                0
            },
            time: 0,
            extra: 0,
        }
    }
}

/// The events of Ctrl+V.
pub open spec fn ctrl_v() -> Seq<KeyEvent> {
    seq![
        KeyEvent::of(VK_CONTROL, false),
        KeyEvent::of(VK_V, false),
        KeyEvent::of(VK_V, true),
        KeyEvent::of(VK_CONTROL, true),
    ]
}

/// The keys that are down after some events.
pub open spec fn down_after(events: Seq<KeyEvent>) -> Set<u16>
    decreases events.len(),
{
    if events.len() == 0 {
        Set::empty()
    } else if events.last().flags == KEYEVENTF_KEYUP {
        down_after(events.drop_last()).remove(events.last().vk)
    } else {
        down_after(events.drop_last()).insert(events.last().vk)
    }
}

/// The modifiers: Ctrl, both Windows keys, Alt and Shift.
pub open spec fn modifiers() -> Seq<u16> {
    seq![VK_CONTROL, VK_LWIN, VK_RWIN, VK_MENU, VK_SHIFT]
}

/// One of the states says that its key is down: its highest bit is set.
pub open spec fn any_down(states: Seq<i16>) -> bool {
    exists|i: int| 0 <= i < states.len() && #[trigger] states[i] < 0
}

/// How far an injection has come.
#[derive(Clone, Copy, Debug, PartialEq, Eq, Structural)]
pub enum Stage {
    Opening,
    Reading,
    Writing,
    Settling,
    /// Looking at the modifiers, after so many looks.
    Polling { polls: u32 },
    /// Waiting for the modifiers, after so many looks and this one.
    Waiting { polls: u32 },
    Pressing,
    Lingering,
    Restoring,
    Done,
    Failed,
}

/// What the caller is to do.
pub enum Deed {
    Open,
    Read,
    Write(Seq<char>),
    Sleep(u64),
    ReadKeys(Seq<u16>),
    SendKeys(Seq<KeyEvent>),
    Finish,
    Fail(Seq<char>),
}

/// How it went.
pub enum Answer {
    Done,
    Failed(Seq<char>),
    Text(Option<Seq<char>>),
    Keys(Seq<i16>),
}

/// An injection.
#[verifier::ext_equal]
pub struct Paste {
    /// What is typed.
    pub text: Seq<char>,
    /// The text that the clipboard held before.
    pub previous: Option<Seq<char>>,
    /// What went wrong.
    pub error: Seq<char>,
    pub stage: Stage,
}

impl Paste {
    /// An injection of `text`. Nothing is done for no text.
    pub open spec fn of(text: Seq<char>) -> Paste {
        Paste {
            text,
            previous: None,
            error: Seq::empty(),
            stage: if text.len() == 0 {
                Stage::Done
            } else {
                Stage::Opening
            },
        }
    }

    /// What is to be done.
    pub open spec fn deed(self) -> Deed {
        match self.stage {
            Stage::Opening => Deed::Open,
            Stage::Reading => Deed::Read,
            Stage::Writing => Deed::Write(self.text),
            Stage::Settling => Deed::Sleep(SETTLE_MS),
            Stage::Polling { .. } => Deed::ReadKeys(modifiers()),
            Stage::Waiting { .. } => Deed::Sleep(POLL_MS),
            Stage::Pressing => Deed::SendKeys(ctrl_v()),
            Stage::Lingering => Deed::Sleep(PASTE_MS),
            Stage::Restoring => Deed::Write(
                match self.previous {
                    Some(previous) => previous,
                    None => Seq::empty(),
                },
            ),
            Stage::Done => Deed::Finish,
            Stage::Failed => Deed::Fail(self.error),
        }
    }

    /// The injection after that. The clipboard must open and take the text; that
    /// its text cannot be read, or cannot be put back, does not matter.
    pub open spec fn after(self, answer: Answer) -> Paste {
        match (self.stage, answer) {
            (Stage::Opening, Answer::Failed(error)) => Paste {
                stage: Stage::Failed,
                error,
                ..self
            },
            (Stage::Opening, _) => Paste { stage: Stage::Reading, ..self },
            (Stage::Reading, Answer::Text(previous)) => Paste {
                stage: Stage::Writing,
                previous,
                ..self
            },
            (Stage::Reading, _) => Paste { stage: Stage::Writing, previous: None, ..self },
            (Stage::Writing, Answer::Failed(error)) => Paste {
                stage: Stage::Failed,
                error,
                ..self
            },
            (Stage::Writing, _) => Paste { stage: Stage::Settling, ..self },
            (Stage::Settling, _) => Paste { stage: Stage::Polling { polls: 0 }, ..self },
            (Stage::Polling { polls }, Answer::Keys(states)) => Paste {
                stage: if any_down(states) {
                    Stage::Waiting { polls }
                } else {
                    Stage::Pressing
                },
                ..self
            },
            (Stage::Polling { .. }, _) => Paste { stage: Stage::Pressing, ..self },
            (Stage::Waiting { polls }, _) => Paste {
                stage: if polls + 1 < MAX_POLLS {
                    Stage::Polling { polls: (polls + 1) as u32 }
                } else {
                    Stage::Pressing
                },
                ..self
            },
            (Stage::Pressing, _) => Paste { stage: Stage::Lingering, ..self },
            (Stage::Lingering, _) => Paste {
                stage: if self.previous is Some {
                    Stage::Restoring
                } else {
                    Stage::Done
                },
                ..self
            },
            (Stage::Restoring, _) => Paste { stage: Stage::Done, ..self },
            (Stage::Done, _) => self,
            (Stage::Failed, _) => self,
        }
    }
}

/// What the caller is to do.
pub enum Action {
    OpenClipboard,
    ReadClipboard,
    WriteClipboard(String),
    /// Wait for so many milliseconds.
    Sleep(u64),
    /// Read the states of these keys.
    ReadKeys(Vec<u16>),
    SendKeys(Vec<KeyEvent>),
    /// The text has been typed.
    Finish,
    /// It cannot be typed.
    Fail(String),
}

impl Action {
    /// What is to be done.
    pub open spec fn deed(self) -> Deed {
        match self {
            Action::OpenClipboard => Deed::Open,
            Action::ReadClipboard => Deed::Read,
            Action::WriteClipboard(text) => Deed::Write(text@),
            Action::Sleep(ms) => Deed::Sleep(ms),
            Action::ReadKeys(keys) => Deed::ReadKeys(keys@),
            Action::SendKeys(events) => Deed::SendKeys(events@),
            Action::Finish => Deed::Finish,
            Action::Fail(error) => Deed::Fail(error@),
        }
    }
}

/// How it went.
pub enum Reply {
    Done,
    Failed(String),
    /// The text on the clipboard, if it could be read.
    Text(Option<String>),
    /// The states of the keys.
    Keys(Vec<i16>),
}

impl Reply {
    /// How it went.
    pub open spec fn answer(self) -> Answer {
        match self {
            Reply::Done => Answer::Done,
            Reply::Failed(error) => Answer::Failed(error@),
            Reply::Text(Some(text)) => Answer::Text(Some(text@)),
            Reply::Text(None) => Answer::Text(None),
            Reply::Keys(states) => Answer::Keys(states@),
        }
    }
}

/// The event of a key that goes up or down.
pub fn key_event(vk: u16, up: bool) -> (r: KeyEvent)
    ensures
        r == KeyEvent::of(vk, up),
{
    KeyEvent {
        vk,
        scan: 0,
        flags: if up {
            KEYEVENTF_KEYUP
        } else {
            0
        },
        time: 0,
        extra: 0,
    }
}

/// The events of Ctrl+V.
pub fn send_ctrl_v() -> (events: Vec<KeyEvent>)
    ensures
        events@ == ctrl_v(),
{
    let events: Vec<KeyEvent> = vec![
        key_event(VK_CONTROL, false),
        key_event(VK_V, false),
        key_event(VK_V, true),
        key_event(VK_CONTROL, true),
    ];
    assert(events@ =~= ctrl_v());
    events
}

/// Whether one of the states says that its key is down.
pub fn is_any_down(states: &[i16]) -> (r: bool)
    ensures
        r == any_down(states@),
{
    let mut i: usize = 0;
    while i < states.len()
        invariant
            i <= states@.len(),
            forall|j: int| 0 <= j < i ==> states@[j] >= 0,
        decreases states@.len() - i,
    {
        if states[i] < 0 {
            assert(states@[i as int] < 0);
            return true;
        }
        i = i + 1;
    }
    false
}

/// An injection in progress.
pub struct Injection {
    text: String,
    previous: Option<String>,
    error: String,
    stage: Stage,
}

/// Begins to type `text` into the focused window.
pub fn inject(text: &str) -> (r: Injection)
    ensures
        r.paste() == Paste::of(text@),
{
    let stage = if text.unicode_len() == 0 {
        Stage::Done
    } else {
        Stage::Opening
    };
    proof {
        reveal_strlit("");
    }
    Injection { text: text.to_owned(), previous: None, error: "".to_owned(), stage }
}

impl Injection {
    /// The injection.
    pub closed spec fn paste(self) -> Paste {
        Paste {
            text: self.text@,
            previous: match self.previous {
                Some(previous) => Some(previous@),
                None => None,
            },
            error: self.error@,
            stage: self.stage,
        }
    }

    /// What is to be done.
    pub fn action(&self) -> (r: Action)
        ensures
            r.deed() == self.paste().deed(),
    {
        match self.stage {
            Stage::Opening => Action::OpenClipboard,
            Stage::Reading => Action::ReadClipboard,
            Stage::Writing => Action::WriteClipboard(self.text.as_str().to_owned()),
            Stage::Settling => Action::Sleep(SETTLE_MS),
            Stage::Polling { .. } => {
                let keys: Vec<u16> = vec![VK_CONTROL, VK_LWIN, VK_RWIN, VK_MENU, VK_SHIFT];
                assert(keys@ =~= modifiers());
                Action::ReadKeys(keys)
            },
            Stage::Waiting { .. } => Action::Sleep(POLL_MS),
            Stage::Pressing => Action::SendKeys(send_ctrl_v()),
            Stage::Lingering => Action::Sleep(PASTE_MS),
            Stage::Restoring => {
                proof {
                    reveal_strlit("");
                    assert(""@ =~= Seq::<char>::empty());
                }
                Action::WriteClipboard(
                    match &self.previous {
                        Some(previous) => previous.as_str().to_owned(),
                        None => "".to_owned(),
                    },
                )
            },
            Stage::Done => Action::Finish,
            Stage::Failed => Action::Fail(self.error.as_str().to_owned()),
        }
    }

    /// The injection after that.
    pub fn next(self, reply: Reply) -> (r: Injection)
        ensures
            r.paste() == self.paste().after(reply.answer()),
    {
        let mut next = self;
        match (next.stage, reply) {
            (Stage::Opening, Reply::Failed(error)) => {
                next.stage = Stage::Failed;
                next.error = error;
            },
            (Stage::Opening, _) => {
                next.stage = Stage::Reading;
            },
            (Stage::Reading, Reply::Text(previous)) => {
                next.stage = Stage::Writing;
                next.previous = previous;
            },
            (Stage::Reading, _) => {
                next.stage = Stage::Writing;
                next.previous = None;
            },
            (Stage::Writing, Reply::Failed(error)) => {
                next.stage = Stage::Failed;
                next.error = error;
            },
            (Stage::Writing, _) => {
                next.stage = Stage::Settling;
            },
            (Stage::Settling, _) => {
                next.stage = Stage::Polling { polls: 0 };
            },
            (Stage::Polling { polls }, Reply::Keys(states)) => {
                next.stage = if is_any_down(states.as_slice()) {
                    Stage::Waiting { polls }
                } else {
                    Stage::Pressing
                };
            },
            (Stage::Polling { .. }, _) => {
                next.stage = Stage::Pressing;
            },
            (Stage::Waiting { polls }, _) => {
                next.stage = if polls < MAX_POLLS - 1 {
                    Stage::Polling { polls: polls + 1 }
                } else {
                    Stage::Pressing
                };
            },
            (Stage::Pressing, _) => {
                next.stage = Stage::Lingering;
            },
            (Stage::Lingering, _) => {
                next.stage = if next.previous.is_some() {
                    Stage::Restoring
                } else {
                    Stage::Done
                };
            },
            (Stage::Restoring, _) => {
                next.stage = Stage::Done;
            },
            (Stage::Done, _) => {},
            (Stage::Failed, _) => {},
        }
        next
    }
}

/// How a step of the caller's goes: whether the clipboard works, and what the
/// states of the keys are.
pub struct Chance {
    pub works: bool,
    pub states: Seq<i16>,
}

/// An injection and what it acts upon.
#[verifier::ext_equal]
pub struct Desk {
    pub paste: Paste,
    /// The text on the clipboard.
    pub clipboard: Option<Seq<char>>,
    /// The texts that were pasted into the focused window.
    pub pasted: Seq<Option<Seq<char>>>,
}

impl Desk {
    /// A desk on which `text` is to be typed.
    pub open spec fn of(text: Seq<char>, clipboard: Option<Seq<char>>) -> Desk {
        Desk { paste: Paste::of(text), clipboard, pasted: Seq::empty() }
    }

    /// The caller does what is to be done, and tells how it went. What works, works
    /// as it should: what is read is what is on the clipboard, what is written is
    /// there then, and Ctrl+V pastes it.
    pub open spec fn after(self, chance: Chance) -> Desk {
        match self.paste.deed() {
            Deed::Open => Desk {
                paste: self.paste.after(
                    if chance.works {
                        Answer::Done
                    } else {
                        Answer::Failed(Seq::empty())
                    },
                ),
                ..self
            },
            Deed::Read => Desk {
                paste: self.paste.after(
                    Answer::Text(
                        if chance.works {
                            self.clipboard
                        } else {
                            None
                        },
                    ),
                ),
                ..self
            },
            Deed::Write(text) => if chance.works {
                Desk { paste: self.paste.after(Answer::Done), clipboard: Some(text), ..self }
            } else {
                Desk { paste: self.paste.after(Answer::Failed(Seq::empty())), ..self }
            },
            Deed::ReadKeys(_) => Desk {
                paste: self.paste.after(Answer::Keys(chance.states)),
                ..self
            },
            Deed::SendKeys(_) => Desk {
                paste: self.paste.after(Answer::Done),
                pasted: self.pasted.push(self.clipboard),
                ..self
            },
            _ => Desk { paste: self.paste.after(Answer::Done), ..self },
        }
    }

    /// The desk after some steps.
    pub open spec fn after_all(self, chances: Seq<Chance>) -> Desk
        decreases chances.len(),
    {
        if chances.len() == 0 {
            self
        } else {
            self.after_all(chances.drop_last()).after(chances.last())
        }
    }

    /// What holds at each stage of typing `text` over `clipboard`.
    spec fn on_course(self, text: Seq<char>, clipboard: Option<Seq<char>>, works: bool) -> bool {
        let once = seq![Some(text)];
        &&& self.paste.text == text
        &&& works ==> self.paste.stage !is Failed
        &&& match self.paste.stage {
            Stage::Opening | Stage::Reading | Stage::Failed => {
                &&& self.clipboard == clipboard
                &&& self.pasted.len() == 0
            },
            Stage::Writing => {
                &&& self.clipboard == clipboard
                &&& self.pasted.len() == 0
                &&& works ==> self.paste.previous == clipboard
            },
            Stage::Settling | Stage::Pressing => {
                &&& self.clipboard == Some(text)
                &&& self.pasted.len() == 0
                &&& works ==> self.paste.previous == clipboard
            },
            Stage::Polling { polls } | Stage::Waiting { polls } => {
                &&& polls < MAX_POLLS
                &&& self.clipboard == Some(text)
                &&& self.pasted.len() == 0
                &&& works ==> self.paste.previous == clipboard
            },
            Stage::Lingering => {
                &&& self.clipboard == Some(text)
                &&& self.pasted == once
                &&& works ==> self.paste.previous == clipboard
            },
            Stage::Restoring => {
                &&& self.clipboard == Some(text)
                &&& self.pasted == once
                &&& self.paste.previous is Some
                &&& works ==> self.paste.previous == clipboard
            },
            Stage::Done => {
                &&& self.pasted == once
                &&& works ==> self.clipboard == if clipboard is Some {
                    clipboard
                } else {
                    Some(text)
                }
            },
        }
    }
}

/// How many steps are left at most.
spec fn steps_left(stage: Stage) -> int {
    match stage {
        Stage::Opening => 107,
        Stage::Reading => 106,
        Stage::Writing => 105,
        Stage::Settling => 104,
        Stage::Polling { polls } => 103 - 2 * polls,
        Stage::Waiting { polls } => 102 - 2 * polls,
        Stage::Pressing => 3,
        Stage::Lingering => 2,
        Stage::Restoring => 1,
        Stage::Done => 0,
        Stage::Failed => 0,
    }
}

proof fn lemma_on_course(text: Seq<char>, clipboard: Option<Seq<char>>, chances: Seq<Chance>)
    requires
        text.len() > 0,
    ensures
        ({
            let works = forall|i: int| 0 <= i < chances.len() ==> (#[trigger] chances[i]).works;
            let desk = Desk::of(text, clipboard).after_all(chances);
            &&& desk.on_course(text, clipboard, works)
            &&& 0 <= steps_left(desk.paste.stage)
            &&& steps_left(desk.paste.stage) == 0 || steps_left(desk.paste.stage) + chances.len()
                <= 107
        }),
    decreases chances.len(),
{
    if chances.len() > 0 {
        let fewer = chances.drop_last();
        lemma_on_course(text, clipboard, fewer);
        if forall|i: int| 0 <= i < chances.len() ==> (#[trigger] chances[i]).works {
            assert forall|i: int| 0 <= i < fewer.len() implies (#[trigger] fewer[i]).works by {
                assert(chances[i].works);
            }
            assert(chances[chances.len() - 1].works);
        }
        let desk = Desk::of(text, clipboard).after_all(fewer);
        if desk.paste.stage is Pressing {
            assert(desk.pasted.push(desk.clipboard) =~= seq![Some(text)]);
        }
    }
}

/// Typing comes to an end: whatever works and whatever keys are held, after 107
/// steps the text has been typed or cannot be.
pub proof fn typing_ends(text: Seq<char>, clipboard: Option<Seq<char>>, chances: Seq<Chance>)
    requires
        chances.len() >= 107,
    ensures
        ({
            let stage = Desk::of(text, clipboard).after_all(chances).paste.stage;
            stage is Done || stage is Failed
        }),
{
    if text.len() > 0 {
        lemma_on_course(text, clipboard, chances);
    } else {
        no_text_does_nothing(text, clipboard, chances);
    }
}

/// The text is pasted once, or not at all: once if typing is done, whatever else
/// fails; not at all if it cannot be typed, and then the clipboard is left as it
/// was.
pub proof fn text_is_pasted_once(
    text: Seq<char>,
    clipboard: Option<Seq<char>>,
    chances: Seq<Chance>,
)
    requires
        text.len() > 0,
    ensures
        ({
            let desk = Desk::of(text, clipboard).after_all(chances);
            &&& desk.paste.stage is Done ==> desk.pasted == seq![Some(text)]
            &&& desk.paste.stage is Failed ==> desk.pasted.len() == 0 && desk.clipboard == clipboard
        }),
{
    lemma_on_course(text, clipboard, chances);
}

/// The clipboard gets back the text it held: where every step works, the text is
/// typed, and the clipboard then holds what it held before. If that was no text,
/// it holds what was typed.
pub proof fn clipboard_is_restored(
    text: Seq<char>,
    clipboard: Option<Seq<char>>,
    chances: Seq<Chance>,
)
    requires
        text.len() > 0,
        chances.len() >= 107,
        forall|i: int| 0 <= i < chances.len() ==> (#[trigger] chances[i]).works,
    ensures
        ({
            let desk = Desk::of(text, clipboard).after_all(chances);
            &&& desk.paste.stage is Done
            &&& desk.pasted == seq![Some(text)]
            &&& desk.clipboard == if clipboard is Some {
                clipboard
            } else {
                Some(text)
            }
        }),
{
    lemma_on_course(text, clipboard, chances);
}

/// No text leaves everything as it is.
pub proof fn no_text_does_nothing(
    text: Seq<char>,
    clipboard: Option<Seq<char>>,
    chances: Seq<Chance>,
)
    requires
        text.len() == 0,
    ensures
        Desk::of(text, clipboard).after_all(chances) == Desk::of(text, clipboard),
    decreases chances.len(),
{
    if chances.len() > 0 {
        no_text_does_nothing(text, clipboard, chances.drop_last());
    }
}

/// Ctrl+V is sent once no modifier is down, or after all the looks at them that
/// there may be.
pub proof fn ctrl_v_waits_for_the_modifiers(paste: Paste, states: Seq<i16>)
    ensures
        paste.stage matches Stage::Polling { .. } ==> (paste.after(Answer::Keys(states)).stage
            is Pressing <==> !any_down(states)),
        paste.stage matches Stage::Waiting { polls } ==> (paste.after(Answer::Done).stage
            is Pressing <==> polls + 1 >= MAX_POLLS),
{
}

/// Each modifier by itself is waited for: if any of the states that were read is
/// negative, at whichever place, Ctrl+V is not sent, but 10 milliseconds are let pass.
/// And if none is, Ctrl+V is sent without a wait.
pub proof fn every_modifier_is_waited_for(paste: Paste, states: Seq<i16>, k: int)
    requires
        paste.stage is Polling,
    ensures
        0 <= k < states.len() && states[k] < 0 ==> {
            let next = paste.after(Answer::Keys(states));
            next.stage is Waiting && next.deed() == Deed::Sleep(10)
        },
        (forall|i: int| 0 <= i < states.len() ==> #[trigger] states[i] >= 0) ==> {
            let next = paste.after(Answer::Keys(states));
            next.stage is Pressing && next.deed() == Deed::SendKeys(ctrl_v())
        },
{
    if forall|i: int| 0 <= i < states.len() ==> #[trigger] states[i] >= 0 {
        assert(!any_down(states));
    }
}

/// Looks are counted one by one: after each wait but the last of fifty the modifiers are
/// looked at again, with one more look on the count, and a look does not change it.
pub proof fn looks_are_counted_one_by_one(paste: Paste, answer: Answer)
    ensures
        paste.stage matches Stage::Waiting { polls } ==> polls < 49 ==> paste.after(answer).stage
            == (Stage::Polling { polls: (polls + 1) as u32 }),
        paste.stage matches Stage::Polling { polls } ==> paste.after(answer).stage is Pressing
            || paste.after(answer).stage == (Stage::Waiting { polls }),
{
}

/// What is looked at are the states of Ctrl, the left and the right Windows key, Alt and
/// Shift.
pub proof fn all_modifiers_are_looked_at(paste: Paste)
    requires
        paste.stage is Polling,
    ensures
        paste.deed() == Deed::ReadKeys(seq![0x11u16, 0x5b, 0x5c, 0x12, 0x10]),
{
    assert(modifiers() =~= seq![0x11u16, 0x5b, 0x5c, 0x12, 0x10]);
}

/// Ctrl+V is sent in no other case: only after a look at which no modifier was down, or
/// after the wait that follows the last look there may be.
pub proof fn ctrl_v_is_sent_in_no_other_case(paste: Paste, answer: Answer)
    requires
        paste.after(answer).stage is Pressing,
    ensures
        match paste.stage {
            Stage::Polling { .. } => match answer {
                Answer::Keys(states) => forall|i: int|
                    0 <= i < states.len() ==> #[trigger] states[i] >= 0,
                _ => true,
            },
            Stage::Waiting { polls } => polls >= 49,
            _ => false,
        },
{
    match answer {
        Answer::Keys(states) => {
            if exists|i: int| 0 <= i < states.len() && #[trigger] states[i] < 0 {
                assert(any_down(states));
            }
        },
        _ => {},
    }
}

/// The clipboard gets 30 milliseconds to settle before the modifiers are looked at, and
/// the window 150 to paste after Ctrl+V.
pub proof fn pauses_are_kept(paste: Paste, answer: Answer)
    ensures
        paste.stage is Writing && !(answer is Failed) ==> paste.after(answer).deed()
            == Deed::Sleep(30),
        paste.stage is Settling ==> paste.after(answer).stage == (Stage::Polling { polls: 0 }),
        paste.stage is Pressing ==> paste.after(answer).deed() == Deed::Sleep(150),
{
}

/// An error of the clipboard, when it is opened or written to, is what the injection
/// fails with, as it was told.
pub proof fn errors_are_passed_on(paste: Paste, error: Seq<char>)
    requires
        paste.stage is Opening || paste.stage is Writing,
    ensures
        paste.after(Answer::Failed(error)).deed() == Deed::Fail(error),
{
}

/// What is written to the clipboard first is the text, and what is written last is the
/// text that was read from it, each to the last character.
pub proof fn texts_are_written_whole(paste: Paste, previous: Seq<char>)
    ensures
        paste.stage is Reading ==> paste.after(Answer::Text(Some(previous))).deed()
            == Deed::Write(paste.text),
        paste.stage is Reading ==> paste.after(Answer::Text(Some(previous))).previous == Some(
            previous,
        ),
        paste.stage is Lingering && paste.previous == Some(previous) ==> paste.after(
            Answer::Done,
        ).deed() == Deed::Write(previous),
{
}

/// Ctrl+V leaves no key down, and V goes down while Ctrl is.
pub proof fn ctrl_v_releases_its_keys()
    ensures
        down_after(ctrl_v()) == Set::<u16>::empty(),
        down_after(ctrl_v().take(2)) == set![VK_CONTROL, VK_V],
{
    let keys = ctrl_v();
    assert(keys.drop_last() =~= keys.take(3));
    assert(keys.take(3).drop_last() =~= keys.take(2));
    assert(keys.take(2).drop_last() =~= keys.take(1));
    assert(keys.take(1).drop_last() =~= keys.take(0));
    assert(down_after(keys.take(0)) =~= Set::<u16>::empty());
    assert(down_after(keys.take(1)) =~= set![VK_CONTROL]);
    assert(down_after(keys.take(2)) =~= set![VK_CONTROL, VK_V]);
    assert(down_after(keys.take(3)) =~= set![VK_CONTROL]);
    assert(down_after(keys) =~= Set::<u16>::empty());
}

} // verus!
