use voicetyper::inject::{
    inject, is_any_down, key_event, send_ctrl_v, Action, Injection, KeyEvent, Reply,
};

/// A clipboard and a window, and what is wrong with them.
struct Desk {
    clipboard: Option<String>,
    pasted: Vec<String>,
    slept: u64,
    polls: usize,
    /// So many looks at the keys find Ctrl down.
    held: usize,
    opens: bool,
    reads: bool,
    writes: bool,
    restores: bool,
}

impl Desk {
    fn new(clipboard: Option<&str>) -> Desk {
        Desk {
            clipboard: clipboard.map(|s| s.to_string()),
            pasted: Vec::new(),
            slept: 0,
            polls: 0,
            held: 0,
            opens: true,
            reads: true,
            writes: true,
            restores: true,
        }
    }

    fn run(&mut self, text: &str) -> Result<usize, String> {
        let mut injection: Injection = inject(text);
        let mut steps = 0;
        let mut written = false;
        loop {
            let reply = match injection.action() {
                Action::OpenClipboard => self.outcome(self.opens),
                Action::ReadClipboard => {
                    Reply::Text(if self.reads { self.clipboard.clone() } else { None })
                }
                Action::WriteClipboard(text) => {
                    let works = if written { self.restores } else { self.writes };
                    if works {
                        self.clipboard = Some(text);
                    }
                    written = true;
                    self.outcome(works)
                }
                Action::Sleep(ms) => {
                    self.slept += ms;
                    Reply::Done
                }
                Action::ReadKeys(keys) => {
                    assert_eq!(keys, vec![0x11, 0x5b, 0x5c, 0x12, 0x10]);
                    self.polls += 1;
                    let down = self.polls <= self.held;
                    Reply::Keys(vec![if down { -32_768 } else { 1 }, 0, 0, 0, 0])
                }
                Action::SendKeys(events) => {
                    assert_eq!(events, send_ctrl_v());
                    self.pasted.push(self.clipboard.clone().expect("text to paste"));
                    Reply::Done
                }
                Action::Finish => return Ok(steps),
                Action::Fail(error) => return Err(error),
            };
            injection = injection.next(reply);
            steps += 1;
        }
    }

    fn outcome(&self, works: bool) -> Reply {
        if works {
            Reply::Done
        } else {
            Reply::Failed("the clipboard is busy".to_string())
        }
    }
}

#[test]
fn the_text_is_pasted_and_the_clipboard_restored() {
    let mut desk = Desk::new(Some("copied before"));
    assert_eq!(desk.run("hello "), Ok(8));
    assert_eq!(desk.pasted, vec!["hello "]);
    assert_eq!(desk.clipboard.as_deref(), Some("copied before"));
    assert_eq!(desk.slept, 30 + 150);
    assert_eq!(desk.polls, 1);
}

#[test]
fn no_text_touches_nothing() {
    let mut desk = Desk::new(Some("copied before"));
    desk.opens = false;
    assert_eq!(desk.run(""), Ok(0));
    assert!(desk.pasted.is_empty());
    assert_eq!(desk.slept, 0);
}

#[test]
fn a_clipboard_without_text_keeps_what_was_typed() {
    let mut desk = Desk::new(None);
    assert_eq!(desk.run("hello "), Ok(7));
    assert_eq!(desk.clipboard.as_deref(), Some("hello "));
}

#[test]
fn a_clipboard_that_does_not_open_is_an_error() {
    let mut desk = Desk::new(Some("copied before"));
    desk.opens = false;
    assert_eq!(desk.run("hello "), Err("the clipboard is busy".to_string()));
    assert!(desk.pasted.is_empty());
    assert_eq!(desk.clipboard.as_deref(), Some("copied before"));
}

#[test]
fn a_clipboard_that_takes_no_text_is_an_error() {
    let mut desk = Desk::new(Some("copied before"));
    desk.writes = false;
    assert_eq!(desk.run("hello "), Err("the clipboard is busy".to_string()));
    assert!(desk.pasted.is_empty());
    assert_eq!(desk.clipboard.as_deref(), Some("copied before"));
}

#[test]
fn a_clipboard_that_cannot_be_read_or_restored_is_no_error() {
    let mut desk = Desk::new(Some("copied before"));
    desk.reads = false;
    assert!(desk.run("hello ").is_ok());
    assert_eq!(desk.pasted, vec!["hello "]);
    let mut desk = Desk::new(Some("copied before"));
    desk.restores = false;
    assert!(desk.run("hello ").is_ok());
    assert_eq!(desk.clipboard.as_deref(), Some("hello "));
}

#[test]
fn a_held_modifier_is_waited_for() {
    let mut desk = Desk::new(None);
    desk.held = 3;
    assert!(desk.run("hello ").is_ok());
    assert_eq!(desk.polls, 4);
    assert_eq!(desk.slept, 30 + 3 * 10 + 150);
}

#[test]
fn a_modifier_that_stays_down_is_waited_for_half_a_second() {
    let mut desk = Desk::new(Some("copied before"));
    desk.held = usize::MAX;
    assert_eq!(desk.run("hello "), Ok(107));
    assert_eq!(desk.polls, 50);
    assert_eq!(desk.slept, 30 + 50 * 10 + 150);
    assert_eq!(desk.pasted, vec!["hello "]);
}

#[test]
fn the_highest_bit_of_a_state_says_that_a_key_is_down() {
    assert!(!is_any_down(&[]));
    assert!(!is_any_down(&[0, 1, 0x7fff]));
    assert!(is_any_down(&[0, 0, -1]));
    assert!(is_any_down(&[i16::MIN, 0]));
}

#[test]
fn ctrl_v_goes_down_and_up_again() {
    let down = |vk| KeyEvent { vk, scan: 0, flags: 0, time: 0, extra: 0 };
    let up = |vk| KeyEvent { vk, scan: 0, flags: 2, time: 0, extra: 0 };
    assert_eq!(send_ctrl_v(), vec![down(0x11), down(0x56), up(0x56), up(0x11)]);
    assert_eq!(key_event(0x56, true), up(0x56));
}
