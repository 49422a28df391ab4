//! The worker: it waits for the keys, opens the microphone, runs a session, and
//! waits again.
//!
//! Microphone, session and tray belong to the caller. A step takes in what
//! happened and says what to do and what the tray is to show.

use vstd::prelude::*;
use vstd::string::*;

use crate::tray::UiEvent;

verus! {

/// What the worker is doing.
#[derive(Clone, Copy, Debug, PartialEq, Eq, Structural)]
pub enum Worker {
    /// Waiting for the keys.
    Waiting,
    /// Opening the microphone.
    Opening,
    /// In a session.
    Listening { handsfree: bool },
    /// Nothing any more.
    Over,
}

/// What happened.
#[derive(Clone, Copy, Debug, PartialEq, Eq, Structural)]
pub enum WorkerEvent {
    /// The keys were pressed.
    Pressed,
    /// No keys can be pressed any more.
    Closed,
    /// The microphone could not be opened or started.
    MicFailed,
    /// The microphone runs. The settings were read when the keys were pressed.
    MicReady { handsfree: bool },
    /// A chunk is about to be processed.
    ChunkStarted,
    /// A chunk has been typed.
    ChunkDone,
    /// A chunk came to nothing: it could not be transcribed or typed, or held no words.
    ChunkFailed,
    /// The session is over, and so is the processing of its chunks.
    SessionOver,
}

/// What to do.
#[derive(Clone, Copy, Debug, PartialEq, Eq, Structural)]
pub enum Command {
    /// Nothing: wait for what happens.
    Wait,
    OpenMic,
    RunSession { handsfree: bool },
    CloseMic,
    Stop,
}

/// What a step leads to.
#[derive(Clone, Copy, Debug, PartialEq, Eq, Structural)]
pub struct Step {
    pub worker: Worker,
    pub command: Command,
    /// What the tray is to show, if that changes.
    pub ui: Option<UiEvent>,
    /// What it is to show after that, if that is a flash.
    pub then_ui: Option<UiEvent>,
}

/// What the tray shows once a failure has been flashed: that the session goes on, or
/// that it is over, as a toggle session has one chunk only.
pub open spec fn shown_after_failure(handsfree: bool) -> UiEvent {
    if handsfree {
        UiEvent::Listening
    } else {
        UiEvent::Idle
    }
}

impl Worker {
    /// What an event leads to.
    pub open spec fn on(self, event: WorkerEvent) -> Step {
        match (self, event) {
            (Worker::Waiting, WorkerEvent::Pressed) => Step {
                worker: Worker::Opening,
                command: Command::OpenMic,
                ui: None,
                then_ui: None,
            },
            (Worker::Waiting, WorkerEvent::Closed) => Step {
                worker: Worker::Over,
                command: Command::Stop,
                ui: None,
                then_ui: None,
            },
            (Worker::Opening, WorkerEvent::MicFailed) => Step {
                worker: Worker::Waiting,
                command: Command::Wait,
                ui: None,
                then_ui: None,
            },
            (Worker::Opening, WorkerEvent::MicReady { handsfree }) => Step {
                worker: Worker::Listening { handsfree },
                command: Command::RunSession { handsfree },
                ui: Some(UiEvent::Listening),
                then_ui: None,
            },
            (Worker::Listening { .. }, WorkerEvent::ChunkStarted) => Step {
                worker: self,
                command: Command::Wait,
                ui: Some(UiEvent::Processing),
                then_ui: None,
            },
            (Worker::Listening { handsfree: true }, WorkerEvent::ChunkDone) => Step {
                worker: self,
                command: Command::Wait,
                ui: Some(UiEvent::Listening),
                then_ui: None,
            },
            (Worker::Listening { handsfree }, WorkerEvent::ChunkFailed) => Step {
                worker: self,
                command: Command::Wait,
                ui: Some(UiEvent::Failed),
                then_ui: Some(shown_after_failure(handsfree)),
            },
            (Worker::Listening { .. }, WorkerEvent::SessionOver) => Step {
                worker: Worker::Waiting,
                command: Command::CloseMic,
                ui: Some(UiEvent::Idle),
                then_ui: None,
            },
            _ => Step { worker: self, command: Command::Wait, ui: None, then_ui: None },
        }
    }

    /// The worker after some events.
    pub open spec fn after_all(self, events: Seq<WorkerEvent>) -> Worker
        decreases events.len(),
    {
        if events.len() == 0 {
            self
        } else {
            self.after_all(events.drop_last()).on(events.last()).worker
        }
    }

    /// What the tray shows after some events: what it was told last, and idle
    /// before.
    pub open spec fn shown(self, events: Seq<WorkerEvent>) -> UiEvent
        decreases events.len(),
    {
        if events.len() == 0 {
            UiEvent::Idle
        } else {
            let step = self.after_all(events.drop_last()).on(events.last());
            match (step.ui, step.then_ui) {
                (_, Some(ui)) => ui,
                (Some(ui), None) => ui,
                (None, None) => self.shown(events.drop_last()),
            }
        }
    }

    /// A worker that waits.
    pub fn new() -> (r: Worker)
        ensures
            r == Worker::Waiting,
    {
        Worker::Waiting
    }

    /// Takes in what happened.
    pub fn step(self, event: WorkerEvent) -> (r: Step)
        ensures
            r == self.on(event),
    {
        let mut r = Step { worker: self, command: Command::Wait, ui: None, then_ui: None };
        match (self, event) {
            (Worker::Waiting, WorkerEvent::Pressed) => {
                r.worker = Worker::Opening;
                r.command = Command::OpenMic;
            },
            (Worker::Waiting, WorkerEvent::Closed) => {
                r.worker = Worker::Over;
                r.command = Command::Stop;
            },
            (Worker::Opening, WorkerEvent::MicFailed) => {
                r.worker = Worker::Waiting;
            },
            (Worker::Opening, WorkerEvent::MicReady { handsfree }) => {
                r.worker = Worker::Listening { handsfree };
                r.command = Command::RunSession { handsfree };
                r.ui = Some(UiEvent::Listening);
            },
            (Worker::Listening { .. }, WorkerEvent::ChunkStarted) => {
                r.ui = Some(UiEvent::Processing);
            },
            (Worker::Listening { handsfree: true }, WorkerEvent::ChunkDone) => {
                r.ui = Some(UiEvent::Listening);
            },
            (Worker::Listening { handsfree }, WorkerEvent::ChunkFailed) => {
                r.ui = Some(UiEvent::Failed);
                r.then_ui = Some(
                    if handsfree {
                        UiEvent::Listening
                    } else {
                        UiEvent::Idle
                    },
                );
            },
            (Worker::Listening { .. }, WorkerEvent::SessionOver) => {
                r.worker = Worker::Waiting;
                r.command = Command::CloseMic;
                r.ui = Some(UiEvent::Idle);
            },
            _ => {},
        }
        r
    }
}

/// Why there is no microphone.
#[derive(Clone, Debug)]
pub enum MicFailure {
    /// There is none.
    NoDevice,
    /// It does not tell its format.
    Config(String),
    /// Its stream cannot be opened.
    Stream(String),
    /// Its stream cannot be started.
    Start(String),
}

impl MicFailure {
    /// What is said of it.
    pub open spec fn text(self) -> Seq<char> {
        match self {
            MicFailure::NoDevice =>
                "no microphone found \u{2014} connect one and press Ctrl+Win again"@,
            MicFailure::Config(error) => "mic config error: "@ + error@
                + " \u{2014} press Ctrl+Win to retry"@,
            MicFailure::Stream(error) => "couldn't open mic stream: "@ + error@
                + " \u{2014} press Ctrl+Win to retry"@,
            MicFailure::Start(error) => "couldn't start mic: "@ + error@
                + " \u{2014} press Ctrl+Win to retry"@,
        }
    }

    /// What is said of it.
    pub fn message(&self) -> (r: String)
        ensures
            r@ == self.text(),
    {
        match self {
            MicFailure::NoDevice =>
                "no microphone found \u{2014} connect one and press Ctrl+Win again".to_owned(),
            MicFailure::Config(error) => retry("mic config error: ", error.as_str()),
            MicFailure::Stream(error) => retry("couldn't open mic stream: ", error.as_str()),
            MicFailure::Start(error) => retry("couldn't start mic: ", error.as_str()),
        }
    }
}

fn retry(what: &str, error: &str) -> (r: String)
    ensures
        r@ == what@ + error@ + " \u{2014} press Ctrl+Win to retry"@,
{
    let mut message = what.to_owned();
    message.append(error);
    message.append(" \u{2014} press Ctrl+Win to retry");
    message
}

/// Outside a session the tray shows that the worker is idle. In a hands-free session
/// it shows that the worker listens, or processes what it heard; in a toggle session
/// it may also show idle, when the recording came to nothing. A flash does not stay.
pub proof fn tray_tells_what_the_worker_does(events: Seq<WorkerEvent>)
    ensures
        ({
            let shown = Worker::Waiting.shown(events);
            match Worker::Waiting.after_all(events) {
                Worker::Listening { handsfree: true } => shown == UiEvent::Listening || shown
                    == UiEvent::Processing,
                Worker::Listening { handsfree: false } => shown != UiEvent::Failed,
                _ => shown == UiEvent::Idle,
            }
        }),
    decreases events.len(),
{
    if events.len() > 0 {
        tray_tells_what_the_worker_does(events.drop_last());
    }
}

/// A chunk that came to nothing is not passed over: the tray flashes red, and then
/// shows idle, or listening if the session goes on. Nothing else flashes.
pub proof fn failures_are_flashed(worker: Worker, event: WorkerEvent)
    ensures
        worker.on(event).ui == Some(UiEvent::Failed) <==> worker is Listening && event
            is ChunkFailed,
        worker.on(event).then_ui is Some <==> worker is Listening && event is ChunkFailed,
        worker == (Worker::Listening { handsfree: false }) && event is ChunkFailed
            ==> worker.on(event).then_ui == Some(UiEvent::Idle),
        worker == (Worker::Listening { handsfree: true }) && event is ChunkFailed
            ==> worker.on(event).then_ui == Some(UiEvent::Listening),
{
}

/// A microphone that fails does not stop the worker: whatever happened before, the
/// next press opens the microphone again.
pub proof fn worker_survives_a_failure(events: Seq<WorkerEvent>)
    requires
        Worker::Waiting.after_all(events) is Opening,
    ensures
        ({
            let failed = Worker::Waiting.after_all(events).on(WorkerEvent::MicFailed);
            &&& failed.worker is Waiting
            &&& failed.ui is None
            &&& failed.worker.on(WorkerEvent::Pressed).command is OpenMic
        }),
{
}

/// The end of a session brings the worker back to where it waits for the keys.
pub proof fn worker_waits_after_a_session(events: Seq<WorkerEvent>)
    requires
        Worker::Waiting.after_all(events) is Listening,
    ensures
        ({
            let over = Worker::Waiting.after_all(events).on(WorkerEvent::SessionOver);
            &&& over.worker is Waiting
            &&& over.command is CloseMic
            &&& over.ui == Some(UiEvent::Idle)
            &&& over.worker.on(WorkerEvent::Pressed).command is OpenMic
        }),
{
}

/// A session is run exactly when the microphone that was asked for runs, in the mode of
/// the settings, and the tray then shows that the worker listens.
pub proof fn sessions_run_when_the_microphone_does(worker: Worker, event: WorkerEvent)
    ensures
        worker.on(event).command is RunSession <==> worker is Opening && event is MicReady,
        worker is Opening && event is MicReady ==> {
            let step = worker.on(event);
            &&& step.command == (Command::RunSession { handsfree: event->handsfree })
            &&& step.worker == (Worker::Listening { handsfree: event->handsfree })
            &&& step.ui == Some(UiEvent::Listening)
        },
        worker.on(event).command is OpenMic <==> worker is Waiting && event is Pressed,
        worker.on(event).command is CloseMic <==> worker is Listening && event is SessionOver,
        worker.on(event).command is Stop <==> worker is Waiting && event is Closed,
{
}

/// What happens out of place changes nothing: keys that are pressed while the microphone
/// is being opened or a session runs, and whatever is told of chunks or sessions that do
/// not run.
pub proof fn stray_events_change_nothing(worker: Worker, event: WorkerEvent)
    requires
        worker is Over || (worker is Waiting && !(event is Pressed) && !(event is Closed)) || (
        worker is Opening && !(event is MicFailed) && !(event is MicReady)) || (worker is Listening
            && (event is Pressed || event is Closed || event is MicFailed || event is MicReady)),
    ensures
        worker.on(event) == (Step { worker, command: Command::Wait, ui: None, then_ui: None }),
{
}

/// A chunk leaves the session running, and the tray shows processing before it and, in a
/// hands-free session, listening after it.
pub proof fn chunks_leave_the_session_running(worker: Worker, event: WorkerEvent)
    requires
        worker is Listening,
        event is ChunkStarted || event is ChunkDone || event is ChunkFailed,
    ensures
        worker.on(event).worker == worker,
        worker.on(event).command is Wait,
        event is ChunkStarted ==> worker.on(event).ui == Some(UiEvent::Processing),
        event is ChunkDone && worker->handsfree ==> worker.on(event).ui == Some(
            UiEvent::Listening,
        ),
        event is ChunkDone && !worker->handsfree ==> worker.on(event).ui is None,
{
}

/// What is said of a microphone that fails holds the error, to the last character.
pub proof fn messages_hold_the_error(failure: MicFailure, error: String)
    requires
        failure == MicFailure::Config(error) || failure == MicFailure::Stream(error) || failure
            == MicFailure::Start(error),
    ensures
        exists|i: int|
            0 <= i <= failure.text().len() - error@.len() && #[trigger] failure.text().subrange(
                i,
                i + error@.len(),
            ) == error@,
{
    let what = match failure {
        MicFailure::NoDevice => Seq::empty(),
        MicFailure::Config(_) => "mic config error: "@,
        MicFailure::Stream(_) => "couldn't open mic stream: "@,
        MicFailure::Start(_) => "couldn't start mic: "@,
    };
    let i = what.len() as int;
    assert(failure.text().subrange(i, i + error@.len()) =~= error@);
}

/// The worker goes on as long as keys can be pressed.
pub proof fn worker_goes_on(events: Seq<WorkerEvent>)
    requires
        forall|i: int| 0 <= i < events.len() ==> #[trigger] events[i] != WorkerEvent::Closed,
    ensures
        Worker::Waiting.after_all(events) !is Over,
    decreases events.len(),
{
    if events.len() > 0 {
        let fewer = events.drop_last();
        assert forall|i: int| 0 <= i < fewer.len() implies #[trigger] fewer[i]
            != WorkerEvent::Closed by {
            assert(events[i] != WorkerEvent::Closed);
        }
        worker_goes_on(fewer);
        assert(events[events.len() - 1] != WorkerEvent::Closed);
    }
}

} // verus!
