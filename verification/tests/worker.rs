use voicetyper::tray::UiEvent;
use voicetyper::worker::{Command, MicFailure, Step, Worker, WorkerEvent};

fn run(events: &[WorkerEvent]) -> (Step, UiEvent) {
    let mut step = Step { worker: Worker::new(), command: Command::Wait, ui: None, then_ui: None };
    let mut shown = UiEvent::Idle;
    for event in events {
        step = step.worker.step(*event);
        if let Some(ui) = step.then_ui.or(step.ui) {
            shown = ui;
        }
    }
    (step, shown)
}

#[test]
fn a_press_opens_the_microphone_and_starts_a_session() {
    let (step, shown) = run(&[WorkerEvent::Pressed]);
    assert_eq!(step.command, Command::OpenMic);
    assert_eq!(shown, UiEvent::Idle);
    for handsfree in [false, true] {
        let (step, shown) = run(&[WorkerEvent::Pressed, WorkerEvent::MicReady { handsfree }]);
        assert_eq!(step.command, Command::RunSession { handsfree });
        assert_eq!(shown, UiEvent::Listening);
    }
}

#[test]
fn a_failed_microphone_leaves_the_worker_waiting() {
    let (step, shown) = run(&[WorkerEvent::Pressed, WorkerEvent::MicFailed]);
    assert_eq!(step.worker, Worker::Waiting);
    assert_eq!(step.command, Command::Wait);
    assert_eq!(shown, UiEvent::Idle);
    let (step, _) = run(&[WorkerEvent::Pressed, WorkerEvent::MicFailed, WorkerEvent::Pressed]);
    assert_eq!(step.command, Command::OpenMic);
}

#[test]
fn chunks_of_a_handsfree_session_flash_the_icon() {
    let start = [WorkerEvent::Pressed, WorkerEvent::MicReady { handsfree: true }];
    let mut events = start.to_vec();
    events.push(WorkerEvent::ChunkStarted);
    assert_eq!(run(&events).1, UiEvent::Processing);
    events.push(WorkerEvent::ChunkDone);
    assert_eq!(run(&events).1, UiEvent::Listening);
    events.push(WorkerEvent::SessionOver);
    let (step, shown) = run(&events);
    assert_eq!(step.command, Command::CloseMic);
    assert_eq!(shown, UiEvent::Idle);
}

#[test]
fn a_toggle_session_shows_processing_to_its_end() {
    let mut events = vec![
        WorkerEvent::Pressed,
        WorkerEvent::MicReady { handsfree: false },
        WorkerEvent::ChunkStarted,
        WorkerEvent::ChunkDone,
    ];
    assert_eq!(run(&events).1, UiEvent::Processing);
    events.push(WorkerEvent::SessionOver);
    assert_eq!(run(&events).1, UiEvent::Idle);
}

#[test]
fn the_worker_stops_when_no_keys_can_be_pressed() {
    let (step, _) = run(&[WorkerEvent::Closed]);
    assert_eq!(step.worker, Worker::Over);
    assert_eq!(step.command, Command::Stop);
    let (step, _) = run(&[WorkerEvent::Closed, WorkerEvent::Pressed]);
    assert_eq!(step.worker, Worker::Over);
}

#[test]
fn the_worker_goes_on_after_many_sessions() {
    let mut events = Vec::new();
    for i in 0..20 {
        events.push(WorkerEvent::Pressed);
        if i % 3 == 0 {
            events.push(WorkerEvent::MicFailed);
        } else {
            events.push(WorkerEvent::MicReady { handsfree: i % 2 == 0 });
            events.push(WorkerEvent::SessionOver);
        }
    }
    assert_eq!(run(&events).0.worker, Worker::Waiting);
}

#[test]
fn each_microphone_failure_has_its_message() {
    assert_eq!(
        MicFailure::NoDevice.message(),
        "no microphone found — connect one and press Ctrl+Win again"
    );
    assert_eq!(
        MicFailure::Config("busy".to_string()).message(),
        "mic config error: busy — press Ctrl+Win to retry"
    );
    assert_eq!(
        MicFailure::Stream("busy".to_string()).message(),
        "couldn't open mic stream: busy — press Ctrl+Win to retry"
    );
    assert_eq!(
        MicFailure::Start("busy".to_string()).message(),
        "couldn't start mic: busy — press Ctrl+Win to retry"
    );
}

#[test]
fn a_failed_chunk_flashes_red_and_then_shows_idle() {
    let events = [
        WorkerEvent::Pressed,
        WorkerEvent::MicReady { handsfree: false },
        WorkerEvent::ChunkStarted,
        WorkerEvent::ChunkFailed,
    ];
    let (step, shown) = run(&events);
    assert_eq!(step.ui, Some(UiEvent::Failed));
    assert_eq!(step.then_ui, Some(UiEvent::Idle));
    assert_eq!(shown, UiEvent::Idle);
    let over = step.worker.step(WorkerEvent::SessionOver);
    assert_eq!(over.ui, Some(UiEvent::Idle));
    assert_eq!(over.worker, Worker::Waiting);
}

#[test]
fn a_failed_chunk_of_a_handsfree_session_flashes_red() {
    let events = [
        WorkerEvent::Pressed,
        WorkerEvent::MicReady { handsfree: true },
        WorkerEvent::ChunkStarted,
        WorkerEvent::ChunkFailed,
    ];
    let (step, _) = run(&events);
    assert_eq!(step.ui, Some(UiEvent::Failed));
    assert_eq!(step.then_ui, Some(UiEvent::Listening));
}

#[test]
fn nothing_flashes_outside_a_session() {
    for worker in [Worker::Waiting, Worker::Opening, Worker::Over] {
        let step = worker.step(WorkerEvent::ChunkFailed);
        assert_eq!((step.ui, step.then_ui), (None, None));
        assert_eq!(step.worker, worker);
    }
}
