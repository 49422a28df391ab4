use voicetyper::config::Language;
use voicetyper::dictation::{
    can_process, chunk_event, chunk_started, deliver, delivery_event, detects_speech,
    poll_toggle_session, process_chunk, Backlog, Chunk, Delivery, HandsfreeSession, Tick,
};
use voicetyper::tray::UiEvent;
use voicetyper::worker::{Worker, WorkerEvent};

const LOUD: f32 = 0.25;
const QUIET: f32 = 0.001;

fn block(level: f32, len: usize) -> Vec<u32> {
    vec![level.to_bits(); len]
}

fn floats(samples: &[u32]) -> Vec<f32> {
    samples.iter().map(|b| f32::from_bits(*b)).collect()
}

/// The session after a tick that does not end it, and the chunk that was cut.
fn tick(session: HandsfreeSession, samples: Vec<u32>) -> (HandsfreeSession, Option<Vec<u32>>) {
    match session.tick(samples) {
        Tick::GoesOn { session, chunk } => (session, chunk),
        Tick::TimedOut => panic!("timed out"),
    }
}

struct Values(u64);

impl Values {
    fn next(&mut self) -> u32 {
        self.0 = self.0.wrapping_mul(6364136223846793005).wrapping_add(1442695040888963407);
        (self.0 >> 32) as u32
    }
}

#[test]
fn speech_is_above_the_level() {
    assert!(!detects_speech(&[]));
    assert!(!detects_speech(&block(0.0, 100)));
    assert!(!detects_speech(&block(QUIET, 100)));
    assert!(detects_speech(&block(0.02, 100)));
    assert!(!detects_speech(&block(0.012, 1)));
    assert!(!detects_speech(&block(0.01199, 4)));
    assert!(detects_speech(&block(0.01201, 4)));
    assert!(!detects_speech(&block(f32::NAN, 4)));
    assert!(detects_speech(&block(f32::INFINITY, 4)));
}

#[test]
fn a_pause_ends_a_phrase() {
    let mut session = HandsfreeSession::new(16_000, 1, 1_500);
    let mut heard = 0;
    for _ in 0..3 {
        let (next, chunk) = tick(session, block(LOUD, 1_600));
        session = next;
        heard += 1_600;
        assert!(chunk.is_none());
    }
    for quiet in 1..=14 {
        let (next, chunk) = tick(session, block(QUIET, 1_600));
        session = next;
        heard += 1_600;
        assert!(chunk.is_none(), "after {quiet} quiet ticks");
    }
    let (session, chunk) = tick(session, block(QUIET, 1_600));
    heard += 1_600;
    assert_eq!(chunk.expect("a chunk").len(), heard);
    assert!(session.toggle().is_none());
}

#[test]
fn the_pause_is_moved_into_its_range() {
    for (gap, ticks) in [(0u64, 5usize), (500, 5), (550, 6), (5_000, 50), (60_000, 50)] {
        let session = HandsfreeSession::new(16_000, 1, gap);
        let (mut session, _) = tick(session, block(LOUD, 10));
        let mut quiet = 0;
        loop {
            let (next, chunk) = tick(session, block(QUIET, 10));
            session = next;
            quiet += 1;
            if chunk.is_some() {
                break;
            }
        }
        assert_eq!(quiet, ticks, "for a pause of {gap} ms");
    }
}

#[test]
fn a_session_times_out_after_a_hundred_quiet_ticks() {
    let mut session = HandsfreeSession::new(48_000, 2, 1_500);
    for _ in 0..99 {
        let (next, chunk) = tick(session, block(0.0, 9_600));
        session = next;
        assert!(chunk.is_none());
    }
    assert!(matches!(session.tick(block(0.0, 9_600)), Tick::TimedOut));
}

#[test]
fn a_tick_without_audio_is_quiet() {
    let mut session = HandsfreeSession::new(48_000, 1, 1_500);
    for _ in 0..99 {
        session = tick(session, Vec::new()).0;
    }
    assert!(matches!(session.tick(Vec::new()), Tick::TimedOut));
}

#[test]
fn speech_puts_off_the_timeout() {
    let mut session = HandsfreeSession::new(16_000, 1, 500);
    for _ in 0..99 {
        session = tick(session, block(QUIET, 4)).0;
    }
    session = tick(session, block(LOUD, 4)).0;
    let mut chunks = 0;
    for _ in 0..99 {
        let (next, chunk) = tick(session, block(QUIET, 4));
        session = next;
        chunks += chunk.is_some() as usize;
    }
    assert_eq!(chunks, 1);
    assert!(matches!(session.tick(block(QUIET, 4)), Tick::TimedOut));
}

#[test]
fn a_phrase_begins_with_a_quarter_of_a_second_from_before() {
    let mut session = HandsfreeSession::new(16_000, 1, 1_500);
    for i in 0..10 {
        session = tick(session, block(QUIET + i as f32 * 1e-6, 1_600)).0;
    }
    let (session, _) = tick(session, block(LOUD, 1_600));
    let phrase = floats(&session.toggle().expect("a phrase"));
    assert_eq!(phrase.len(), 4_000 + 1_600);
    assert_eq!(phrase[0], QUIET + 7.0 * 1e-6);
    assert_eq!(phrase[800], QUIET + 8.0 * 1e-6);
    assert_eq!(phrase[4_000], LOUD);
}

#[test]
fn stopping_hands_over_the_open_phrase() {
    let session = HandsfreeSession::new(16_000, 1, 1_500);
    assert!(session.toggle().is_none());
    let (session, _) = tick(HandsfreeSession::new(16_000, 1, 1_500), block(QUIET, 10));
    let (session, _) = tick(session, block(LOUD, 20));
    let (session, _) = tick(session, block(QUIET, 30));
    assert_eq!(session.toggle().expect("a phrase").len(), 60);
}

/// Compares a session with a plain model of it in floating point.
#[test]
fn sessions_cut_what_a_plain_model_cuts() {
    let mut values = Values(21);
    for round in 0..200u32 {
        let (in_rate, channels) = [(16_000u32, 1u16), (44_100, 2), (8_000, 1), (11, 3)]
            [round as usize % 4];
        let gap = 500 + u64::from(values.next() % 4_500);
        let cap = (0.25f32 * in_rate as f32 * channels as f32) as usize;
        let mut model_pre: Vec<u32> = Vec::new();
        let mut model_seg: Vec<u32> = Vec::new();
        let mut speech = false;
        let mut silence = 0u64;
        let mut session = HandsfreeSession::new(in_rate, channels, gap);
        let mut everything: Vec<u32> = Vec::new();
        let mut cut_at = 0usize;
        for _ in 0..400 {
            let loud = values.next() % 12 == 0;
            let len = (values.next() % 3_000) as usize;
            let base = if loud { LOUD } else { QUIET };
            let new: Vec<u32> =
                (0..len).map(|i| (base + (i % 7) as f32 * 1e-5).to_bits()).collect();
            everything.extend_from_slice(&new);
            if !new.is_empty() && loud {
                if !speech {
                    model_seg.append(&mut model_pre);
                }
                speech = true;
                silence = 0;
                model_seg.extend_from_slice(&new);
            } else {
                silence += 100;
                if speech {
                    model_seg.extend_from_slice(&new);
                } else {
                    model_pre.extend_from_slice(&new);
                    if model_pre.len() > cap {
                        model_pre.drain(..model_pre.len() - cap);
                    }
                }
            }
            let mut expected = None;
            if speech && silence >= gap {
                expected = Some(std::mem::take(&mut model_seg));
                speech = false;
            }
            match session.tick(new) {
                Tick::GoesOn { session: next, chunk } => {
                    session = next;
                    assert_eq!(chunk, expected);
                    assert!(silence < 10_000);
                    if let Some(chunk) = chunk {
                        // A stretch that ends here and begins after the last cut.
                        assert!(everything.ends_with(&chunk));
                        assert!(chunk.len() <= everything.len() - cut_at);
                        cut_at = everything.len();
                    }
                }
                Tick::TimedOut => {
                    assert!(silence >= 10_000);
                    assert_eq!(expected, None);
                    session = HandsfreeSession::new(in_rate, channels, gap);
                    model_pre.clear();
                    everything.clear();
                    cut_at = 0;
                    silence = 0;
                }
            }
        }
        assert_eq!(session.toggle(), if speech { Some(model_seg) } else { None });
    }
}

#[test]
fn every_loud_tick_ends_up_in_a_chunk() {
    let mut values = Values(33);
    let mut session = HandsfreeSession::new(16_000, 1, 500);
    let mut said: Vec<u32> = Vec::new();
    let mut cut: Vec<u32> = Vec::new();
    for i in 0..500u32 {
        let loud = values.next() % 9 == 0;
        let level = if loud { LOUD + i as f32 * 1e-4 } else { QUIET };
        if loud {
            said.push(level.to_bits());
        }
        let (next, chunk) = tick(session, block(level, 700));
        session = next;
        cut.extend(chunk.unwrap_or_default());
    }
    cut.extend(session.toggle().unwrap_or_default());
    for level in said {
        assert_eq!(cut.iter().filter(|s| **s == level).count(), 700);
    }
}

#[test]
fn a_toggle_session_hands_over_the_whole_recording() {
    let mut buffer = vec![1, 2, 3];
    assert_eq!(poll_toggle_session(false, &mut buffer), None);
    assert_eq!(buffer, vec![1, 2, 3]);
    assert_eq!(poll_toggle_session(true, &mut buffer), Some(vec![1, 2, 3]));
    assert!(buffer.is_empty());
}

fn key() -> Option<String> {
    Some("gsk_test".to_string())
}

#[test]
fn a_short_recording_is_dropped() {
    let model = "whisper-large-v3-turbo";
    let short = block(LOUD, 4_799);
    let r = process_chunk(&short, 16_000, 1, &key(), model, Language::English);
    assert!(matches!(r, Chunk::TooShort));
    let r = process_chunk(&short, 16_000, 1, &None, model, Language::English);
    assert!(matches!(r, Chunk::TooShort));
    let enough = block(LOUD, 4_801);
    let r = process_chunk(&enough, 16_000, 1, &key(), model, Language::English);
    assert!(matches!(r, Chunk::Upload(_)));
    let r = process_chunk(&[], 48_000, 2, &key(), model, Language::English);
    assert!(matches!(r, Chunk::TooShort));
}

#[test]
fn what_is_too_short_is_decided_in_single_precision() {
    for (rate, channels) in [(16_000u32, 1u16), (48_000, 2), (44_100, 1), (22_050, 3), (8_000, 1)] {
        let edge = (0.3 * f64::from(rate) * f64::from(channels)) as usize;
        for len in edge - 3..edge + 4 {
            let secs = len as f32 / (rate as f32 * channels as f32);
            let r = process_chunk(&block(0.0, len), rate, channels, &None, "m", Language::English);
            assert_eq!(matches!(r, Chunk::TooShort), secs < 0.3, "{len} at {rate}");
            assert_eq!(matches!(r, Chunk::NoKey), secs >= 0.3);
        }
    }
}

#[test]
fn nothing_is_uploaded_without_a_key() {
    let r = process_chunk(&block(LOUD, 16_000), 16_000, 1, &None, "m", Language::English);
    assert!(matches!(r, Chunk::NoKey));
}

#[test]
fn a_recording_without_channels_is_not_too_short() {
    let r = process_chunk(&block(LOUD, 8), 16_000, 0, &key(), "m", Language::English);
    assert!(matches!(r, Chunk::Upload(_)));
}

#[test]
fn an_upload_holds_the_recording_in_mono_at_16_khz() {
    // Stereo at 48 kHz, half on the left and nothing on the right.
    let mut stereo: Vec<u32> = Vec::new();
    for _ in 0..48_000 {
        stereo.push(0.5f32.to_bits());
        stereo.push(0.0f32.to_bits());
    }
    match process_chunk(&stereo, 48_000, 2, &key(), "m", Language::Vietnamese) {
        Chunk::Upload(request) => {
            assert_eq!(request.bearer, "gsk_test");
            assert_eq!(request.audio.len(), 44 + 2 * 16_000);
            let reader = hound::WavReader::new(std::io::Cursor::new(request.audio)).unwrap();
            let samples: Vec<i16> = reader.into_samples::<i16>().map(|s| s.unwrap()).collect();
            assert_eq!(samples, vec![8_191i16; 16_000]);
            assert_eq!(request.fields[0], ("model".to_string(), "m".to_string()));
            assert_eq!(request.fields[2], ("language".to_string(), "vi".to_string()));
        }
        _ => panic!("no upload"),
    }
}

#[test]
fn what_can_be_processed() {
    assert!(can_process(0, 0, 0, true));
    assert!(!can_process(1_000, 0, 1, true));
    assert!(can_process(1_000, 0, 1, false));
    assert!(can_process(10, 48_000, 2, true));
    assert!(can_process(0xff_ffff, 16_000, 1, true));
    assert!(can_process(5_000_000, 44_100, 1, true));
    assert!(!can_process(3_000_000_000, 16_000, 1, true));
}

#[test]
fn a_transcript_is_typed_with_a_space_behind_it() {
    match deliver(Ok("Xin chào.".to_string())) {
        Delivery::Inject(typed) => assert_eq!(typed, "Xin chào. "),
        _ => panic!("not typed"),
    }
}

#[test]
fn an_empty_transcript_is_skipped() {
    assert!(matches!(deliver(Ok(String::new())), Delivery::Empty));
    assert!(matches!(deliver(Ok(" \n\t\u{3000}".to_string())), Delivery::Empty));
}

#[test]
fn a_failure_is_reported() {
    match deliver(Err("Groq API 401 Unauthorized: no".to_string())) {
        Delivery::Failed(message) => assert_eq!(message, "Groq API 401 Unauthorized: no"),
        _ => panic!("not reported"),
    }
}

#[test]
fn a_backlog_of_six_is_worth_a_warning() {
    let mut backlog = Backlog::new();
    for _ in 0..5 {
        assert!(!backlog.enqueue_chunk());
    }
    assert!(backlog.enqueue_chunk());
    assert_eq!(backlog.depth, 6);
    backlog.chunk_done();
    backlog.chunk_done();
    assert_eq!(backlog.depth, 4);
    assert!(!backlog.enqueue_chunk());
}

#[test]
fn a_short_toggle_recording_goes_straight_to_idle() {
    let mut buffer = block(0.5, 100);
    let all = poll_toggle_session(true, &mut buffer).expect("a recording");
    let chunk = process_chunk(&all, 16_000, 1, &key(), "m", Language::English);
    assert!(matches!(chunk, Chunk::TooShort));
    assert_eq!(chunk_started(all.len(), 16_000, 1, false), None);
    let session = Worker::Listening { handsfree: false };
    let event = chunk_event(&chunk).expect("an event");
    assert_eq!(session.step(event).ui, None);
    assert_eq!(session.step(WorkerEvent::SessionOver).ui, Some(UiEvent::Idle));
}

#[test]
fn a_short_chunk_of_a_handsfree_session_shows_amber_and_then_listening() {
    let samples = block(LOUD, 100);
    let session = Worker::Listening { handsfree: true };
    let event = chunk_started(samples.len(), 16_000, 1, true).expect("an event");
    assert_eq!(session.step(event).ui, Some(UiEvent::Processing));
    let chunk = process_chunk(&samples, 16_000, 1, &key(), "m", Language::English);
    assert!(matches!(chunk, Chunk::TooShort));
    let event = chunk_event(&chunk).expect("an event");
    assert_eq!(session.step(event).ui, Some(UiEvent::Listening));
}

#[test]
fn processing_is_shown_before_a_missing_key_is_flashed() {
    let samples = block(LOUD, 16_000);
    for handsfree in [false, true] {
        let session = Worker::Listening { handsfree };
        let event = chunk_started(samples.len(), 16_000, 1, handsfree).expect("an event");
        assert_eq!(event, WorkerEvent::ChunkStarted);
        assert_eq!(session.step(event).ui, Some(UiEvent::Processing));
        let chunk = process_chunk(&samples, 16_000, 1, &None, "m", Language::English);
        assert!(matches!(chunk, Chunk::NoKey));
        let event = chunk_event(&chunk).expect("an event");
        assert_eq!(event, WorkerEvent::ChunkFailed);
        assert_eq!(session.step(event).ui, Some(UiEvent::Failed));
    }
}

#[test]
fn nothing_is_told_of_an_upload_before_its_answer() {
    let samples = block(LOUD, 16_000);
    let upload = process_chunk(&samples, 16_000, 1, &key(), "m", Language::English);
    assert_eq!(chunk_event(&upload), None);
}

#[test]
fn every_chunk_holds_a_loud_tick_after_at_most_the_kept_samples() {
    let mut values = Values(41);
    let cap = 4_000;
    let mut session = HandsfreeSession::new(16_000, 1, 500);
    let mut chunks: Vec<Vec<u32>> = Vec::new();
    for _ in 0..600 {
        let level = if values.next() % 11 == 0 { LOUD } else { QUIET };
        let len = 1 + (values.next() % 2_000) as usize;
        match session.tick(block(level, len)) {
            Tick::GoesOn { session: next, chunk } => {
                session = next;
                chunks.extend(chunk);
            }
            Tick::TimedOut => session = HandsfreeSession::new(16_000, 1, 500),
        }
    }
    chunks.extend(session.toggle());
    assert!(chunks.len() > 10);
    for chunk in chunks {
        let before = chunk.iter().position(|s| *s == LOUD.to_bits()).expect("speech");
        assert!(before <= cap);
    }
}

#[test]
fn a_failure_or_an_empty_transcript_flashes_red() {
    for answer in [Err("no network".to_string()), Ok(" ".to_string()), Ok(String::new())] {
        let delivery = deliver(answer);
        assert!(!matches!(delivery, Delivery::Inject(_)));
        let event = delivery_event(&delivery, true);
        assert_eq!(event, WorkerEvent::ChunkFailed);
        let step = Worker::Listening { handsfree: false }.step(event);
        assert_eq!((step.ui, step.then_ui), (Some(UiEvent::Failed), Some(UiEvent::Idle)));
    }
    let delivery = deliver(Ok("hello".to_string()));
    assert_eq!(delivery_event(&delivery, true), WorkerEvent::ChunkDone);
    assert_eq!(delivery_event(&delivery, false), WorkerEvent::ChunkFailed);
}

#[test]
fn the_chunk_of_a_stopped_session_begins_after_the_last_cut() {
    let mut session = HandsfreeSession::new(16_000, 1, 500);
    session = tick(session, block(LOUD, 1_600)).0;
    for i in 0..5 {
        let (next, chunk) = tick(session, block(QUIET, 1_600));
        session = next;
        assert_eq!(chunk.is_some(), i == 4);
    }
    session = tick(session, block(2.0 * QUIET, 1_000)).0;
    session = tick(session, block(LOUD, 1_600)).0;
    let last = floats(&session.toggle().expect("a phrase"));
    assert_eq!(last.len(), 2_600);
    assert_eq!(last[0], 2.0 * QUIET);
    assert_eq!(last[1_000], LOUD);
}
