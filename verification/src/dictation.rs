//! Dictation sessions: where the microphone's stream is cut into chunks, what a
//! chunk is turned into, and what becomes of its transcript.

use vstd::arithmetic::power2::*;
use vstd::prelude::*;
use vstd::string::*;

use crate::accuracy;
use crate::audio;
use crate::config;
use crate::config::Language;
use crate::resampling;
use crate::sample;
use crate::sample::Real;
use crate::single;
use crate::single::Single;
use crate::text;
use crate::transcribe;
use crate::transcribe::TranscriptionRequest;
use crate::tray;
use crate::wav;
use crate::worker;
use crate::worker::{Worker, WorkerEvent};

verus! {

/// Silence that ends the whole session, in milliseconds.
pub const SESSION_GAP_MS: u64 = 10_000;

/// How often a session looks at the audio, in milliseconds.
pub const TICK_MS: u64 = 100;

/// A backlog of more chunks than this is worth a warning.
pub const QUEUE_WARN: usize = 5;

/// The loudness that speech is above: 0.012, in single precision.
pub open spec fn speech_level() -> nat {
    12_884_902 * pow2(119)
}

/// The length that a chunk must have: 0.3 seconds, in single precision.
pub open spec fn shortest_chunk() -> nat {
    10_066_330 * pow2(124)
}

/// A block of samples counts as speech.
pub open spec fn is_speech(block: Seq<u32>) -> bool {
    block.len() > 0 && sample::above(sample::loudness(sample::numbers(block)), speech_level())
}

/// How many samples are kept from before speech: a quarter of a second, in
/// single precision.
pub open spec fn preroll_capacity(in_rate: u32, channels: u16) -> nat {
    audio::as_index(
        single::product(
            single::product(pow2(147), single::of_whole(in_rate as nat)),
            single::of_whole(channels as nat),
        ),
    )
}

/// A hands-free session.
pub struct Session {
    /// How many samples are kept from before speech.
    pub preroll_cap: nat,
    /// The pause that ends a phrase, in milliseconds.
    pub chunk_gap: nat,
    /// The last samples from before speech.
    pub preroll: Seq<u32>,
    /// The phrase so far.
    pub segment: Seq<u32>,
    /// A phrase has begun.
    pub had_speech: bool,
    /// Milliseconds since the last speech, or since the session began.
    pub silence: nat,
}

/// The last `n` samples of `s`.
pub open spec fn last_of(s: Seq<u32>, n: nat) -> Seq<u32> {
    if s.len() > n {
        s.skip(s.len() - n)
    } else {
        s
    }
}

impl Session {
    /// A session that has heard nothing.
    pub open spec fn fresh(preroll_cap: nat, chunk_gap: nat) -> Session {
        Session {
            preroll_cap,
            chunk_gap,
            preroll: Seq::empty(),
            segment: Seq::empty(),
            had_speech: false,
            silence: 0,
        }
    }

    /// What holds of a session after every tick. Before speech there is no phrase
    /// and the samples kept are no more than allowed; in a phrase nothing is kept
    /// beside it, and no pause has ended it.
    pub open spec fn sound(self) -> bool {
        &&& config::MIN_SILENCE_MS <= self.chunk_gap <= config::MAX_SILENCE_MS
        &&& self.preroll.len() <= self.preroll_cap
        &&& self.had_speech ==> self.preroll.len() == 0 && self.silence < self.chunk_gap
        &&& !self.had_speech ==> self.segment.len() == 0
    }

    /// What holds of every session that goes on.
    pub open spec fn wf(self) -> bool {
        self.sound() && !self.timed_out()
    }

    /// The audio that is held back: the phrase so far, or what is kept from before
    /// speech.
    pub open spec fn pending(self) -> Seq<u32> {
        if self.had_speech {
            self.segment
        } else {
            self.preroll
        }
    }

    /// Takes in the audio of one tick. Speech begins or goes on with a phrase,
    /// which begins with what was kept from before; silence adds to the phrase,
    /// or else to what is kept from before speech.
    pub open spec fn hears(self, block: Seq<u32>) -> Session {
        if is_speech(block) {
            Session {
                preroll: if self.had_speech {
                    self.preroll
                } else {
                    Seq::empty()
                },
                segment: if self.had_speech {
                    self.segment + block
                } else {
                    self.segment + self.preroll + block
                },
                had_speech: true,
                silence: 0,
                ..self
            }
        } else if self.had_speech {
            Session {
                segment: self.segment + block,
                silence: self.silence + TICK_MS as nat,
                ..self
            }
        } else {
            Session {
                preroll: last_of(self.preroll + block, self.preroll_cap),
                silence: self.silence + TICK_MS as nat,
                ..self
            }
        }
    }

    /// The pause is long enough to end the phrase.
    pub open spec fn phrase_ended(self) -> bool {
        self.had_speech && self.silence >= self.chunk_gap
    }

    /// The chunk that is cut after a tick, if one is.
    pub open spec fn chunk(self, block: Seq<u32>) -> Option<Seq<u32>> {
        if self.hears(block).phrase_ended() {
            Some(self.hears(block).segment)
        } else {
            None
        }
    }

    /// The session after a tick.
    pub open spec fn after(self, block: Seq<u32>) -> Session {
        if self.hears(block).phrase_ended() {
            Session { segment: Seq::empty(), had_speech: false, ..self.hears(block) }
        } else {
            self.hears(block)
        }
    }

    /// The chunk that is handed over when the session is stopped: the phrase that had
    /// begun, if one had.
    pub open spec fn last_chunk(self) -> Option<Seq<u32>> {
        if self.had_speech {
            Some(self.segment)
        } else {
            None
        }
    }

    /// The silence has ended the session.
    pub open spec fn timed_out(self) -> bool {
        self.silence >= SESSION_GAP_MS
    }

    /// The session after the ticks of a stream.
    pub open spec fn after_all(self, blocks: Seq<Seq<u32>>) -> Session
        decreases blocks.len(),
    {
        if blocks.len() == 0 {
            self
        } else {
            self.after_all(blocks.drop_last()).after(blocks.last())
        }
    }

    /// The chunk that is cut after tick `i` of a stream, if one is.
    pub open spec fn chunk_at(self, blocks: Seq<Seq<u32>>, i: int) -> Option<Seq<u32>> {
        self.after_all(blocks.take(i)).chunk(blocks[i])
    }

    /// The tick of a stream at which the last phrase began.
    pub open spec fn onset(self, blocks: Seq<Seq<u32>>) -> int
        decreases blocks.len(),
    {
        if blocks.len() == 0 {
            0
        } else if is_speech(blocks.last()) && !self.after_all(blocks.drop_last()).had_speech {
            blocks.len() - 1
        } else {
            self.onset(blocks.drop_last())
        }
    }

    /// Where the chunk that is cut after tick `j` of a stream begins.
    pub open spec fn chunk_start(self, blocks: Seq<Seq<u32>>, j: int) -> int {
        heard(blocks.take(j + 1)).len() - self.chunk_at(blocks, j)->0.len()
    }

    /// How much had been heard at the last cut of a stream: nothing, if there was
    /// none.
    pub open spec fn last_cut(self, blocks: Seq<Seq<u32>>) -> nat
        decreases blocks.len(),
    {
        if blocks.len() == 0 {
            0
        } else if self.chunk_at(blocks, blocks.len() - 1) is Some {
            heard(blocks).len()
        } else {
            self.last_cut(blocks.drop_last())
        }
    }
}

/// Tick `i` is the first one with speech of a piece of a stream that begins at
/// position `start`: it lies in the piece from its beginning on, no tick with speech
/// before it does, and at most `preroll_cap` samples of the piece precede it.
pub open spec fn speech_begins_at(
    blocks: Seq<Seq<u32>>,
    start: int,
    preroll_cap: nat,
    i: int,
) -> bool {
    &&& 0 <= i < blocks.len()
    &&& is_speech(blocks[i])
    &&& start <= heard(blocks.take(i)).len() <= start + preroll_cap
    &&& forall|k: int|
        0 <= k < i && #[trigger] is_speech(blocks[k]) ==> heard(blocks.take(k + 1)).len() <= start
}

/// All that was heard in a stream.
pub open spec fn heard(blocks: Seq<Seq<u32>>) -> Seq<u32>
    decreases blocks.len(),
{
    if blocks.len() == 0 {
        Seq::empty()
    } else {
        heard(blocks.drop_last()) + blocks.last()
    }
}

/// How many ticks a stream ends with that have no speech.
pub open spec fn quiet_ticks(blocks: Seq<Seq<u32>>) -> nat
    decreases blocks.len(),
{
    if blocks.len() == 0 || is_speech(blocks.last()) {
        0
    } else {
        1 + quiet_ticks(blocks.drop_last())
    }
}

/// `piece` is the end of `stream`.
pub open spec fn ends_with(stream: Seq<u32>, piece: Seq<u32>) -> bool {
    piece.len() <= stream.len() && piece == stream.skip(stream.len() - piece.len())
}

/// `piece` is the end of `stream`, and begins no later than position `from`.
pub open spec fn reaches_back(stream: Seq<u32>, piece: Seq<u32>, from: nat) -> bool {
    ends_with(stream, piece) && stream.len() - piece.len() <= from
}

/// A hands-free session in progress.
pub struct HandsfreeSession {
    preroll_cap: usize,
    chunk_gap_ms: u64,
    preroll: Vec<u32>,
    segment: Vec<u32>,
    had_speech: bool,
    silence_ms: u64,
}

/// What a tick leads to.
pub enum Tick {
    /// The session goes on. `chunk` is a phrase that has ended.
    GoesOn { session: HandsfreeSession, chunk: Option<Vec<u32>> },
    /// The session is over.
    TimedOut,
}

/// Whether a block of samples counts as speech.
pub fn detects_speech(block: &[u32]) -> (r: bool)
    ensures
        r == is_speech(block@),
{
    if block.len() == 0 {
        return false;
    }
    let level = Single::from_parts(12_884_902, 119);
    let loudness = Real::from_bits(audio::rms(block));
    loudness.exceeds(level)
}

impl HandsfreeSession {
    #[verifier::type_invariant]
    spec fn inv(self) -> bool {
        self.session().wf()
    }

    /// The session.
    pub closed spec fn session(self) -> Session {
        Session {
            preroll_cap: self.preroll_cap as nat,
            chunk_gap: self.chunk_gap_ms as nat,
            preroll: self.preroll@,
            segment: self.segment@,
            had_speech: self.had_speech,
            silence: self.silence_ms as nat,
        }
    }

    /// Begins a session. The pause that ends a phrase is moved into its range.
    pub fn new(in_rate: u32, channels: u16, chunk_gap_ms: u64) -> (r: HandsfreeSession)
        ensures
            r.session() == Session::fresh(
                preroll_capacity(in_rate, channels),
                config::clamped(chunk_gap_ms as int) as nat,
            ),
            r.session().wf(),
    {
        let quarter = Single::from_parts(0x80_0000, 124);
        proof {
            lemma2_to64();
            lemma_pow2_adds(23, 124);
            lemma_capacity(in_rate, channels);
        }
        let rate = Single::from_whole(in_rate as u64);
        let samples = quarter.times(rate).times(Single::from_whole(channels as u64));
        HandsfreeSession {
            preroll_cap: audio::to_index(samples),
            chunk_gap_ms: config::clamp_silence(chunk_gap_ms),
            preroll: Vec::new(),
            segment: Vec::new(),
            had_speech: false,
            silence_ms: 0,
        }
    }

    /// Ends the session: the phrase that had begun, if one had, is the last chunk.
    pub fn toggle(self) -> (chunk: Option<Vec<u32>>)
        ensures
            match chunk {
                Some(piece) => self.session().last_chunk() == Some(piece@),
                None => self.session().last_chunk() is None,
            },
    {
        if self.had_speech {
            Some(self.segment)
        } else {
            None
        }
    }

    /// Takes in the audio of one tick.
    pub fn tick(self, block: Vec<u32>) -> (r: Tick)
        ensures
            match r {
                Tick::GoesOn { session, chunk } => {
                    &&& session.session() == self.session().after(block@)
                    &&& !session.session().timed_out()
                    &&& session.session().wf()
                    &&& match chunk {
                        Some(piece) => self.session().chunk(block@) == Some(piece@),
                        None => self.session().chunk(block@) is None,
                    }
                },
                Tick::TimedOut => {
                    &&& self.session().after(block@).timed_out()
                    &&& self.session().chunk(block@) is None
                    &&& !self.session().after(block@).had_speech
                },
            },
    {
        proof {
            use_type_invariant(&self);
        }
        let ghost before = self.session();
        let ghost heard_block = block@;
        let mut block = block;
        let HandsfreeSession {
            preroll_cap,
            chunk_gap_ms,
            mut preroll,
            mut segment,
            mut had_speech,
            mut silence_ms,
        } = self;
        if detects_speech(block.as_slice()) {
            if !had_speech {
                segment.append(&mut preroll);
            }
            had_speech = true;
            silence_ms = 0;
            segment.append(&mut block);
        } else {
            silence_ms = silence_ms + TICK_MS;
            if had_speech {
                segment.append(&mut block);
            } else {
                preroll.append(&mut block);
                if preroll.len() > preroll_cap {
                    let surplus: usize = preroll.len() - preroll_cap;
                    preroll = preroll.split_off(surplus);
                }
            }
        }
        let ghost middle = before.hears(heard_block);
        assert(middle.preroll == preroll@);
        assert(middle.segment == segment@);
        let mut chunk: Option<Vec<u32>> = None;
        if had_speech && silence_ms >= chunk_gap_ms {
            chunk = Some(segment);
            segment = Vec::new();
            had_speech = false;
        }
        if silence_ms >= SESSION_GAP_MS {
            return Tick::TimedOut;
        }
        let session = HandsfreeSession {
            preroll_cap,
            chunk_gap_ms,
            preroll,
            segment,
            had_speech,
            silence_ms,
        };
        Tick::GoesOn { session, chunk }
    }
}

/// Samples per second over all channels, in single precision.
pub open spec fn sample_flow(in_rate: u32, channels: u16) -> nat {
    single::product(single::of_whole(in_rate as nat), single::of_whole(channels as nat))
}

/// A recording is too short to be more than an accident. One whose length in
/// seconds is not a number, for want of a rate or of channels, is not.
pub open spec fn is_blip(len: nat, in_rate: u32, channels: u16) -> bool {
    &&& in_rate > 0
    &&& channels > 0
    &&& single::quotient(single::of_whole(len), sample_flow(in_rate, channels)) < shortest_chunk()
}

/// A recording can be resampled, and the result fits in a WAV file.
pub open spec fn encodable(len: nat, in_rate: u32, channels: u16) -> bool {
    &&& audio::resampleable(audio::frame_count(len, channels), in_rate)
    &&& audio::mono_len(len, in_rate, channels) <= wav::MAX_SAMPLES
}

/// A recording can be processed: it is not worth encoding, or it can be encoded.
pub open spec fn processable(len: nat, in_rate: u32, channels: u16, has_key: bool) -> bool {
    is_blip(len, in_rate, channels) || !has_key || encodable(len, in_rate, channels)
}

/// What is to be done with a recording.
pub enum Chunk {
    /// Nothing: it is too short.
    TooShort,
    /// It cannot be transcribed, for there is no key.
    NoKey,
    /// It is posted for transcription.
    Upload(TranscriptionRequest),
}

impl Chunk {
    /// This is to be done with `samples`.
    pub open spec fn made_of(
        self,
        samples: Seq<u32>,
        in_rate: u32,
        channels: u16,
        api_key: Option<Seq<char>>,
        model: Seq<char>,
        language: Language,
    ) -> bool {
        match self {
            Chunk::TooShort => is_blip(samples.len(), in_rate, channels),
            Chunk::NoKey => !is_blip(samples.len(), in_rate, channels) && api_key is None,
            Chunk::Upload(request) => {
                &&& !is_blip(samples.len(), in_rate, channels)
                &&& api_key is Some
                &&& exists|mono: Seq<u32>| #[trigger]
                    audio::is_16k_mono(samples, in_rate, channels, mono) && request.asks(
                        wav::wav_bytes(audio::levels(mono)),
                        api_key->0,
                        model,
                        language.iso(),
                    )
            },
        }
    }

    /// What the worker is told if nothing is uploaded: that an accident is done with,
    /// or that there is no key.
    pub open spec fn event(self) -> Option<WorkerEvent> {
        match self {
            Chunk::TooShort => Some(WorkerEvent::ChunkDone),
            Chunk::NoKey => Some(WorkerEvent::ChunkFailed),
            Chunk::Upload(_) => None,
        }
    }
}

/// What the worker is told before a recording is processed: that processing starts,
/// but for an accident in a toggle session, of which nothing is shown.
pub open spec fn start_event(
    len: nat,
    in_rate: u32,
    channels: u16,
    handsfree: bool,
) -> Option<WorkerEvent> {
    if handsfree || !is_blip(len, in_rate, channels) {
        Some(WorkerEvent::ChunkStarted)
    } else {
        None
    }
}

/// What the worker is told before a recording of `len` samples is processed.
pub fn chunk_started(len: usize, in_rate: u32, channels: u16, handsfree: bool) -> (r: Option<
    WorkerEvent,
>)
    ensures
        r == start_event(len as nat, in_rate, channels, handsfree),
{
    if handsfree || !too_short(len, in_rate, channels) {
        Some(WorkerEvent::ChunkStarted)
    } else {
        None
    }
}

/// What the worker is told if nothing is uploaded.
pub fn chunk_event(chunk: &Chunk) -> (r: Option<WorkerEvent>)
    ensures
        r == chunk.event(),
{
    match chunk {
        Chunk::TooShort => Some(WorkerEvent::ChunkDone),
        Chunk::NoKey => Some(WorkerEvent::ChunkFailed),
        Chunk::Upload(_) => None,
    }
}

/// Whether a recording is too short to be more than an accident.
fn too_short(len: usize, in_rate: u32, channels: u16) -> (r: bool)
    ensures
        r == is_blip(len as nat, in_rate, channels),
{
    if in_rate == 0 || channels == 0 {
        return false;
    }
    let shortest = Single::from_parts(10_066_330, 124);
    proof {
        lemma2_to64();
        lemma_flow(in_rate, channels);
        single::lemma_whole_range(len as nat);
    }
    let flow = Single::from_whole(in_rate as u64).times(Single::from_whole(channels as u64));
    Single::from_whole(len as u64).over(flow).less(shortest)
}

/// Whether a recording of `len` samples can be processed.
pub fn can_process(len: usize, in_rate: u32, channels: u16, has_key: bool) -> (r: bool)
    ensures
        r == processable(len as nat, in_rate, channels, has_key),
{
    if !has_key || too_short(len, in_rate, channels) {
        return true;
    }
    let frames: usize = audio::frames_of(len, channels);
    audio::can_resample(frames, in_rate) && (frames == 0 || in_rate == 0 || audio::len_at_16k(
        frames,
        in_rate,
    ) <= wav::MAX_SAMPLES as usize)
}

/// Turns a recording into a request for its transcript: in mono at 16 kHz, as a
/// WAV file.
pub fn process_chunk(
    samples: &[u32],
    in_rate: u32,
    channels: u16,
    api_key: &Option<String>,
    model: &str,
    language: Language,
) -> (r: Chunk)
    requires
        processable(samples@.len(), in_rate, channels, api_key is Some),
    ensures
        r.made_of(
            samples@,
            in_rate,
            channels,
            config::entry(*api_key),
            model@,
            language,
        ),
{
    if too_short(samples.len(), in_rate, channels) {
        return Chunk::TooShort;
    }
    match api_key {
        None => Chunk::NoKey,
        Some(key) => {
            let mono = audio::to_16k_mono(samples, in_rate, channels);
            let file = audio::encode_wav_16k_mono(mono.as_slice());
            let code = language.code();
            Chunk::Upload(
                transcribe::transcribe_bytes(file, key.as_str(), model, code.as_str()),
            )
        },
    }
}

/// At 16 kHz or more, every recording of less than 2^24 frames can be processed.
pub proof fn recordings_can_be_processed(len: nat, in_rate: u32, channels: u16, has_key: bool)
    requires
        in_rate >= audio::TARGET_RATE,
        audio::frame_count(len, channels) < 0x100_0000,
    ensures
        processable(len, in_rate, channels, has_key),
{
    audio::recordings_can_be_resampled(audio::frame_count(len, channels), in_rate);
    audio::resampling_does_not_lengthen(audio::frame_count(len, channels), in_rate);
}

/// At 8 kHz or more, every recording of up to 5 000 000 frames can be processed.
pub proof fn slower_recordings_can_be_processed(
    len: nat,
    in_rate: u32,
    channels: u16,
    has_key: bool,
)
    requires
        in_rate >= 8_000,
        audio::frame_count(len, channels) <= 5_000_000,
    ensures
        processable(len, in_rate, channels, has_key),
{
    let frames = audio::frame_count(len, channels);
    audio::recordings_can_be_resampled(frames, in_rate);
    resampling::resampling_keeps_the_duration(frames, in_rate);
    let n = audio::resampled_len(frames, in_rate);
    assert(n <= wav::MAX_SAMPLES) by (nonlinear_arith)
        requires
            n * in_rate * 0x100_0000 <= frames * 16_000 * 0x100_0005,
            in_rate >= 8_000,
            frames <= 5_000_000,
            wav::MAX_SAMPLES == 2_147_483_629,
    ;
}

/// Above 32 kHz every recording of less than 2^25 frames can be processed: more than
/// eleven minutes at 48 kHz.
pub proof fn long_recordings_can_be_processed(
    len: nat,
    in_rate: u32,
    channels: u16,
    has_key: bool,
)
    requires
        in_rate > 32_000,
        audio::frame_count(len, channels) < 0x200_0000,
    ensures
        processable(len, in_rate, channels, has_key),
{
    let frames = audio::frame_count(len, channels);
    resampling::long_recordings_can_be_resampled(frames, in_rate);
    resampling::resampling_keeps_the_duration(frames, in_rate);
    let n = audio::resampled_len(frames, in_rate);
    assert(n <= wav::MAX_SAMPLES) by (nonlinear_arith)
        requires
            n * in_rate * 0x100_0000 <= frames * 16_000 * 0x100_0005,
            in_rate > 32_000,
            frames < 0x200_0000,
            wav::MAX_SAMPLES == 2_147_483_629,
    ;
}

/// A recording whose length in seconds is not a number is never too short.
pub proof fn recordings_without_a_rate_are_not_short(len: nat, in_rate: u32, channels: u16)
    requires
        in_rate == 0 || channels == 0,
    ensures
        !is_blip(len, in_rate, channels),
{
}

/// What becomes of a transcript.
pub enum Delivery {
    /// It is typed.
    Inject(String),
    /// Nothing was said.
    Empty,
    /// There is none.
    Failed(String),
}

impl Delivery {
    /// This becomes of an answer.
    pub open spec fn follows(self, answer: Result<String, String>) -> bool {
        match self {
            Delivery::Inject(keys) => answer is Ok && typed(answer->Ok_0@) == Some(keys@),
            Delivery::Empty => answer is Ok && typed(answer->Ok_0@) is None,
            Delivery::Failed(message) => answer == Err::<String, String>(message),
        }
    }

    /// What the worker is told in the end: that the chunk is done if its text was
    /// typed and got there, else that it failed.
    pub open spec fn event(self, landed: bool) -> WorkerEvent {
        if self is Inject && landed {
            WorkerEvent::ChunkDone
        } else {
            WorkerEvent::ChunkFailed
        }
    }
}

/// What the worker is told in the end. `landed` says whether the text, if there is
/// one, could be typed.
pub fn delivery_event(delivery: &Delivery, landed: bool) -> (r: WorkerEvent)
    ensures
        r == delivery.event(landed),
{
    match delivery {
        Delivery::Inject(_) => if landed {
            WorkerEvent::ChunkDone
        } else {
            WorkerEvent::ChunkFailed
        },
        _ => WorkerEvent::ChunkFailed,
    }
}

/// What is typed of a transcript: the transcript with a space behind it, which
/// keeps it apart from the next one. Nothing is typed if it is white space alone.
pub open spec fn typed(transcript: Seq<char>) -> Option<Seq<char>> {
    if text::trimmed(transcript).len() > 0 {
        Some(transcript.push(' '))
    } else {
        None
    }
}

/// What becomes of an answer.
pub fn deliver(answer: Result<String, String>) -> (r: Delivery)
    ensures
        r.follows(answer),
{
    match answer {
        Ok(transcript) => {
            if text::trim(transcript.as_str()).as_str().unicode_len() == 0 {
                return Delivery::Empty;
            }
            let mut keys = transcript;
            keys.append(" ");
            proof {
                reveal_strlit(" ");
                assert(keys@ =~= answer->Ok_0@.push(' '));
            }
            Delivery::Inject(keys)
        },
        Err(message) => Delivery::Failed(message),
    }
}

/// A recording of a toggle session that is too short goes from listening straight to
/// idle: neither before nor after it the tray shows anything else, and the end of the
/// session shows idle.
pub proof fn short_recordings_go_straight_to_idle(
    chunk: Chunk,
    samples: Seq<u32>,
    in_rate: u32,
    channels: u16,
    api_key: Option<Seq<char>>,
    model: Seq<char>,
    language: Language,
)
    requires
        chunk.made_of(samples, in_rate, channels, api_key, model, language),
        is_blip(samples.len(), in_rate, channels),
    ensures
        ({
            let toggle = Worker::Listening { handsfree: false };
            &&& start_event(samples.len(), in_rate, channels, false) is None
            &&& chunk.event() == Some(WorkerEvent::ChunkDone)
            &&& toggle.on(WorkerEvent::ChunkDone).ui is None
            &&& toggle.on(WorkerEvent::ChunkDone).worker == toggle
            &&& toggle.on(WorkerEvent::SessionOver).ui == Some(tray::UiEvent::Idle)
        }),
{
}

/// Of every chunk of a hands-free session, and of every other one that is not too
/// short, the tray shows that it is being processed before anything else. A chunk of a
/// hands-free session that is too short is then followed by listening.
pub proof fn processing_is_shown_first(len: nat, in_rate: u32, channels: u16, handsfree: bool)
    requires
        handsfree || !is_blip(len, in_rate, channels),
    ensures
        ({
            let session = Worker::Listening { handsfree };
            &&& start_event(len, in_rate, channels, handsfree) == Some(WorkerEvent::ChunkStarted)
            &&& session.on(WorkerEvent::ChunkStarted).ui == Some(tray::UiEvent::Processing)
            &&& Chunk::TooShort.event() == Some(WorkerEvent::ChunkDone)
            &&& handsfree ==> session.on(WorkerEvent::ChunkDone).ui == Some(
                tray::UiEvent::Listening,
            )
        }),
{
}

/// A chunk without a key, an answer that is an error or holds no words, and a text
/// that could not be typed are not passed over: the worker flashes the tray red, and
/// then shows idle, or listening if the session goes on. Of an error or an answer
/// without words nothing is typed.
pub proof fn failures_are_shown(
    chunk: Chunk,
    answer: Result<String, String>,
    delivery: Delivery,
    landed: bool,
    handsfree: bool,
)
    requires
        delivery.follows(answer),
    ensures
        ({
            let flash = Worker::Listening { handsfree }.on(WorkerEvent::ChunkFailed);
            &&& flash.ui == Some(tray::UiEvent::Failed)
            &&& flash.then_ui == Some(worker::shown_after_failure(handsfree))
        }),
        chunk is NoKey ==> chunk.event() == Some(WorkerEvent::ChunkFailed),
        answer is Err || typed(answer->Ok_0@) is None ==> delivery !is Inject,
        delivery.event(landed) is ChunkFailed <==> answer is Err || typed(answer->Ok_0@) is None
            || !landed,
{
}

/// A recording is uploaded exactly if it is not too short and there is a key; without a
/// key it is not, and nothing else keeps it back.
pub proof fn what_is_uploaded(
    chunk: Chunk,
    samples: Seq<u32>,
    in_rate: u32,
    channels: u16,
    api_key: Option<Seq<char>>,
    model: Seq<char>,
    language: Language,
)
    requires
        chunk.made_of(samples, in_rate, channels, api_key, model, language),
    ensures
        chunk is Upload <==> !is_blip(samples.len(), in_rate, channels) && api_key is Some,
        chunk is NoKey <==> !is_blip(samples.len(), in_rate, channels) && api_key is None,
{
}

/// An upload carries the recording, to the last sample: its file has a header of 44 bytes
/// and two bytes for each sample of the recording in mono at 16 kHz, from which the level
/// of that sample is read back. It is authorized by the key, and names the model and the
/// language.
pub proof fn an_upload_carries_the_recording(
    request: TranscriptionRequest,
    samples: Seq<u32>,
    in_rate: u32,
    channels: u16,
    api_key: Seq<char>,
    model: Seq<char>,
    language: Language,
)
    requires
        Chunk::Upload(request).made_of(
            samples,
            in_rate,
            channels,
            Some(api_key),
            model,
            language,
        ),
    ensures
        request.bearer@ == api_key,
        request.field_texts().contains(("model"@, model)),
        request.field_texts().contains(("language"@, language.iso())),
        exists|mono: Seq<u32>| #[trigger]
            audio::is_16k_mono(samples, in_rate, channels, mono) && request.audio@.len() == 44 + 2
                * mono.len() && (forall|i: int|
                0 <= i < mono.len() ==> wav::read_i16(
                    request.audio@[44 + 2 * i],
                    request.audio@[45 + 2 * i],
                ) == sample::level(sample::number(#[trigger] mono[i]))),
{
    let mono = choose|mono: Seq<u32>| #[trigger]
        audio::is_16k_mono(samples, in_rate, channels, mono) && request.asks(
            wav::wav_bytes(audio::levels(mono)),
            api_key,
            model,
            language.iso(),
        );
    wav::samples_can_be_read_back(audio::levels(mono));
    assert forall|i: int| 0 <= i < mono.len() implies wav::read_i16(
        request.audio@[44 + 2 * i],
        request.audio@[45 + 2 * i],
    ) == sample::level(sample::number(#[trigger] mono[i])) by {
        audio::decoding_gives_the_level(mono, i);
    }
    transcribe::requests_carry_what_they_are_given(
        request,
        wav::wav_bytes(audio::levels(mono)),
        api_key,
        model,
        language.iso(),
    );
}

/// A transcript in which there is anything but white space is typed: each of its
/// characters, and one space behind them. One in which there is not is not typed, and
/// neither is an error, which is passed on as it was told.
pub proof fn every_word_is_typed(delivery: Delivery, answer: Result<String, String>, i: int)
    requires
        delivery.follows(answer),
    ensures
        answer is Ok && 0 <= i < answer->Ok_0@.len() && !text::is_space(answer->Ok_0@[i]) ==> {
            &&& delivery is Inject
            &&& delivery->Inject_0@.len() == answer->Ok_0@.len() + 1
            &&& delivery->Inject_0@.take(answer->Ok_0@.len() as int) == answer->Ok_0@
            &&& delivery->Inject_0@.last() == ' '
        },
        answer is Ok && (forall|k: int|
            0 <= k < answer->Ok_0@.len() ==> text::is_space(#[trigger] answer->Ok_0@[k]))
            ==> delivery is Empty,
        answer is Err ==> delivery is Failed && delivery->Failed_0 == answer->Err_0,
{
    if answer is Ok {
        let s = answer->Ok_0@;
        text::trimming_takes_off_white_space_only(s);
        if delivery is Inject {
            assert(s.push(' ').take(s.len() as int) =~= s);
        }
        if 0 <= i < s.len() && !text::is_space(s[i]) && text::trimmed(s).len() == 0 {
            let (a, b) = choose|a: int, b: int| #[trigger] text::is_trimmed_to(s, a, b);
            assert(i < a || i >= b);
        }
        if (forall|k: int| 0 <= k < s.len() ==> text::is_space(#[trigger] s[k]))
            && text::trimmed(s).len() > 0 {
            let (a, b) = choose|a: int, b: int| #[trigger] text::is_trimmed_to(s, a, b);
            assert(text::is_space(s[a]));
        }
    }
}

/// Of a successful answer, the text without the white space around it is typed,
/// with one space behind it; nothing is typed if there is no such text.
pub proof fn answers_are_typed_trimmed(body: Seq<char>)
    ensures
        typed(text::trimmed(body)) == if text::trimmed(body).len() > 0 {
            Some(text::trimmed(body).push(' '))
        } else {
            None
        },
{
    text::trimming_is_idempotent(body);
}

/// A look at a toggle session: when the keys are pressed, all that was recorded
/// is handed over as one utterance.
pub fn poll_toggle_session(pressed: bool, buffer: &mut Vec<u32>) -> (r: Option<Vec<u32>>)
    ensures
        match r {
            Some(utterance) => pressed && utterance@ == old(buffer)@ && final(buffer)@
                == Seq::<u32>::empty(),
            None => !pressed && *final(buffer) == *old(buffer),
        },
{
    if pressed {
        let mut utterance: Vec<u32> = Vec::new();
        utterance.append(buffer);
        assert(utterance@ =~= old(buffer)@);
        Some(utterance)
    } else {
        None
    }
}

/// How many chunks are queued or on their way.
pub struct Backlog {
    pub depth: usize,
}

impl Backlog {
    /// No chunk is queued.
    pub fn new() -> (r: Backlog)
        ensures
            r.depth == 0,
    {
        Backlog { depth: 0 }
    }

    /// A chunk is queued. Whether so many are that a warning is due.
    pub fn enqueue_chunk(&mut self) -> (warn: bool)
        requires
            old(self).depth < usize::MAX,
        ensures
            final(self).depth == old(self).depth + 1,
            warn == (final(self).depth > QUEUE_WARN),
    {
        self.depth = self.depth + 1;
        self.depth > QUEUE_WARN
    }

    /// A chunk is done.
    pub fn chunk_done(&mut self)
        requires
            old(self).depth > 0,
        ensures
            final(self).depth == old(self).depth - 1,
    {
        self.depth = self.depth - 1;
    }
}

/// The rounded flow is positive and within the range of the operations.
proof fn lemma_flow(in_rate: u32, channels: u16)
    requires
        in_rate > 0,
        channels > 0,
    ensures
        single::of_whole(in_rate as nat) <= pow2(300),
        single::of_whole(channels as nat) <= pow2(300),
        0 < sample_flow(in_rate, channels) <= pow2(300),
{
    lemma2_to64();
    single::lemma_whole_range(in_rate as nat);
    single::lemma_whole_range(channels as nat);
    single::lemma_of_whole_range(in_rate as nat, 0, 32);
    single::lemma_of_whole_range(channels as nat, 0, 16);
    let a = single::of_whole(in_rate as nat);
    let b = single::of_whole(channels as nat);
    lemma_pow2_pos(149);
    lemma_pow2_adds(149, 149);
    lemma_pow2_adds(181, 165);
    lemma_pow2_adds(149, 197);
    assert(single::one() * pow2(149) <= a * b <= single::one() * pow2(197)) by (nonlinear_arith)
        requires
            single::one() == pow2(149),
            pow2(149) <= a <= pow2(181),
            pow2(149) <= b <= pow2(165),
            pow2(346) == pow2(181) * pow2(165),
            pow2(346) == pow2(149) * pow2(197),
    ;
    single::lemma_nearest_floor(a * b, single::one(), 149);
    single::lemma_nearest_bound(a * b, single::one(), 197);
    lemma_pow2_strictly_increases(197, 300);
}

proof fn lemma_capacity(in_rate: u32, channels: u16)
    ensures
        pow2(147) <= pow2(300),
        single::of_whole(in_rate as nat) <= pow2(300),
        single::of_whole(channels as nat) <= pow2(300),
        single::product(pow2(147), single::of_whole(in_rate as nat)) <= pow2(300),
{
    lemma_pow2_strictly_increases(147, 300);
    single::lemma_whole_range(in_rate as nat);
    single::lemma_whole_range(channels as nat);
    single::lemma_whole_below(in_rate as nat);
    let num = pow2(147) * single::of_whole(in_rate as nat);
    lemma_pow2_adds(147, 277);
    lemma_pow2_adds(149, 275);
    lemma_pow2_pos(147);
    lemma_pow2_pos(149);
    assert(num <= pow2(149) * pow2(275)) by (nonlinear_arith)
        requires
            num == pow2(147) * single::of_whole(in_rate as nat),
            single::of_whole(in_rate as nat) < pow2(277),
            pow2(424) == pow2(147) * pow2(277),
            pow2(424) == pow2(149) * pow2(275),
    ;
    single::lemma_nearest_bound(num, single::one(), 275);
    lemma_pow2_strictly_increases(275, 300);
}

/// A piece that ends a stream goes on to end it when both grow alike.
proof fn lemma_ends_with_grows(stream: Seq<u32>, piece: Seq<u32>, more: Seq<u32>)
    requires
        ends_with(stream, piece),
    ensures
        ends_with(stream + more, piece + more),
{
    assert((stream + more).skip(stream.len() - piece.len()) =~= piece + more);
}

/// The last samples of a piece that ends a stream end it too.
proof fn lemma_ends_with_less(stream: Seq<u32>, piece: Seq<u32>, n: nat)
    requires
        ends_with(stream, piece),
    ensures
        ends_with(stream, last_of(piece, n)),
{
    let last = last_of(piece, n);
    assert(stream.skip(stream.len() - last.len()) =~= last);
}

/// What a stream of ticks leads to: the phrase, or what is kept from before it,
/// is the end of what was heard and begins after the last cut; the silence counts
/// the ticks since speech; and a phrase is open as long as that is less than the
/// pause.
proof fn lemma_stream(preroll_cap: nat, chunk_gap: nat, blocks: Seq<Seq<u32>>)
    requires
        config::MIN_SILENCE_MS <= chunk_gap <= config::MAX_SILENCE_MS,
    ensures
        ({
            let start = Session::fresh(preroll_cap, chunk_gap);
            let session = start.after_all(blocks);
            let cut = start.last_cut(blocks);
            &&& session.sound()
            &&& session.preroll_cap == preroll_cap
            &&& session.chunk_gap == chunk_gap
            &&& cut <= heard(blocks).len()
            &&& ends_with(heard(blocks), session.pending())
            &&& session.pending().len() <= heard(blocks).len() - cut
            &&& !session.had_speech ==> session.preroll == last_of(
                heard(blocks).skip(cut as int),
                preroll_cap,
            )
            &&& session.silence == TICK_MS * quiet_ticks(blocks)
            &&& quiet_ticks(blocks) <= blocks.len()
            &&& session.had_speech <==> quiet_ticks(blocks) < blocks.len() && TICK_MS * quiet_ticks(
                blocks,
            ) < chunk_gap
        }),
    decreases blocks.len(),
{
    let start = Session::fresh(preroll_cap, chunk_gap);
    if blocks.len() == 0 {
        assert(heard(blocks).skip(0) =~= Seq::<u32>::empty());
        assert(start.pending() =~= heard(blocks).skip(0));
    } else {
        let n = blocks.len() as int;
        let block = blocks.last();
        let before = start.after_all(blocks.drop_last());
        let past = heard(blocks.drop_last());
        let cut = start.last_cut(blocks.drop_last());
        lemma_stream(preroll_cap, chunk_gap, blocks.drop_last());
        assert(blocks.take(n - 1) =~= blocks.drop_last());
        lemma_ends_with_grows(past, before.pending(), block);
        lemma_ends_with_less(past + block, before.pending() + block, preroll_cap);
        let after = before.after(block);
        if is_speech(block) {
            assert(after.segment =~= before.pending() + block) by {
                assert(before.segment + before.preroll =~= before.preroll || before.had_speech);
            }
        } else if before.had_speech {
            if before.hears(block).phrase_ended() {
                assert(after.preroll =~= Seq::<u32>::empty());
                assert(heard(blocks).skip(heard(blocks).len() as int) =~= Seq::<u32>::empty());
            }
        } else {
            assert((past + block).skip(cut as int) =~= past.skip(cut as int) + block);
            assert(last_of(past.skip(cut as int) + block, preroll_cap) =~= last_of(
                last_of(past.skip(cut as int), preroll_cap) + block,
                preroll_cap,
            ));
        }
    }
}

/// Silence is not speech.
pub proof fn silence_is_not_speech(block: Seq<u32>)
    requires
        forall|i: int|
            0 <= i < block.len() ==> sample::number(#[trigger] block[i]) == (
            sample::Number::Finite { value: 0 }),
    ensures
        !is_speech(block),
{
    let heard_block = sample::numbers(block);
    assert forall|i: int| 0 <= i < heard_block.len() implies heard_block[i] == (
    sample::Number::Finite { value: 0 }) by {
        assert(sample::number(block[i]) == heard_block[i]);
    }
    sample::silence_has_no_loudness(heard_block);
}

/// What is kept from before speech lasts a quarter of a second: a quarter of the samples
/// of a second, over all channels, cut to a whole number; exactly that if there are less
/// than 2^24 of them, and else but for five parts in 2^24.
pub proof fn a_quarter_of_a_second_is_kept(in_rate: u32, channels: u16)
    requires
        in_rate * channels <= 4 * 0x7fff_0000,
    ensures
        in_rate * channels < 0x100_0000 ==> preroll_capacity(in_rate, channels) == (in_rate
            * channels) / 4,
        preroll_capacity(in_rate, channels) * 4 * 0x100_0000 <= in_rate * channels * 0x100_0005,
        (preroll_capacity(in_rate, channels) + 1) * 4 * 0x100_0000 > in_rate * channels * 0xff_fffb,
{
    let one = single::one();
    let quarter = pow2(147);
    let rate = in_rate as nat;
    let ch = channels as nat;
    let w = single::of_whole(rate);
    let v = single::of_whole(ch);
    let g = single::product(quarter, w);
    let p = single::product(g, v);
    let cap = preroll_capacity(in_rate, channels);
    let z = rate * ch;
    lemma2_to64();
    lemma_pow2_pos(147);
    lemma_pow2_adds(2, 147);
    lemma_pow2_strictly_increases(48, 147);
    lemma_pow2_adds(24, 24);
    single::lemma_exact(ch, 149);
    resampling::lemma_index(p);
    if rate == 0 || ch == 0 {
        assert(z == 0) by (nonlinear_arith)
            requires
                z == rate * ch,
                rate == 0 || ch == 0,
        ;
        assert(0 * one == 0 && quarter * 0 == 0 && 0 * v == 0 && g * 0 == 0 && 0 * pow2(0) == 0);
        assert(0 <= one * (0 * pow2(0)) && 0 <= 1 * (0 * pow2(0))) by (nonlinear_arith);
        single::lemma_nearest_at_most(0, one, 0, 0);
        single::lemma_nearest_at_most(0, 1, 0, 0);
        if rate == 0 {
            assert(w == 0);
            assert(g == 0);
        } else {
            assert(v == 0);
        }
        assert(p == 0);
        assert(0 <= cap * one <= 0);
        assert(cap == 0) by (nonlinear_arith)
            requires
                cap * one <= 0,
                one > 0,
        ;
    } else {
        accuracy::lemma_near_whole(rate);
        assert(quarter * w >= 0x80_0000 * one) by (nonlinear_arith)
            requires
                quarter >= 0x1_0000_0000_0000,
                w >= one,
        ;
        accuracy::lemma_near(quarter * w, one);
        assert(g * one == (g * 4) * quarter && quarter * w == w * quarter) by (nonlinear_arith)
            requires
                one == 4 * quarter,
        ;
        accuracy::lemma_near_scaled(g * 4, w, quarter);
        assert(quarter * w >= one * pow2(147)) by (nonlinear_arith)
            requires
                w >= one,
                quarter == pow2(147),
        ;
        single::lemma_nearest_floor(quarter * w, one, 147);
        assert(g * v >= 0x80_0000 * one) by (nonlinear_arith)
            requires
                g >= 0x1_0000_0000_0000,
                v == ch * one,
                ch >= 1,
        ;
        accuracy::lemma_near(g * v, one);
        assert(g * v == (g * ch) * one) by (nonlinear_arith)
            requires
                v == ch * one,
        ;
        accuracy::lemma_near_scaled(p, g * ch, one);
        assert(p * 4 * 0x100_0000 <= g * 4 * ch * 0x100_0001 && p * 4 * 0x100_0000 >= g * 4 * ch
            * 0xff_ffff) by (nonlinear_arith)
            requires
                g * ch * 0xff_ffff <= p * 0x100_0000 <= g * ch * 0x100_0001,
        ;
        assert(g * 4 * ch * 0x100_0000 <= w * ch * 0x100_0001 && g * 4 * ch * 0x100_0000 >= w * ch
            * 0xff_ffff) by (nonlinear_arith)
            requires
                w * 0xff_ffff <= g * 4 * 0x100_0000 <= w * 0x100_0001,
        ;
        let y = z * one;
        assert(w * ch * 0x100_0000 <= y * 0x100_0001 && w * ch * 0x100_0000 >= y * 0xff_ffff)
            by (nonlinear_arith)
            requires
                rate * one * 0xff_ffff <= w * 0x100_0000 <= rate * one * 0x100_0001,
                y == z * one,
                z == rate * ch,
        ;
        assert(y * 0x100_0000 <= y * 0x100_0001);
        accuracy::lemma_four_up(
            (p * 4) as int,
            (g * 4 * ch) as int,
            (w * ch) as int,
            y as int,
            y as int,
        );
        accuracy::lemma_four_down(
            (p * 4) as int,
            (g * 4 * ch) as int,
            (w * ch) as int,
            y as int,
            y as int,
        );
        assert(y <= 4 * 0x7fff_0000 * one) by (nonlinear_arith)
            requires
                y == z * one,
                z <= 4 * 0x7fff_0000,
        ;
        assert(p < 0x8000_0001 * one);
        resampling::lemma_cut(cap, one, 4, p, z);
        if z < 0x100_0000 {
            assert(rate <= z && ch <= z) by (nonlinear_arith)
                requires
                    z == rate * ch,
                    rate >= 1,
                    ch >= 1,
            ;
            single::lemma_exact(rate, 149);
            single::lemma_exact(rate, 147);
            single::lemma_exact(z, 147);
            assert(quarter * (rate * one) == one * (rate * quarter)) by (nonlinear_arith);
            single::lemma_nearest_scaled(rate * quarter, 1, one);
            assert(one * 1 == one);
            assert((rate * quarter) * (ch * one) == one * (z * quarter)) by (nonlinear_arith)
                requires
                    z == rate * ch,
            ;
            single::lemma_nearest_scaled(z * quarter, 1, one);
            let k = z / 4;
            assert(k * one <= z * quarter < (k + 1) * one) by (nonlinear_arith)
                requires
                    4 * k <= z < 4 * k + 4,
                    one == 4 * quarter,
                    quarter > 0,
            ;
            resampling::lemma_whole_is(p, k);
        }
    }
}

/// A recording is too short exactly if it lasts less than 0.3 seconds, but for eight
/// parts in 2^24.
pub proof fn short_recordings_last_less_than_three_tenths(len: nat, in_rate: u32, channels: u16)
    requires
        in_rate > 0,
        channels > 0,
    ensures
        10 * len * 0x100_0008 <= 3 * (in_rate * channels) * 0x100_0000 ==> is_blip(
            len,
            in_rate,
            channels,
        ),
        10 * len * 0x100_0000 >= 3 * (in_rate * channels) * 0x100_0008 ==> !is_blip(
            len,
            in_rate,
            channels,
        ),
{
    let one = single::one();
    let rate = in_rate as nat;
    let ch = channels as nat;
    let z = rate * ch;
    let w = single::of_whole(rate);
    let v = single::of_whole(ch);
    let flow = sample_flow(in_rate, channels);
    let f = single::of_whole(len);
    let q = single::quotient(f, flow);
    lemma2_to64();
    lemma_pow2_pos(149);
    lemma_pow2_pos(124);
    lemma_pow2_adds(25, 124);
    lemma_pow2_adds(24, 24);
    lemma_pow2_strictly_increases(48, 149);
    lemma_flow(in_rate, channels);
    assert(z > 0) by (nonlinear_arith)
        requires
            z == rate * ch,
            rate > 0,
            ch > 0,
    ;
    if len == 0 {
        assert(0 * one == 0 && 0 * pow2(0) == 0);
        assert(0 <= flow * (0 * pow2(0)) && 0 <= 1 * (0 * pow2(0))) by (nonlinear_arith);
        single::lemma_nearest_at_most(0, 1, 0, 0);
        single::lemma_nearest_at_most(0, flow, 0, 0);
    } else {
        single::lemma_exact(ch, 149);
        accuracy::lemma_near_whole(rate);
        accuracy::lemma_near_whole(len);
        assert(w * v >= 0x80_0000 * one) by (nonlinear_arith)
            requires
                w >= one,
                one >= 0x1_0000_0000_0000,
                v == ch * one,
                ch >= 1,
        ;
        accuracy::lemma_near(w * v, one);
        assert(w * v == (w * ch) * one) by (nonlinear_arith)
            requires
                v == ch * one,
        ;
        accuracy::lemma_near_scaled(flow, w * ch, one);
        single::lemma_of_whole_range(rate, 0, 32);
        single::lemma_of_whole_range(ch, 0, 16);
        lemma_pow2_adds(181, 165);
        lemma_pow2_adds(149, 197);
        assert(w * v <= one * pow2(197)) by (nonlinear_arith)
            requires
                w <= pow2(181),
                v <= pow2(165),
                pow2(181) * pow2(165) == one * pow2(197),
        ;
        single::lemma_nearest_bound(w * v, one, 197);
        lemma_pow2_adds(23, 197);
        lemma_pow2_adds(149, 149);
        lemma_pow2_strictly_increases(220, 298);
        assert(f * one >= 0x80_0000 * flow) by (nonlinear_arith)
            requires
                f >= one,
                one * one == pow2(298),
                flow <= pow2(197),
                0x80_0000 * pow2(197) == pow2(220),
                pow2(220) < pow2(298),
        ;
        accuracy::lemma_near(f * one, flow);
        lemma_seconds(len, z, one, f, w, ch, flow, q, rate);
        let short = shortest_chunk();
        assert(short * 0x200_0000 == 10_066_330 * one) by (nonlinear_arith)
            requires
                short == 10_066_330 * pow2(124),
                one == 0x200_0000 * pow2(124),
        ;
        if 10 * len * 0x100_0008 <= 3 * z * 0x100_0000 {
            assert(10 * q * 0x100_0008 <= 3 * one * 0x100_0005) by (nonlinear_arith)
                requires
                    10 * len * 0x100_0008 <= 3 * z * 0x100_0000,
                    q * z * 0x100_0000 <= len * one * 0x100_0005,
                    z > 0,
                    one > 0,
            ;
        }
        if 10 * len * 0x100_0000 >= 3 * z * 0x100_0008 {
            assert(10 * q * (0x100_0000 * 0x100_0000) >= 3 * one * (0x100_0008 * 0xff_fffb))
                by (nonlinear_arith)
                requires
                    10 * len * 0x100_0000 >= 3 * z * 0x100_0008,
                    q * z * 0x100_0000 >= len * one * 0xff_fffb,
                    z > 0,
                    one > 0,
            ;
        }
    }
}

/// From the length of a recording to its seconds, over the roundings on the way.
proof fn lemma_seconds(
    len: nat,
    z: nat,
    one: nat,
    f: nat,
    w: nat,
    ch: nat,
    flow: nat,
    q: nat,
    rate: nat,
)
    requires
        one > 0,
        z == rate * ch,
        accuracy::near(f, len * one),
        accuracy::near(w, rate * one),
        accuracy::near(flow, w * ch),
        accuracy::near(q * flow, f * one),
    ensures
        q * z * 0x100_0000 <= len * one * 0x100_0005,
        q * z * 0x100_0000 >= len * one * 0xff_fffb,
{
    let k: int = 0x100_0000;
    let u: int = 0x100_0001;
    let d: int = 0xff_ffff;
    let x = q * z;
    let y = len * one;
    assert(x * one * d <= q * (w * ch) * k) by (nonlinear_arith)
        requires
            rate * one * d <= w * k,
            x == q * z,
            z == rate * ch,
    ;
    assert(q * (w * ch) * d <= q * flow * k) by (nonlinear_arith)
        requires
            w * ch * d <= flow * k,
    ;
    assert(f * one * k <= y * one * u) by (nonlinear_arith)
        requires
            f * k <= y * u,
    ;
    assert(x * one * d * d <= y * one * u * u) by (nonlinear_arith)
        requires
            x * one * d <= q * (w * ch) * k,
            q * (w * ch) * d <= q * flow * k,
            q * flow * k <= f * one * u,
            f * one * k <= y * one * u,
            k == 0x100_0000,
            u == 0x100_0001,
            d == 0xff_ffff,
    ;
    assert(x * k <= y * 0x100_0005) by (nonlinear_arith)
        requires
            x * one * d * d <= y * one * u * u,
            one > 0,
            k == 0x100_0000,
            u == 0x100_0001,
            d == 0xff_ffff,
    ;
    assert(x * one * u >= q * (w * ch) * k) by (nonlinear_arith)
        requires
            rate * one * u >= w * k,
            x == q * z,
            z == rate * ch,
    ;
    assert(q * (w * ch) * u >= q * flow * k) by (nonlinear_arith)
        requires
            w * ch * u >= flow * k,
    ;
    assert(f * one * k >= y * one * d) by (nonlinear_arith)
        requires
            f * k >= y * d,
    ;
    assert(x * one * u * u >= y * one * d * d) by (nonlinear_arith)
        requires
            x * one * u >= q * (w * ch) * k,
            q * (w * ch) * u >= q * flow * k,
            q * flow * k >= f * one * d,
            f * one * k >= y * one * d,
            k == 0x100_0000,
            u == 0x100_0001,
            d == 0xff_ffff,
    ;
    assert(x * k >= y * 0xff_fffb) by (nonlinear_arith)
        requires
            x * one * u * u >= y * one * d * d,
            one > 0,
            k == 0x100_0000,
            u == 0x100_0001,
            d == 0xff_ffff,
    ;
}

/// Whether a block is speech is told by its exact mean square, whatever its length: it is
/// if the mean square is above that of 0.012, and is not if the mean square is below
/// that, but for two parts in 2^24 for each sample. (0.012 squared is 144 parts in a
/// million.)
pub proof fn speech_is_told_by_the_mean_square(block: Seq<u32>)
    requires
        0 < block.len() <= 0x40_0000,
        accuracy::bounded(sample::numbers(block), pow2(181)),
    ensures
        ({
            let n = block.len();
            let energy = accuracy::energy(sample::numbers(block));
            let square = pow2(149) * pow2(149);
            &&& energy * 1_000_000 * (0x100_0000 - 2 * n - 16) >= 144 * n * square * 0x100_0000
                ==> is_speech(block)
            &&& energy * 1_000_000 * (0x100_0000 + 2 * n + 16) <= 144 * n * square * 0x100_0000
                ==> !is_speech(block)
        }),
{
    accuracy::loudness_tells_the_mean_square(sample::numbers(block));
}

/// A block whose samples all have a magnitude of 0.02 or more is speech, whatever its
/// length and whichever their signs.
pub proof fn loud_blocks_are_speech(block: Seq<u32>)
    requires
        0 < block.len() <= 0x40_0000,
        forall|i: int|
            0 <= i < block.len() ==> {
                let a = sample::number(#[trigger] block[i]);
                a is Finite && pow2(149) <= 50 * sample::abs(accuracy::units(a)) <= 50 * pow2(181)
            },
    ensures
        is_speech(block),
{
    let numbers = sample::numbers(block);
    let one = pow2(149);
    let n = block.len();
    assert forall|i: int| 0 <= i < numbers.len() implies (#[trigger] numbers[i]) is Finite
        && pow2(149) <= 50 * sample::abs(accuracy::units(numbers[i])) <= 50 * pow2(181) by {
        assert(numbers[i] == sample::number(block[i]));
    }
    accuracy::energy_is_at_least(numbers, 50);
    let e = accuracy::energy(numbers);
    let square = one * one;
    assert(n * square <= e * 2500);
    assert(e * 1_000_000 * (0x100_0000 - 2 * n - 16) >= 144 * n * square * 0x100_0000)
        by (nonlinear_arith)
        requires
            n * square <= e * 2500,
            n <= 0x40_0000,
            e >= 0,
    ;
    speech_is_told_by_the_mean_square(block);
}

/// A block whose samples all have a magnitude of 0.01 or less is not speech, whatever its
/// length, and neither is one without samples.
pub proof fn quiet_blocks_are_not_speech(block: Seq<u32>)
    requires
        block.len() <= 0x20_0000,
        forall|i: int|
            0 <= i < block.len() ==> {
                let a = sample::number(#[trigger] block[i]);
                a is Finite && 100 * sample::abs(accuracy::units(a)) <= pow2(149)
            },
    ensures
        !is_speech(block),
{
    if block.len() > 0 {
        let numbers = sample::numbers(block);
        let one = pow2(149);
        let n = block.len();
        lemma_pow2_strictly_increases(149, 181);
        assert forall|i: int| 0 <= i < numbers.len() implies (#[trigger] numbers[i]) is Finite
            && 100 * sample::abs(accuracy::units(numbers[i])) <= pow2(149) by {
            assert(numbers[i] == sample::number(block[i]));
        }
        accuracy::energy_is_at_most(numbers, 100);
        let e = accuracy::energy(numbers);
        let square = one * one;
        assert(e * 10_000 <= n * square);
        assert(e * 1_000_000 * (0x100_0000 + 2 * n + 16) <= 144 * n * square * 0x100_0000)
            by (nonlinear_arith)
            requires
                e * 10_000 <= n * square,
                n <= 0x20_0000,
                e >= 0,
        ;
        speech_is_told_by_the_mean_square(block);
    }
}

/// A block with a sample that is not a number is not speech; else one with an infinite
/// sample is.
pub proof fn speech_of_samples_that_are_not_finite(block: Seq<u32>, i: int)
    requires
        0 <= i < block.len(),
    ensures
        sample::number(block[i]) is Nan ==> !is_speech(block),
        sample::number(block[i]) is Infinite && (forall|k: int|
            0 <= k < block.len() ==> !(sample::number(#[trigger] block[k]) is Nan))
            ==> is_speech(block),
{
    let numbers = sample::numbers(block);
    assert(numbers[i] == sample::number(block[i]));
    if numbers[i] is Nan {
        accuracy::undefined_stays(numbers, i);
    }
    if numbers[i] is Infinite && (forall|k: int|
        0 <= k < block.len() ==> !(sample::number(#[trigger] block[k]) is Nan)) {
        assert forall|k: int| 0 <= k < numbers.len() implies !((#[trigger] numbers[k]) is Nan) by {
            assert(numbers[k] == sample::number(block[k]));
        }
        accuracy::infinite_stays(numbers, i);
    }
}

/// Every chunk is a stretch of what was heard, which ends at the tick where it is
/// cut and begins where the chunk before it ended or later. So chunks come in the
/// order in which they were spoken, and none holds a sample of another.
pub proof fn chunks_are_stretches(
    preroll_cap: nat,
    chunk_gap: nat,
    blocks: Seq<Seq<u32>>,
    j: int,
)
    requires
        config::MIN_SILENCE_MS <= chunk_gap <= config::MAX_SILENCE_MS,
        0 <= j < blocks.len(),
    ensures
        match Session::fresh(preroll_cap, chunk_gap).chunk_at(blocks, j) {
            Some(chunk) => {
                &&& ends_with(heard(blocks.take(j + 1)), chunk)
                &&& chunk.len() <= heard(blocks.take(j + 1)).len() - Session::fresh(
                    preroll_cap,
                    chunk_gap,
                ).last_cut(blocks.take(j))
            },
            None => true,
        },
{
    let start = Session::fresh(preroll_cap, chunk_gap);
    let before = start.after_all(blocks.take(j));
    lemma_stream(preroll_cap, chunk_gap, blocks.take(j));
    assert(blocks.take(j + 1).drop_last() =~= blocks.take(j));
    lemma_ends_with_grows(heard(blocks.take(j)), before.pending(), blocks[j]);
}

/// So is the chunk that is handed over when the session is stopped: it ends with all
/// that was heard, and begins where the chunk before it ended or later.
pub proof fn the_last_chunk_is_a_stretch(
    preroll_cap: nat,
    chunk_gap: nat,
    blocks: Seq<Seq<u32>>,
)
    requires
        config::MIN_SILENCE_MS <= chunk_gap <= config::MAX_SILENCE_MS,
    ensures
        match Session::fresh(preroll_cap, chunk_gap).after_all(blocks).last_chunk() {
            Some(chunk) => {
                &&& ends_with(heard(blocks), chunk)
                &&& chunk.len() <= heard(blocks).len() - Session::fresh(
                    preroll_cap,
                    chunk_gap,
                ).last_cut(blocks)
            },
            None => true,
        },
{
    lemma_stream(preroll_cap, chunk_gap, blocks);
}

/// What was heard in the first ticks of a stream is no more than in more of them.
proof fn lemma_heard_grows(blocks: Seq<Seq<u32>>, i: int, j: int)
    requires
        0 <= i <= j <= blocks.len(),
    ensures
        heard(blocks.take(i)).len() <= heard(blocks.take(j)).len(),
        i < j ==> heard(blocks.take(i)).len() + blocks[i].len() <= heard(blocks.take(j)).len(),
    decreases j,
{
    if i < j {
        assert(blocks.take(j).drop_last() =~= blocks.take(j - 1));
        assert(blocks.take(j).last() == blocks[j - 1]);
        lemma_heard_grows(blocks, i, j - 1);
    }
}

/// Where a phrase that began at tick `i` of a stream begins at the earliest: as far
/// before that tick as samples are kept, but not before the last cut.
pub open spec fn earliest(start: Session, blocks: Seq<Seq<u32>>, i: int) -> int {
    let onset = heard(blocks.take(i)).len() as int;
    let cut = start.last_cut(blocks.take(i)) as int;
    if onset - start.preroll_cap > cut {
        onset - start.preroll_cap
    } else {
        cut
    }
}

/// The open phrase of a stream has a first tick with speech, and where no phrase is
/// open, all ticks with speech lie before the last cut.
proof fn lemma_onset(preroll_cap: nat, chunk_gap: nat, blocks: Seq<Seq<u32>>)
    requires
        config::MIN_SILENCE_MS <= chunk_gap <= config::MAX_SILENCE_MS,
    ensures
        ({
            let start = Session::fresh(preroll_cap, chunk_gap);
            let session = start.after_all(blocks);
            let cut = start.last_cut(blocks);
            let first = heard(blocks).len() - session.segment.len();
            &&& session.had_speech ==> {
                &&& speech_begins_at(blocks, first, preroll_cap, start.onset(blocks))
                &&& cut <= first
                &&& first == earliest(start, blocks, start.onset(blocks))
            }
            &&& !session.had_speech ==> forall|k: int|
                0 <= k < blocks.len() && #[trigger] is_speech(blocks[k]) ==> heard(
                    blocks.take(k + 1),
                ).len() <= cut
        }),
    decreases blocks.len(),
{
    let start = Session::fresh(preroll_cap, chunk_gap);
    if blocks.len() > 0 {
        let n = blocks.len() as int;
        let fewer = blocks.drop_last();
        let block = blocks.last();
        let before = start.after_all(fewer);
        let session = start.after_all(blocks);
        let first = heard(blocks).len() - session.segment.len();
        lemma_onset(preroll_cap, chunk_gap, fewer);
        lemma_stream(preroll_cap, chunk_gap, fewer);
        lemma_stream(preroll_cap, chunk_gap, blocks);
        assert(blocks.take(n - 1) =~= fewer);
        assert(blocks.take(n) =~= blocks);
        assert forall|k: int| 0 <= k < n - 1 implies #[trigger] fewer[k] == blocks[k]
            && fewer.take(k) == blocks.take(k) && fewer.take(k + 1) == blocks.take(k + 1) by {
            assert(fewer.take(k) =~= blocks.take(k));
            assert(fewer.take(k + 1) =~= blocks.take(k + 1));
        }
        if session.had_speech {
            let i = start.onset(blocks);
            if before.had_speech {
                assert(i == start.onset(fewer));
                assert(0 <= i < n - 1);
                assert(fewer[i] == blocks[i]);
                assert(session.segment.len() == before.segment.len() + block.len());
                assert(fewer.take(i) == blocks.take(i));
            } else {
                assert(is_speech(block));
                assert(i == n - 1);
                assert(session.segment.len() == before.preroll.len() + block.len());
            }
            assert forall|k: int| 0 <= k < i && #[trigger] is_speech(blocks[k]) implies heard(
                blocks.take(k + 1),
            ).len() <= first by {
                assert(fewer[k] == blocks[k]);
                assert(is_speech(fewer[k]));
            }
        } else {
            assert forall|k: int| 0 <= k < n && #[trigger] is_speech(blocks[k]) implies heard(
                blocks.take(k + 1),
            ).len() <= start.last_cut(blocks) by {
                if start.chunk_at(blocks, n - 1) is Some {
                    lemma_heard_grows(blocks, k + 1, n);
                } else {
                    assert(!is_speech(block));
                    assert(!before.had_speech);
                    assert(fewer[k] == blocks[k]);
                    assert(is_speech(fewer[k]));
                }
            }
        }
    }
}

/// Every chunk holds speech: a whole tick of it, and at most the samples that are kept
/// from before speech precede the first one.
pub proof fn chunks_hold_speech(
    preroll_cap: nat,
    chunk_gap: nat,
    blocks: Seq<Seq<u32>>,
    j: int,
)
    requires
        config::MIN_SILENCE_MS <= chunk_gap <= config::MAX_SILENCE_MS,
        0 <= j < blocks.len(),
        Session::fresh(preroll_cap, chunk_gap).chunk_at(blocks, j) is Some,
    ensures
        exists|i: int|
            0 <= i <= j && #[trigger] speech_begins_at(
                blocks,
                Session::fresh(preroll_cap, chunk_gap).chunk_start(blocks, j),
                preroll_cap,
                i,
            ),
{
    let start = Session::fresh(preroll_cap, chunk_gap);
    let seen = blocks.take(j);
    let before = start.after_all(seen);
    let from = start.chunk_start(blocks, j);
    lemma_onset(preroll_cap, chunk_gap, seen);
    lemma_stream(preroll_cap, chunk_gap, seen);
    assert(blocks.take(j + 1).drop_last() =~= seen);
    assert(before.had_speech);
    let i = start.onset(seen);
    assert(from == heard(seen).len() - before.segment.len());
    assert(seen.take(i) =~= blocks.take(i));
    assert forall|k: int| 0 <= k < i && #[trigger] is_speech(blocks[k]) implies heard(
        blocks.take(k + 1),
    ).len() <= from by {
        assert(seen.take(k + 1) =~= blocks.take(k + 1));
        assert(is_speech(seen[k]));
    }
    assert(speech_begins_at(blocks, from, preroll_cap, i));
}

/// So does the chunk that is handed over when the session is stopped.
pub proof fn the_last_chunk_holds_speech(
    preroll_cap: nat,
    chunk_gap: nat,
    blocks: Seq<Seq<u32>>,
)
    requires
        config::MIN_SILENCE_MS <= chunk_gap <= config::MAX_SILENCE_MS,
        Session::fresh(preroll_cap, chunk_gap).after_all(blocks).last_chunk() is Some,
    ensures
        exists|i: int| #[trigger]
            speech_begins_at(
                blocks,
                heard(blocks).len() - Session::fresh(preroll_cap, chunk_gap).after_all(
                    blocks,
                ).last_chunk()->0.len(),
                preroll_cap,
                i,
            ),
{
    let start = Session::fresh(preroll_cap, chunk_gap);
    lemma_onset(preroll_cap, chunk_gap, blocks);
    assert(speech_begins_at(
        blocks,
        heard(blocks).len() - start.after_all(blocks).last_chunk()->0.len(),
        preroll_cap,
        start.onset(blocks),
    ));
}

/// Every chunk begins as early as it may: as many samples before its first tick with
/// speech as are kept, or all that were heard since the last cut. So does the one that is
/// handed over when the session is stopped.
pub proof fn chunks_begin_as_early_as_they_may(
    preroll_cap: nat,
    chunk_gap: nat,
    blocks: Seq<Seq<u32>>,
    j: int,
)
    requires
        config::MIN_SILENCE_MS <= chunk_gap <= config::MAX_SILENCE_MS,
        0 <= j < blocks.len(),
    ensures
        ({
            let start = Session::fresh(preroll_cap, chunk_gap);
            &&& start.chunk_at(blocks, j) is Some ==> exists|i: int|
                0 <= i <= j && is_speech(blocks[i]) && start.chunk_start(blocks, j)
                    == #[trigger] earliest(start, blocks, i)
            &&& start.after_all(blocks).last_chunk() is Some ==> exists|i: int|
                0 <= i < blocks.len() && is_speech(blocks[i]) && heard(blocks).len()
                    - start.after_all(blocks).last_chunk()->0.len() == #[trigger] earliest(
                    start,
                    blocks,
                    i,
                )
        }),
{
    let start = Session::fresh(preroll_cap, chunk_gap);
    if start.chunk_at(blocks, j) is Some {
        let seen = blocks.take(j);
        lemma_onset(preroll_cap, chunk_gap, seen);
        lemma_stream(preroll_cap, chunk_gap, seen);
        assert(blocks.take(j + 1).drop_last() =~= seen);
        let i = start.onset(seen);
        assert(seen.take(i) =~= blocks.take(i));
        assert(seen[i] == blocks[i]);
        assert(start.chunk_start(blocks, j) == earliest(start, blocks, i));
    }
    if start.after_all(blocks).last_chunk() is Some {
        lemma_onset(preroll_cap, chunk_gap, blocks);
        assert(earliest(start, blocks, start.onset(blocks)) == heard(blocks).len()
            - start.after_all(blocks).last_chunk()->0.len());
    }
}

/// Stopping the session loses no speech: what was heard from a tick with speech on is in
/// a chunk that was cut, or in the one that is handed over.
pub proof fn stopping_loses_no_speech(
    preroll_cap: nat,
    chunk_gap: nat,
    blocks: Seq<Seq<u32>>,
    i: int,
)
    requires
        config::MIN_SILENCE_MS <= chunk_gap <= config::MAX_SILENCE_MS,
        0 <= i < blocks.len(),
        is_speech(blocks[i]),
    ensures
        ({
            let start = Session::fresh(preroll_cap, chunk_gap);
            let last = start.after_all(blocks).last_chunk();
            let from = heard(blocks.take(i)).len();
            ||| last is Some && reaches_back(heard(blocks), last->0, from)
            ||| exists|j: int|
                i <= j < blocks.len() && (#[trigger] start.chunk_at(blocks, j)) is Some
                    && reaches_back(
                    heard(blocks.take(j + 1)),
                    start.chunk_at(blocks, j)->0,
                    from,
                )
        }),
{
    speech_is_never_lost(preroll_cap, chunk_gap, blocks, i);
}

/// The last cut of a stream is no earlier than any cut of it.
proof fn lemma_last_cut(preroll_cap: nat, chunk_gap: nat, blocks: Seq<Seq<u32>>, i: int)
    requires
        0 <= i < blocks.len(),
        Session::fresh(preroll_cap, chunk_gap).chunk_at(blocks, i) is Some,
    ensures
        heard(blocks.take(i + 1)).len() <= Session::fresh(preroll_cap, chunk_gap).last_cut(blocks),
    decreases blocks.len(),
{
    let start = Session::fresh(preroll_cap, chunk_gap);
    let n = blocks.len() as int;
    let fewer = blocks.drop_last();
    assert(blocks.take(n) =~= blocks);
    if start.chunk_at(blocks, n - 1) is Some {
        lemma_heard_grows(blocks, i + 1, n);
    } else {
        assert(fewer.take(i) =~= blocks.take(i));
        assert(fewer.take(i + 1) =~= blocks.take(i + 1));
        assert(fewer[i] == blocks[i]);
        lemma_last_cut(preroll_cap, chunk_gap, fewer, i);
    }
}

/// Chunks come in the order in which they were spoken and share no sample: a later
/// one begins no sooner than an earlier one ends, and so does the one that is handed
/// over when the session is stopped.
pub proof fn chunks_do_not_overlap(
    preroll_cap: nat,
    chunk_gap: nat,
    blocks: Seq<Seq<u32>>,
    i: int,
    j: int,
)
    requires
        config::MIN_SILENCE_MS <= chunk_gap <= config::MAX_SILENCE_MS,
        0 <= i < blocks.len(),
        Session::fresh(preroll_cap, chunk_gap).chunk_at(blocks, i) is Some,
    ensures
        ({
            let start = Session::fresh(preroll_cap, chunk_gap);
            &&& i < j < blocks.len() && start.chunk_at(blocks, j) is Some ==> heard(
                blocks.take(i + 1),
            ).len() <= start.chunk_start(blocks, j)
            &&& start.after_all(blocks).last_chunk() is Some ==> heard(blocks.take(i + 1)).len()
                <= heard(blocks).len() - start.after_all(blocks).last_chunk()->0.len()
        }),
{
    let start = Session::fresh(preroll_cap, chunk_gap);
    if i < j < blocks.len() && start.chunk_at(blocks, j) is Some {
        let seen = blocks.take(j);
        assert(seen.take(i) =~= blocks.take(i));
        assert(seen.take(i + 1) =~= blocks.take(i + 1));
        lemma_last_cut(preroll_cap, chunk_gap, seen, i);
        chunks_are_stretches(preroll_cap, chunk_gap, blocks, j);
    }
    lemma_last_cut(preroll_cap, chunk_gap, blocks, i);
    the_last_chunk_is_a_stretch(preroll_cap, chunk_gap, blocks);
}

/// A tick with speech is in one chunk only: of two that hold its first sample, the
/// later one cannot be another, nor can it be the one that is handed over when the
/// session is stopped.
pub proof fn speech_is_in_one_chunk(
    preroll_cap: nat,
    chunk_gap: nat,
    blocks: Seq<Seq<u32>>,
    i: int,
    j: int,
    k: int,
)
    requires
        config::MIN_SILENCE_MS <= chunk_gap <= config::MAX_SILENCE_MS,
        0 <= i <= j <= k < blocks.len(),
        is_speech(blocks[i]),
        Session::fresh(preroll_cap, chunk_gap).chunk_at(blocks, j) is Some,
    ensures
        ({
            let start = Session::fresh(preroll_cap, chunk_gap);
            let from = heard(blocks.take(i)).len();
            &&& start.chunk_at(blocks, k) is Some && start.chunk_start(blocks, k) <= from ==> k
                == j
            &&& start.after_all(blocks).last_chunk() is Some ==> from < heard(blocks).len()
                - start.after_all(blocks).last_chunk()->0.len()
        }),
{
    chunks_do_not_overlap(preroll_cap, chunk_gap, blocks, j, k);
    lemma_heard_grows(blocks, i, j + 1);
}

/// A chunk is cut at the first tick at which the pause since the last speech has
/// lasted long enough, and at no other.
pub proof fn a_pause_cuts_a_chunk(
    preroll_cap: nat,
    chunk_gap: nat,
    blocks: Seq<Seq<u32>>,
    j: int,
)
    requires
        config::MIN_SILENCE_MS <= chunk_gap <= config::MAX_SILENCE_MS,
        0 <= j < blocks.len(),
    ensures
        Session::fresh(preroll_cap, chunk_gap).chunk_at(blocks, j) is Some <==> {
            let quiet = quiet_ticks(blocks.take(j + 1));
            quiet <= j && TICK_MS * (quiet - 1) < chunk_gap <= TICK_MS * quiet
        },
{
    lemma_stream(preroll_cap, chunk_gap, blocks.take(j));
    assert(blocks.take(j + 1).drop_last() =~= blocks.take(j));
}

/// A session times out when a hundred ticks in a row had no speech, and not
/// before. Then no phrase is open: all that was said has been cut into chunks.
pub proof fn silence_ends_the_session(preroll_cap: nat, chunk_gap: nat, blocks: Seq<Seq<u32>>)
    requires
        config::MIN_SILENCE_MS <= chunk_gap <= config::MAX_SILENCE_MS,
    ensures
        ({
            let session = Session::fresh(preroll_cap, chunk_gap).after_all(blocks);
            &&& session.timed_out() <==> quiet_ticks(blocks) >= 100
            &&& session.timed_out() ==> !session.had_speech && session.segment.len() == 0
        }),
{
    lemma_stream(preroll_cap, chunk_gap, blocks);
}

/// Before a phrase the session keeps the last samples that were heard since the
/// last cut, as many as it may keep, and a phrase begins with them.
pub proof fn a_phrase_begins_before_its_speech(
    preroll_cap: nat,
    chunk_gap: nat,
    blocks: Seq<Seq<u32>>,
    block: Seq<u32>,
)
    requires
        config::MIN_SILENCE_MS <= chunk_gap <= config::MAX_SILENCE_MS,
        !Session::fresh(preroll_cap, chunk_gap).after_all(blocks).had_speech,
        is_speech(block),
    ensures
        ({
            let start = Session::fresh(preroll_cap, chunk_gap);
            let session = start.after_all(blocks.push(block));
            &&& session.had_speech
            &&& session.segment == last_of(
                heard(blocks).skip(start.last_cut(blocks) as int),
                preroll_cap,
            ) + block
        }),
{
    lemma_stream(preroll_cap, chunk_gap, blocks);
    let start = Session::fresh(preroll_cap, chunk_gap);
    let before = start.after_all(blocks);
    assert(blocks.push(block).drop_last() =~= blocks);
    assert(start.after_all(blocks.push(block)) == before.after(block));
    assert(before.segment + before.preroll =~= before.preroll);
}

/// No speech is lost: what was heard from a tick with speech on is in a chunk, or
/// in the phrase that is still open.
pub proof fn speech_is_never_lost(
    preroll_cap: nat,
    chunk_gap: nat,
    blocks: Seq<Seq<u32>>,
    i: int,
)
    requires
        config::MIN_SILENCE_MS <= chunk_gap <= config::MAX_SILENCE_MS,
        0 <= i < blocks.len(),
        is_speech(blocks[i]),
    ensures
        ({
            let start = Session::fresh(preroll_cap, chunk_gap);
            let session = start.after_all(blocks);
            let from = heard(blocks.take(i)).len();
            ||| session.had_speech && reaches_back(heard(blocks), session.segment, from)
            ||| exists|j: int|
                i <= j < blocks.len() && (#[trigger] start.chunk_at(blocks, j)) is Some
                    && reaches_back(
                    heard(blocks.take(j + 1)),
                    start.chunk_at(blocks, j)->0,
                    from,
                )
        }),
    decreases blocks.len(),
{
    let start = Session::fresh(preroll_cap, chunk_gap);
    let n = blocks.len() as int;
    let fewer = blocks.drop_last();
    let block = blocks.last();
    let before = start.after_all(fewer);
    let from = heard(blocks.take(i)).len();
    lemma_stream(preroll_cap, chunk_gap, fewer);
    assert(blocks.take(n - 1) =~= fewer);
    assert(blocks.take(n) =~= blocks);
    lemma_ends_with_grows(heard(fewer), before.pending(), block);
    if i == n - 1 {
        assert(before.segment + before.preroll =~= before.preroll || before.had_speech);
        assert(start.after_all(blocks).segment =~= before.pending() + block);
    } else {
        assert(fewer.take(i) =~= blocks.take(i));
        speech_is_never_lost(preroll_cap, chunk_gap, fewer, i);
        if before.had_speech && reaches_back(heard(fewer), before.segment, from) {
            if before.hears(block).phrase_ended() {
                assert(start.chunk_at(blocks, n - 1) is Some);
                assert(start.chunk_at(blocks, n - 1)->0 =~= before.segment + block);
            } else {
                assert(start.after_all(blocks).segment =~= before.segment + block);
            }
        } else {
            let j = choose|j: int|
                i <= j < fewer.len() && (#[trigger] start.chunk_at(fewer, j)) is Some
                    && reaches_back(
                    heard(fewer.take(j + 1)),
                    start.chunk_at(fewer, j)->0,
                    from,
                );
            assert(fewer.take(j) =~= blocks.take(j));
            assert(fewer.take(j + 1) =~= blocks.take(j + 1));
            assert(start.chunk_at(blocks, j) == start.chunk_at(fewer, j));
        }
    }
}

} // verus!
