# VoiceTyper

Voice typing for Windows. Press `Ctrl`+`Win`, speak, and clean text lands in the
focused app. Speech is transcribed by Groq's Whisper endpoint.

The library under `src/` holds what the program decides and computes, verified
with Verus: when the hotkey fires, where a recording is cut into phrases, the
signal processing down to the last bit, the WAV file, the request and what its
answer means, the steps of pasting text and giving the clipboard back, the
settings, and the tray icon. The program under `app/` is the ordinary Rust around
it: microphone, keyboard hook, clipboard, network, tray and settings window.

Samples are held as the bit patterns of single-precision numbers. `src/single.rs`
defines and implements their arithmetic in integers, so that loudness, downmixing,
resampling and quantisation are stated exactly: each operation gives the
representable number nearest to the exact result. The sign of zero and the bits of
a NaN are left open.

WAV files are written by `hound`; its three calls in `src/wav.rs` are the only
ones whose contracts are trusted.

## Modes

- **Hands-free**: each phrase is typed after a pause; the session ends when the
  keys are pressed again, or after ten seconds of silence.
- **Toggle**: press to start, press to stop; the whole utterance is transcribed at
  once.

The tray icon is blue when idle, red when listening and amber when processing. It
flashes red when a recording came to nothing. One that is shorter than 0.3 seconds is
taken for an accident and dropped.
Settings are kept in `%APPDATA%\VoiceTyper\config.toml`; changes apply on the next
press. The pause that ends a phrase is between 0.5 and 5 seconds.
