//! VoiceTyper: press Ctrl+Win, speak, and clean text lands in the focused app.
//!
//! The library decides; the program around it records, sends and types.
//!
//! - [`hotkey`]: which key events fire the hotkey.
//! - [`worker`]: what a press leads to, and what the tray shows.
//! - [`dictation`]: where a recording is cut, and what becomes of a chunk.
//! - [`audio`]: loudness, downmixing, resampling and encoding.
//! - [`sample`], [`single`]: the single-precision arithmetic under it.
//! - [`resampling`]: what comes out of resampling, against the exact rates.
//! - [`accuracy`]: how far its results are from the exact ones.
//! - [`wav`]: the file that is uploaded.
//! - [`transcribe`]: the request for a transcript, and the answer.
//! - [`inject`]: how text is typed into the focused window.
//! - [`config`], [`settings`]: the settings, their file and their form.
//! - [`tray`]: the tray icon.
//! - [`text`]: white space around text.

pub mod accuracy;
pub mod audio;
pub mod config;
pub mod dictation;
pub mod hotkey;
pub mod inject;
pub mod resampling;
pub mod sample;
pub mod settings;
pub mod single;
pub mod text;
pub mod transcribe;
pub mod tray;
pub mod wav;
pub mod worker;
