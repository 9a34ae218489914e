//! Verified core of the Clippy clip editor and replay buffer: command-line
//! planning for ffmpeg, the game allowlist, the replay coordinator's worker
//! bookkeeping, buffer trimming, storage pruning and the small text and time
//! routines they share.

pub mod text;
pub mod waveform;
pub mod diag;
pub mod encoder_cascade;
pub mod export;
pub mod extract;
pub mod ffmpeg;
pub mod frame;
pub mod helpers;
pub mod media;
pub mod probe;
pub mod replay;
pub mod selftest;
pub mod state;
pub mod storage;
