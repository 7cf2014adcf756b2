//! An acoustic packet modem.
//!
//! A payload is framed, modulated onto a carrier and sent behind a chirp; a receiver finds the
//! chirp, recovers the symbol timing, equalizes the channel and checks the frame.
//!
//! - [`frame`]: bytes, bits and the checksum of a packet.
//! - [`bpsk`], [`pulse`], [`carrier`], [`chirp`], [`equalizer`]: the stages of the signal path.
//! - [`tx`], [`rx`]: both ends of the signal path.
//! - [`spectrogram`], [`wav`]: pictures and files of signals.
//! - [`capture`], [`playback`], [`monitor`]: the rules of live audio and of its display.
//! - [`arith`], [`formula`]: the number system that all of it computes in, and what is said of it.
//! - [`determinism`]: what comes out the same in every run.
//! - [`exact`]: arithmetic without rounding, in which the laws of the signal path are stated.
//! - [`operation_laws`]: what each operation returns there; it draws on [`signal_laws`],
//!   [`shape_laws`], [`learning_laws`], [`receiver_laws`], [`reception_laws`], [`stream_laws`],
//!   [`measure_laws`], [`picture_laws`] and [`wire_laws`].
//! - [`config`], [`text`], [`order`]: settings, numbers in messages, and sorting.

pub mod arith;
pub mod bpsk;
pub mod capture;
pub mod carrier;
pub mod chirp;
pub mod config;
pub mod determinism;
pub mod equalizer;
pub mod exact;
pub mod formula;
pub mod frame;
pub mod learning_laws;
pub mod measure_laws;
pub mod monitor;
pub mod operation_laws;
pub mod order;
pub mod picture_laws;
pub mod playback;
pub mod pulse;
pub mod receiver_laws;
pub mod reception_laws;
pub mod rx;
pub mod shape_laws;
pub mod signal_laws;
pub mod spectrogram;
pub mod stream_laws;
pub mod text;
pub mod tx;
pub mod wav;
pub mod wire_laws;

pub use arith::{Arithmetic, Fourier};
pub use config::{Config, Modulation};
pub use frame::FrameError;
pub use rx::{decode_samples, decode_samples_traced, DecodeError, DecodeTrace};
pub use spectrogram::stft;
pub use tx::encode_samples;
