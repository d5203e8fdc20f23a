//! Lossy compression of audio waveforms and bitmap images by discarding
//! high-frequency content in the Fourier domain.
//!
//! The core is a radix-2 Cooley-Tukey transform over complex samples, a
//! separable two-dimensional variant of it, power-of-two size normalization
//! that exactly inverts itself, and the binary record formats the two codecs
//! emit.

pub mod audio;
pub mod bmp;
pub mod bytes;
pub mod common;
pub mod complex;
pub mod fft;
pub mod wav;

