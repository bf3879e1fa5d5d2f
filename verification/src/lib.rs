//! Audio-reactive raster visualizer, modeled in fixed-point arithmetic.
//!
//! Audio samples arrive from a capture device, pass through a bounded
//! producer/consumer channel, are analyzed in the frequency domain, reduced
//! to band energies, smoothed into control parameters, and rendered as a
//! raster (an escape-time fractal or a scrolling spectrogram). All core
//! numeric work is done on fixed-point integers so that every step carries a
//! proved contract: amplitudes and trigonometric values are Q15 (32768 is
//! one), complex coordinates are Q16, angles are 1/65536 of a turn.

pub mod bands;
pub mod engine;
pub mod channel;
pub mod fixed;
pub mod modulator;
pub mod raster;
pub mod spectrum;
pub mod utils;
