//! Estimation of the fundamental frequency of a voice by the Harvest method.
//!
//! The input is first brought to a rate of about 8000 samples per second
//! ([`decimate`], [`waveform`]) and split into channels by band-pass filters
//! ([`spectrum`]). The zero crossings of each channel suggest a contour
//! ([`crossing`], [`interpolation`]), and runs of channels that agree give each
//! frame its candidates ([`candidates`]). Candidates are refined by the phase of
//! their harmonics ([`refine`]); the contour is then drawn along them ([`sections`],
//! [`contour`], [`extension`], [`merging`]) and smoothed ([`smoothing`]).
//! [`analysis`] holds one such analysis, [`harvest`] its sizes and its end, and
//! [`estimator`] runs it as a whole; [`outcome`] states that the result depends on
//! the transforms alone, and [`success`] when there is one. [`batch`] is about
//! recordings and arrays.
//!
//! All of it is written over the number type [`scalar::Scalar`], and the transforms
//! between signals and spectra are handed in as functions. [`fixed`] is a number type
//! of this kind, and [`fixed_laws`] shows of it what the other modules ask of numbers.
//!
//! What the steps are for is stated in laws. [`pipeline_laws`] follows the options and
//! the signal through an analysis, and [`filter_laws`] is about the low-pass filters;
//! [`exact_laws`], [`channel_laws`], [`window_laws`] and [`contour_laws`] say what each
//! step comes to where numbers are read exactly ([`scalar::exact`]). [`number_laws`] says
//! how near to that fixed-point numbers are.
pub mod analysis;
pub mod basics;
pub mod batch;
pub mod candidates;
pub mod channel_laws;
pub mod contour;
pub mod contour_laws;
pub mod crossing;
pub mod decimate;
pub mod estimator;
pub mod exact_laws;
pub mod extension;
pub mod filter_laws;
pub mod fixed;
pub mod fixed_laws;
pub mod harvest;
pub mod interpolation;
pub mod merging;
pub mod number_laws;
pub mod outcome;
pub mod pipeline_laws;
pub mod refine;
pub mod scalar;
pub mod sections;
pub mod smoothing;
pub mod spectrum;
pub mod success;
pub mod waveform;
pub mod window_laws;
