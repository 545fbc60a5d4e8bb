# harvest_rs

Estimates the fundamental frequency (F0) of a voice over time with the Harvest
method: band-pass filters an octave range into channels, reads candidates off their
zero crossings, refines the candidates by the instantaneous frequency of their
harmonics, and draws one smooth contour along them.

- `src/` is the library, verified with Verus. Every algorithm is generic over a
  number type (`scalar::Scalar`), and its contract says which operations are applied
  to which operands in which order. `estimator::harvest` is the entry point. The
  transforms between signals and spectra, and the way in which channels and frames
  are spread over threads, are handed in by the caller; `success::harvest_in_turn`
  does without threads. `outcome` and `success` hold the laws on the whole: that the
  transforms alone decide the result, and when there is one.
- `app/` is the program around it: hardware floats as a number type, transforms by
  `realfft`, threads by `rayon`, audio files by `aus`, and Python bindings.
- `tests/` runs the library on concrete values, from single formulas to the
  estimation of a synthetic tone.
