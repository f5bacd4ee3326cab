# radix_spline

A learned index over sorted `u64` keys (RadixSpline: a single-pass learned
index). Keys are fed in order to a `RadixSplineBuilder`; the `RadixSpline` it
builds answers, for a key, the range of positions in which to look for it.

The library is written in Verus and verified.

## Layout

- `src/shift.rs`: the radix shift for a key range (`num_shift_bits`).
- `src/orientation.rs`: exact orientation of two integer vectors, with
  products up to 132 bits computed in two halves.
- `src/corridor.rs`: the greedy spline corridor as a function of the keys,
  its invariant, and the proof that each segment stays within the error bound
  of every key it spans. The spline is closed at the first position of the
  largest key, where the corridor ends.
- `src/radix.rs`: key prefixes and what a radix table entry means.
- `src/builder.rs`: the builder; each step is proved to follow the corridor
  and to keep the radix table right.
- `src/spline.rs`: the finished spline, its segment lookup through the radix
  table, the position estimate and `find`, with the laws that tie them to the
  keys: every key lies in the range `find` gives for it, and the estimate
  and the range grow with the key.
- `app/lib.rs`: the C interface (raw pointers, `extern "C"`).

## Arithmetic

Spline positions and error bounds are integers, and the corridor's
orientation tests are decided exactly. The position estimate is the
interpolation between two spline points, rounded down, which is all the search
range depends on.
