# Aether

Aether ingests live ADS-B aircraft broadcasts, maintains a filtered track picture, and
screens every pair of tracks for closest approach against separation minima. The library
in `src/` is verified with [Verus](https://github.com/verus-lang/verus); the program in
`app/` puts a socket, a clock and a screen around it.

## Layout

| path | what it holds |
| ---- | ------------- |
| `src/double/` | IEEE 754 binary64 arithmetic on integers: sums, products, quotients and roots rounded to the nearest double, reading and writing decimal text, and the facts about order and signs that rounding leaves true |
| `src/clock.rs` | spans and instants to the nanosecond |
| `src/text.rs`, `src/order.rs` | text by the character; stable sorting |
| `src/config.rs` | assignments in a text, read into typed settings |
| `src/ingest/` | contacts, sensor health, the bounded response body, the decoding of ADS-B records |
| `src/geo.rs` | WGS84 to a local East/North/Up frame and back |
| `src/kalman.rs` | one axis of the constant-velocity estimator |
| `src/track.rs`, `src/batches.rs` | tracks, association, gating, ageing; what does not matter about batches |
| `src/exact/` | what geometry and estimator promise in exact arithmetic |
| `src/approach.rs` | when two constant-velocity states come inside the separation minima |
| `src/conjunction.rs` | conjunctions of pairs, and the screen over all of them |
| `src/ffi.rs` | the closed form of the closest approach for a caller with a C interface |
| `src/render.rs` | cycle telemetry and the text of the operator picture |
| `src/engine.rs` | one cycle of the tracker task |
| `app/` | `main`, HTTP, JSON, standard output, raw pointers, sines and arctangents |
| `tests/` | what the library does on concrete values |

## What is proved

Every executable function has a contract that fixes its result, down to the last bit where
the result is a number and to the last character where it is a text. The estimator needs
arithmetic that gives the same answer on every target and that a proof can speak about, so
doubles are held by their bit patterns and computed with integers; each operation is
specified as "the double nearest to the exact result".

Beside the contracts stand laws, in functions named `law_...`. Among them:

- a plot that did not arrive before the batch that the filter holds is superseded exactly if
  the age of the filter at its arrival, less the age of the plot, is not positive; then it
  changes nothing but the count of such plots;
- at the arrival of its batch, an observation is as old as was reported;
- a gated plot still coasts its track, and is no evidence for it;
- coasting a well-posed filter (variances, covariances and noise finite and not negative)
  never narrows an uncertainty as long as the cube of the time step is finite, and the
  longer it coasts the wider it gets;
- measuring with a well-posed filter and a positive innovation variance never widens the
  uncertainty of position, nor that of velocity where the gain is finite, and leaves the
  filter well posed exactly if it takes off no more than is there;
- a store with finite noise that is not negative, and a positive variance, holds well-posed
  tracks, as long as rounding spoils none: a covariance that overflows, or a measurement
  variance that is lost against that of the position;
- a view is the estimate carried forward along its velocity, and views of a well-posed track
  at later instants are no more certain, as long as the cube of the time is finite;
- there is one track per identity, and every contact of a batch comes to exactly one thing;
- a batch may be cut anywhere, and the order of contacts with different identities does not
  matter;
- a pair alerts exactly if it is inside both minima at some moment from now to the horizon,
  and the order of a pair does not matter;
- a pair that is inside both minima now, and moves at a finite speed, alerts;
- in exact arithmetic, the quotient that gives the time of approach minimises separation, the
  rotation into a frame keeps distances and its transpose undoes it, two steps of the
  estimator make one, and two measurements commute;
- the screen lists all conjunctions of firm pairs and nothing else, the soonest first and
  then the tightest;
- over any number of polls, faults are failed polls, and never more than the polls;
- a response body never holds more than its limit;
- a contact has an identity and a position, and no number in it can poison a filter.

## What is not

Sines, cosines and arctangents come from the platform, whose precision nothing promises.
Functions that need one take it as an argument. Besides that the proofs rest on one
assumption about the standard library: that `String::push` puts a character at the end.

Preconditions leave out a counter about to overflow, and a sum of cycle times that no
duration holds.
