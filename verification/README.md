# sequencer

The verified core of a small generative synthesizer:

- `time_queue`: events keyed by time in a binary heap whose order is a type
  invariant; `advance` hands out the earliest event exactly when it is due,
  and draining at a time gives every due event in time order.
- `time_key`: the integer key under which a single-precision time is queued,
  ordering times as numbers with every NaN last.
- `generator`: the stack machine of the melody generator, which varies and
  pushes sections until it unwinds and plays them back.
- `playback`: the sample counter that paces pitch changes, and the filling of
  an output frame.

`app/` holds the audio program around it: floating-point synthesis, the cpal
output stream, and the variations of a section.
