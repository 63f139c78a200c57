# dm_seq

The logic of dm-Seq, a monophonic MIDI step sequencer, as a Verus library.

- `src/midi_notes.rs`: last-note priority bookkeeping of held notes with a sustain pedal.
- `src/midi.rs`: the MIDI messages the sequencer sends, as plain numbers, and the range
  checks of the `wmidi` crate that guard them.
- `src/event_queue.rs`: the queue of timed MIDI events: scheduling, retriggering and legato,
  triggered notes, and handing out each audio block's events.
- `src/sequencer.rs`: the step sequencer's state: stepping, the step orders (forward, reverse,
  alternating, pendulum, random, shuffled, random walk, either way), transport stop and MIDI
  panic.
- `src/random.rs`: the calls into `fastrand`.
- `app/`: the LV2 plugin around the library: ports, host time position, the floating-point
  timing of steps, and MIDI output.
