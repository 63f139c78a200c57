//! A monophonic step sequencer: the bookkeeping of held notes, the queue of
//! timed MIDI events and the step order logic, with their contracts.
pub mod event_queue;
pub mod midi;
pub mod midi_notes;
mod random;
pub mod sequencer;

pub use event_queue::{EventQueue, MidiEvent};
pub use midi::MidiMessage;
pub use midi_notes::MidiNotes;
pub use sequencer::{BrownianMove, DmSeq, NextStep, SequencerData};
