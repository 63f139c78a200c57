use vstd::prelude::*;

verus! {

/// The MIDI messages that the sequencer sends, with their data as plain numbers:
/// the channel as its index (0 to 15), then the note or controller number, then
/// the velocity or controller value (each 0 to 127).
#[derive(Clone, Copy, Debug, PartialEq, Eq, Structural)]
pub enum MidiMessage {
    NoteOn(u8, u8, u8),
    NoteOff(u8, u8, u8),
    ControlChange(u8, u8, u8),
}

/// Checks a channel index with `wmidi::Channel::from_index` and gives back the index
/// of the channel it made (`Channel::index`). wmidi's source maps 0 to 15 to the
/// channels Ch1 to Ch16, and `index` maps them back; every other index is an error.
#[verifier::external_body]
pub(crate) fn checked_channel(index: u8) -> (r: Option<u8>)
    ensures
        r == (if index < 16 { Some(index) } else { None::<u8> }),
{
    match wmidi::Channel::from_index(index) {
        Ok(channel) => Some(channel.index()),
        Err(_) => None,
    }
}

/// Checks a note number with `wmidi::Note::try_from` and gives back its number
/// (`u8::from`). wmidi's source accepts 0 to 127 and refuses anything above.
#[verifier::external_body]
pub(crate) fn checked_note(note: u8) -> (r: Option<u8>)
    ensures
        r == (if note < 128 { Some(note) } else { None::<u8> }),
{
    match wmidi::Note::try_from(note) {
        Ok(n) => Some(u8::from(n)),
        Err(_) => None,
    }
}

/// Checks a 7-bit data byte (a velocity, a controller number or a controller value)
/// with `wmidi::U7::try_from` and gives back its value (`u8::from`). wmidi's source
/// accepts 0 to 127 and refuses anything above.
#[verifier::external_body]
pub(crate) fn checked_data_byte(value: u8) -> (r: Option<u8>)
    ensures
        r == (if value < 128 { Some(value) } else { None::<u8> }),
{
    match wmidi::U7::try_from(value) {
        Ok(v) => Some(u8::from(v)),
        Err(_) => None,
    }
}

/// The value of `wmidi::Velocity::MIN`, which wmidi's source defines as `U7(0x00)`.
#[verifier::external_body]
pub(crate) fn min_velocity() -> (r: u8)
    ensures
        r == 0,
{
    u8::from(wmidi::Velocity::MIN)
}

} // verus!
