use dm_seq::MidiNotes;

#[test]
fn new_has_no_note() {
    let mut notes = MidiNotes::new();
    assert_eq!(notes.get_note(), None);
}

#[test]
fn last_pressed_note_sounds() {
    let mut notes = MidiNotes::new();
    notes.note_on(60);
    assert_eq!(notes.get_note(), Some(60));
    notes.note_on(64);
    assert_eq!(notes.get_note(), Some(64));
    notes.note_on(67);
    assert_eq!(notes.get_note(), Some(67));
}

#[test]
fn releasing_falls_back_to_last_held_note() {
    let mut notes = MidiNotes::new();
    notes.note_on(60);
    notes.note_on(64);
    notes.note_on(67);
    notes.note_off(64);
    assert_eq!(notes.get_note(), Some(67));
    notes.note_off(67);
    assert_eq!(notes.get_note(), Some(60));
    notes.note_off(60);
    assert_eq!(notes.get_note(), None);
}

#[test]
fn releasing_a_note_held_twice_takes_out_both() {
    let mut notes = MidiNotes::new();
    notes.note_on(60);
    notes.note_on(62);
    notes.note_on(60);
    notes.note_off(60);
    assert_eq!(notes.get_note(), Some(62));
}

#[test]
fn press_then_release_restores_previous_note() {
    let mut notes = MidiNotes::new();
    notes.note_on(48);
    notes.note_on(55);
    notes.note_on(72);
    notes.note_off(72);
    assert_eq!(notes.get_note(), Some(55));
}

#[test]
fn releasing_an_unheld_note_changes_nothing() {
    let mut notes = MidiNotes::new();
    notes.note_on(60);
    notes.note_off(61);
    assert_eq!(notes.get_note(), Some(60));
}

#[test]
fn sustain_defers_note_offs_until_released() {
    let mut notes = MidiNotes::new();
    notes.note_on(60);
    notes.note_on(64);
    notes.sustain(true);
    notes.note_off(64);
    notes.note_off(60);
    assert_eq!(notes.get_note(), Some(64));
    notes.sustain(false);
    assert_eq!(notes.get_note(), None);
}

#[test]
fn sustain_release_keeps_notes_still_held() {
    let mut notes = MidiNotes::new();
    notes.note_on(60);
    notes.note_on(64);
    notes.sustain(true);
    notes.note_off(64);
    notes.sustain(false);
    assert_eq!(notes.get_note(), Some(60));
}

#[test]
fn sustain_pressed_twice_defers_still() {
    let mut notes = MidiNotes::new();
    notes.note_on(60);
    notes.sustain(true);
    notes.note_off(60);
    notes.sustain(true);
    assert_eq!(notes.get_note(), Some(60));
    notes.sustain(false);
    assert_eq!(notes.get_note(), None);
}

#[test]
fn sustain_up_without_pending_notes_keeps_state() {
    let mut notes = MidiNotes::new();
    notes.note_on(60);
    notes.sustain(false);
    assert_eq!(notes.get_note(), Some(60));
}

#[test]
fn remove_notes_clears_everything() {
    let mut notes = MidiNotes::new();
    notes.note_on(60);
    notes.note_on(64);
    notes.sustain(true);
    notes.note_off(60);
    notes.remove_notes();
    assert_eq!(notes.get_note(), None);
    notes.sustain(false);
    assert_eq!(notes.get_note(), None);
    notes.note_on(70);
    assert_eq!(notes.get_note(), Some(70));
}
