use dm_seq::{EventQueue, MidiMessage};

fn on(ch: u8, n: u8, v: u8) -> MidiMessage {
    MidiMessage::NoteOn(ch, n, v)
}

fn off(ch: u8, n: u8, v: u8) -> MidiMessage {
    MidiMessage::NoteOff(ch, n, v)
}

#[test]
fn new_queue_is_empty() {
    let mut q = EventQueue::new();
    assert_eq!(q.pop_block_events(1024), vec![]);
}

#[test]
fn push_keeps_events_in_time_order_and_stable() {
    let mut q = EventQueue::new();
    q.push(10, on(0, 60, 100));
    q.push(5, on(0, 61, 100));
    q.push(10, on(0, 62, 100));
    q.push(0, on(0, 63, 100));
    assert_eq!(
        q.pop_block_events(20),
        vec![
            (0, on(0, 63, 100)),
            (5, on(0, 61, 100)),
            (10, on(0, 60, 100)),
            (10, on(0, 62, 100)),
        ]
    );
}

#[test]
fn pop_block_events_counts_down_later_events() {
    let mut q = EventQueue::new();
    q.push(100, on(1, 60, 90));
    q.push(3, off(1, 59, 90));
    assert_eq!(q.pop_block_events(64), vec![(3, off(1, 59, 90))]);
    assert_eq!(q.pop_block_events(64), vec![(36, on(1, 60, 90))]);
    assert_eq!(q.pop_block_events(64), vec![]);
}

#[test]
fn event_due_at_block_size_waits_for_next_block() {
    let mut q = EventQueue::new();
    q.push(64, on(0, 60, 100));
    assert_eq!(q.pop_block_events(64), vec![]);
    assert_eq!(q.pop_block_events(64), vec![(0, on(0, 60, 100))]);
}

#[test]
fn event_due_at_i64_max_is_dropped_by_an_empty_block() {
    let mut q = EventQueue::new();
    q.push(i64::MAX, on(0, 60, 100));
    assert_eq!(q.pop_block_events(0), vec![]);
    assert_eq!(q.pop_block_events(i64::MAX), vec![]);
}

#[test]
fn schedule_note_queues_note_on_and_note_off() {
    let mut q = EventQueue::new();
    q.schedule_note(2, 60, 100, 4, 10, false);
    assert_eq!(
        q.pop_block_events(32),
        vec![(4, on(2, 60, 100)), (14, off(2, 60, 100))]
    );
}

#[test]
fn schedule_note_retriggers_outside_legato() {
    let mut q = EventQueue::new();
    q.schedule_note(0, 60, 100, 0, 10, false);
    assert_eq!(q.pop_block_events(1), vec![(0, on(0, 60, 100))]);
    q.schedule_note(0, 60, 80, 5, 10, false);
    assert_eq!(
        q.pop_block_events(32),
        vec![(0, off(0, 60, 100)), (5, on(0, 60, 80)), (15, off(0, 60, 80))]
    );
}

#[test]
fn schedule_note_leaves_other_notes_alone() {
    let mut q = EventQueue::new();
    q.schedule_note(0, 60, 100, 0, 10, false);
    q.schedule_note(0, 62, 100, 2, 3, false);
    assert_eq!(
        q.pop_block_events(32),
        vec![
            (0, on(0, 60, 100)),
            (2, on(0, 62, 100)),
            (5, off(0, 62, 100)),
            (10, off(0, 60, 100)),
        ]
    );
}

#[test]
fn schedule_note_extends_in_legato() {
    let mut q = EventQueue::new();
    q.schedule_note(0, 60, 100, 0, 10, true);
    assert_eq!(q.pop_block_events(1), vec![(0, on(0, 60, 100))]);
    q.schedule_note(0, 60, 100, 5, 10, true);
    assert_eq!(q.pop_block_events(32), vec![(19, off(0, 60, 100))]);
}

#[test]
fn schedule_note_in_legato_without_queued_note_off_strikes() {
    let mut q = EventQueue::new();
    q.schedule_note(3, 40, 1, 0, 2, true);
    assert_eq!(
        q.pop_block_events(8),
        vec![(0, on(3, 40, 1)), (2, off(3, 40, 1))]
    );
}

#[test]
fn stop_all_notes_sends_note_offs_now_and_drops_the_rest() {
    let mut q = EventQueue::new();
    q.schedule_note(0, 60, 100, 20, 10, false);
    q.schedule_note(1, 62, 90, 40, 10, false);
    q.push(7, MidiMessage::ControlChange(0, 64, 0));
    q.stop_all_notes();
    assert_eq!(
        q.pop_block_events(1),
        vec![(0, off(0, 60, 100)), (0, off(1, 62, 90))]
    );
}

#[test]
fn clear_empties_the_queue() {
    let mut q = EventQueue::new();
    q.schedule_note(0, 60, 100, 0, 10, false);
    q.clear();
    assert_eq!(q.pop_block_events(100), vec![]);
}

#[test]
fn triggered_notes_end_the_previous_one() {
    let mut q = EventQueue::new();
    q.schedule_triggered_note(0, 60, 100, true, false);
    assert_eq!(q.pop_block_events(1), vec![(0, on(0, 60, 100))]);
    q.schedule_triggered_note(0, 62, 90, true, false);
    assert_eq!(
        q.pop_block_events(1),
        vec![(0, off(0, 60, 0)), (0, on(0, 62, 90))]
    );
    q.schedule_triggered_note(0, 64, 90, false, false);
    assert_eq!(q.pop_block_events(1), vec![(0, off(0, 62, 0))]);
    q.schedule_triggered_note(0, 64, 90, false, false);
    assert_eq!(q.pop_block_events(1), vec![]);
}

#[test]
fn triggered_note_in_legato_keeps_the_sounding_note() {
    let mut q = EventQueue::new();
    q.schedule_triggered_note(5, 60, 100, true, true);
    assert_eq!(q.pop_block_events(1), vec![(0, on(5, 60, 100))]);
    q.schedule_triggered_note(5, 60, 100, true, true);
    assert_eq!(q.pop_block_events(1), vec![]);
    q.schedule_triggered_note(5, 61, 100, true, true);
    assert_eq!(
        q.pop_block_events(1),
        vec![(0, off(5, 60, 0)), (0, on(5, 61, 100))]
    );
}

#[test]
fn triggered_note_retriggers_outside_legato() {
    let mut q = EventQueue::new();
    q.schedule_triggered_note(0, 60, 100, true, false);
    q.schedule_triggered_note(0, 60, 100, true, false);
    assert_eq!(
        q.pop_block_events(1),
        vec![(0, on(0, 60, 100)), (0, off(0, 60, 0)), (0, on(0, 60, 100))]
    );
}

#[test]
fn a_block_loses_no_event() {
    let mut q = EventQueue::new();
    for t in [0i64, 7, 63, 64, 65, 200, -3] {
        q.push(t, on(0, 60, 1));
    }
    let first = q.pop_block_events(64);
    assert_eq!(first.len(), 4);
    let second = q.pop_block_events(1000);
    assert_eq!(second, vec![(0, on(0, 60, 1)), (1, on(0, 60, 1)), (136, on(0, 60, 1))]);
}

#[test]
fn splitting_a_block_changes_nothing() {
    let fill = |q: &mut EventQueue| {
        for (t, n) in [(0i64, 60u8), (5, 61), (9, 62), (10, 63), (31, 64), (40, 65)] {
            q.push(t, on(0, n, 1));
        }
    };
    let mut split = EventQueue::new();
    let mut whole = EventQueue::new();
    fill(&mut split);
    fill(&mut whole);
    let mut first = split.pop_block_events(10);
    let second = split.pop_block_events(22);
    first.extend(second.into_iter().map(|(t, m)| (t + 10, m)));
    assert_eq!(first, whole.pop_block_events(32));
    assert_eq!(split.pop_block_events(100), whole.pop_block_events(100));
}
