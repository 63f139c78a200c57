use dm_seq::{BrownianMove, DmSeq, MidiMessage, NextStep, SequencerData};

fn data() -> SequencerData {
    let mut notes = [0u8; 16];
    let mut velocities = [0u8; 16];
    let mut channels = [0u8; 16];
    for i in 0..16 {
        notes[i] = 60 + i as u8;
        velocities[i] = 100;
        channels[i] = (i % 4) as u8;
    }
    SequencerData { notes, velocities, channels, gates: [true; 16] }
}

fn play(seq: &mut DmSeq, order: u8, steps: usize, offset: usize, n: usize) -> Vec<usize> {
    let d = data();
    (0..n)
        .map(|_| {
            seq.resolve_next_step(steps, offset, order, &d, || BrownianMove::Forward, |_| true)
                .step
        })
        .collect()
}

#[test]
fn new_sequencer_stands_before_the_first_step() {
    let seq = DmSeq::new();
    assert_eq!(seq.current_step(), 15);
    assert_eq!(seq.next_step_frame(), 0);
}

#[test]
fn forward_order_cycles() {
    let mut seq = DmSeq::new();
    assert_eq!(play(&mut seq, 0, 4, 0, 9), vec![0, 1, 2, 3, 0, 1, 2, 3, 0]);
}

#[test]
fn unknown_order_plays_forward() {
    let mut seq = DmSeq::new();
    assert_eq!(play(&mut seq, 9, 3, 0, 4), vec![0, 1, 2, 0]);
}

#[test]
fn step_offset_shifts_within_the_count() {
    let mut seq = DmSeq::new();
    assert_eq!(play(&mut seq, 0, 4, 2, 5), vec![2, 3, 0, 1, 2]);
}

#[test]
fn reverse_order_plays_backwards() {
    let mut seq = DmSeq::new();
    assert_eq!(play(&mut seq, 1, 4, 0, 6), vec![3, 2, 1, 0, 3, 2]);
}

#[test]
fn alternate_order_changes_direction_each_pass() {
    let mut seq = DmSeq::new();
    assert_eq!(
        play(&mut seq, 2, 4, 0, 12),
        vec![0, 1, 2, 3, 3, 2, 1, 0, 0, 1, 2, 3]
    );
}

#[test]
fn pendulum_order_goes_back_and_forth() {
    let mut seq = DmSeq::new();
    assert_eq!(
        play(&mut seq, 3, 4, 0, 12),
        vec![1, 2, 3, 2, 1, 0, 1, 2, 3, 2, 1, 0]
    );
}

#[test]
fn random_order_stays_within_the_count() {
    let mut seq = DmSeq::new();
    for s in play(&mut seq, 4, 5, 0, 200) {
        assert!(s < 5);
    }
}

#[test]
fn shuffle_orders_play_each_step_once_per_pass() {
    for order in [5u8, 6u8] {
        let mut seq = DmSeq::new();
        seq.initialize(6);
        let steps = play(&mut seq, order, 6, 0, 60);
        for pass in steps.chunks(6) {
            let mut sorted = pass.to_vec();
            sorted.sort();
            assert_eq!(sorted, vec![0, 1, 2, 3, 4, 5]);
        }
    }
}

#[test]
fn reshuffling_order_never_repeats_a_step_across_passes() {
    let mut seq = DmSeq::new();
    seq.initialize(5);
    let steps = play(&mut seq, 6, 5, 0, 100);
    for i in 1..20 {
        assert_ne!(steps[5 * i - 1], steps[5 * i]);
    }
}

#[test]
fn shuffle_with_one_step_stays_on_it() {
    let mut seq = DmSeq::new();
    assert_eq!(play(&mut seq, 5, 1, 0, 3), vec![0, 0, 0]);
    let mut seq = DmSeq::new();
    assert_eq!(play(&mut seq, 6, 1, 0, 3), vec![0, 0, 0]);
}

#[test]
fn brownian_moves_as_drawn() {
    let d = data();
    let mut seq = DmSeq::new();
    let first = seq.resolve_next_step(4, 0, 7, &d, || BrownianMove::Forward, |_| true);
    assert_eq!(first.step, 0);
    let stay = seq.resolve_next_step(4, 0, 7, &d, || BrownianMove::Stay, |_| true);
    assert_eq!(stay.step, 0);
    let forward = seq.resolve_next_step(4, 0, 7, &d, || BrownianMove::Forward, |_| true);
    assert_eq!(forward.step, 1);
    let back = seq.resolve_next_step(4, 0, 7, &d, || BrownianMove::Back, |_| true);
    assert_eq!(back.step, 0);
    let back = seq.resolve_next_step(4, 0, 7, &d, || BrownianMove::Back, |_| true);
    assert_eq!(back.step, 3);
}

#[test]
fn either_way_order_keeps_direction_within_a_pass() {
    let mut seq = DmSeq::new();
    let steps = play(&mut seq, 8, 4, 0, 40);
    for pass in steps.chunks(4) {
        assert!(pass == [0, 1, 2, 3] || pass == [3, 2, 1, 0]);
    }
}

#[test]
fn next_step_carries_the_step_settings() {
    let d = data();
    let mut seq = DmSeq::new();
    seq.resolve_next_step(8, 0, 0, &d, || BrownianMove::Forward, |_| true);
    let next = seq.resolve_next_step(8, 0, 0, &d, || BrownianMove::Forward, |_| true);
    assert_eq!(
        next,
        NextStep { note: 61, velocity: 100, channel: 1, step: 1, is_note_on: true }
    );
}

#[test]
fn note_sounds_only_with_velocity_gate_and_chance() {
    let mut d = data();
    d.velocities[0] = 0;
    d.gates[1] = false;
    let mut seq = DmSeq::new();
    let s0 = seq.resolve_next_step(4, 0, 0, &d, || BrownianMove::Forward, |_| true);
    assert!(!s0.is_note_on);
    let s1 = seq.resolve_next_step(4, 0, 0, &d, || BrownianMove::Forward, |_| true);
    assert!(!s1.is_note_on);
    let s2 = seq.resolve_next_step(4, 0, 0, &d, || BrownianMove::Forward, |_| false);
    assert!(!s2.is_note_on);
    let s3 = seq.resolve_next_step(4, 0, 0, &d, || BrownianMove::Forward, |s| s == 3);
    assert!(s3.is_note_on);
}

#[test]
fn transport_stop_restarts_at_the_first_step() {
    let d = data();
    let mut seq = DmSeq::new();
    play(&mut seq, 0, 8, 0, 3);
    seq.schedule_note(0, 60, 100, 30, 10, false);
    seq.set_next_step_frame(512);
    seq.handle_transport_stopped();
    assert_eq!(seq.current_step(), 15);
    assert_eq!(seq.next_step_frame(), 0);
    assert_eq!(
        seq.pop_block_events(1),
        vec![(0, MidiMessage::NoteOff(0, 60, 100))]
    );
    let next = seq.resolve_next_step(8, 0, 0, &d, || BrownianMove::Forward, |_| true);
    assert_eq!(next.step, 0);
}

#[test]
fn midi_panic_turns_everything_off_on_every_channel() {
    let seq = DmSeq::new();
    let messages = seq.midi_panic();
    assert_eq!(messages.len(), 48);
    for ch in 0..16u8 {
        let i = 3 * ch as usize;
        assert_eq!(messages[i], MidiMessage::ControlChange(ch, 64, 0));
        assert_eq!(messages[i + 1], MidiMessage::ControlChange(ch, 123, 0));
        assert_eq!(messages[i + 2], MidiMessage::ControlChange(ch, 120, 0));
    }
}

#[test]
fn set_shuffled_steps_keeps_every_step() {
    let mut seq = DmSeq::new();
    seq.set_shuffled_steps(16, false);
    let steps = play(&mut seq, 5, 16, 0, 16);
    let mut sorted = steps.clone();
    sorted.sort();
    assert_eq!(sorted, (0..16).collect::<Vec<usize>>());
    seq.set_shuffled_steps(3, true);
    seq.set_shuffled_steps(3, true);
}

#[test]
fn shuffle_changes_the_order() {
    let mut seq = DmSeq::new();
    let steps = play(&mut seq, 5, 16, 0, 160);
    let natural: Vec<usize> = (0..16).collect();
    assert!(steps.chunks(16).any(|pass| pass != natural.as_slice()));
}

#[test]
fn reordering_accepts_more_steps_than_sixteen() {
    let mut seq = DmSeq::new();
    assert_eq!(seq.map_current_step_to_reordered_step(0, 40, || BrownianMove::Forward), 15);
    assert_eq!(seq.map_current_step_to_reordered_step(1, 20, || BrownianMove::Forward), 4);
    assert_eq!(seq.current_step(), 15);
}

#[test]
fn pendulum_steps_are_neighbours() {
    let mut seq = DmSeq::new();
    let steps = play(&mut seq, 3, 7, 0, 50);
    for w in steps.windows(2) {
        assert_eq!(w[0].abs_diff(w[1]), 1);
    }
}

#[test]
fn sequencer_queue_methods_reach_the_event_queue() {
    let mut seq = DmSeq::new();
    seq.schedule_triggered_note(1, 50, 90, true, false);
    assert!(seq.schedule_fits(0, 60, 0, 10, false));
    assert!(!seq.schedule_fits(0, 60, i64::MAX, 1, false));
    seq.schedule_note(0, 60, 100, 2, 10, false);
    assert_eq!(
        seq.pop_block_events(4),
        vec![(0, MidiMessage::NoteOn(1, 50, 90)), (2, MidiMessage::NoteOn(0, 60, 100))]
    );
    seq.clear_events();
    assert_eq!(seq.pop_block_events(100), vec![]);
}

#[test]
fn largest_step_offset_is_accepted() {
    let d = data();
    let mut seq = DmSeq::new();
    let next = seq.resolve_next_step(4, usize::MAX - 3, 0, &d, || BrownianMove::Forward, |_| true);
    assert_eq!(next.step, (usize::MAX - 3) % 4);
}
