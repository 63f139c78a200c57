use std::collections::VecDeque;
use vstd::prelude::*;

use crate::midi::{checked_channel, checked_data_byte, checked_note, min_velocity, MidiMessage};

verus! {

/// A MIDI message that is due in `samples_until` samples.
#[derive(Clone, Copy, Debug, PartialEq, Eq, Structural)]
pub struct MidiEvent {
    pub samples_until: i64,
    pub data: MidiMessage,
}

/// Whether `m` is a note-off for note `note` on channel `channel`.
pub open spec fn is_note_off_for(m: MidiMessage, channel: u8, note: u8) -> bool {
    m matches MidiMessage::NoteOff(ch, n, _) && ch == channel && n == note
}

/// The index at which an event due in `t` samples joins `q`: before the first event
/// that is due later than `t`, or at the end.
pub open spec fn insertion_point(q: Seq<MidiEvent>, t: i64) -> int
    decreases q.len(),
{
    if q.len() == 0 {
        0
    } else if q[0].samples_until > t {
        0
    } else {
        1 + insertion_point(q.drop_first(), t)
    }
}

/// `q` after a message `m` due in `t` samples joined it.
pub open spec fn pushed(q: Seq<MidiEvent>, t: i64, m: MidiMessage) -> Seq<MidiEvent> {
    q.insert(insertion_point(q, t), MidiEvent { samples_until: t, data: m })
}

/// The events of `q` that fall in a block of `block_size` samples, with their offsets,
/// in queue order.
pub open spec fn due_events(q: Seq<MidiEvent>, block_size: i64) -> Seq<(i64, MidiMessage)>
    decreases q.len(),
{
    if q.len() == 0 {
        Seq::empty()
    } else {
        let rest = due_events(q.drop_last(), block_size);
        let e = q.last();
        if e.samples_until < block_size {
            rest.push((e.samples_until, e.data))
        } else {
            rest
        }
    }
}

/// The events of `q` that stay after a block of `block_size` samples, each due
/// `block_size` samples sooner. An event that would then be due in `i64::MAX`
/// samples is dropped, as `i64::MAX` marks the events taken out.
pub open spec fn later_events(q: Seq<MidiEvent>, block_size: i64) -> Seq<MidiEvent>
    decreases q.len(),
{
    if q.len() == 0 {
        Seq::empty()
    } else {
        let rest = later_events(q.drop_last(), block_size);
        let e = q.last();
        if e.samples_until >= block_size && e.samples_until - block_size != i64::MAX {
            rest.push(MidiEvent { samples_until: (e.samples_until - block_size) as i64, data: e.data })
        } else {
            rest
        }
    }
}

/// The note-offs of `q`, in order, each due now.
pub open spec fn note_offs_now(q: Seq<MidiEvent>) -> Seq<MidiEvent>
    decreases q.len(),
{
    if q.len() == 0 {
        Seq::empty()
    } else {
        let rest = note_offs_now(q.drop_last());
        let e = q.last();
        if e.data is NoteOff {
            rest.push(MidiEvent { samples_until: 0, data: e.data })
        } else {
            rest
        }
    }
}

/// The index of the first note-off in `q` for `note` on `channel`, or the length of `q`.
pub open spec fn first_note_off(q: Seq<MidiEvent>, channel: u8, note: u8) -> int
    decreases q.len(),
{
    if q.len() == 0 {
        0
    } else if is_note_off_for(q[0].data, channel, note) {
        0
    } else {
        1 + first_note_off(q.drop_first(), channel, note)
    }
}

/// The velocities of the note-offs in `q` for `note` on `channel`, in order.
pub open spec fn note_off_velocities(q: Seq<MidiEvent>, channel: u8, note: u8) -> Seq<u8>
    decreases q.len(),
{
    if q.len() == 0 {
        Seq::empty()
    } else {
        let rest = note_off_velocities(q.drop_last(), channel, note);
        match q.last().data {
            MidiMessage::NoteOff(ch, n, v) => if ch == channel && n == note {
                rest.push(v)
            } else {
                rest
            },
            _ => rest,
        }
    }
}

/// `q` without its note-offs for `note` on `channel`.
pub open spec fn without_note_offs(q: Seq<MidiEvent>, channel: u8, note: u8) -> Seq<MidiEvent>
    decreases q.len(),
{
    if q.len() == 0 {
        Seq::empty()
    } else {
        let rest = without_note_offs(q.drop_last(), channel, note);
        if is_note_off_for(q.last().data, channel, note) {
            rest
        } else {
            rest.push(q.last())
        }
    }
}

/// `q` after a note-off due now for `note` on `channel` joined it for each velocity
/// of `velocities`, in order.
pub open spec fn note_offs_pushed_now(
    q: Seq<MidiEvent>,
    channel: u8,
    note: u8,
    velocities: Seq<u8>,
) -> Seq<MidiEvent>
    decreases velocities.len(),
{
    if velocities.len() == 0 {
        q
    } else {
        pushed(
            note_offs_pushed_now(q, channel, note, velocities.drop_last()),
            0,
            MidiMessage::NoteOff(channel, note, velocities.last()),
        )
    }
}

/// The queue after `schedule_note` with these arguments on queue `q`.
pub open spec fn scheduled(
    q: Seq<MidiEvent>,
    channel: u8,
    note: u8,
    velocity: u8,
    start_in_samples: i64,
    length_in_samples: i64,
    legato_mode: bool,
) -> Seq<MidiEvent> {
    let k = first_note_off(q, channel, note);
    if legato_mode && k < q.len() {
        q.update(
            k,
            MidiEvent {
                samples_until: (q[k].samples_until + length_in_samples) as i64,
                data: q[k].data,
            },
        )
    } else {
        let base = if legato_mode {
            q
        } else {
            note_offs_pushed_now(
                without_note_offs(q, channel, note),
                channel,
                note,
                note_off_velocities(q, channel, note),
            )
        };
        pushed(
            pushed(base, start_in_samples, MidiMessage::NoteOn(channel, note, velocity)),
            (start_in_samples + length_in_samples) as i64,
            MidiMessage::NoteOff(channel, note, velocity),
        )
    }
}

/// What characterizes the insertion point: every event before it is due no later
/// than `t`, and the event at it, if any, is due later.
pub proof fn lemma_insertion_point(q: Seq<MidiEvent>, t: i64)
    ensures
        0 <= insertion_point(q, t) <= q.len(),
        forall|j: int| 0 <= j < insertion_point(q, t) ==> q[j].samples_until <= t,
        insertion_point(q, t) < q.len() ==> q[insertion_point(q, t)].samples_until > t,
    decreases q.len(),
{
    if q.len() > 0 && q[0].samples_until <= t {
        lemma_insertion_point(q.drop_first(), t);
        assert forall|j: int| 0 <= j < insertion_point(q, t) implies q[j].samples_until <= t by {
            if j > 0 {
                assert(q[j] == q.drop_first()[j - 1]);
            }
        }
    }
}

/// The first note-off for a note is a note-off for it, and none comes before it.
pub proof fn lemma_first_note_off(q: Seq<MidiEvent>, channel: u8, note: u8)
    ensures
        0 <= first_note_off(q, channel, note) <= q.len(),
        forall|j: int|
            0 <= j < first_note_off(q, channel, note) ==> !is_note_off_for(
                #[trigger] q[j].data,
                channel,
                note,
            ),
        first_note_off(q, channel, note) < q.len() ==> is_note_off_for(
            q[first_note_off(q, channel, note)].data,
            channel,
            note,
        ),
    decreases q.len(),
{
    if q.len() > 0 && !is_note_off_for(q[0].data, channel, note) {
        lemma_first_note_off(q.drop_first(), channel, note);
        assert forall|j: int| 0 <= j < first_note_off(q, channel, note) implies !is_note_off_for(
            #[trigger] q[j].data,
            channel,
            note,
        ) by {
            if j > 0 {
                assert(q[j] == q.drop_first()[j - 1]);
            }
        }
    }
}

/// Every event of `q` is due no later than the events after it.
pub open spec fn is_sorted(q: Seq<MidiEvent>) -> bool {
    forall|i: int, j: int| 0 <= i <= j < q.len() ==> q[i].samples_until <= q[j].samples_until
}

/// Every event of `out` has an offset no later than the events after it.
pub open spec fn offsets_sorted(out: Seq<(i64, MidiMessage)>) -> bool {
    forall|i: int, j: int| 0 <= i <= j < out.len() ==> out[i].0 <= out[j].0
}

/// What `pushed` holds: the new event, at the insertion point, and the events of `q`
/// around it, in their order.
pub proof fn lemma_pushed(q: Seq<MidiEvent>, t: i64, m: MidiMessage)
    ensures
        ({
            let k = insertion_point(q, t);
            let p = pushed(q, t, m);
            &&& p.len() == q.len() + 1
            &&& p[k] == (MidiEvent { samples_until: t, data: m })
            &&& forall|i: int| 0 <= i < k ==> #[trigger] p[i] == q[i]
            &&& forall|i: int| k < i <= q.len() ==> #[trigger] p[i] == q[i - 1]
            &&& p.contains(MidiEvent { samples_until: t, data: m })
            &&& forall|i: int| 0 <= i < p.len() ==> #[trigger] p[i] == (MidiEvent {
                samples_until: t,
                data: m,
            }) || q.contains(p[i])
        }),
{
    lemma_insertion_point(q, t);
    let k = insertion_point(q, t);
    let e = MidiEvent { samples_until: t, data: m };
    q.insert_ensures(k, e);
    let p = pushed(q, t, m);
    assert forall|i: int| k < i <= q.len() implies #[trigger] p[i] == q[i - 1] by {
        assert(p[(i - 1) + 1] == q[i - 1]);
    }
    assert forall|i: int| 0 <= i < p.len() implies #[trigger] p[i] == e || q.contains(p[i]) by {
        if i < k {
            assert(q[i] == p[i]);
        } else if i > k {
            assert(q[i - 1] == p[i]);
        }
    }
}

/// Law: a message joins a queue kept in order of due time so that the queue stays in
/// that order.
pub proof fn law_push_keeps_order(q: Seq<MidiEvent>, t: i64, m: MidiMessage)
    requires
        is_sorted(q),
    ensures
        is_sorted(pushed(q, t, m)),
{
    lemma_insertion_point(q, t);
    lemma_pushed(q, t, m);
    let k = insertion_point(q, t);
    let p = pushed(q, t, m);
    assert forall|i: int, j: int| 0 <= i <= j < p.len() implies p[i].samples_until
        <= p[j].samples_until by {
        if i < k && j > k {
            assert(q[i].samples_until <= q[j - 1].samples_until);
        } else if i == k && j > k {
            assert(q[k].samples_until <= q[j - 1].samples_until);
        } else if i > k {
            assert(q[i - 1].samples_until <= q[j - 1].samples_until);
        } else if i < k && j < k {
            assert(q[i].samples_until <= q[j].samples_until);
        }
    }
}

/// The offsets that `due_events` gives back are offsets of `q`'s events.
proof fn lemma_due_bounded(q: Seq<MidiEvent>, b: i64, bound: i64)
    requires
        forall|i: int| 0 <= i < q.len() ==> q[i].samples_until <= bound,
    ensures
        forall|k: int| 0 <= k < due_events(q, b).len() ==> due_events(q, b)[k].0 <= bound,
    decreases q.len(),
{
    if q.len() > 0 {
        assert forall|i: int| 0 <= i < q.drop_last().len() implies q.drop_last()[i].samples_until
            <= bound by {
            assert(q.drop_last()[i] == q[i]);
        }
        assert(q[q.len() - 1].samples_until <= bound);
        lemma_due_bounded(q.drop_last(), b, bound);
        let d = due_events(q, b);
        let r = due_events(q.drop_last(), b);
        assert forall|k: int| 0 <= k < d.len() implies d[k].0 <= bound by {
            if k < r.len() {
                assert(d[k] == r[k]);
            }
        }
    }
}

/// The events that `later_events` keeps are due `b` samples sooner than events of `q`.
proof fn lemma_later_bounded(q: Seq<MidiEvent>, b: i64, bound: i64)
    requires
        forall|i: int| 0 <= i < q.len() ==> q[i].samples_until <= bound,
    ensures
        forall|k: int|
            0 <= k < later_events(q, b).len() ==> later_events(q, b)[k].samples_until <= bound
                - b,
    decreases q.len(),
{
    if q.len() > 0 {
        assert forall|i: int| 0 <= i < q.drop_last().len() implies q.drop_last()[i].samples_until
            <= bound by {
            assert(q.drop_last()[i] == q[i]);
        }
        lemma_later_bounded(q.drop_last(), b, bound);
    }
}

/// Law: from a queue kept in order of due time, a block's events come out in order of
/// their offsets, and the events that stay keep that order.
pub proof fn law_pop_keeps_order(q: Seq<MidiEvent>, b: i64)
    requires
        is_sorted(q),
        forall|i: int|
            0 <= i < q.len() && q[i].samples_until >= b ==> q[i].samples_until - b <= i64::MAX,
    ensures
        offsets_sorted(due_events(q, b)),
        is_sorted(later_events(q, b)),
    decreases q.len(),
{
    if q.len() > 0 {
        let init = q.drop_last();
        assert forall|i: int, j: int| 0 <= i <= j < init.len() implies init[i].samples_until
            <= init[j].samples_until by {
            assert(init[i] == q[i] && init[j] == q[j]);
        }
        assert forall|i: int|
            0 <= i < init.len() && init[i].samples_until >= b implies init[i].samples_until - b
            <= i64::MAX by {
            assert(init[i] == q[i]);
        }
        law_pop_keeps_order(init, b);
        let e = q.last();
        assert forall|i: int| 0 <= i < init.len() implies init[i].samples_until <= e.samples_until by {
            assert(q[i].samples_until <= q[q.len() - 1].samples_until);
        }
        lemma_due_bounded(init, b, e.samples_until);
        lemma_later_bounded(init, b, e.samples_until);
        let l = later_events(q, b);
        let li = later_events(init, b);
        if e.samples_until >= b && e.samples_until - b != i64::MAX {
            assert(q[q.len() - 1].samples_until - b <= i64::MAX);
            assert forall|i: int, j: int| 0 <= i <= j < l.len() implies l[i].samples_until
                <= l[j].samples_until by {
                if j == l.len() - 1 {
                    if i < j {
                        assert(l[i] == li[i]);
                    }
                } else {
                    assert(l[i] == li[i] && l[j] == li[j]);
                }
            }
        }
    }
}

/// Law: a block loses no event: each queued event either comes out of the block or stays
/// queued, unless it would stay due in `i64::MAX` samples.
pub proof fn law_pop_keeps_every_event(q: Seq<MidiEvent>, b: i64)
    requires
        forall|i: int| 0 <= i < q.len() ==> (#[trigger] q[i]).samples_until - b != i64::MAX,
    ensures
        due_events(q, b).len() + later_events(q, b).len() == q.len(),
    decreases q.len(),
{
    if q.len() > 0 {
        let init = q.drop_last();
        assert forall|i: int| 0 <= i < init.len() implies (#[trigger] init[i]).samples_until - b
            != i64::MAX by {
            assert(init[i] == q[i]);
        }
        assert(q[q.len() - 1].samples_until - b != i64::MAX);
        law_pop_keeps_every_event(init, b);
    }
}

/// The events of `out` with each offset moved `a` samples later.
pub open spec fn shifted(out: Seq<(i64, MidiMessage)>, a: i64) -> Seq<(i64, MidiMessage)> {
    out.map_values(|p: (i64, MidiMessage)| ((p.0 + a) as i64, p.1))
}

/// Events all due before `a` leave nothing for later.
proof fn lemma_later_none(q: Seq<MidiEvent>, a: i64)
    requires
        forall|i: int| 0 <= i < q.len() ==> q[i].samples_until < a,
    ensures
        later_events(q, a).len() == 0,
    decreases q.len(),
{
    if q.len() > 0 {
        assert forall|i: int| 0 <= i < q.drop_last().len() implies q.drop_last()[i].samples_until
            < a by {
            assert(q.drop_last()[i] == q[i]);
        }
        assert(q[q.len() - 1].samples_until < a);
        lemma_later_none(q.drop_last(), a);
    }
}

/// Law: splitting a block in two changes nothing: for a queue kept in order of due time,
/// a block of `a` samples followed by one of `b` samples gives out the events of one
/// block of `a + b` samples, those of the second block `a` samples later, and leaves the
/// same events queued.
pub proof fn law_split_block(q: Seq<MidiEvent>, a: i64, b: i64)
    requires
        is_sorted(q),
        a >= 1,
        b >= 1,
        a + b <= i64::MAX,
    ensures
        due_events(q, (a + b) as i64) == due_events(q, a) + shifted(
            due_events(later_events(q, a), b),
            a,
        ),
        later_events(q, (a + b) as i64) == later_events(later_events(q, a), b),
    decreases q.len(),
{
    let ab = (a + b) as i64;
    if q.len() == 0 {
        assert(due_events(q, ab) =~= due_events(q, a) + shifted(
            due_events(later_events(q, a), b),
            a,
        ));
        assert(later_events(q, ab) =~= later_events(later_events(q, a), b));
    } else {
        let init = q.drop_last();
        let e = q.last();
        assert forall|i: int, j: int| 0 <= i <= j < init.len() implies init[i].samples_until
            <= init[j].samples_until by {
            assert(init[i] == q[i] && init[j] == q[j]);
        }
        law_split_block(init, a, b);
        let li = later_events(init, a);
        let m = due_events(li, b);
        if e.samples_until < a {
            assert forall|i: int| 0 <= i < init.len() implies init[i].samples_until < a by {
                assert(init[i] == q[i]);
                assert(q[i].samples_until <= q[q.len() - 1].samples_until);
            }
            lemma_later_none(init, a);
            assert(li =~= Seq::<MidiEvent>::empty());
            assert(later_events(q, a) == li);
            assert(m =~= Seq::<(i64, MidiMessage)>::empty());
            assert(shifted(m, a) =~= Seq::<(i64, MidiMessage)>::empty());
            assert(due_events(q, ab) =~= due_events(q, a) + shifted(
                due_events(later_events(q, a), b),
                a,
            ));
        } else if e.samples_until < ab {
            let moved = MidiEvent { samples_until: (e.samples_until - a) as i64, data: e.data };
            assert(later_events(q, a) == li.push(moved));
            assert(li.push(moved).drop_last() =~= li);
            assert(due_events(li.push(moved), b) == m.push((moved.samples_until, moved.data)));
            assert(shifted(m.push((moved.samples_until, moved.data)), a) =~= shifted(m, a).push(
                (e.samples_until, e.data),
            ));
            assert(due_events(q, ab) =~= due_events(q, a) + shifted(
                due_events(later_events(q, a), b),
                a,
            ));
            assert(later_events(li.push(moved), b) == later_events(li, b));
        } else {
            let moved = MidiEvent { samples_until: (e.samples_until - a) as i64, data: e.data };
            assert(later_events(q, a) == li.push(moved));
            assert(li.push(moved).drop_last() =~= li);
            assert(due_events(li.push(moved), b) == m);
            assert(later_events(li.push(moved), b) == later_events(li, b).push(
                MidiEvent { samples_until: (e.samples_until - ab) as i64, data: e.data },
            ));
        }
    }
}

/// `due_events` gives back every event of `q` that falls in the block.
proof fn lemma_due_contains(q: Seq<MidiEvent>, b: i64, e: MidiEvent)
    requires
        q.contains(e),
        e.samples_until < b,
    ensures
        due_events(q, b).contains((e.samples_until, e.data)),
    decreases q.len(),
{
    let d = due_events(q, b);
    if q.last() == e {
        assert(d[d.len() - 1] == (e.samples_until, e.data));
    } else {
        let i = choose|i: int| 0 <= i < q.len() && q[i] == e;
        assert(q.drop_last()[i] == e);
        lemma_due_contains(q.drop_last(), b, e);
        let r = due_events(q.drop_last(), b);
        let j = choose|j: int| 0 <= j < r.len() && r[j] == (e.samples_until, e.data);
        assert(d[j] == r[j]);
    }
}

/// `later_events` keeps every event of `q` that falls after the block.
proof fn lemma_later_contains(q: Seq<MidiEvent>, b: i64, e: MidiEvent)
    requires
        q.contains(e),
        e.samples_until >= b,
        e.samples_until - b != i64::MAX,
    ensures
        later_events(q, b).contains(
            MidiEvent { samples_until: (e.samples_until - b) as i64, data: e.data },
        ),
    decreases q.len(),
{
    let d = later_events(q, b);
    let moved = MidiEvent { samples_until: (e.samples_until - b) as i64, data: e.data };
    if q.last() == e {
        assert(d[d.len() - 1] == moved);
    } else {
        let i = choose|i: int| 0 <= i < q.len() && q[i] == e;
        assert(q.drop_last()[i] == e);
        lemma_later_contains(q.drop_last(), b, e);
        let r = later_events(q.drop_last(), b);
        let j = choose|j: int| 0 <= j < r.len() && r[j] == moved;
        assert(d[j] == r[j]);
    }
}

/// Law: a message pushed to be due within the next block comes out of that block at
/// its offset; one pushed to be due later stays, due that many samples sooner.
pub proof fn law_push_then_pop(q: Seq<MidiEvent>, t: i64, m: MidiMessage, b: i64)
    ensures
        t < b ==> due_events(pushed(q, t, m), b).contains((t, m)),
        t >= b && t - b != i64::MAX ==> later_events(pushed(q, t, m), b).contains(
            MidiEvent { samples_until: (t - b) as i64, data: m },
        ),
{
    lemma_pushed(q, t, m);
    let e = MidiEvent { samples_until: t, data: m };
    if t < b {
        lemma_due_contains(pushed(q, t, m), b, e);
    }
    if t >= b && t - b != i64::MAX {
        lemma_later_contains(pushed(q, t, m), b, e);
    }
}

/// Law: stopping all notes leaves only note-offs, each due now, and keeps every
/// note-off that was queued.
pub proof fn law_stop_all_notes(q: Seq<MidiEvent>)
    ensures
        forall|k: int|
            0 <= k < note_offs_now(q).len() ==> (#[trigger] note_offs_now(q)[k]).samples_until == 0
                && note_offs_now(q)[k].data is NoteOff,
        forall|i: int|
            0 <= i < q.len() && (#[trigger] q[i]).data is NoteOff ==> note_offs_now(q).contains(
                MidiEvent { samples_until: 0, data: q[i].data },
            ),
    decreases q.len(),
{
    if q.len() > 0 {
        let init = q.drop_last();
        law_stop_all_notes(init);
        let d = note_offs_now(q);
        let r = note_offs_now(init);
        assert forall|i: int| 0 <= i < q.len() && (#[trigger] q[i]).data is NoteOff implies d.contains(
            MidiEvent { samples_until: 0, data: q[i].data },
        ) by {
            if i == q.len() - 1 {
                assert(d[d.len() - 1] == MidiEvent { samples_until: 0, data: q[i].data });
            } else {
                assert(init[i] == q[i]);
                let j = choose|j: int|
                    0 <= j < r.len() && r[j] == MidiEvent { samples_until: 0, data: q[i].data };
                assert(d[j] == r[j]);
            }
        }
    }
}

/// A property of every event of `q` that the new event has too holds of every event
/// of `pushed(q, t, m)`.
proof fn lemma_pushed_keeps(q: Seq<MidiEvent>, t: i64, m: MidiMessage, p: spec_fn(MidiEvent) -> bool)
    requires
        forall|i: int| 0 <= i < q.len() ==> p(#[trigger] q[i]),
        p(MidiEvent { samples_until: t, data: m }),
    ensures
        forall|i: int| 0 <= i < pushed(q, t, m).len() ==> p(#[trigger] pushed(q, t, m)[i]),
{
    lemma_pushed(q, t, m);
    let s = pushed(q, t, m);
    assert forall|i: int| 0 <= i < s.len() implies p(#[trigger] s[i]) by {
        if s[i] != (MidiEvent { samples_until: t, data: m }) {
            let j = choose|j: int| 0 <= j < q.len() && q[j] == s[i];
            assert(p(q[j]));
        }
    }
}

/// `without_note_offs` leaves no note-off of the note, and keeps every other event.
proof fn lemma_without_note_offs(q: Seq<MidiEvent>, channel: u8, note: u8)
    ensures
        forall|i: int|
            0 <= i < without_note_offs(q, channel, note).len() ==> !is_note_off_for(
                (#[trigger] without_note_offs(q, channel, note)[i]).data,
                channel,
                note,
            ),
        forall|i: int|
            0 <= i < without_note_offs(q, channel, note).len() ==> q.contains(
                #[trigger] without_note_offs(q, channel, note)[i],
            ),
    decreases q.len(),
{
    if q.len() > 0 {
        let init = q.drop_last();
        lemma_without_note_offs(init, channel, note);
        let w = without_note_offs(q, channel, note);
        let r = without_note_offs(init, channel, note);
        assert forall|i: int| 0 <= i < w.len() implies !is_note_off_for(
            (#[trigger] w[i]).data,
            channel,
            note,
        ) && q.contains(w[i]) by {
            if i < r.len() {
                assert(w[i] == r[i]);
                let j = choose|j: int| 0 <= j < init.len() && init[j] == r[i];
                assert(q[j] == init[j]);
            } else {
                assert(q[q.len() - 1] == w[i]);
            }
        }
    }
}

/// After the queued note-offs of a note are pushed to be due now, every note-off of
/// that note in the queue is due now, if it was so before.
proof fn lemma_note_offs_pushed_now(
    q: Seq<MidiEvent>,
    channel: u8,
    note: u8,
    velocities: Seq<u8>,
    p: spec_fn(MidiEvent) -> bool,
)
    requires
        forall|i: int| 0 <= i < q.len() ==> p(#[trigger] q[i]),
        forall|v: u8| #[trigger] p(MidiEvent { samples_until: 0, data: MidiMessage::NoteOff(channel, note, v) }),
    ensures
        forall|i: int|
            0 <= i < note_offs_pushed_now(q, channel, note, velocities).len() ==> p(
                #[trigger] note_offs_pushed_now(q, channel, note, velocities)[i],
            ),
    decreases velocities.len(),
{
    if velocities.len() > 0 {
        lemma_note_offs_pushed_now(q, channel, note, velocities.drop_last(), p);
        lemma_pushed_keeps(
            note_offs_pushed_now(q, channel, note, velocities.drop_last()),
            0,
            MidiMessage::NoteOff(channel, note, velocities.last()),
            p,
        );
    }
}

/// `without_note_offs` keeps every event that is not a note-off of that note on that
/// channel.
proof fn lemma_without_note_offs_keeps(q: Seq<MidiEvent>, channel: u8, note: u8, e: MidiEvent)
    requires
        q.contains(e),
        !is_note_off_for(e.data, channel, note),
    ensures
        without_note_offs(q, channel, note).contains(e),
    decreases q.len(),
{
    let w = without_note_offs(q, channel, note);
    if q.last() == e {
        assert(w[w.len() - 1] == e);
    } else {
        let i = choose|i: int| 0 <= i < q.len() && q[i] == e;
        assert(q.drop_last()[i] == e);
        lemma_without_note_offs_keeps(q.drop_last(), channel, note, e);
        let r = without_note_offs(q.drop_last(), channel, note);
        let j = choose|j: int| 0 <= j < r.len() && r[j] == e;
        assert(w[j] == r[j]);
    }
}

/// Pushing keeps every event of the queue.
proof fn lemma_pushed_keeps_contains(q: Seq<MidiEvent>, t: i64, m: MidiMessage, e: MidiEvent)
    requires
        q.contains(e),
    ensures
        pushed(q, t, m).contains(e),
{
    lemma_pushed(q, t, m);
    let k = insertion_point(q, t);
    let p = pushed(q, t, m);
    let i = choose|i: int| 0 <= i < q.len() && q[i] == e;
    if i < k {
        assert(p[i] == e);
    } else {
        assert(p[i + 1] == e);
    }
}

/// Pushing note-offs due now keeps every event of the queue.
proof fn lemma_note_offs_pushed_now_keeps(
    q: Seq<MidiEvent>,
    channel: u8,
    note: u8,
    velocities: Seq<u8>,
    e: MidiEvent,
)
    requires
        q.contains(e),
    ensures
        note_offs_pushed_now(q, channel, note, velocities).contains(e),
    decreases velocities.len(),
{
    if velocities.len() > 0 {
        lemma_note_offs_pushed_now_keeps(q, channel, note, velocities.drop_last(), e);
        lemma_pushed_keeps_contains(
            note_offs_pushed_now(q, channel, note, velocities.drop_last()),
            0,
            MidiMessage::NoteOff(channel, note, velocities.last()),
            e,
        );
    }
}

/// Law: scheduling a note outside legato leaves every queued event that is not a note-off
/// of that same note on that same channel in the queue, with its due time and message;
/// note-offs of other notes and other channels are kept.
pub proof fn law_schedule_keeps_other_events(
    q: Seq<MidiEvent>,
    channel: u8,
    note: u8,
    velocity: u8,
    start_in_samples: i64,
    length_in_samples: i64,
)
    ensures
        forall|i: int|
            0 <= i < q.len() && !(q[i].data matches MidiMessage::NoteOff(c, k, _) && c == channel
                && k == note) ==> scheduled(
                q,
                channel,
                note,
                velocity,
                start_in_samples,
                length_in_samples,
                false,
            ).contains(#[trigger] q[i]),
{
    assert forall|i: int|
        0 <= i < q.len() && !(q[i].data matches MidiMessage::NoteOff(c, k, _) && c == channel && k
            == note) implies scheduled(
        q,
        channel,
        note,
        velocity,
        start_in_samples,
        length_in_samples,
        false,
    ).contains(#[trigger] q[i]) by {
        let e = q[i];
        assert(q.contains(e));
        lemma_without_note_offs_keeps(q, channel, note, e);
        let w = without_note_offs(q, channel, note);
        let vels = note_off_velocities(q, channel, note);
        lemma_note_offs_pushed_now_keeps(w, channel, note, vels, e);
        let base = note_offs_pushed_now(w, channel, note, vels);
        let on = MidiMessage::NoteOn(channel, note, velocity);
        lemma_pushed_keeps_contains(base, start_in_samples, on, e);
        lemma_pushed_keeps_contains(
            pushed(base, start_in_samples, on),
            (start_in_samples + length_in_samples) as i64,
            MidiMessage::NoteOff(channel, note, velocity),
            e,
        );
    }
}

/// Law: scheduling a note outside legato mode strikes it again: the queue holds its
/// note-on at the start and its note-off at the end, and every other note-off of that
/// note is due now.
pub proof fn law_retrigger(
    q: Seq<MidiEvent>,
    channel: u8,
    note: u8,
    velocity: u8,
    start_in_samples: i64,
    length_in_samples: i64,
)
    requires
        i64::MIN <= start_in_samples + length_in_samples <= i64::MAX,
    ensures
        ({
            let s = scheduled(q, channel, note, velocity, start_in_samples, length_in_samples, false);
            &&& s.contains(
                MidiEvent {
                    samples_until: start_in_samples,
                    data: MidiMessage::NoteOn(channel, note, velocity),
                },
            )
            &&& s.contains(
                MidiEvent {
                    samples_until: (start_in_samples + length_in_samples) as i64,
                    data: MidiMessage::NoteOff(channel, note, velocity),
                },
            )
            &&& forall|i: int|
                0 <= i < s.len() && is_note_off_for((#[trigger] s[i]).data, channel, note)
                    ==> s[i].samples_until == 0 || s[i].samples_until == start_in_samples
                    + length_in_samples
        }),
{
    let end = (start_in_samples + length_in_samples) as i64;
    let p = |e: MidiEvent|
        !is_note_off_for(e.data, channel, note) || e.samples_until == 0 || e.samples_until == end;
    let w = without_note_offs(q, channel, note);
    lemma_without_note_offs(q, channel, note);
    assert forall|i: int| 0 <= i < w.len() implies p(#[trigger] w[i]) by {}
    let vels = note_off_velocities(q, channel, note);
    lemma_note_offs_pushed_now(w, channel, note, vels, p);
    let base = note_offs_pushed_now(w, channel, note, vels);
    let on = MidiMessage::NoteOn(channel, note, velocity);
    let off = MidiMessage::NoteOff(channel, note, velocity);
    lemma_pushed_keeps(base, start_in_samples, on, p);
    let with_on = pushed(base, start_in_samples, on);
    lemma_pushed_keeps(with_on, end, off, p);
    lemma_pushed(base, start_in_samples, on);
    lemma_pushed(with_on, end, off);
    let s = pushed(with_on, end, off);
    let e_on = MidiEvent { samples_until: start_in_samples, data: on };
    let i = choose|i: int| 0 <= i < with_on.len() && with_on[i] == e_on;
    lemma_insertion_point(with_on, end);
    let k = insertion_point(with_on, end);
    if i < k {
        assert(s[i] == e_on);
    } else {
        assert(s[i + 1] == e_on);
    }
    assert forall|j: int|
        0 <= j < s.len() && is_note_off_for((#[trigger] s[j]).data, channel, note) implies s[j].samples_until
        == 0 || s[j].samples_until == start_in_samples + length_in_samples by {
        assert(p(s[j]));
    }
}

/// Law: in legato mode a note whose note-off is still queued is held longer instead of
/// struck again: no event joins the queue, and only that note-off is delayed.
pub proof fn law_legato_holds(
    q: Seq<MidiEvent>,
    channel: u8,
    note: u8,
    velocity: u8,
    start_in_samples: i64,
    length_in_samples: i64,
)
    requires
        first_note_off(q, channel, note) < q.len(),
    ensures
        ({
            let s = scheduled(q, channel, note, velocity, start_in_samples, length_in_samples, true);
            let k = first_note_off(q, channel, note);
            &&& s.len() == q.len()
            &&& forall|i: int| 0 <= i < q.len() && i != k ==> s[i] == q[i]
            &&& s[k].data == q[k].data
            &&& s[k].samples_until == (q[k].samples_until + length_in_samples) as i64
        }),
{
    lemma_first_note_off(q, channel, note);
}

/// Whether `a + b` lies within `i64`.
fn sum_fits(a: i64, b: i64) -> (r: bool)
    ensures
        r == (i64::MIN <= a + b <= i64::MAX),
{
    let sum = a as i128 + b as i128;
    i64::MIN as i128 <= sum && sum <= i64::MAX as i128
}

/// A queue of timed MIDI events, with the note-off that the last triggered note owes.
pub struct EventQueue {
    queue: VecDeque<MidiEvent>,
    next_note_off: Option<MidiMessage>,
}

impl EventQueue {
    /// The queued events, in the order in which they are kept.
    pub closed spec fn events(&self) -> Seq<MidiEvent> {
        self.queue@
    }

    /// The note-off owed by the note that the last trigger started, if any.
    pub closed spec fn pending_note_off(&self) -> Option<MidiMessage> {
        self.next_note_off
    }

    pub fn new() -> (r: Self)
        ensures
            r.events() == Seq::<MidiEvent>::empty(),
            r.pending_note_off() == None::<MidiMessage>,
    {
        Self { queue: VecDeque::new(), next_note_off: None }
    }

    /// Queues `data` to be due in `samples_from_now` samples, after every event due
    /// no later and before the first one due later.
    pub fn push(&mut self, samples_from_now: i64, data: MidiMessage)
        ensures
            final(self).events() == pushed(old(self).events(), samples_from_now, data),
            final(self).pending_note_off() == old(self).pending_note_off(),
    {
        let ev = MidiEvent { samples_until: samples_from_now, data };
        let len = self.queue.len();
        let mut i: usize = 0;
        while i < len && self.queue[i].samples_until <= samples_from_now
            invariant
                i <= len,
                len == self.queue@.len(),
                forall|j: int| 0 <= j < i ==> self.queue@[j].samples_until <= samples_from_now,
            decreases len - i,
        {
            i = i + 1;
        }
        proof {
            let q = self.queue@;
            lemma_insertion_point(q, samples_from_now);
            let k = insertion_point(q, samples_from_now);
            if k < i {
                assert(q[k].samples_until <= samples_from_now);
            }
            if i < k {
                assert(q[i as int].samples_until <= samples_from_now);
            }
        }
        if i < len {
            self.queue.insert(i, ev);
        } else {
            self.queue.push_back(ev);
            assert(self.queue@ =~= old(self).queue@.insert(i as int, ev));
        }
    }

    /// Takes out the events that fall in the next block of `block_size` samples and
    /// gives them back with their offsets, in queue order; every other event becomes
    /// due `block_size` samples sooner.
    pub fn pop_block_events(&mut self, block_size: i64) -> (r: Vec<(i64, MidiMessage)>)
        requires
            forall|i: int|
                0 <= i < old(self).events().len() && old(self).events()[i].samples_until
                    >= block_size ==> old(self).events()[i].samples_until - block_size
                    <= i64::MAX,
        ensures
            r@ == due_events(old(self).events(), block_size),
            final(self).events() == later_events(old(self).events(), block_size),
            final(self).pending_note_off() == old(self).pending_note_off(),
    {
        let ghost q = self.queue@;
        assert(q == old(self).events());
        let mut result: Vec<(i64, MidiMessage)> = Vec::new();
        let mut kept: VecDeque<MidiEvent> = VecDeque::new();
        let len = self.queue.len();
        let mut i: usize = 0;
        while i < len
            invariant
                i <= len,
                len == q.len(),
                self.queue@ == q,
                forall|j: int|
                    0 <= j < q.len() && q[j].samples_until >= block_size ==> q[j].samples_until
                        - block_size <= i64::MAX,
                result@ == due_events(q.take(i as int), block_size),
                kept@ == later_events(q.take(i as int), block_size),
            decreases len - i,
        {
            assert(q.take(i + 1).drop_last() =~= q.take(i as int));
            let ev = self.queue[i];
            if ev.samples_until < block_size {
                result.push((ev.samples_until, ev.data));
            } else {
                let left = ev.samples_until - block_size;
                if left != i64::MAX {
                    kept.push_back(MidiEvent { samples_until: left, data: ev.data });
                }
            }
            i = i + 1;
        }
        assert(q.take(len as int) =~= q);
        self.queue = kept;
        result
    }

    /// Makes every queued note-off due now and takes out every other event.
    pub fn stop_all_notes(&mut self)
        ensures
            final(self).events() == note_offs_now(old(self).events()),
            final(self).pending_note_off() == old(self).pending_note_off(),
    {
        let ghost q = self.queue@;
        let mut kept: VecDeque<MidiEvent> = VecDeque::new();
        let len = self.queue.len();
        let mut i: usize = 0;
        while i < len
            invariant
                i <= len,
                len == q.len(),
                self.queue@ == q,
                kept@ == note_offs_now(q.take(i as int)),
            decreases len - i,
        {
            assert(q.take(i + 1).drop_last() =~= q.take(i as int));
            let ev = self.queue[i];
            if let MidiMessage::NoteOff(_, _, _) = ev.data {
                kept.push_back(MidiEvent { samples_until: 0, data: ev.data });
            }
            i = i + 1;
        }
        assert(q.take(len as int) =~= q);
        self.queue = kept;
    }

    /// Empties the queue.
    pub fn clear(&mut self)
        ensures
            final(self).events() == Seq::<MidiEvent>::empty(),
            final(self).pending_note_off() == old(self).pending_note_off(),
    {
        self.queue.clear();
    }

    /// Schedules a note that starts in `start_in_samples` samples and lasts
    /// `length_in_samples` samples. In legato mode a note that is still queued to end
    /// is held longer instead (its first queued note-off is delayed by
    /// `length_in_samples`); otherwise the queued note-offs of that note are sent now,
    /// so that the note is struck again.
    pub fn schedule_note(
        &mut self,
        channel: u8,
        note: u8,
        velocity: u8,
        start_in_samples: i64,
        length_in_samples: i64,
        legato_mode: bool,
    )
        requires
            channel < 16,
            note < 128,
            velocity < 128,
            ({
                let q = old(self).events();
                let k = first_note_off(q, channel, note);
                &&& legato_mode && k < q.len() ==> i64::MIN <= q[k].samples_until
                    + length_in_samples <= i64::MAX
                &&& !(legato_mode && k < q.len()) ==> i64::MIN <= start_in_samples
                    + length_in_samples <= i64::MAX
            }),
        ensures
            final(self).events() == scheduled(
                old(self).events(),
                channel,
                note,
                velocity,
                start_in_samples,
                length_in_samples,
                legato_mode,
            ),
            final(self).pending_note_off() == old(self).pending_note_off(),
            !legato_mode ==> forall|i: int|
                0 <= i < old(self).events().len() && !(old(self).events()[i].data matches MidiMessage::NoteOff(
                    c,
                    k,
                    _,
                ) && c == channel && k == note) ==> final(self).events().contains(
                    #[trigger] old(self).events()[i],
                ),
    {
        proof {
            law_schedule_keeps_other_events(
                old(self).events(),
                channel,
                note,
                velocity,
                start_in_samples,
                length_in_samples,
            );
        }
        let channel = checked_channel(channel).unwrap();
        let note = checked_note(note).unwrap();
        let velocity = checked_data_byte(velocity).unwrap();

        if legato_mode {
            if self.extend_note_off(channel, note, length_in_samples) {
                return;
            }
        } else {
            let ghost q = self.queue@;
            let mut velocities: Vec<u8> = Vec::new();
            let mut kept: VecDeque<MidiEvent> = VecDeque::new();
            let len = self.queue.len();
            let mut i: usize = 0;
            while i < len
                invariant
                    i <= len,
                    len == q.len(),
                    self.queue@ == q,
                    velocities@ == note_off_velocities(q.take(i as int), channel, note),
                    kept@ == without_note_offs(q.take(i as int), channel, note),
                decreases len - i,
            {
                assert(q.take(i + 1).drop_last() =~= q.take(i as int));
                let ev = self.queue[i];
                let mut matched = false;
                if let MidiMessage::NoteOff(ch, n, vel) = ev.data {
                    if ch == channel && n == note {
                        velocities.push(vel);
                        matched = true;
                    }
                }
                if !matched {
                    kept.push_back(ev);
                }
                i = i + 1;
            }
            assert(q.take(len as int) =~= q);
            self.queue = kept;
            let ghost base = self.queue@;
            let mut j: usize = 0;
            while j < velocities.len()
                invariant
                    j <= velocities.len(),
                    self.queue@ == note_offs_pushed_now(base, channel, note, velocities@.take(j as int)),
                    self.next_note_off == old(self).next_note_off,
                decreases velocities.len() - j,
            {
                assert(velocities@.take(j + 1).drop_last() =~= velocities@.take(j as int));
                self.push(0, MidiMessage::NoteOff(channel, note, velocities[j]));
                j = j + 1;
            }
            assert(velocities@.take(velocities.len() as int) =~= velocities@);
        }

        // Schedule NoteOn
        self.push(start_in_samples, MidiMessage::NoteOn(channel, note, velocity));

        // Schedule NoteOff
        self.push(
            start_in_samples + length_in_samples,
            MidiMessage::NoteOff(channel, note, velocity),
        );
    }

    /// Starts a note now for a trigger. The note-off owed by the previous triggered
    /// note is sent now, and the new note owes one. In legato mode a trigger of the
    /// note that still sounds does nothing.
    pub fn schedule_triggered_note(
        &mut self,
        channel: u8,
        note: u8,
        velocity: u8,
        is_note_on: bool,
        legato_mode: bool,
    )
        requires
            channel < 16,
            note < 128,
            velocity < 128,
        ensures
            ({
                let q = old(self).events();
                let owed = old(self).pending_note_off();
                let still_sounds = legato_mode && (owed matches Some(m) && is_note_off_for(
                    m,
                    channel,
                    note,
                ));
                let sent = match owed {
                    Some(m) => pushed(q, 0, m),
                    None => q,
                };
                &&& still_sounds ==> *final(self) == *old(self)
                &&& !still_sounds && is_note_on ==> final(self).events() == pushed(
                    sent,
                    0,
                    MidiMessage::NoteOn(channel, note, velocity),
                ) && final(self).pending_note_off() == Some(
                    MidiMessage::NoteOff(channel, note, 0),
                )
                &&& !still_sounds && !is_note_on ==> final(self).events() == sent
                    && final(self).pending_note_off() == None::<MidiMessage>
            }),
    {
        let note = checked_note(note).unwrap();
        let channel = checked_channel(channel).unwrap();
        let velocity = checked_data_byte(velocity).unwrap();

        if legato_mode {
            let note_is_already_active = match self.next_note_off {
                Some(MidiMessage::NoteOff(ch, n, _)) => ch == channel && n == note,
                _ => false,
            };

            // Do nothing when note is already active in legato mode
            if note_is_already_active {
                return;
            }
        }

        // Send note off for previously sent note
        if let Some(midi_message) = self.next_note_off {
            self.push(0, midi_message);
        }

        if is_note_on {
            // Schedule NoteOn
            self.push(0, MidiMessage::NoteOn(channel, note, velocity));

            // Store NoteOff to trigger later
            self.next_note_off = Some(MidiMessage::NoteOff(channel, note, min_velocity()));
        } else {
            // No note to turn off
            self.next_note_off = None;
        }
    }

    /// Whether `schedule_note` with these arguments keeps every due time within `i64`:
    /// the end of the new note, or in legato mode the delayed note-off it would hold.
    pub fn schedule_fits(
        &self,
        channel: u8,
        note: u8,
        start_in_samples: i64,
        length_in_samples: i64,
        legato_mode: bool,
    ) -> (r: bool)
        ensures
            r == ({
                let q = self.events();
                let k = first_note_off(q, channel, note);
                if legato_mode && k < q.len() {
                    i64::MIN <= q[k].samples_until + length_in_samples <= i64::MAX
                } else {
                    i64::MIN <= start_in_samples + length_in_samples <= i64::MAX
                }
            }),
    {
        let ghost q = self.queue@;
        proof {
            lemma_first_note_off(q, channel, note);
        }
        if legato_mode {
            let len = self.queue.len();
            let mut i: usize = 0;
            while i < len
                invariant
                    legato_mode,
                    i <= len,
                    len == q.len(),
                    self.queue@ == q,
                    0 <= first_note_off(q, channel, note) <= q.len(),
                    first_note_off(q, channel, note) < q.len() ==> is_note_off_for(
                        q[first_note_off(q, channel, note)].data,
                        channel,
                        note,
                    ),
                    forall|j: int|
                        0 <= j < first_note_off(q, channel, note) ==> !is_note_off_for(
                            #[trigger] q[j].data,
                            channel,
                            note,
                        ),
                    forall|j: int| 0 <= j < i ==> !is_note_off_for(#[trigger] q[j].data, channel, note),
                decreases len - i,
            {
                let ev = self.queue[i];
                if let MidiMessage::NoteOff(ch, n, _) = ev.data {
                    if ch == channel && n == note {
                        proof {
                            let k = first_note_off(q, channel, note);
                            if k < i {
                                assert(!is_note_off_for(q[k].data, channel, note));
                            }
                            if i < k {
                                assert(!is_note_off_for(q[i as int].data, channel, note));
                            }
                        }
                        return sum_fits(ev.samples_until, length_in_samples);
                    }
                }
                i = i + 1;
            }
            proof {
                let k = first_note_off(q, channel, note);
                if k < len {
                    assert(!is_note_off_for(q[k].data, channel, note));
                }
            }
        }
        sum_fits(start_in_samples, length_in_samples)
    }

    /// Delays the first queued note-off for `note` on `channel` by `extra_samples`;
    /// tells whether there was one.
    #[verifier::loop_isolation(false)]
    fn extend_note_off(&mut self, channel: u8, note: u8, extra_samples: i64) -> (r: bool)
        requires
            first_note_off(old(self).events(), channel, note) < old(self).events().len()
                ==> i64::MIN <= old(self).events()[first_note_off(
                old(self).events(),
                channel,
                note,
            )].samples_until + extra_samples <= i64::MAX,
        ensures
            ({
                let q = old(self).events();
                let k = first_note_off(q, channel, note);
                &&& r == (k < q.len())
                &&& r ==> final(self).events() == q.update(
                    k,
                    MidiEvent {
                        samples_until: (q[k].samples_until + extra_samples) as i64,
                        data: q[k].data,
                    },
                )
                &&& !r ==> final(self).events() == q
            }),
            final(self).pending_note_off() == old(self).pending_note_off(),
    {
        let ghost q = self.queue@;
        proof {
            lemma_first_note_off(q, channel, note);
        }
        let len = self.queue.len();
        let mut i: usize = 0;
        while i < len
            invariant
                i <= len,
                len == q.len(),
                self.queue@ == q,
                self.next_note_off == old(self).next_note_off,
                forall|j: int| 0 <= j < i ==> !is_note_off_for(#[trigger] q[j].data, channel, note),
            decreases len - i,
        {
            let ev = self.queue[i];
            if let MidiMessage::NoteOff(ch, n, _) = ev.data {
                if ch == channel && n == note {
                    proof {
                        let k = first_note_off(q, channel, note);
                        if k < i {
                            assert(!is_note_off_for(q[k].data, channel, note));
                        }
                        if i < k {
                            assert(!is_note_off_for(q[i as int].data, channel, note));
                        }
                    }
                    let extended = MidiEvent {
                        samples_until: ev.samples_until + extra_samples,
                        data: ev.data,
                    };
                    self.queue.remove(i);
                    self.queue.insert(i, extended);
                    assert(self.queue@ =~= q.update(i as int, extended));
                    return true;
                }
            }
            i = i + 1;
        }
        proof {
            let k = first_note_off(q, channel, note);
            if k < len {
                assert(!is_note_off_for(q[k].data, channel, note));
            }
        }
        false
    }
}

} // verus!
