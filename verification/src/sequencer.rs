use vstd::prelude::*;

use crate::event_queue::{
    due_events, first_note_off, is_note_off_for, later_events, note_offs_now, pushed, scheduled,
    EventQueue, MidiEvent,
};
use crate::midi::{checked_channel, checked_data_byte, MidiMessage};
use crate::random::{random_below, random_bool, shuffle_steps};

verus! {

broadcast use vstd::seq_lib::group_to_multiset_ensures;

/// The steps of `s` that lie below `steps`, in order.
pub open spec fn below(s: Seq<usize>, steps: usize) -> Seq<usize>
    decreases s.len(),
{
    if s.len() == 0 {
        Seq::empty()
    } else {
        let rest = below(s.drop_last(), steps);
        if s.last() < steps {
            rest.push(s.last())
        } else {
            rest
        }
    }
}

/// The sixteen steps in their natural order.
pub open spec fn all_steps() -> Seq<usize> {
    Seq::new(16, |i: int| i as usize)
}

/// `s` holds each of the sixteen steps once, in some order.
pub open spec fn is_arrangement(s: Seq<usize>) -> bool {
    s.len() == 16 && s.to_multiset() == all_steps().to_multiset()
}

/// The step after `current` in a sequence of `steps` steps.
pub open spec fn advanced(current: usize, steps: usize) -> usize {
    if current + 1 >= steps {
        0
    } else {
        (current + 1) as usize
    }
}

/// The step that a shuffled order plays at position `current`: the `current`-th step
/// of the arrangement that lies below `steps`, or `current` itself if there is none.
pub open spec fn pick(arrangement: Seq<usize>, steps: usize, current: usize) -> usize {
    let b = below(arrangement, steps);
    if current < b.len() {
        b[current as int]
    } else {
        current
    }
}

/// The controller numbers of a MIDI panic, in the order sent on each channel:
/// sustain pedal, all notes off, all sound off.
pub open spec fn panic_controller(k: int) -> u8 {
    if k == 0 {
        64
    } else if k == 1 {
        123
    } else {
        120
    }
}


/// Every step that `below` keeps lies below `steps`.
pub proof fn lemma_below_bounded(s: Seq<usize>, steps: usize)
    ensures
        forall|k: int| 0 <= k < below(s, steps).len() ==> below(s, steps)[k] < steps,
        below(s, steps).len() <= s.len(),
    decreases s.len(),
{
    if s.len() > 0 {
        lemma_below_bounded(s.drop_last(), steps);
    }
}

/// `below` of a prefix is a prefix of `below`.
proof fn lemma_below_prefix(s: Seq<usize>, steps: usize, j: int)
    requires
        0 <= j <= s.len(),
    ensures
        below(s.take(j), steps).len() <= below(s, steps).len(),
        forall|k: int|
            0 <= k < below(s.take(j), steps).len() ==> below(s.take(j), steps)[k] == below(
                s,
                steps,
            )[k],
    decreases s.len() - j,
{
    if j < s.len() {
        lemma_below_prefix(s, steps, j + 1);
        assert(s.take(j + 1).drop_last() =~= s.take(j));
    } else {
        assert(s.take(j) =~= s);
    }
}

/// A step below `steps` that `s` holds makes `below` non-empty.
proof fn lemma_below_nonempty(s: Seq<usize>, steps: usize, x: usize)
    requires
        s.contains(x),
        x < steps,
    ensures
        below(s, steps).len() > 0,
    decreases s.len(),
{
    if s.last() != x {
        let i = choose|i: int| 0 <= i < s.len() && s[i] == x;
        assert(s.drop_last()[i] == x);
        lemma_below_nonempty(s.drop_last(), steps, x);
    }
}

/// An arrangement holds step 0, so for one step or more the steps below the count
/// are never empty.
proof fn lemma_arrangement_below_nonempty(s: Seq<usize>, steps: usize)
    requires
        is_arrangement(s),
        steps >= 1,
    ensures
        below(s, steps).len() > 0,
{
    assert(all_steps()[0] == 0);
    assert(all_steps().contains(0));
    assert(all_steps().to_multiset().count(0) > 0);
    assert(s.to_multiset().count(0) > 0);
    lemma_below_nonempty(s, steps, 0);
}

/// The `n`-th step of `arr` that lies below `steps`.
fn below_at(arr: &[usize; 16], steps: usize, n: usize) -> (r: Option<usize>)
    ensures
        r == (if n < below(arr@, steps).len() {
            Some(below(arr@, steps)[n as int])
        } else {
            None::<usize>
        }),
{
    let mut count: usize = 0;
    let mut i: usize = 0;
    while i < 16
        invariant
            i <= 16,
            arr@.len() == 16,
            count == below(arr@.take(i as int), steps).len(),
            count <= n,
        decreases 16 - i,
    {
        assert(arr@.take(i + 1).drop_last() =~= arr@.take(i as int));
        if arr[i] < steps {
            if count == n {
                proof {
                    lemma_below_prefix(arr@, steps, i + 1);
                }
                return Some(arr[i]);
            }
            count = count + 1;
        }
        i = i + 1;
    }
    assert(arr@.take(16) =~= arr@);
    None
}

/// The last step of `arr` that lies below `steps`.
fn last_below(arr: &[usize; 16], steps: usize) -> (r: Option<usize>)
    ensures
        r == (if below(arr@, steps).len() > 0 {
            Some(below(arr@, steps).last())
        } else {
            None::<usize>
        }),
{
    let mut last: Option<usize> = None;
    let mut i: usize = 0;
    while i < 16
        invariant
            i <= 16,
            arr@.len() == 16,
            last == (if below(arr@.take(i as int), steps).len() > 0 {
                Some(below(arr@.take(i as int), steps).last())
            } else {
                None::<usize>
            }),
        decreases 16 - i,
    {
        assert(arr@.take(i + 1).drop_last() =~= arr@.take(i as int));
        if arr[i] < steps {
            last = Some(arr[i]);
        }
        i = i + 1;
    }
    assert(arr@.take(16) =~= arr@);
    last
}

/// The steps below `n`, in their natural order.
pub open spec fn steps_upto(n: nat) -> Seq<usize> {
    Seq::new(n, |i: int| i as usize)
}

/// Each step below `n` occurs once in `steps_upto(n)`, and no other.
proof fn lemma_steps_upto_count(n: nat, x: usize)
    requires
        n <= usize::MAX + 1,
    ensures
        steps_upto(n).to_multiset().count(x) == (if x < n {
            1nat
        } else {
            0nat
        }),
    decreases n,
{
    broadcast use vstd::multiset::group_multiset_axioms;

    if n > 0 {
        let m = (n - 1) as nat;
        lemma_steps_upto_count(m, x);
        assert(steps_upto(m).push(m as usize) =~= steps_upto(n));
    } else {
        assert(steps_upto(n) =~= Seq::<usize>::empty());
    }
}

/// `below` keeps each step below `steps` as often as `s` holds it, and no other.
proof fn lemma_below_count(s: Seq<usize>, steps: usize, x: usize)
    ensures
        below(s, steps).to_multiset().count(x) == (if x < steps {
            s.to_multiset().count(x)
        } else {
            0nat
        }),
    decreases s.len(),
{
    broadcast use vstd::multiset::group_multiset_axioms;

    if s.len() == 0 {
        assert(below(s, steps) =~= Seq::<usize>::empty());
    } else {
        lemma_below_count(s.drop_last(), steps, x);
        assert(s.drop_last().push(s.last()) =~= s);
    }
}

/// Law: the steps below `steps` of an arrangement are each of the steps below `steps`
/// exactly once, so that a shuffled order plays every step once in each pass of
/// `steps` steps.
pub proof fn law_shuffle_plays_each_step_once(s: Seq<usize>, steps: usize)
    requires
        is_arrangement(s),
        steps <= 16,
    ensures
        below(s, steps).len() == steps,
        forall|x: usize| x < steps ==> below(s, steps).contains(x),
        forall|i: int, j: int|
            0 <= i < j < steps ==> below(s, steps)[i] != below(s, steps)[j],
        forall|c: usize| c < steps ==> pick(s, steps, c) == below(s, steps)[c as int],
{
    broadcast use vstd::multiset::group_multiset_axioms;

    let b = below(s, steps);
    assert(all_steps() =~= steps_upto(16));
    assert forall|x: usize| #[trigger] b.to_multiset().count(x) == steps_upto(steps as nat).to_multiset().count(x) by {
        lemma_below_count(s, steps, x);
        lemma_steps_upto_count(16, x);
        lemma_steps_upto_count(steps as nat, x);
    }
    assert(b.to_multiset() =~= steps_upto(steps as nat).to_multiset());
    assert(b.len() == b.to_multiset().len());
    assert(steps_upto(steps as nat).len() == steps_upto(steps as nat).to_multiset().len());
    assert forall|x: usize| x < steps implies b.contains(x) by {
        lemma_steps_upto_count(steps as nat, x);
        assert(b.to_multiset().count(x) > 0);
    }
    assert forall|i: int, j: int| 0 <= i < j < steps implies b[i] != b[j] by {
        if b[i] == b[j] {
            let x = b[i];
            let r = b.remove(i);
            assert(r.to_multiset() =~= b.to_multiset().remove(x));
            assert(r[j - 1] == b[j]);
            assert(r.contains(x));
            assert(r.to_multiset().count(x) > 0);
            lemma_steps_upto_count(steps as nat, x);
        }
    }
}

/// Law: after the transport stops, the sequencer starts over at the first step: the
/// step after step 15 is the first one for every step count up to sixteen.
pub proof fn law_restart_after_stop(steps: usize)
    requires
        steps <= 16,
    ensures
        advanced(15, steps) == 0,
{
}

/// Law: moving on from a step within the count stays within the count, and after the
/// last step comes the first.
pub proof fn law_advance_wraps(current: usize, steps: usize)
    requires
        current < steps,
    ensures
        advanced(current, steps) < steps,
        current == steps - 1 ==> advanced(current, steps) == 0,
        current < steps - 1 ==> advanced(current, steps) == current + 1,
{
}

/// A sequence whose steps all lie at or above `steps` keeps none of them.
proof fn lemma_below_none(s: Seq<usize>, steps: usize)
    requires
        forall|k: int| 0 <= k < s.len() ==> s[k] >= steps,
    ensures
        below(s, steps).len() == 0,
    decreases s.len(),
{
    if s.len() > 0 {
        assert forall|k: int| 0 <= k < s.drop_last().len() implies s.drop_last()[k] >= steps by {
            assert(s.drop_last()[k] == s[k]);
        }
        assert(s[s.len() - 1] >= steps);
        lemma_below_none(s.drop_last(), steps);
    }
}

/// The first step below `steps` is the one at the first index that holds such a step.
proof fn lemma_below_first(s: Seq<usize>, steps: usize, i: int)
    requires
        0 <= i < s.len(),
        s[i] < steps,
        forall|k: int| 0 <= k < i ==> s[k] >= steps,
    ensures
        below(s, steps).len() >= 1,
        below(s, steps)[0] == s[i],
{
    assert forall|k: int| 0 <= k < s.take(i).len() implies s.take(i)[k] >= steps by {
        assert(s.take(i)[k] == s[k]);
    }
    lemma_below_none(s.take(i), steps);
    assert(s.take(i + 1).drop_last() =~= s.take(i));
    assert(s.take(i + 1).last() == s[i]);
    lemma_below_prefix(s, steps, i + 1);
}

/// The last step below `steps` is the one at the last index that holds such a step.
proof fn lemma_below_last(s: Seq<usize>, steps: usize, j: int)
    requires
        0 <= j < s.len(),
        s[j] < steps,
        forall|k: int| j < k < s.len() ==> s[k] >= steps,
    ensures
        below(s, steps) == below(s.take(j), steps).push(s[j]),
    decreases s.len(),
{
    if j == s.len() - 1 {
        assert(s.drop_last() =~= s.take(j));
    } else {
        let init = s.drop_last();
        assert forall|k: int| j < k < init.len() implies init[k] >= steps by {
            assert(init[k] == s[k]);
        }
        assert(init[j] == s[j]);
        lemma_below_last(init, steps, j);
        assert(init.take(j) =~= s.take(j));
        assert(s[s.len() - 1] >= steps);
    }
}

/// Every step that an arrangement holds is one of the sixteen.
proof fn lemma_arrangement_bounded(s: Seq<usize>)
    requires
        is_arrangement(s),
    ensures
        forall|k: int| 0 <= k < s.len() ==> s[k] < 16,
{
    assert(all_steps() =~= steps_upto(16));
    assert forall|k: int| 0 <= k < s.len() implies s[k] < 16 by {
        let x = s[k];
        assert(s.contains(x));
        assert(s.to_multiset().count(x) > 0);
        lemma_steps_upto_count(16, x);
    }
}

/// Below any count of sixteen or more, an arrangement keeps all its steps.
proof fn lemma_below_all(s: Seq<usize>, steps: usize)
    requires
        forall|k: int| 0 <= k < s.len() ==> s[k] < 16,
        steps >= 16,
    ensures
        below(s, steps) == below(s, 16),
    decreases s.len(),
{
    if s.len() > 0 {
        assert forall|k: int| 0 <= k < s.drop_last().len() implies s.drop_last()[k] < 16 by {
            assert(s.drop_last()[k] == s[k]);
        }
        assert(s[s.len() - 1] < 16);
        lemma_below_all(s.drop_last(), steps);
    }
}

/// For two steps or more, an arrangement keeps at least two different steps below the
/// count, none of them twice.
proof fn lemma_below_distinct(s: Seq<usize>, steps: usize)
    requires
        is_arrangement(s),
        steps >= 2,
    ensures
        below(s, steps).len() >= 2,
        forall|i: int, j: int|
            0 <= i < j < below(s, steps).len() ==> below(s, steps)[i] != below(s, steps)[j],
{
    if steps <= 16 {
        law_shuffle_plays_each_step_once(s, steps);
    } else {
        lemma_arrangement_bounded(s);
        lemma_below_all(s, steps);
        law_shuffle_plays_each_step_once(s, 16);
    }
}

/// The index of the first step of `arr` below `steps`.
fn first_below_index(arr: &[usize; 16], steps: usize) -> (i: usize)
    requires
        below(arr@, steps).len() > 0,
    ensures
        i < 16,
        arr@[i as int] < steps,
        forall|k: int| 0 <= k < i ==> arr@[k] >= steps,
{
    let mut i: usize = 0;
    while i < 16 && arr[i] >= steps
        invariant
            i <= 16,
            arr@.len() == 16,
            forall|k: int| 0 <= k < i ==> arr@[k] >= steps,
        decreases 16 - i,
    {
        i = i + 1;
    }
    if i == 16 {
        proof {
            lemma_below_none(arr@, steps);
        }
    }
    i
}

/// The index of the last step of `arr` below `steps`.
fn last_below_index(arr: &[usize; 16], steps: usize) -> (j: usize)
    requires
        below(arr@, steps).len() > 0,
    ensures
        j < 16,
        arr@[j as int] < steps,
        forall|k: int| j < k < 16 ==> arr@[k] >= steps,
{
    let mut n: usize = 16;
    while n > 0 && arr[n - 1] >= steps
        invariant
            n <= 16,
            arr@.len() == 16,
            forall|k: int| n <= k < 16 ==> arr@[k] >= steps,
        decreases n,
    {
        n = n - 1;
    }
    if n == 0 {
        proof {
            lemma_below_none(arr@, steps);
        }
    }
    n - 1
}

/// The step after `k - 1 % steps` is `k % steps`.
proof fn lemma_mod_step(k: int, steps: int)
    requires
        k >= 1,
        1 <= steps <= 16,
    ensures
        advanced(((k - 1) % steps) as usize, steps as usize) == k % steps,
{
    let m = (k - 1) % steps;
    let q = (k - 1) / steps;
    assert(k - 1 == q * steps + m && 0 <= m < steps) by (nonlinear_arith)
        requires
            steps >= 1,
            m == (k - 1) % steps,
            q == (k - 1) / steps,
    ;
    if m + 1 >= steps {
        assert(k == q * steps + steps);
        assert(k % steps == 0) by (nonlinear_arith)
            requires
                k == q * steps + steps,
                steps >= 1,
        ;
    } else {
        assert(k % steps == m + 1) by (nonlinear_arith)
            requires
                k == q * steps + m + 1,
                0 <= m + 1 < steps,
        ;
    }
}

/// Where a random walk ("Brownian" order) goes from the current step.
#[derive(Clone, Copy, Debug, PartialEq, Eq, Structural)]
pub enum BrownianMove {
    Back,
    Stay,
    Forward,
}

/// The per-step settings that decide which note a step plays: the note number, its
/// velocity, the MIDI channel index, and whether the step's gate is open.
pub struct SequencerData {
    pub notes: [u8; 16],
    pub velocities: [u8; 16],
    pub channels: [u8; 16],
    pub gates: [bool; 16],
}

/// The step to play next and what it plays.
#[derive(Clone, Copy, Debug, PartialEq, Eq, Structural)]
pub struct NextStep {
    pub note: u8,
    pub velocity: u8,
    pub channel: u8,
    pub step: usize,
    pub is_note_on: bool,
}

/// `after` is `before` followed by one new arrangement drawn or more.
pub open spec fn drew_shuffles(before: Seq<RandomDraw>, after: Seq<RandomDraw>) -> bool {
    &&& after.len() > before.len()
    &&& after.subrange(0, before.len() as int) == before
    &&& forall|k: int| before.len() <= k < after.len() ==> #[trigger] after[k] is Shuffle
}

/// A random draw that the sequencer made: an index below `range`, a coin, or a new
/// arrangement of the steps.
pub ghost enum RandomDraw {
    Below { range: nat, value: nat },
    Coin { heads: bool },
    Shuffle { arrangement: Seq<usize> },
}

/// The state of the step sequencer that does not depend on the host's clock.
pub struct DmSeq {
    current_step: usize,
    shuffled_steps: [usize; 16],
    last_shuffled_step: usize,
    is_in_swing_cycle: bool,
    should_alternate_sequence: bool,
    prev_steps: usize,
    next_step_frame: i64,
    event_queue: EventQueue,
    draws: Ghost<Seq<RandomDraw>>,
}

impl DmSeq {
    /// The step the sequencer stands on.
    pub closed spec fn current(&self) -> usize {
        self.current_step
    }

    /// The arrangement that the shuffled orders play.
    pub closed spec fn arrangement(&self) -> Seq<usize> {
        self.shuffled_steps@
    }

    /// The step that ended the last arrangement of the reshuffling order.
    pub closed spec fn last_shuffled(&self) -> usize {
        self.last_shuffled_step
    }

    /// Whether the alternating orders play backwards now.
    pub closed spec fn alternating(&self) -> bool {
        self.should_alternate_sequence
    }

    /// The number of steps at the last reordering.
    pub closed spec fn prior_steps(&self) -> usize {
        self.prev_steps
    }

    /// Whether the swing cycle starts over.
    pub closed spec fn swing_cycle(&self) -> bool {
        self.is_in_swing_cycle
    }

    /// The sample frame at which the next step is due.
    pub closed spec fn frame(&self) -> i64 {
        self.next_step_frame
    }

    /// The queue of timed MIDI events.
    pub closed spec fn queue(&self) -> EventQueue {
        self.event_queue
    }

    /// The random draws made so far, in order.
    pub closed spec fn draws(&self) -> Seq<RandomDraw> {
        self.draws@
    }

    /// The arrangement holds each of the sixteen steps once.
    pub open spec fn wf(&self) -> bool {
        is_arrangement(self.arrangement())
    }

    /// `next` is `self` with the current step, the direction and the step count set,
    /// the rest kept, no random draw made.
    pub open spec fn set_to(self, next: Self, current: usize, alternating: bool, prior: usize) -> bool {
        &&& self.keeps(next, current, alternating, prior)
        &&& next.draws() == self.draws()
    }

    /// `next` is `self` with the current step, the direction and the step count set,
    /// the rest but the record of random draws kept.
    pub open spec fn keeps(self, next: Self, current: usize, alternating: bool, prior: usize) -> bool {
        &&& next.current() == current
        &&& next.alternating() == alternating
        &&& next.prior_steps() == prior
        &&& next.arrangement() == self.arrangement()
        &&& next.last_shuffled() == self.last_shuffled()
        &&& next.swing_cycle() == self.swing_cycle()
        &&& next.frame() == self.frame()
        &&& next.queue() == self.queue()
    }

    /// `next` is `self` with the event queue replaced, the rest kept.
    pub open spec fn same_but_queue(self, next: Self) -> bool {
        &&& next.current() == self.current()
        &&& next.alternating() == self.alternating()
        &&& next.prior_steps() == self.prior_steps()
        &&& next.arrangement() == self.arrangement()
        &&& next.last_shuffled() == self.last_shuffled()
        &&& next.swing_cycle() == self.swing_cycle()
        &&& next.frame() == self.frame()
        &&& next.draws() == self.draws()
    }

    /// `next` holds a new arrangement, as `set_shuffled_steps(steps, on_repeat)` leaves it.
    pub open spec fn reshuffled(self, next: Self, steps: usize, on_repeat: bool) -> bool {
        let b = below(next.arrangement(), steps);
        &&& is_arrangement(next.arrangement())
        &&& !on_repeat ==> next.last_shuffled() == self.last_shuffled()
        &&& on_repeat ==> b[0] != self.last_shuffled() && next.last_shuffled() == b.last()
    }

    /// The draws that `set_shuffled_steps(_, on_repeat)` adds to the record: the one new
    /// arrangement, or when reshuffling on repeat, one new arrangement or more.
    pub open spec fn reshuffle_draws(self, next: Self, on_repeat: bool) -> bool {
        &&& !on_repeat ==> next.draws() == self.draws().push(
            RandomDraw::Shuffle { arrangement: next.arrangement() },
        )
        &&& on_repeat ==> drew_shuffles(self.draws(), next.draws())
    }

    /// The reordering of the current step by `order` within `steps` steps stays within
    /// the bounds of its arithmetic, of the step counter, and of a random draw below
    /// `steps`, whatever is drawn.
    pub open spec fn reorder_defined(self, order: u8, steps: usize) -> bool {
        let c = self.current();
        let a = self.alternating();
        if order == 1 {
            c < steps
        } else if order == 2 {
            (if c == 0 {
                !a
            } else {
                a
            }) ==> c < steps
        } else if order == 3 {
            if a {
                c == 0 || c < steps
            } else {
                steps >= 1 && (c >= steps - 1 ==> c < usize::MAX)
            }
        } else if order == 4 {
            steps >= 1
        } else if order == 6 {
            steps != 1 && (c == 0 || steps != self.prior_steps()) ==> steps >= 1
        } else if order == 7 {
            steps >= 1 && 2 <= c + steps <= usize::MAX
        } else if order == 8 {
            (c == 0 ==> steps >= 1) && (c != 0 && a ==> c < steps)
        } else {
            true
        }
    }

    /// The reordering of the current step by `order` gives `r` and leaves `next`;
    /// `mv` is the move of the random walk, which only order 7 draws.
    /// The random draws that reordering the current step by `order` within `steps` steps
    /// adds to the record, with `r` the step it gives: the index drawn in random order,
    /// the arrangements drawn at the first step of a shuffled pass (or when the step count
    /// changed), and the coin drawn at the first step of an "either way" pass.
    pub open spec fn reorder_draws(self, next: Self, order: u8, steps: usize, r: usize) -> bool {
        let c = self.current();
        if order == 4 {
            next.draws() == self.draws().push(
                RandomDraw::Below { range: steps as nat, value: r as nat },
            )
        } else if (order == 5 || order == 6) && steps != 1 && (c == 0 || steps
            != self.prior_steps()) {
            self.reshuffle_draws(next, order == 6)
        } else if order == 8 && c == 0 {
            next.draws() == self.draws().push(RandomDraw::Coin { heads: next.alternating() })
        } else {
            next.draws() == self.draws()
        }
    }

    pub open spec fn reorder_outcome(
        self,
        next: Self,
        order: u8,
        steps: usize,
        r: usize,
        mv: BrownianMove,
    ) -> bool {
        let c = self.current();
        let a = self.alternating();
        let p = self.prior_steps();
        if order == 1 {
            // Reverse
            r == steps - c - 1 && self.keeps(next, c, a, steps)
        } else if order == 2 {
            // Alternate
            let a2 = if c == 0 {
                !a
            } else {
                a
            };
            r == (if a2 {
                steps - c - 1
            } else {
                c as int
            }) && self.keeps(next, c, a2, steps)
        } else if order == 3 {
            // Pendulum
            if a {
                if c == 0 {
                    let c2 = advanced(c, steps);
                    r == c2 && self.keeps(next, c2, false, p)
                } else {
                    r == steps - c - 1 && self.keeps(next, c, a, steps)
                }
            } else {
                if c >= steps - 1 {
                    let c2 = advanced(c, steps);
                    r == steps - c2 - 1 && self.keeps(next, c2, true, p)
                } else {
                    r == c && self.keeps(next, c, a, steps)
                }
            }
        } else if order == 4 {
            // Random
            r < steps && self.keeps(next, c, a, steps)
        } else if order == 5 || order == 6 {
            // Shuffle A, Shuffle B
            if steps == 1 {
                r == c && self.keeps(next, c, a, p)
            } else {
                let needed = c == 0 || steps != p;
                &&& needed ==> self.reshuffled(next, steps, order == 6)
                &&& !needed ==> next.arrangement() == self.arrangement() && next.last_shuffled()
                    == self.last_shuffled()
                &&& next.current() == c
                &&& next.alternating() == a
                &&& next.prior_steps() == steps
                &&& next.swing_cycle() == self.swing_cycle()
                &&& next.frame() == self.frame()
                &&& next.queue() == self.queue()
                &&& r == pick(next.arrangement(), steps, c)
            }
        } else if order == 7 {
            // Brownian
            match mv {
                BrownianMove::Back => {
                    let c2 = ((c + steps - 2) % (steps as int)) as usize;
                    r == c2 && self.keeps(next, c2, a, p)
                },
                BrownianMove::Stay => {
                    let c2 = ((c + steps - 1) % (steps as int)) as usize;
                    r == c2 && self.keeps(next, c2, a, p)
                },
                BrownianMove::Forward => r == c && self.keeps(next, c, a, steps),
            }
        } else if order == 8 {
            // Either Way
            let a2 = next.alternating();
            &&& c != 0 ==> a2 == a
            &&& r == (if a2 {
                steps - c - 1
            } else {
                c as int
            })
            &&& self.keeps(next, c, a2, steps)
        } else {
            // Forward
            r == c && self.keeps(next, c, a, steps)
        }
    }

    pub fn new() -> (r: Self)
        ensures
            r.wf(),
            r.current() == 15,
            r.arrangement() == all_steps(),
            r.last_shuffled() == usize::MAX,
            r.swing_cycle(),
            r.alternating(),
            r.prior_steps() == 8,
            r.frame() == 0,
            r.queue().events() == Seq::<MidiEvent>::empty(),
            r.queue().pending_note_off() == None::<MidiMessage>,
            r.draws() == Seq::<RandomDraw>::empty(),
    {
        let r = Self {
            current_step: 15,
            shuffled_steps: [0, 1, 2, 3, 4, 5, 6, 7, 8, 9, 10, 11, 12, 13, 14, 15],
            last_shuffled_step: usize::MAX,
            is_in_swing_cycle: true,
            should_alternate_sequence: true,
            prev_steps: 8,
            next_step_frame: 0,
            event_queue: EventQueue::new(),
            draws: Ghost(Seq::empty()),
        };
        assert(r.shuffled_steps@ =~= all_steps());
        r
    }


    /// Draws a random index below `n` and records the draw.
    fn draw_below(&mut self, n: usize) -> (r: usize)
        requires
            n > 0,
        ensures
            r < n,
            final(self).draws() == old(self).draws().push(
                RandomDraw::Below { range: n as nat, value: r as nat },
            ),
            old(self).keeps(
                *final(self),
                old(self).current(),
                old(self).alternating(),
                old(self).prior_steps(),
            ),
    {
        let r = random_below(n);
        self.draws = Ghost(self.draws@.push(RandomDraw::Below { range: n as nat, value: r as nat }));
        r
    }

    /// Draws a random boolean and records the draw.
    fn draw_coin(&mut self) -> (r: bool)
        ensures
            final(self).draws() == old(self).draws().push(RandomDraw::Coin { heads: r }),
            old(self).keeps(
                *final(self),
                old(self).current(),
                old(self).alternating(),
                old(self).prior_steps(),
            ),
    {
        let r = random_bool();
        self.draws = Ghost(self.draws@.push(RandomDraw::Coin { heads: r }));
        r
    }

    /// Draws a new arrangement of the steps and records the draw.
    fn draw_arrangement(&mut self)
        requires
            old(self).wf(),
        ensures
            final(self).wf(),
            final(self).draws() == old(self).draws().push(
                RandomDraw::Shuffle { arrangement: final(self).arrangement() },
            ),
            final(self).current() == old(self).current(),
            final(self).alternating() == old(self).alternating(),
            final(self).prior_steps() == old(self).prior_steps(),
            final(self).last_shuffled() == old(self).last_shuffled(),
            final(self).swing_cycle() == old(self).swing_cycle(),
            final(self).frame() == old(self).frame(),
            final(self).queue() == old(self).queue(),
    {
        shuffle_steps(&mut self.shuffled_steps);
        self.draws = Ghost(self.draws@.push(RandomDraw::Shuffle { arrangement: self.shuffled_steps@ }));
    }

    /// Moves on to the next step, back to the first after the last of `steps` steps.
    fn advance_step(&mut self, steps: usize)
        requires
            old(self).wf(),
            old(self).current() < usize::MAX,
        ensures
            final(self).wf(),
            old(self).set_to(
                *final(self),
                advanced(old(self).current(), steps),
                old(self).alternating(),
                old(self).prior_steps(),
            ),
    {
        let next_step = self.current_step + 1;
        self.current_step = if next_step >= steps {
            0
        } else {
            next_step
        };
    }

    /// Shuffles the arrangement. When `should_reshuffle_on_repeat`, an arrangement
    /// whose first step below `steps` is the one that ended the previous arrangement is
    /// shuffled again, and the last step below `steps` of the accepted arrangement is
    /// kept for the next time.
    pub fn set_shuffled_steps(&mut self, steps: usize, should_reshuffle_on_repeat: bool)
        requires
            old(self).wf(),
            should_reshuffle_on_repeat ==> steps >= 1 && (steps >= 2 || old(self).last_shuffled()
                != 0),
        ensures
            final(self).wf(),
            old(self).reshuffled(*final(self), steps, should_reshuffle_on_repeat),
            old(self).reshuffle_draws(*final(self), should_reshuffle_on_repeat),
            final(self).current() == old(self).current(),
            final(self).alternating() == old(self).alternating(),
            final(self).prior_steps() == old(self).prior_steps(),
            final(self).swing_cycle() == old(self).swing_cycle(),
            final(self).frame() == old(self).frame(),
            final(self).queue() == old(self).queue(),
    {
        if should_reshuffle_on_repeat {
            self.reshuffle_on_repeat(steps);
        } else {
            self.draw_arrangement();
        }
    }

    /// Shuffles the arrangement until its first step below `steps` is not the one that
    /// ended the previous arrangement, then keeps its last step below `steps`. To stay
    /// bounded, after `u64::MAX` rejected arrangements it swaps the first and the last step
    /// below `steps` of the last one, which then starts with another step.
    fn reshuffle_on_repeat(&mut self, steps: usize)
        requires
            old(self).wf(),
            steps >= 1,
            steps >= 2 || old(self).last_shuffled() != 0,
        ensures
            final(self).wf(),
            old(self).reshuffled(*final(self), steps, true),
            old(self).reshuffle_draws(*final(self), true),
            final(self).current() == old(self).current(),
            final(self).alternating() == old(self).alternating(),
            final(self).prior_steps() == old(self).prior_steps(),
            final(self).swing_cycle() == old(self).swing_cycle(),
            final(self).frame() == old(self).frame(),
            final(self).queue() == old(self).queue(),
    {
        let mut attempts: u64 = 0;
        let mut done = false;
        assert(self.draws@.subrange(0, old(self).draws@.len() as int) =~= old(self).draws@);
        while !done
            invariant
                is_arrangement(self.shuffled_steps@),
                steps >= 1,
                steps >= 2 || old(self).last_shuffled_step != 0,
                self.current_step == old(self).current_step,
                self.should_alternate_sequence == old(self).should_alternate_sequence,
                self.prev_steps == old(self).prev_steps,
                self.is_in_swing_cycle == old(self).is_in_swing_cycle,
                self.next_step_frame == old(self).next_step_frame,
                self.event_queue == old(self).event_queue,
                !done ==> self.last_shuffled_step == old(self).last_shuffled_step,
                done ==> old(self).reshuffled(*self, steps, true),
                done ==> old(self).reshuffle_draws(*self, true),
                self.draws@.len() >= old(self).draws@.len(),
                self.draws@.subrange(0, old(self).draws@.len() as int) == old(self).draws@,
                forall|k: int|
                    old(self).draws@.len() <= k < self.draws@.len() ==> #[trigger] self.draws@[k] is Shuffle,
                done ==> self.draws@.len() > old(self).draws@.len(),
            decreases u64::MAX - attempts + (if done {
                0int
            } else {
                1int
            }),
        {
            let ghost prev_draws = self.draws@;
            self.draw_arrangement();
            proof {
                assert(self.draws@.subrange(0, old(self).draws@.len() as int) =~= prev_draws.subrange(
                    0,
                    old(self).draws@.len() as int,
                ));
                assert forall|k: int| old(self).draws@.len() <= k < self.draws@.len() implies #[trigger] self.draws@[k] is Shuffle by {
                    if k < prev_draws.len() {
                        assert(self.draws@[k] == prev_draws[k]);
                    }
                }
                lemma_arrangement_below_nonempty(self.shuffled_steps@, steps);
                lemma_below_bounded(self.shuffled_steps@, steps);
            }
            let first_shuffled_step = below_at(&self.shuffled_steps, steps, 0).unwrap();

            // Reshuffle if this shuffle starts with the previous last element
            if first_shuffled_step == self.last_shuffled_step && attempts < u64::MAX {
                attempts = attempts + 1;
            } else {
                if first_shuffled_step == self.last_shuffled_step {
                    // Out of attempts: start with the last step instead.
                    let ghost before = self.shuffled_steps@;
                    let i = first_below_index(&self.shuffled_steps, steps);
                    let j = last_below_index(&self.shuffled_steps, steps);
                    proof {
                        lemma_below_distinct(before, steps);
                        lemma_below_first(before, steps, i as int);
                        lemma_below_last(before, steps, j as int);
                        lemma_below_bounded(before.take(j as int), steps);
                        if j < i {
                            assert(before[j as int] >= steps);
                        } else if j == i {
                            assert forall|k: int| 0 <= k < before.take(j as int).len()
                                implies before.take(j as int)[k] >= steps by {
                                assert(before.take(j as int)[k] == before[k]);
                            }
                            lemma_below_none(before.take(j as int), steps);
                        }
                    }
                    let x = self.shuffled_steps[i];
                    let y = self.shuffled_steps[j];
                    self.shuffled_steps[i] = y;
                    self.shuffled_steps[j] = x;
                    proof {
                        let after = self.shuffled_steps@;
                        assert(after =~= before.update(i as int, y).update(j as int, x));
                        assert(after.to_multiset() =~= before.to_multiset()) by {
                            broadcast use vstd::multiset::group_multiset_axioms;

                            assert(before.update(i as int, y).to_multiset() =~= before.to_multiset().insert(y).remove(x));
                        }
                        assert forall|k: int| 0 <= k < i implies after[k] >= steps by {
                            assert(after[k] == before[k]);
                        }
                        assert forall|k: int| j < k < after.len() implies after[k] >= steps by {
                            assert(after[k] == before[k]);
                        }
                        lemma_below_first(after, steps, i as int);
                        lemma_below_last(after, steps, j as int);
                        let b = below(before, steps);
                        assert(b[0] != b[b.len() - 1]);
                    }
                }
                self.last_shuffled_step = match last_below(&self.shuffled_steps, steps) {
                    Some(x) => x,
                    None => self.last_shuffled_step,
                };
                done = true;
            }
        }
    }

    /// The step that `order` plays at the current position of a sequence of `steps`
    /// steps: forward (0 and above 8), reverse (1), alternating direction on each pass
    /// (2), back and forth (3), random (4), two shuffled orders (5, and 6, which never
    /// starts a new arrangement with the step that ended the last one), a random walk
    /// whose move `brownian` draws (7), or a direction drawn on each pass (8).
    pub fn map_current_step_to_reordered_step<B: Fn() -> BrownianMove>(
        &mut self,
        order: u8,
        steps: usize,
        brownian: B,
    ) -> (r: usize)
        requires
            old(self).wf(),
            old(self).reorder_defined(order, steps),
            call_requires(brownian, ()),
        ensures
            final(self).wf(),
            old(self).current() < steps ==> r < steps,
            exists|mv: BrownianMove|
                (order == 7 ==> call_ensures(brownian, (), mv)) && #[trigger] old(
                    self,
                ).reorder_outcome(*final(self), order, steps, r, mv),
            old(self).reorder_draws(*final(self), order, steps, r),
    {
        let ghost pre = *self;
        let ghost mut mv = BrownianMove::Forward;
        let current = self.current_step;
        let mut update_prev = true;
        let reordered_step: usize = match order {
            1 => {
                // Reverse
                steps - current - 1
            },
            2 => {
                // Alternate
                if current == 0 {
                    self.should_alternate_sequence = !self.should_alternate_sequence;
                }
                if self.should_alternate_sequence {
                    steps - current - 1
                } else {
                    current
                }
            },
            3 => {
                // Pendulum
                if self.should_alternate_sequence {
                    if current == 0 {
                        self.should_alternate_sequence = !self.should_alternate_sequence;
                        self.advance_step(steps);
                        update_prev = false;
                        self.current_step
                    } else {
                        steps - current - 1
                    }
                } else {
                    if current >= steps - 1 {
                        self.should_alternate_sequence = !self.should_alternate_sequence;
                        self.advance_step(steps);
                        update_prev = false;
                        steps - self.current_step - 1
                    } else {
                        current
                    }
                }
            },
            4 => {
                // Random
                self.draw_below(steps)
            },
            5 | 6 => {
                // Shuffle A, Shuffle B
                if steps == 1 {
                    update_prev = false;
                    current
                } else {
                    if current == 0 || steps != self.prev_steps {
                        self.set_shuffled_steps(steps, order == 6);
                    }
                    proof {
                        lemma_below_bounded(self.shuffled_steps@, steps);
                    }
                    match below_at(&self.shuffled_steps, steps, current) {
                        Some(x) => x,
                        None => current,
                    }
                }
            },
            7 => {
                // Brownian
                let m = brownian();
                proof {
                    mv = m;
                }
                match m {
                    BrownianMove::Back => {
                        // go to previous step
                        self.current_step = (current + steps - 2) % steps;
                        update_prev = false;
                        self.current_step
                    },
                    BrownianMove::Stay => {
                        // stay on current step
                        self.current_step = (current + steps - 1) % steps;
                        update_prev = false;
                        self.current_step
                    },
                    BrownianMove::Forward => {
                        // advance to the next step
                        current
                    },
                }
            },
            8 => {
                // Either Way
                if current == 0 {
                    self.should_alternate_sequence = self.draw_coin();
                }
                if self.should_alternate_sequence {
                    steps - current - 1
                } else {
                    current
                }
            },
            _ => {
                // Forward
                current
            },
        };
        if update_prev {
            self.prev_steps = steps;
        }
        assert(pre.reorder_outcome(*self, order, steps, reordered_step, mv));
        reordered_step
    }

    /// Moves on one step, reorders it by `order` and shifts it by `step_offset` within
    /// `steps` steps, and gives back what that step plays. `steps` is at most the sixteen
    /// steps whose settings `sequencer_data` holds. The step sounds when its
    /// velocity is above zero, its gate is open and `probability_gate` lets it through.
    pub fn resolve_next_step<B: Fn() -> BrownianMove, G: Fn(usize) -> bool>(
        &mut self,
        steps: usize,
        step_offset: usize,
        order: u8,
        sequencer_data: &SequencerData,
        brownian: B,
        probability_gate: G,
    ) -> (r: NextStep)
        requires
            old(self).wf(),
            old(self).current() < usize::MAX,
            1 <= steps <= 16,
            step_offset + steps - 1 <= usize::MAX,
            order == 7 ==> steps >= 2,
            call_requires(brownian, ()),
            forall|s: usize| s < steps ==> call_requires(probability_gate, (s,)),
        ensures
            final(self).wf(),
            r.step < steps,
            r.note == sequencer_data.notes@[r.step as int],
            r.velocity == sequencer_data.velocities@[r.step as int],
            r.channel == sequencer_data.channels@[r.step as int],
            exists|moved: DmSeq, reordered: usize, mv: BrownianMove, gate: bool|
                #![trigger moved.reorder_outcome(*final(self), order, steps, reordered, mv), call_ensures(probability_gate, (r.step,), gate)]
                {
                    &&& old(self).set_to(
                        moved,
                        advanced(old(self).current(), steps),
                        old(self).alternating(),
                        old(self).prior_steps(),
                    )
                    &&& order == 7 ==> call_ensures(brownian, (), mv)
                    &&& moved.reorder_outcome(*final(self), order, steps, reordered, mv)
                    &&& moved.reorder_draws(*final(self), order, steps, reordered)
                    &&& r.step == (reordered + step_offset) % (steps as int)
                    &&& call_ensures(probability_gate, (r.step,), gate)
                    &&& r.is_note_on == (r.velocity > 0 && sequencer_data.gates@[r.step as int]
                        && gate)
                },
    {
        self.advance_step(steps);
        let ghost mid = *self;
        let reordered_step = self.map_current_step_to_reordered_step(order, steps, brownian);
        let ghost mv = choose|mv: BrownianMove|
            (order == 7 ==> call_ensures(brownian, (), mv)) && #[trigger] mid.reorder_outcome(
                *self,
                order,
                steps,
                reordered_step,
                mv,
            );
        let repositioned_step = (reordered_step + step_offset) % steps;
        let note = sequencer_data.notes[repositioned_step];
        let velocity = sequencer_data.velocities[repositioned_step];
        let channel = sequencer_data.channels[repositioned_step];
        let gate = sequencer_data.gates[repositioned_step];
        let probability = probability_gate(repositioned_step);
        let is_note_on = velocity > 0 && gate && probability;
        let r = NextStep { note, velocity, channel, step: repositioned_step, is_note_on };
        assert(call_ensures(probability_gate, (r.step,), probability));
        assert(mid.reorder_outcome(*self, order, steps, reordered_step, mv));
        assert(old(self).set_to(
            mid,
            advanced(old(self).current(), steps),
            old(self).alternating(),
            old(self).prior_steps(),
        ));
        r
    }

    /// Makes the first step the next one to play and turns everything around for a
    /// stopped transport: queued note-offs are sent now and every other event dropped.
    pub fn handle_transport_stopped(&mut self)
        requires
            old(self).wf(),
        ensures
            final(self).wf(),
            final(self).current() == 15,
            final(self).swing_cycle(),
            final(self).frame() == 0,
            final(self).queue().events() == note_offs_now(old(self).queue().events()),
            final(self).queue().pending_note_off() == old(self).queue().pending_note_off(),
            final(self).alternating(),
            final(self).arrangement() == old(self).arrangement(),
            final(self).last_shuffled() == old(self).last_shuffled(),
            final(self).prior_steps() == old(self).prior_steps(),
            final(self).draws() == old(self).draws(),
    {
        self.current_step = 15;
        self.is_in_swing_cycle = true;
        self.next_step_frame = 0;
        self.event_queue.stop_all_notes();
        self.should_alternate_sequence = true;
    }

    /// The messages of a MIDI panic: on each of the sixteen channels, in order, the
    /// sustain pedal, all notes and all sound turned off.
    pub fn midi_panic(&self) -> (r: Vec<MidiMessage>)
        ensures
            r@.len() == 48,
            forall|i: int|
                0 <= i < 48 ==> r@[i] == MidiMessage::ControlChange(
                    (i / 3) as u8,
                    panic_controller(i % 3),
                    0,
                ),
    {
        let mut messages: Vec<MidiMessage> = Vec::new();
        let mut channel: u8 = 0;
        while channel < 16
            invariant
                channel <= 16,
                messages@.len() == 3 * channel,
                forall|i: int|
                    0 <= i < 3 * channel ==> messages@[i] == MidiMessage::ControlChange(
                        (i / 3) as u8,
                        panic_controller(i % 3),
                        0,
                    ),
            decreases 16 - channel,
        {
            let ch = checked_channel(channel).unwrap();
            // set sustain to zero
            messages.push(
                MidiMessage::ControlChange(
                    ch,
                    checked_data_byte(64).unwrap(),
                    checked_data_byte(0).unwrap(),
                ),
            );
            // send notes off message
            messages.push(
                MidiMessage::ControlChange(
                    ch,
                    checked_data_byte(123).unwrap(),
                    checked_data_byte(0).unwrap(),
                ),
            );
            // send sound off message
            messages.push(
                MidiMessage::ControlChange(
                    ch,
                    checked_data_byte(120).unwrap(),
                    checked_data_byte(0).unwrap(),
                ),
            );
            proof {
                let b = 3 * channel as int;
                assert(b / 3 == channel && b % 3 == 0) by (nonlinear_arith)
                    requires
                        b == 3 * channel,
                ;
                assert((b + 1) / 3 == channel && (b + 1) % 3 == 1) by (nonlinear_arith)
                    requires
                        b == 3 * channel,
                ;
                assert((b + 2) / 3 == channel && (b + 2) % 3 == 2) by (nonlinear_arith)
                    requires
                        b == 3 * channel,
                ;
            }
            channel = channel + 1;
        }
        messages
    }

    /// Sets up the sequencer when the plugin starts: shuffles the arrangement and
    /// takes `steps` as the step count of the last reordering.
    pub fn initialize(&mut self, steps: usize)
        requires
            old(self).wf(),
        ensures
            final(self).wf(),
            old(self).reshuffled(*final(self), steps, false),
            old(self).reshuffle_draws(*final(self), false),
            final(self).current() == old(self).current(),
            final(self).alternating() == old(self).alternating(),
            final(self).prior_steps() == steps,
            final(self).swing_cycle() == old(self).swing_cycle(),
            final(self).frame() == old(self).frame(),
            final(self).queue() == old(self).queue(),
    {
        self.set_shuffled_steps(steps, false);
        self.prev_steps = steps;
    }


    /// Law: in random order (4) the step played is the index drawn below `steps`, and
    /// that draw is the only one made.
    pub proof fn law_random_order_plays_draw(
        self,
        next: Self,
        steps: usize,
        r: usize,
        mv: BrownianMove,
    )
        requires
            self.reorder_outcome(next, 4, steps, r, mv),
            self.reorder_draws(next, 4, steps, r),
        ensures
            r < steps,
            next.draws().len() == self.draws().len() + 1,
            next.draws().drop_last() == self.draws(),
            next.draws().last() == (RandomDraw::Below { range: steps as nat, value: r as nat }),
            next.current() == self.current(),
    {
        assert(next.draws().drop_last() =~= self.draws());
    }

    /// Law: in "either way" order (8) the direction of a pass is the coin drawn at its
    /// first step, and within a pass the direction is kept and nothing is drawn.
    pub proof fn law_either_way_direction_is_drawn(
        self,
        next: Self,
        steps: usize,
        r: usize,
        mv: BrownianMove,
    )
        requires
            self.reorder_outcome(next, 8, steps, r, mv),
            self.reorder_draws(next, 8, steps, r),
            self.current() < steps,
        ensures
            self.current() == 0 ==> next.draws().len() == self.draws().len() + 1
                && next.draws().drop_last() == self.draws() && next.draws().last()
                == (RandomDraw::Coin { heads: next.alternating() }) && r == (if next.alternating() {
                steps - 1
            } else {
                0
            }),
            self.current() != 0 ==> next.draws() == self.draws() && next.alternating()
                == self.alternating(),
    {
        if self.current() == 0 {
            assert(next.draws().drop_last() =~= self.draws());
        }
    }

    /// Law: a shuffled order (5 or 6) draws a new arrangement at the first step of every
    /// pass; "Shuffle A" (5) draws exactly one and plays its first step below `steps`.
    pub proof fn law_shuffle_draws_each_pass(
        self,
        next: Self,
        order: u8,
        steps: usize,
        r: usize,
        mv: BrownianMove,
    )
        requires
            order == 5 || order == 6,
            steps >= 2,
            self.current() == 0,
            self.reorder_outcome(next, order, steps, r, mv),
            self.reorder_draws(next, order, steps, r),
        ensures
            next.draws().len() > self.draws().len(),
            next.draws().subrange(0, self.draws().len() as int) == self.draws(),
            forall|k: int|
                self.draws().len() <= k < next.draws().len() ==> #[trigger] next.draws()[k] is Shuffle,
            order == 5 ==> next.draws() == self.draws().push(
                RandomDraw::Shuffle { arrangement: next.arrangement() },
            ),
            order == 5 ==> r == below(next.arrangement(), steps)[0],
    {
        if order == 5 {
            let d = self.draws().push(RandomDraw::Shuffle { arrangement: next.arrangement() });
            assert(d.subrange(0, self.draws().len() as int) =~= self.draws());
            lemma_arrangement_below_nonempty(next.arrangement(), steps);
        }
    }

    /// Law: in pendulum order (3) two steps played one after the other are neighbours:
    /// the order bounces between the first and the last step without playing an end
    /// step twice in a row.
    pub proof fn law_pendulum_moves_by_one(
        first: Self,
        after_first: Self,
        second: Self,
        after_second: Self,
        steps: usize,
        r1: usize,
        r2: usize,
        mv1: BrownianMove,
        mv2: BrownianMove,
    )
        requires
            steps >= 2,
            first.current() < steps,
            first.reorder_outcome(after_first, 3, steps, r1, mv1),
            after_first.keeps(
                second,
                advanced(after_first.current(), steps),
                after_first.alternating(),
                after_first.prior_steps(),
            ),
            second.reorder_outcome(after_second, 3, steps, r2, mv2),
        ensures
            r1 < steps && r2 < steps,
            r1 + 1 == r2 || r2 + 1 == r1,
    {
    }

    /// Law: from the stopped position (step 15), forward order (0) without an offset plays
    /// the steps 0, 1, ..., `steps` - 1, 0, 1, ...: the `k`-th step played is `k % steps`.
    pub proof fn law_forward_from_stop(
        states: Seq<Self>,
        moved: Seq<Self>,
        results: Seq<usize>,
        moves: Seq<BrownianMove>,
        steps: usize,
    )
        requires
            1 <= steps <= 16,
            states.len() == results.len() + 1,
            moved.len() == results.len(),
            moves.len() == results.len(),
            states[0].current() == 15,
            forall|k: int|
                0 <= k < results.len() ==> #[trigger] states[k].keeps(
                    moved[k],
                    advanced(states[k].current(), steps),
                    states[k].alternating(),
                    states[k].prior_steps(),
                ) && moved[k].reorder_outcome(states[k + 1], 0, steps, results[k], moves[k]),
        ensures
            forall|k: int|
                0 <= k < results.len() ==> #[trigger] results[k] == k % (steps as int)
                    && states[k + 1].current() == k % (steps as int),
        decreases results.len(),
    {
        if results.len() > 0 {
            let n = results.len() - 1;
            assert forall|k: int| 0 <= k < n implies #[trigger] states.take(n + 1)[k].keeps(
                moved.take(n)[k],
                advanced(states.take(n + 1)[k].current(), steps),
                states.take(n + 1)[k].alternating(),
                states.take(n + 1)[k].prior_steps(),
            ) && moved.take(n)[k].reorder_outcome(
                states.take(n + 1)[k + 1],
                0,
                steps,
                results.take(n)[k],
                moves.take(n)[k],
            ) by {
                assert(states.take(n + 1)[k] == states[k]);
                assert(states.take(n + 1)[k + 1] == states[k + 1]);
                assert(moved.take(n)[k] == moved[k]);
                assert(results.take(n)[k] == results[k]);
                assert(moves.take(n)[k] == moves[k]);
                assert(states[k].keeps(
                    moved[k],
                    advanced(states[k].current(), steps),
                    states[k].alternating(),
                    states[k].prior_steps(),
                ));
            }
            Self::law_forward_from_stop(
                states.take(n + 1),
                moved.take(n),
                results.take(n),
                moves.take(n),
                steps,
            );
            assert forall|k: int| 0 <= k < results.len() implies #[trigger] results[k] == k % (
            steps as int) && states[k + 1].current() == k % (steps as int) by {
                if k < n {
                    assert(results.take(n)[k] == results[k]);
                    assert(states.take(n + 1)[k + 1] == states[k + 1]);
                } else {
                    assert(states[k].keeps(
                        moved[k],
                        advanced(states[k].current(), steps),
                        states[k].alternating(),
                        states[k].prior_steps(),
                    ));
                    if k == 0 {
                        assert(0int % (steps as int) == 0) by (nonlinear_arith)
                            requires
                                steps >= 1,
                        ;
                    } else {
                        assert(results.take(n)[k - 1] == results[k - 1]);
                        assert(states.take(n + 1)[k] == states[k]);
                        lemma_mod_step(k, steps as int);
                    }
                }
            }
        }
    }

    /// Law: in a shuffled order (5 or 6) a pass of `steps` steps, played at the positions
    /// 0, 1, ..., `steps` - 1, plays each of the steps below `steps` exactly once. The
    /// `k`-th reordering starts from `moved[k]` and leaves `states[k]`; between two, the
    /// sequencer moves on to the next position.
    pub proof fn law_shuffle_pass(
        states: Seq<Self>,
        moved: Seq<Self>,
        results: Seq<usize>,
        moves: Seq<BrownianMove>,
        order: u8,
        steps: usize,
    )
        requires
            order == 5 || order == 6,
            2 <= steps <= 16,
            states.len() == steps,
            moved.len() == steps,
            results.len() == steps,
            moves.len() == steps,
            forall|k: int| 0 <= k < steps ==> (#[trigger] moved[k]).current() == k,
            forall|k: int|
                0 <= k < steps ==> #[trigger] moved[k].reorder_outcome(
                    states[k],
                    order,
                    steps,
                    results[k],
                    moves[k],
                ),
            forall|k: int|
                0 < k < steps ==> #[trigger] states[k - 1].keeps(
                    moved[k],
                    k as usize,
                    states[k - 1].alternating(),
                    states[k - 1].prior_steps(),
                ),
        ensures
            forall|x: usize| x < steps ==> results.contains(x),
            forall|i: int, j: int| 0 <= i < j < steps ==> results[i] != results[j],
            forall|k: int| 0 <= k < steps ==> results[k] < steps,
    {
        let a = states[0].arrangement();
        assert(moved[0].reorder_outcome(states[0], order, steps, results[0], moves[0]));
        assert(is_arrangement(a));
        assert forall|k: int| 0 <= k < steps implies #[trigger] states[k].arrangement() == a
            && states[k].prior_steps() == steps by {
            Self::lemma_shuffle_pass_arrangement(states, moved, results, moves, order, steps, k);
        }
        law_shuffle_plays_each_step_once(a, steps);
        let b = below(a, steps);
        assert forall|k: int| 0 <= k < steps implies #[trigger] results[k] == b[k] by {
            assert(states[k].arrangement() == a);
            assert(moved[k].reorder_outcome(states[k], order, steps, results[k], moves[k]));
            assert(pick(a, steps, k as usize) == b[k]);
        }
        assert forall|x: usize| x < steps implies results.contains(x) by {
            assert(b.contains(x));
            let i = choose|i: int| 0 <= i < b.len() && b[i] == x;
            assert(results[i] == x);
        }
        lemma_below_bounded(a, steps);
    }

    /// Along a shuffled pass the arrangement stays the one drawn at its first position.
    proof fn lemma_shuffle_pass_arrangement(
        states: Seq<Self>,
        moved: Seq<Self>,
        results: Seq<usize>,
        moves: Seq<BrownianMove>,
        order: u8,
        steps: usize,
        k: int,
    )
        requires
            order == 5 || order == 6,
            2 <= steps <= 16,
            states.len() == steps,
            moved.len() == steps,
            results.len() == steps,
            moves.len() == steps,
            forall|k: int| 0 <= k < steps ==> (#[trigger] moved[k]).current() == k,
            forall|k: int|
                0 <= k < steps ==> #[trigger] moved[k].reorder_outcome(
                    states[k],
                    order,
                    steps,
                    results[k],
                    moves[k],
                ),
            forall|k: int|
                0 < k < steps ==> #[trigger] states[k - 1].keeps(
                    moved[k],
                    k as usize,
                    states[k - 1].alternating(),
                    states[k - 1].prior_steps(),
                ),
            0 <= k < steps,
        ensures
            states[k].arrangement() == states[0].arrangement(),
            states[k].prior_steps() == steps,
        decreases k,
    {
        assert(moved[k].reorder_outcome(states[k], order, steps, results[k], moves[k]));
        if k > 0 {
            Self::lemma_shuffle_pass_arrangement(states, moved, results, moves, order, steps, k - 1);
            assert(states[k - 1].keeps(
                moved[k],
                k as usize,
                states[k - 1].alternating(),
                states[k - 1].prior_steps(),
            ));
        }
    }

    /// The sample frame at which the next step is due.
    pub fn next_step_frame(&self) -> (r: i64)
        ensures
            r == self.frame(),
    {
        self.next_step_frame
    }

    /// Sets the sample frame at which the next step is due.
    pub fn set_next_step_frame(&mut self, frame: i64)
        ensures
            final(self).frame() == frame,
            final(self).queue() == old(self).queue(),
            final(self).current() == old(self).current(),
            final(self).alternating() == old(self).alternating(),
            final(self).prior_steps() == old(self).prior_steps(),
            final(self).arrangement() == old(self).arrangement(),
            final(self).last_shuffled() == old(self).last_shuffled(),
            final(self).swing_cycle() == old(self).swing_cycle(),
            final(self).draws() == old(self).draws(),
    {
        self.next_step_frame = frame;
    }

    /// Schedules a note on the event queue, as `EventQueue::schedule_note` does.
    pub fn schedule_note(
        &mut self,
        channel: u8,
        note: u8,
        velocity: u8,
        start_in_samples: i64,
        length_in_samples: i64,
        legato_mode: bool,
    )
        requires
            channel < 16,
            note < 128,
            velocity < 128,
            ({
                let q = old(self).queue().events();
                let k = first_note_off(q, channel, note);
                &&& legato_mode && k < q.len() ==> i64::MIN <= q[k].samples_until
                    + length_in_samples <= i64::MAX
                &&& !(legato_mode && k < q.len()) ==> i64::MIN <= start_in_samples
                    + length_in_samples <= i64::MAX
            }),
        ensures
            old(self).same_but_queue(*final(self)),
            final(self).queue().events() == scheduled(
                old(self).queue().events(),
                channel,
                note,
                velocity,
                start_in_samples,
                length_in_samples,
                legato_mode,
            ),
            final(self).queue().pending_note_off() == old(self).queue().pending_note_off(),
            !legato_mode ==> forall|i: int|
                0 <= i < old(self).queue().events().len() && !(old(self).queue().events()[i].data matches MidiMessage::NoteOff(
                    c,
                    k,
                    _,
                ) && c == channel && k == note) ==> final(self).queue().events().contains(
                    #[trigger] old(self).queue().events()[i],
                ),
    {
        self.event_queue.schedule_note(
            channel,
            note,
            velocity,
            start_in_samples,
            length_in_samples,
            legato_mode,
        );
    }

    /// Starts a note now for a trigger, as `EventQueue::schedule_triggered_note` does.
    pub fn schedule_triggered_note(
        &mut self,
        channel: u8,
        note: u8,
        velocity: u8,
        is_note_on: bool,
        legato_mode: bool,
    )
        requires
            channel < 16,
            note < 128,
            velocity < 128,
        ensures
            old(self).same_but_queue(*final(self)),
            ({
                let q = old(self).queue().events();
                let owed = old(self).queue().pending_note_off();
                let still_sounds = legato_mode && (owed matches Some(m) && is_note_off_for(
                    m,
                    channel,
                    note,
                ));
                let sent = match owed {
                    Some(m) => pushed(q, 0, m),
                    None => q,
                };
                &&& still_sounds ==> final(self).queue() == old(self).queue()
                &&& !still_sounds && is_note_on ==> final(self).queue().events() == pushed(
                    sent,
                    0,
                    MidiMessage::NoteOn(channel, note, velocity),
                ) && final(self).queue().pending_note_off() == Some(
                    MidiMessage::NoteOff(channel, note, 0),
                )
                &&& !still_sounds && !is_note_on ==> final(self).queue().events() == sent
                    && final(self).queue().pending_note_off() == None::<MidiMessage>
            }),
    {
        self.event_queue.schedule_triggered_note(channel, note, velocity, is_note_on, legato_mode);
    }

    /// Whether `schedule_note` with these arguments keeps every due time within `i64`.
    pub fn schedule_fits(
        &self,
        channel: u8,
        note: u8,
        start_in_samples: i64,
        length_in_samples: i64,
        legato_mode: bool,
    ) -> (r: bool)
        ensures
            r == ({
                let q = self.queue().events();
                let k = first_note_off(q, channel, note);
                if legato_mode && k < q.len() {
                    i64::MIN <= q[k].samples_until + length_in_samples <= i64::MAX
                } else {
                    i64::MIN <= start_in_samples + length_in_samples <= i64::MAX
                }
            }),
    {
        self.event_queue.schedule_fits(channel, note, start_in_samples, length_in_samples, legato_mode)
    }

    /// Takes out the events of the next block of `block_size` samples, as
    /// `EventQueue::pop_block_events` does.
    pub fn pop_block_events(&mut self, block_size: i64) -> (r: Vec<(i64, MidiMessage)>)
        requires
            forall|i: int|
                0 <= i < old(self).queue().events().len() && old(self).queue().events()[i].samples_until
                    >= block_size ==> old(self).queue().events()[i].samples_until - block_size
                    <= i64::MAX,
        ensures
            old(self).same_but_queue(*final(self)),
            r@ == due_events(old(self).queue().events(), block_size),
            final(self).queue().events() == later_events(old(self).queue().events(), block_size),
            final(self).queue().pending_note_off() == old(self).queue().pending_note_off(),
    {
        self.event_queue.pop_block_events(block_size)
    }

    /// Makes every queued note-off due now and takes out every other event.
    pub fn stop_all_notes(&mut self)
        ensures
            old(self).same_but_queue(*final(self)),
            final(self).queue().events() == note_offs_now(old(self).queue().events()),
            final(self).queue().pending_note_off() == old(self).queue().pending_note_off(),
    {
        self.event_queue.stop_all_notes();
    }

    /// Empties the event queue.
    pub fn clear_events(&mut self)
        ensures
            old(self).same_but_queue(*final(self)),
            final(self).queue().events() == Seq::<MidiEvent>::empty(),
            final(self).queue().pending_note_off() == old(self).queue().pending_note_off(),
    {
        self.event_queue.clear();
    }

    /// The step the sequencer stands on.
    pub fn current_step(&self) -> (r: usize)
        ensures
            r == self.current(),
    {
        self.current_step
    }
}

} // verus!
