use vstd::prelude::*;

verus! {

/// `s` with every occurrence of `n` taken out; the other notes keep their order.
pub open spec fn without(s: Seq<u8>, n: u8) -> Seq<u8>
    decreases s.len(),
{
    if s.len() == 0 {
        s
    } else {
        let rest = without(s.drop_last(), n);
        if s.last() == n {
            rest
        } else {
            rest.push(s.last())
        }
    }
}

/// `s` with every note that `offs` holds taken out; the other notes keep their order.
pub open spec fn without_any(s: Seq<u8>, offs: Seq<u8>) -> Seq<u8>
    decreases s.len(),
{
    if s.len() == 0 {
        s
    } else {
        let rest = without_any(s.drop_last(), offs);
        if offs.contains(s.last()) {
            rest
        } else {
            rest.push(s.last())
        }
    }
}

/// The note that sounds when `held` are the held notes in the order they were pressed:
/// the one pressed last.
pub open spec fn last_held(held: Seq<u8>) -> Option<u8> {
    if held.len() == 0 {
        None
    } else {
        Some(held.last())
    }
}

/// Taking out the notes of `offs` and then `n` is taking out the notes of `offs.push(n)`.
pub proof fn lemma_without_any_push(s: Seq<u8>, offs: Seq<u8>, n: u8)
    ensures
        without(without_any(s, offs), n) == without_any(s, offs.push(n)),
    decreases s.len(),
{
    if s.len() > 0 {
        lemma_without_any_push(s.drop_last(), offs, n);
        let rest = without_any(s.drop_last(), offs);
        let x = s.last();
        assert(rest.push(x).drop_last() =~= rest);
        assert(offs.push(n).contains(x) <==> (offs.contains(x) || x == n)) by {
            if x == n {
                assert(offs.push(n)[offs.len() as int] == n);
            }
            if offs.contains(x) {
                let i = choose|i: int| 0 <= i < offs.len() && offs[i] == x;
                assert(offs.push(n)[i] == x);
            }
        }
    }
}

/// Last-note priority bookkeeping of the notes that a player holds, with a sustain pedal.
pub struct MidiNotes {
    note: Option<u8>,
    note_queue: Vec<u8>,
    note_off_queue: Vec<u8>,
    is_sustained: bool,
}

impl MidiNotes {
    /// The held notes, in the order in which they were pressed.
    pub closed spec fn held(&self) -> Seq<u8> {
        self.note_queue@
    }

    /// The notes released while the sustain pedal was down, in the order of release.
    pub closed spec fn pending_offs(&self) -> Seq<u8> {
        self.note_off_queue@
    }

    /// Whether the sustain pedal is down.
    pub closed spec fn sustained(&self) -> bool {
        self.is_sustained
    }

    /// The note that sounds now.
    pub closed spec fn current(&self) -> Option<u8> {
        self.note
    }

    /// The sounding note is always the last held one.
    pub open spec fn wf(&self) -> bool {
        self.current() == last_held(self.held())
    }

    pub fn new() -> (r: Self)
        ensures
            r.wf(),
            r.held() == Seq::<u8>::empty(),
            r.pending_offs() == Seq::<u8>::empty(),
            !r.sustained(),
            r.current() == None::<u8>,
    {
        Self {
            note: None,
            note_queue: Vec::with_capacity(128),
            note_off_queue: Vec::with_capacity(128),
            is_sustained: false,
        }
    }

    pub fn get_note(&mut self) -> (r: Option<u8>)
        ensures
            r == old(self).current(),
            *final(self) == *old(self),
    {
        self.note
    }

    pub fn note_on(&mut self, note: u8)
        requires
            old(self).wf(),
        ensures
            final(self).wf(),
            final(self).held() == old(self).held().push(note),
            final(self).pending_offs() == old(self).pending_offs(),
            final(self).sustained() == old(self).sustained(),
            final(self).current() == Some(note),
    {
        self.note_queue.push(note);
        self.note = Some(note);
    }

    pub fn note_off(&mut self, note: u8)
        requires
            old(self).wf(),
        ensures
            final(self).wf(),
            final(self).sustained() == old(self).sustained(),
            old(self).sustained() ==> final(self).held() == old(self).held()
                && final(self).pending_offs() == old(self).pending_offs().push(note),
            !old(self).sustained() ==> final(self).held() == without(old(self).held(), note)
                && final(self).pending_offs() == old(self).pending_offs(),
            !old(self).sustained() ==> final(self).held() == old(self).held().filter(
                |x: u8| x != note,
            ),
            final(self).current() == last_held(final(self).held()),
    {
        if self.is_sustained {
            self.note_off_queue.push(note);
            return;
        }
        let ghost held = self.note_queue@;
        let mut kept: Vec<u8> = Vec::with_capacity(self.note_queue.len());
        let mut i: usize = 0;
        while i < self.note_queue.len()
            invariant
                i <= self.note_queue.len(),
                self.note_queue@ == held,
                kept@ == without(held.take(i as int), note),
            decreases self.note_queue.len() - i,
        {
            assert(held.take(i + 1).drop_last() =~= held.take(i as int));
            let n = self.note_queue[i];
            if n != note {
                kept.push(n);
            }
            i = i + 1;
        }
        assert(held.take(held.len() as int) =~= held);
        proof {
            law_release_keeps_order(held, note);
        }
        self.note_queue = kept;
        let len = self.note_queue.len();
        if len == 0 {
            self.note = None;
        } else {
            self.note = Some(self.note_queue[len - 1]);
        }
    }

    pub fn sustain(&mut self, sustain: bool)
        requires
            old(self).wf(),
        ensures
            final(self).wf(),
            final(self).sustained() == sustain,
            old(self).sustained() && !sustain ==> final(self).held() == without_any(
                old(self).held(),
                old(self).pending_offs(),
            ) && final(self).pending_offs() == Seq::<u8>::empty(),
            old(self).sustained() && !sustain ==> final(self).held() == old(self).held().filter(
                |x: u8| !old(self).pending_offs().contains(x),
            ),
            !(old(self).sustained() && !sustain) ==> final(self).held() == old(self).held()
                && final(self).pending_offs() == old(self).pending_offs(),
            final(self).current() == last_held(final(self).held()),
    {
        let prev_is_sustained = self.is_sustained;
        self.is_sustained = sustain;

        if prev_is_sustained && !self.is_sustained {
            let mut notes_to_off: Vec<u8> = Vec::new();
            std::mem::swap(&mut notes_to_off, &mut self.note_off_queue);
            let ghost held = self.note_queue@;
            proof {
                assert(without_any(held, notes_to_off@.take(0)) =~= held) by {
                    lemma_without_none(held, notes_to_off@.take(0));
                }
            }
            let mut i: usize = 0;
            while i < notes_to_off.len()
                invariant
                    i <= notes_to_off.len(),
                    self.wf(),
                    !self.is_sustained,
                    self.note_off_queue@ == Seq::<u8>::empty(),
                    self.note_queue@ == without_any(held, notes_to_off@.take(i as int)),
                decreases notes_to_off.len() - i,
            {
                let n = notes_to_off[i];
                proof {
                    lemma_without_any_push(held, notes_to_off@.take(i as int), n);
                    assert(notes_to_off@.take(i as int).push(n) =~= notes_to_off@.take(i + 1));
                }
                self.note_off(n);
                i = i + 1;
            }
            assert(notes_to_off@.take(notes_to_off.len() as int) =~= notes_to_off@);
            proof {
                law_pedal_release_keeps_order(held, notes_to_off@);
            }
        }
    }

    pub fn remove_notes(&mut self)
        ensures
            final(self).wf(),
            final(self).held() == Seq::<u8>::empty(),
            final(self).pending_offs() == Seq::<u8>::empty(),
            final(self).sustained() == old(self).sustained(),
            final(self).current() == None::<u8>,
    {
        self.note = None;
        self.note_queue.clear();
        self.note_off_queue.clear();
    }
}

/// Taking out the notes of an empty list changes nothing.
pub proof fn lemma_without_none(s: Seq<u8>, offs: Seq<u8>)
    requires
        offs.len() == 0,
    ensures
        without_any(s, offs) == s,
    decreases s.len(),
{
    if s.len() > 0 {
        lemma_without_none(s.drop_last(), offs);
        assert(s.drop_last().push(s.last()) =~= s);
    }
}

/// Law: releasing a note takes it, and only it, out of the held notes.
pub proof fn law_release_takes_out(s: Seq<u8>, n: u8)
    ensures
        !without(s, n).contains(n),
        forall|x: u8| x != n ==> (s.contains(x) <==> #[trigger] without(s, n).contains(x)),
    decreases s.len(),
{
    if s.len() > 0 {
        let init = s.drop_last();
        law_release_takes_out(init, n);
        let w = without(s, n);
        let r = without(init, n);
        assert(s =~= init.push(s.last()));
        assert(w == (if s.last() == n {
            r
        } else {
            r.push(s.last())
        }));
        assert forall|x: u8| x != n implies (s.contains(x) <==> #[trigger] w.contains(x)) by {
            if s.contains(x) {
                let i = choose|i: int| 0 <= i < s.len() && s[i] == x;
                if i < s.len() - 1 {
                    assert(init[i] == x);
                    assert(init.contains(x));
                    assert(r.contains(x));
                    let j = choose|j: int| 0 <= j < r.len() && r[j] == x;
                    assert(w[j] == x);
                } else {
                    assert(w[w.len() - 1] == x);
                }
            }
            if w.contains(x) {
                let j = choose|j: int| 0 <= j < w.len() && w[j] == x;
                if j < r.len() {
                    assert(r[j] == x);
                    assert(r.contains(x));
                    assert(init.contains(x));
                    let i = choose|i: int| 0 <= i < init.len() && init[i] == x;
                    assert(init[i] == s[i]);
                } else {
                    assert(s[s.len() - 1] == x);
                }
            }
        }
        if w.contains(n) {
            let j = choose|j: int| 0 <= j < w.len() && w[j] == n;
            if j < r.len() {
                assert(r[j] == n);
            }
        }
    }
}

/// Releasing a note that is not held changes nothing.
proof fn lemma_without_absent(s: Seq<u8>, n: u8)
    requires
        !s.contains(n),
    ensures
        without(s, n) == s,
    decreases s.len(),
{
    if s.len() > 0 {
        let init = s.drop_last();
        assert forall|i: int| 0 <= i < init.len() implies init[i] != n by {
            assert(s[i] == init[i]);
        }
        lemma_without_absent(init, n);
        assert(s[s.len() - 1] != n);
        assert(init.push(s.last()) =~= s);
    }
}

/// Law: pressing a note that is not held and releasing it again, with the sustain pedal
/// up, leaves the held notes, and so the sounding note, as they were.
pub proof fn law_press_release_restores(held: Seq<u8>, n: u8)
    requires
        !held.contains(n),
    ensures
        without(held.push(n), n) == held,
        last_held(without(held.push(n), n)) == last_held(held),
{
    assert(held.push(n).drop_last() =~= held);
    lemma_without_absent(held, n);
}

/// Law: a note released while the sustain pedal is down ends, once the pedal is up,
/// as if it had been released with the pedal up.
pub proof fn law_sustained_release(held: Seq<u8>, n: u8)
    ensures
        without_any(held, Seq::<u8>::empty().push(n)) == without(held, n),
{
    lemma_without_none(held, Seq::<u8>::empty());
    lemma_without_any_push(held, Seq::<u8>::empty(), n);
}

/// Law: releasing a note keeps exactly the other held notes, in the order they were
/// pressed: `without(s, n)` is `s` filtered to the notes other than `n`.
pub proof fn law_release_keeps_order(s: Seq<u8>, n: u8)
    ensures
        without(s, n) == s.filter(|x: u8| x != n),
        forall|x: u8| x != n ==> #[trigger] without(s.push(x), n) == without(s, n).push(x),
        without(s.push(n), n) == without(s, n),
    decreases s.len(),
{
    reveal(Seq::filter);
    if s.len() > 0 {
        law_release_keeps_order(s.drop_last(), n);
    }
    assert forall|x: u8| x != n implies #[trigger] without(s.push(x), n) == without(s, n).push(x) by {
        assert(s.push(x).drop_last() =~= s);
    }
    assert(s.push(n).drop_last() =~= s);
}

/// Law: lifting the sustain pedal keeps exactly the held notes that were not released
/// meanwhile, in the order they were pressed.
pub proof fn law_pedal_release_keeps_order(s: Seq<u8>, offs: Seq<u8>)
    ensures
        without_any(s, offs) == s.filter(|x: u8| !offs.contains(x)),
    decreases s.len(),
{
    reveal(Seq::filter);
    if s.len() > 0 {
        law_pedal_release_keeps_order(s.drop_last(), offs);
    }
}

} // verus!
