//! Assignment of sounding tones to a fixed bank of buzzers.

use vstd::prelude::*;

verus! {

/// What a scheduler knows: which buzzers are free, and which tone sounds on
/// which buzzer, in the order the tones were started.
pub struct Voices {
    pub free: Seq<bool>,
    pub playing: Seq<(u8, usize)>,
}

/// Number of buzzers in `free` that are in use.
pub open spec fn busy_count(free: Seq<bool>) -> nat
    decreases free.len(),
{
    if free.len() == 0 {
        0
    } else {
        busy_count(free.drop_last()) + if free.last() {
            0nat
        } else {
            1nat
        }
    }
}

/// Lowest index at or after `from` of a free buzzer.
pub open spec fn first_free_from(free: Seq<bool>, from: int) -> Option<int>
    decreases free.len() - from,
{
    if from < 0 || from >= free.len() {
        None
    } else if free[from] {
        Some(from)
    } else {
        first_free_from(free, from + 1)
    }
}

/// Lowest position at or after `from` of an entry for `tone`.
pub open spec fn first_entry_from(playing: Seq<(u8, usize)>, tone: u8, from: int) -> Option<int>
    decreases playing.len() - from,
{
    if from < 0 || from >= playing.len() {
        None
    } else if playing[from].0 == tone {
        Some(from)
    } else {
        first_entry_from(playing, tone, from + 1)
    }
}

impl Voices {
    /// Every entry of `playing` names a buzzer of its own that is marked busy,
    /// and there are as many entries as busy buzzers.
    pub open spec fn wf(self) -> bool {
        &&& self.free.len() <= 255
        &&& busy_count(self.free) == self.playing.len()
        &&& forall|k: int|
            0 <= k < self.playing.len() ==> (#[trigger] self.playing[k]).1 < self.free.len()
                && !self.free[self.playing[k].1 as int]
        &&& forall|k: int, l: int|
            0 <= k < l < self.playing.len() ==> (#[trigger] self.playing[k]).1 != (
            #[trigger] self.playing[l]).1
    }

    /// The lowest free buzzer, if any.
    pub open spec fn lowest_free(self) -> Option<int> {
        first_free_from(self.free, 0)
    }

    /// Position of the oldest entry for `tone`, if it sounds at all.
    pub open spec fn position(self, tone: u8) -> Option<int> {
        first_entry_from(self.playing, tone, 0)
    }

    /// The state after `tone` was started: it takes the lowest free buzzer, or
    /// nothing changes when all are busy.
    pub open spec fn started(self, tone: u8) -> Voices {
        match self.lowest_free() {
            Some(i) => Voices {
                free: self.free.update(i, false),
                playing: self.playing.push((tone, i as usize)),
            },
            None => self,
        }
    }

    /// The state after `tone` was stopped: its oldest entry gives way to the
    /// last one and its buzzer is free again, or nothing changes for a tone
    /// that does not sound.
    pub open spec fn stopped(self, tone: u8) -> Voices {
        match self.position(tone) {
            Some(p) => Voices {
                free: self.free.update(self.playing[p].1 as int, true),
                playing: self.playing.update(p, self.playing.last()).drop_last(),
            },
            None => self,
        }
    }

    /// The buzzer that stopping `tone` releases.
    pub open spec fn released(self, tone: u8) -> Option<u8> {
        match self.position(tone) {
            Some(p) => Some(self.playing[p].1 as u8),
            None => None,
        }
    }

    /// The buzzer that starting a tone takes.
    pub open spec fn assigned(self) -> Option<u8> {
        match self.lowest_free() {
            Some(i) => Some(i as u8),
            None => None,
        }
    }
}

/// What `first_free_from` finds is free, in bounds, and preceded by busy
/// buzzers only; it finds nothing only where none is free.
pub proof fn lemma_first_free(free: Seq<bool>, from: int)
    requires
        0 <= from,
    ensures
        match first_free_from(free, from) {
            Some(i) => from <= i < free.len() && free[i] && forall|j: int|
                from <= j < i ==> !free[j],
            None => forall|j: int| from <= j < free.len() ==> !free[j],
        },
    decreases free.len() - from,
{
    if from < free.len() && !free[from] {
        lemma_first_free(free, from + 1);
    }
}

/// What `first_entry_from` finds holds `tone`, and no earlier entry does.
pub proof fn lemma_first_entry(playing: Seq<(u8, usize)>, tone: u8, from: int)
    requires
        0 <= from,
    ensures
        match first_entry_from(playing, tone, from) {
            Some(p) => from <= p < playing.len() && playing[p].0 == tone && forall|j: int|
                from <= j < p ==> playing[j].0 != tone,
            None => forall|j: int| from <= j < playing.len() ==> playing[j].0 != tone,
        },
    decreases playing.len() - from,
{
    if from < playing.len() && playing[from].0 != tone {
        lemma_first_entry(playing, tone, from + 1);
    }
}

/// Changing one flag changes the busy count by that buzzer alone.
pub proof fn lemma_busy_count_update(free: Seq<bool>, i: int, value: bool)
    requires
        0 <= i < free.len(),
    ensures
        busy_count(free.update(i, value)) + (if free[i] { 0nat } else { 1nat }) == busy_count(free)
            + (if value { 0nat } else { 1nat }),
    decreases free.len(),
{
    let updated = free.update(i, value);
    if i == free.len() - 1 {
        assert(updated.drop_last() =~= free.drop_last());
    } else {
        assert(updated.drop_last() =~= free.drop_last().update(i, value));
        lemma_busy_count_update(free.drop_last(), i, value);
    }
}

/// The busy count never exceeds the number of buzzers.
pub proof fn lemma_busy_count_bound(free: Seq<bool>)
    ensures
        busy_count(free) <= free.len(),
    decreases free.len(),
{
    if free.len() > 0 {
        lemma_busy_count_bound(free.drop_last());
    }
}

/// Starting a tone keeps the state well formed.
pub proof fn lemma_started_wf(before: Voices, tone: u8)
    requires
        before.wf(),
    ensures
        before.started(tone).wf(),
{
    lemma_first_free(before.free, 0);
    match before.lowest_free() {
        Some(i) => {
            let after = before.started(tone);
            lemma_busy_count_update(before.free, i, false);
            assert forall|k: int| 0 <= k < after.playing.len() implies (#[trigger] after.playing[k]).1
                < after.free.len() && !after.free[after.playing[k].1 as int] by {
                if k < before.playing.len() {
                    assert(after.playing[k] == before.playing[k]);
                }
            }
            assert forall|k: int, l: int| 0 <= k < l < after.playing.len() implies (
            #[trigger] after.playing[k]).1 != (#[trigger] after.playing[l]).1 by {
                assert(after.playing[k] == before.playing[k]);
                if l < before.playing.len() {
                    assert(after.playing[l] == before.playing[l]);
                }
            }
        },
        None => {},
    }
}

/// Stopping a tone keeps the state well formed.
pub proof fn lemma_stopped_wf(before: Voices, tone: u8)
    requires
        before.wf(),
    ensures
        before.stopped(tone).wf(),
{
    lemma_first_entry(before.playing, tone, 0);
    match before.position(tone) {
        Some(p) => {
            let after = before.stopped(tone);
            let last = before.playing.len() - 1;
            let voice = before.playing[p].1 as int;
            lemma_busy_count_update(before.free, voice, true);
            assert forall|k: int| 0 <= k < after.playing.len() implies (#[trigger] after.playing[k]).1
                < after.free.len() && !after.free[after.playing[k].1 as int] by {
                if k == p {
                    assert(after.playing[k] == before.playing[last]);
                } else {
                    assert(after.playing[k] == before.playing[k]);
                }
            }
            assert forall|k: int, l: int| 0 <= k < l < after.playing.len() implies (
            #[trigger] after.playing[k]).1 != (#[trigger] after.playing[l]).1 by {
                let k0 = if k == p { last } else { k };
                let l0 = if l == p { last } else { l };
                assert(after.playing[k] == before.playing[k0]);
                assert(after.playing[l] == before.playing[l0]);
            }
        },
        None => {},
    }
}

/// A tone that did not sound, once started and stopped again, leaves every
/// buzzer as it was: the buzzer it took is free, and the same one is released.
pub proof fn lemma_start_then_stop(before: Voices, tone: u8)
    requires
        before.wf(),
        before.position(tone) is None,
        before.assigned() is Some,
    ensures
        before.started(tone).released(tone) == before.assigned(),
        before.started(tone).stopped(tone).free[before.assigned().unwrap() as int],
        before.started(tone).stopped(tone) == before,
{
    lemma_first_free(before.free, 0);
    lemma_first_entry(before.playing, tone, 0);
    let mid = before.started(tone);
    let i = before.lowest_free().unwrap();
    lemma_first_entry(mid.playing, tone, 0);
    let p = before.playing.len() as int;
    assert(mid.playing[p].0 == tone);
    assert forall|j: int| 0 <= j < p implies mid.playing[j].0 != tone by {
        assert(mid.playing[j] == before.playing[j]);
    }
    assert(mid.position(tone) == Some(p));
    let after = mid.stopped(tone);
    assert(after.free =~= before.free);
    assert(after.playing =~= before.playing);
}

/// Keeps track of the buzzers that are free and assigns them to new notes.
pub struct NoteScheduler {
    playing: Vec<(u8, usize)>,
    free: Vec<bool>,
    playing_max_count: u8,
}

impl View for NoteScheduler {
    type V = Voices;

    closed spec fn view(&self) -> Voices {
        Voices { free: self.free@, playing: self.playing@ }
    }
}

impl NoteScheduler {
    /// The scheduler's invariant.
    pub open spec fn wf(&self) -> bool {
        &&& self@.wf()
        &&& self@.playing.len() <= self.max_count()
    }

    /// The largest number of tones that ever sounded at once.
    pub closed spec fn max_count(&self) -> u8 {
        self.playing_max_count
    }

    /// Creates a scheduler with the given number of buzzers, all of them free.
    pub fn new(buzzers: u8) -> (s: NoteScheduler)
        ensures
            s.wf(),
            s@.free == Seq::new(buzzers as nat, |i: int| true),
            s@.playing == Seq::<(u8, usize)>::empty(),
            s.max_count() == 0,
    {
        let s = NoteScheduler {
            playing: Vec::with_capacity(buzzers as usize),
            free: vec![true; buzzers as usize],
            playing_max_count: 0,
        };
        proof {
            assert(s.free@ =~= Seq::new(buzzers as nat, |i: int| true));
            lemma_all_free(s.free@);
        }
        s
    }

    /// Registers the note as playing and returns the buzzer it should sound
    /// on: the lowest free one. With every buzzer busy the note is dropped.
    pub fn start_note(&mut self, note: u8) -> (r: Option<u8>)
        requires
            old(self).wf(),
        ensures
            final(self).wf(),
            final(self)@ == old(self)@.started(note),
            final(self)@.free.len() == old(self)@.free.len(),
            r == old(self)@.assigned(),
            r is Some ==> old(self)@.free[r.unwrap() as int] && !final(self)@.free[r.unwrap() as int],
            r is None ==> forall|i: int| 0 <= i < old(self)@.free.len() ==> !old(self)@.free[i],
            final(self).max_count() == if final(self)@.playing.len() > old(self).max_count() {
                final(self)@.playing.len() as u8
            } else {
                old(self).max_count()
            },
    {
        proof {
            lemma_first_free(self.free@, 0);
            lemma_started_wf(self@, note);
            lemma_busy_count_bound(self@.started(note).free);
        }
        let mut index: usize = 0;
        while index < self.free.len()
            invariant
                index <= self.free.len(),
                *self == *old(self),
                old(self).wf(),
                old(self)@.started(note).wf(),
                busy_count(old(self)@.started(note).free) <= old(self)@.free.len(),
                first_free_from(self.free@, 0) == first_free_from(self.free@, index as int),
            decreases self.free.len() - index,
        {
            if self.free[index] {
                proof {
                    lemma_first_free(self.free@, 0);
                }
                self.free[index] = false;
                self.playing.push((note, index));
                let count: u8 = self.playing.len() as u8;
                if count > self.playing_max_count {
                    self.playing_max_count = count;
                }
                return Some(index as u8);
            }
            index += 1;
        }
        None
    }

    /// Registers that the note has stopped and returns the buzzer it sounded
    /// on. A note that does not sound changes nothing.
    pub fn stop_note(&mut self, note: u8) -> (r: Option<u8>)
        requires
            old(self).wf(),
        ensures
            final(self).wf(),
            final(self)@ == old(self)@.stopped(note),
            final(self)@.free.len() == old(self)@.free.len(),
            r == old(self)@.released(note),
            r is Some ==> final(self)@.free[r.unwrap() as int],
            final(self).max_count() == old(self).max_count(),
    {
        proof {
            lemma_first_entry(self.playing@, note, 0);
            lemma_stopped_wf(self@, note);
        }
        let mut pos: usize = 0;
        while pos < self.playing.len()
            invariant
                pos <= self.playing.len(),
                *self == *old(self),
                old(self).wf(),
                old(self)@.stopped(note).wf(),
                first_entry_from(self.playing@, note, 0) == first_entry_from(
                    self.playing@,
                    note,
                    pos as int,
                ),
            decreases self.playing.len() - pos,
        {
            if self.playing[pos].0 == note {
                proof {
                    lemma_first_entry(self.playing@, note, 0);
                }
                let (_, buzzer) = self.playing.swap_remove(pos);
                self.free[buzzer] = true;
                return Some(buzzer as u8);
            }
            pos += 1;
        }
        None
    }

    /// The sounding tones with their buzzers, oldest first but for the gaps
    /// that stopped notes left to the then last entry.
    pub fn playing(&self) -> (r: &Vec<(u8, usize)>)
        ensures
            r@ == self@.playing,
    {
        &self.playing
    }

    /// The number of buzzers.
    pub fn buzzers(&self) -> (r: usize)
        ensures
            r == self@.free.len(),
    {
        self.free.len()
    }

    /// Whether buzzer `index` is free.
    pub fn is_free(&self, index: usize) -> (r: bool)
        requires
            index < self@.free.len(),
        ensures
            r == self@.free[index as int],
    {
        self.free[index]
    }

    /// The largest number of tones that ever sounded at once.
    pub fn playing_max_count(&self) -> (r: u8)
        ensures
            r == self.max_count(),
    {
        self.playing_max_count
    }
}

/// A bank whose buzzers are all free has none busy.
pub proof fn lemma_all_free(free: Seq<bool>)
    requires
        forall|i: int| 0 <= i < free.len() ==> free[i],
    ensures
        busy_count(free) == 0,
    decreases free.len(),
{
    if free.len() > 0 {
        lemma_all_free(free.drop_last());
    }
}

} // verus!
