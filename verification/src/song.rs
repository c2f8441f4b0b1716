//! Songs, tracks and the events they are made of.

use std::collections::VecDeque;
use vstd::prelude::*;

use crate::timeline::{
    advance_one, advanced, count_notes, head, heads, lemma_advance_shrinks, lemma_merged_duration,
    lemma_merged_keeps_time, lemma_merged_note_count, lemma_merged_steady, longest, merged,
    next_wait, steady, sum_waits, tail, tails, total_len, total_notes,
};
use crate::util::{in_range, transpose, transposed, PlayError};

verus! {

/// One step of a track.
#[derive(Copy, Clone, Debug, PartialEq, Eq, Structural)]
pub enum Event {
    /// Start playing the tone. The velocity is kept but buzzers ignore it.
    Play { tone: u8, velocity: u8 },
    /// Stop playing the tone.
    Stop { tone: u8 },
    /// Let this many milliseconds pass before the next event.
    Wait(u32),
}

/// An ordered sequence of events.
pub struct Track {
    events: Vec<Event>,
}

/// A song: the file's ticks per quarter note and its tracks.
pub struct Song {
    pub time_base: u16,
    pub tracks: Vec<Track>,
}

/// The event `octaves` whole octaves higher; a wait stays as it is.
pub open spec fn transposed_event(event: Event, octaves: i8) -> Event {
    match event {
        Event::Play { tone, velocity } => Event::Play {
            tone: transposed(tone, octaves) as u8,
            velocity,
        },
        Event::Stop { tone } => Event::Stop { tone: transposed(tone, octaves) as u8 },
        Event::Wait(ms) => Event::Wait(ms),
    }
}

/// The tone that `event` would have `octaves` octaves higher. A wait has no
/// tone: it counts as the lowest playable one, so that it never stands in the
/// way of a transposition.
pub open spec fn transposed_tone(event: Event, octaves: i8) -> int {
    match event {
        Event::Play { tone, .. } => transposed(tone, octaves),
        Event::Stop { tone } => transposed(tone, octaves),
        Event::Wait(_) => 24,
    }
}

/// Every tone in `events` stays playable `octaves` octaves higher.
pub open spec fn transposable(events: Seq<Event>, octaves: i8) -> bool {
    forall|i: int| 0 <= i < events.len() ==> in_range(transposed_tone(#[trigger] events[i], octaves))
}

/// `events` with every tone `octaves` octaves higher.
pub open spec fn transposed_events(events: Seq<Event>, octaves: i8) -> Seq<Event> {
    Seq::new(events.len(), |i: int| transposed_event(events[i], octaves))
}

/// What transposing `events` by `octaves` yields: the transposed events, or
/// the tone that the earliest event which leaves the playable range would get.
pub open spec fn transposition_is(
    events: Seq<Event>,
    octaves: i8,
    r: Result<Seq<Event>, PlayError>,
) -> bool {
    match r {
        Ok(moved) => transposable(events, octaves) && moved == transposed_events(events, octaves),
        Err(PlayError::OutOfRange { tone }) => exists|i: int|
            0 <= i < events.len() && transposable(events.take(i), octaves) && !in_range(
                transposed_tone(#[trigger] events[i], octaves),
            ) && tone == transposed_tone(events[i], octaves),
    }
}

/// Transposes every tone of `events` by whole octaves, stopping at the first
/// that leaves the playable range.
pub fn transpose_events(events: &Vec<Event>, octaves: i8) -> (r: Result<Vec<Event>, PlayError>)
    ensures
        transposition_is(
            events@,
            octaves,
            match r {
                Ok(moved) => Ok(moved@),
                Err(e) => Err(e),
            },
        ),
        r is Ok <==> transposable(events@, octaves),
{
    let mut moved: Vec<Event> = Vec::with_capacity(events.len());
    let mut i: usize = 0;
    while i < events.len()
        invariant
            i <= events.len(),
            moved@ == transposed_events(events@.take(i as int), octaves),
            transposable(events@.take(i as int), octaves),
        decreases events.len() - i,
    {
        let event = match events[i] {
            Event::Play { tone, velocity } => match transpose(tone, octaves) {
                Ok(tone) => Event::Play { tone, velocity },
                Err(e) => {
                    return Err(e);
                },
            },
            Event::Stop { tone } => match transpose(tone, octaves) {
                Ok(tone) => Event::Stop { tone },
                Err(e) => {
                    return Err(e);
                },
            },
            Event::Wait(ms) => Event::Wait(ms),
        };
        moved.push(event);
        i += 1;
        proof {
            let before = events@.take(i - 1);
            let now = events@.take(i as int);
            assert(before =~= now.take(i - 1));
            assert forall|k: int| 0 <= k < now.len() implies in_range(
                transposed_tone(#[trigger] now[k], octaves),
            ) by {
                if k < i - 1 {
                    assert(now[k] == before[k]);
                }
            }
            assert(moved@ =~= transposed_events(now, octaves));
        }
    }
    proof {
        assert(events@.take(i as int) =~= events@);
    }
    Ok(moved)
}

impl View for Track {
    type V = Seq<Event>;

    closed spec fn view(&self) -> Seq<Event> {
        self.events@
    }
}

impl Track {
    /// Creates a track from a series of events.
    pub fn new(events: Vec<Event>) -> (t: Track)
        ensures
            t@ == events@,
    {
        Track { events }
    }

    /// Transposes this track by whole octaves. Fails where a tone would leave
    /// the playable range, with the tone that the earliest such event would get.
    pub fn transpose(self, octaves: i8) -> (r: Result<Track, PlayError>)
        ensures
            transposition_is(
                self@,
                octaves,
                match r {
                    Ok(t) => Ok(t@),
                    Err(e) => Err(e),
                },
            ),
            r is Ok <==> transposable(self@, octaves),
    {
        match transpose_events(&self.events, octaves) {
            Ok(events) => Ok(Track { events }),
            Err(e) => Err(e),
        }
    }

    /// The events of this track.
    pub fn events(&self) -> (r: &Vec<Event>)
        ensures
            r@ == self@,
    {
        &self.events
    }
}

impl Event {
    /// Whether this event is a wait.
    pub fn is_wait(self) -> (r: bool)
        ensures
            r == (self is Wait),
    {
        match self {
            Event::Wait(_) => true,
            _ => false,
        }
    }

    /// Gives access to the milliseconds of a wait.
    pub fn unwrap_wait(&mut self) -> (ms: &mut u32)
        requires
            *old(self) is Wait,
        ensures
            *old(self) == Event::Wait(*ms),
            *final(self) == Event::Wait(*final(ms)),
    {
        match self {
            Event::Wait(x) => x,
            _ => unreached(),
        }
    }
}

/// The event sequences of `tracks`, in their order.
pub open spec fn track_views(tracks: Seq<Track>) -> Seq<Seq<Event>> {
    Seq::new(tracks.len(), |i: int| tracks[i]@)
}

/// The event sequences still waiting in `queues`, in their order.
pub open spec fn queue_views(queues: Seq<VecDeque<Event>>) -> Seq<Seq<Event>> {
    Seq::new(queues.len(), |i: int| queues[i]@)
}

/// Moves the leading events of `track` that are no waits to the end of `buf`.
pub fn pop_non_waits(track: &mut VecDeque<Event>, buf: &mut Vec<Event>)
    ensures
        final(buf)@ == old(buf)@ + head(old(track)@),
        final(track)@ == tail(old(track)@),
{
    loop
        invariant
            old(buf)@ + head(old(track)@) == buf@ + head(track@),
            tail(track@) == tail(old(track)@),
        ensures
            buf@ == old(buf)@ + head(old(track)@),
            track@ == tail(old(track)@),
        decreases track@.len(),
    {
        if track.len() == 0 || track[0].is_wait() {
            assert(buf@ + head(track@) =~= buf@);
            break ;
        }
        let ghost before = track@;
        let ghost filled = buf@;
        let event = track.pop_front().unwrap();
        buf.push(event);
        proof {
            assert(track@ =~= before.drop_first());
            assert(filled + head(before) =~= buf@ + head(track@));
        }
    }
}

/// Moves the head of every queue to the end of `out`, queue by queue.
fn drain_all(queues: &mut Vec<VecDeque<Event>>, out: &mut Vec<Event>)
    ensures
        final(out)@ == old(out)@ + heads(queue_views(old(queues)@)),
        queue_views(final(queues)@) == tails(queue_views(old(queues)@)),
{
    let ghost before = queue_views(queues@);
    let mut i: usize = 0;
    proof {
        assert(before.take(0) =~= Seq::<Seq<Event>>::empty());
        assert(out@ + heads(before.take(0)) =~= out@);
    }
    while i < queues.len()
        invariant
            i <= queues.len(),
            queues.len() == before.len(),
            before == queue_views(old(queues)@),
            out@ == old(out)@ + heads(before.take(i as int)),
            forall|j: int| 0 <= j < i ==> (#[trigger] queues[j])@ == tail(before[j]),
            forall|j: int| i <= j < queues.len() ==> (#[trigger] queues[j])@ == before[j],
        decreases queues.len() - i,
    {
        pop_non_waits(&mut queues[i], out);
        proof {
            let upto = before.take(i + 1);
            assert(upto.drop_last() =~= before.take(i as int));
            assert(upto.last() == before[i as int]);
            assert(out@ =~= old(out)@ + heads(upto));
        }
        i += 1;
    }
    proof {
        assert(before.take(i as int) =~= before);
        assert(queue_views(queues@) =~= tails(before));
    }
}

/// The shortest wait that any queue starts with.
fn shortest_wait(queues: &Vec<VecDeque<Event>>) -> (r: Option<u32>)
    ensures
        r == next_wait(queue_views(queues@)),
{
    let ghost views = queue_views(queues@);
    let mut min: Option<u32> = None;
    let mut i: usize = 0;
    proof {
        assert(views.take(0) =~= Seq::<Seq<Event>>::empty());
    }
    while i < queues.len()
        invariant
            i <= queues.len(),
            views == queue_views(queues@),
            min == next_wait(views.take(i as int)),
        decreases queues.len() - i,
    {
        proof {
            let upto = views.take(i + 1);
            assert(upto.drop_last() =~= views.take(i as int));
            assert(upto.last() == queues[i as int]@);
        }
        if queues[i].len() > 0 {
            match queues[i][0] {
                Event::Wait(ms) => {
                    min = match min {
                        Some(m) => if m <= ms {
                            Some(m)
                        } else {
                            Some(ms)
                        },
                        None => Some(ms),
                    };
                },
                _ => {},
            }
        }
        i += 1;
    }
    proof {
        assert(views.take(i as int) =~= views);
    }
    min
}

/// Lets `w` milliseconds pass in every queue that starts with a wait.
fn advance_all(queues: &mut Vec<VecDeque<Event>>, w: u32)
    ensures
        queue_views(final(queues)@) == advanced(queue_views(old(queues)@), w),
{
    let ghost before = queue_views(queues@);
    let mut i: usize = 0;
    while i < queues.len()
        invariant
            i <= queues.len(),
            queues.len() == before.len(),
            forall|j: int| 0 <= j < i ==> (#[trigger] queues[j])@ == advance_one(before[j], w),
            forall|j: int| i <= j < queues.len() ==> (#[trigger] queues[j])@ == before[j],
        decreases queues.len() - i,
    {
        if queues[i].len() > 0 {
            match queues[i][0] {
                Event::Wait(ms) => {
                    let queue = &mut queues[i];
                    let ghost full = queue@;
                    queue.pop_front();
                    if ms > w {
                        queue.push_front(Event::Wait(ms - w));
                        assert(queue@ =~= full.update(0, Event::Wait((ms - w) as u32)));
                    } else {
                        assert(queue@ =~= full.drop_first());
                    }
                },
                _ => {},
            }
        }
        i += 1;
    }
    proof {
        assert(queue_views(queues@) =~= advanced(before, w));
    }
}

/// Merges several tracks into one under a single clock. Events of the same
/// instant come out track by track, in the order of `tracks`, and within a
/// track in its own order; the waits between them make up for the longest
/// track.
pub fn merge_tracks(tracks: Vec<Track>) -> (r: Track)
    ensures
        r@ == merged(track_views(tracks@)),
        sum_waits(r@) == longest(track_views(tracks@)),
        count_notes(r@) == total_notes(track_views(tracks@)),
        forall|i: int, p: int|
            0 <= i < tracks@.len() && 0 <= p < tracks@[i]@.len() && !(tracks@[i]@[p] is Wait)
                ==> r@.contains(#[trigger] tracks@[i]@[p]),
        (forall|i: int| 0 <= i < tracks@.len() ==> steady((#[trigger] tracks@[i])@)) ==> steady(r@),
{
    let ghost start = track_views(tracks@);
    let mut queues: Vec<VecDeque<Event>> = Vec::with_capacity(tracks.len());
    let mut t: usize = 0;
    while t < tracks.len()
        invariant
            t <= tracks.len(),
            queues.len() == t,
            start == track_views(tracks@),
            queue_views(queues@) == start.take(t as int),
        decreases tracks.len() - t,
    {
        let events = tracks[t].events();
        let mut queue: VecDeque<Event> = VecDeque::with_capacity(events.len());
        let mut k: usize = 0;
        while k < events.len()
            invariant
                k <= events.len(),
                queue@ == events@.take(k as int),
            decreases events.len() - k,
        {
            queue.push_back(events[k]);
            k += 1;
            assert(queue@ =~= events@.take(k as int));
        }
        proof {
            assert(events@.take(k as int) =~= events@);
        }
        let ghost filled = queues@;
        queues.push(queue);
        t += 1;
        proof {
            assert forall|j: int| 0 <= j < t implies queue_views(queues@)[j] == start.take(
                t as int,
            )[j] by {
                if j < t - 1 {
                    assert(queue_views(filled)[j] == start.take(t - 1)[j]);
                    assert(queues@[j] == filled[j]);
                } else {
                    assert(queues@[j]@ == events@);
                    assert(start[j] == tracks@[j]@);
                }
            }
            assert(queue_views(queues@) =~= start.take(t as int));
        }
    }
    proof {
        assert(start.take(t as int) =~= start);
    }
    let mut out: Vec<Event> = Vec::new();
    proof {
        assert(out@ + merged(start) =~= merged(start));
    }
    loop
        invariant_except_break
            out@ + merged(queue_views(queues@)) == merged(start),
        ensures
            out@ == merged(start),
        decreases total_len(queue_views(queues@)),
    {
        let ghost before = queue_views(queues@);
        let ghost done = out@;
        drain_all(&mut queues, &mut out);
        match shortest_wait(&queues) {
            None => {
                break ;
            },
            Some(w) => {
                out.push(Event::Wait(w));
                advance_all(&mut queues, w);
                proof {
                    lemma_advance_shrinks(before, w);
                    let rest = merged(advanced(tails(before), w));
                    assert(done + (heads(before) + seq![Event::Wait(w)] + rest) =~= out@ + rest);
                }
            },
        }
    }
    proof {
        lemma_merged_duration(start);
        lemma_merged_note_count(start);
        assert forall|i: int, p: int|
            0 <= i < tracks@.len() && 0 <= p < tracks@[i]@.len() && !(tracks@[i]@[p] is Wait) implies out@.contains(
            #[trigger] tracks@[i]@[p],
        ) by {
            assert(start[i] == tracks@[i]@);
            let k = lemma_merged_keeps_time(start, i, p);
            assert(out@[k] == tracks@[i]@[p]);
        }
        if forall|i: int| 0 <= i < tracks@.len() ==> steady((#[trigger] tracks@[i])@) {
            assert forall|i: int| 0 <= i < start.len() implies steady(#[trigger] start[i]) by {
                assert(start[i] == tracks@[i]@);
            }
            lemma_merged_steady(start);
        }
    }
    Track::new(out)
}

} // verus!
