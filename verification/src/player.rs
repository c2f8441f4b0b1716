//! The sequencer: which tracks of a song are played, and what the buzzers are
//! told, event by event.

use vstd::prelude::*;

use crate::command::{Command, PinId};
use crate::note_scheduler::{NoteScheduler, Voices};
use crate::song::{
    merge_tracks, track_views, transposable, transpose_events, transposed_events,
    transposed_tone, transposition_is, Event, Song, Track,
};
use crate::timeline::{lemma_merged_notes_from_tracks, merged};
use crate::util::{freq_of, in_range, midi_code_to_freq, PlayError};

verus! {

/// What the player asks of the outside world for one event.
#[derive(Clone, Copy, Debug, PartialEq, Eq, Structural)]
pub enum Action {
    /// Put the frame of this order on the wire.
    Send(Command),
    /// Let this many milliseconds of the song pass.
    Sleep(u32),
}

/// Plays songs and single notes on a bank of buzzers: it decides what is sent
/// and when, and leaves sending and sleeping to its caller.
pub struct Player {
    scheduler: NoteScheduler,
}

/// Whether `index` is listed among `options`.
pub open spec fn listed(options: Seq<(usize, i8)>, index: usize) -> bool {
    exists|k: int| 0 <= k < options.len() && (#[trigger] options[k]).0 == index
}

/// The options that select a track: those that name one of the `count`
/// tracks and are the first to name it, in the order they are listed.
pub open spec fn chosen(options: Seq<(usize, i8)>, count: nat) -> Seq<(usize, i8)>
    decreases options.len(),
{
    if options.len() == 0 {
        Seq::empty()
    } else {
        let before = options.drop_last();
        let option = options.last();
        if option.0 < count && !listed(before, option.0) {
            chosen(before, count).push(option)
        } else {
            chosen(before, count)
        }
    }
}

/// Whether every track that `options` select from `tracks` stays playable
/// when transposed by the octaves listed with it.
pub open spec fn all_transposable(tracks: Seq<Seq<Event>>, options: Seq<(usize, i8)>) -> bool {
    let picks = chosen(options, tracks.len());
    forall|k: int|
        0 <= k < picks.len() ==> transposable(tracks[(#[trigger] picks[k]).0 as int], picks[k].1)
}

/// The tracks that `options` select from `tracks`, each transposed by the
/// octaves listed with it, in the order they are listed.
pub open spec fn selected_tracks(tracks: Seq<Seq<Event>>, options: Seq<(usize, i8)>) -> Seq<
    Seq<Event>,
> {
    let picks = chosen(options, tracks.len());
    Seq::new(picks.len(), |k: int| transposed_events(tracks[picks[k].0 as int], picks[k].1))
}

/// What selecting from `tracks` by `options` yields: the selected tracks
/// where all of them can be transposed; else the error of the first, in the
/// order of the list, that cannot.
pub open spec fn selection_is(
    tracks: Seq<Seq<Event>>,
    options: Seq<(usize, i8)>,
    r: Result<Seq<Seq<Event>>, PlayError>,
) -> bool {
    let picks = chosen(options, tracks.len());
    match r {
        Ok(selected) => all_transposable(tracks, options) && selected == selected_tracks(
            tracks,
            options,
        ),
        Err(e) => exists|k: int|
            0 <= k < picks.len() && transposition_is(
                tracks[(#[trigger] picks[k]).0 as int],
                picks[k].1,
                Err(e),
            ) && forall|j: int|
                0 <= j < k ==> transposable(tracks[(#[trigger] picks[j]).0 as int], picks[j].1),
    }
}

/// Whether the tone of `event`, if it has one, is playable.
pub open spec fn playable(event: Event) -> bool {
    match event {
        Event::Play { tone, .. } => in_range(tone as int),
        Event::Stop { tone } => in_range(tone as int),
        Event::Wait(_) => true,
    }
}

/// The buzzers after `event`.
pub open spec fn voices_after(voices: Voices, event: Event) -> Voices {
    match event {
        Event::Play { tone, .. } => voices.started(tone),
        Event::Stop { tone } => voices.stopped(tone),
        Event::Wait(_) => voices,
    }
}

/// The order that starting (`on`) or stopping `tone` sends: the tone's
/// frequency for the buzzer it takes, silence for the buzzer it releases,
/// nothing where no buzzer is taken or released.
pub open spec fn note_command(voices: Voices, tone: u8, on: bool) -> Option<Command> {
    if on {
        match voices.assigned() {
            Some(buzzer) => Some(
                Command { pin_id: PinId(buzzer), frequency: freq_of(tone as int).unwrap() },
            ),
            None => None,
        }
    } else {
        match voices.released(tone) {
            Some(buzzer) => Some(Command { pin_id: PinId(buzzer), frequency: 0 }),
            None => None,
        }
    }
}

/// Whether starting `tone` fails: it gets a buzzer but has no frequency.
pub open spec fn note_fails(voices: Voices, tone: u8, on: bool) -> bool {
    on && voices.assigned() is Some && !in_range(tone as int)
}

/// Whether playing `event` fails: it starts a tone that gets a buzzer but has
/// no frequency.
pub open spec fn event_fails(voices: Voices, event: Event) -> bool {
    match event {
        Event::Play { tone, .. } => note_fails(voices, tone, true),
        _ => false,
    }
}

/// The tone of `event`; 0 for a wait, which has none.
pub open spec fn tone_of(event: Event) -> u8 {
    match event {
        Event::Play { tone, .. } => tone,
        Event::Stop { tone } => tone,
        Event::Wait(_) => 0,
    }
}

/// What `event` asks of the outside world: a note its order, a wait of some
/// length a sleep, and a wait of no length nothing.
pub open spec fn action_of(voices: Voices, event: Event) -> Option<Action> {
    match event {
        Event::Play { tone, .. } => match note_command(voices, tone, true) {
            Some(command) => Some(Action::Send(command)),
            None => None,
        },
        Event::Stop { tone } => match note_command(voices, tone, false) {
            Some(command) => Some(Action::Send(command)),
            None => None,
        },
        Event::Wait(ms) => if ms != 0 {
            Some(Action::Sleep(ms))
        } else {
            None
        },
    }
}

/// What playing `events` in turn asks of the outside world.
pub open spec fn actions_of(voices: Voices, events: Seq<Event>) -> Seq<Action>
    decreases events.len(),
{
    if events.len() == 0 {
        Seq::empty()
    } else {
        let rest = actions_of(voices_after(voices, events[0]), events.drop_first());
        match action_of(voices, events[0]) {
            Some(action) => seq![action] + rest,
            None => rest,
        }
    }
}

/// The buzzers after `events` were played in turn.
pub open spec fn voices_after_all(voices: Voices, events: Seq<Event>) -> Voices
    decreases events.len(),
{
    if events.len() == 0 {
        voices
    } else {
        voices_after_all(voices_after(voices, events[0]), events.drop_first())
    }
}

/// The options that select a track from the first `k` listed stay selected,
/// in place, when the rest of the list is read.
pub proof fn lemma_chosen_prefix(options: Seq<(usize, i8)>, count: nat, k: int)
    requires
        0 <= k <= options.len(),
    ensures
        chosen(options.take(k), count).is_prefix_of(chosen(options, count)),
    decreases options.len() - k,
{
    if k == options.len() {
        assert(options.take(k) =~= options);
    } else {
        lemma_chosen_prefix(options, count, k + 1);
        assert(options.take(k + 1).drop_last() =~= options.take(k));
    }
}

/// Whether one of the first `upto` options names track `index`.
fn listed_before(options: &[(usize, i8)], upto: usize, index: usize) -> (r: bool)
    requires
        upto <= options.len(),
    ensures
        r == listed(options@.take(upto as int), index),
{
    let mut j: usize = 0;
    while j < upto
        invariant
            j <= upto <= options.len(),
            !listed(options@.take(j as int), index),
        decreases upto - j,
    {
        if options[j].0 == index {
            assert(options@.take(upto as int)[j as int].0 == index);
            return true;
        }
        j += 1;
        proof {
            let seen = options@.take(j as int);
            assert forall|k: int| 0 <= k < seen.len() implies (#[trigger] seen[k]).0 != index by {
                if k < j - 1 {
                    assert(options@.take(j - 1)[k] == seen[k]);
                }
            }
        }
    }
    false
}

/// Picks the tracks of `song` that `options` list, each transposed by the
/// octaves listed with it, in the order of the list. An option that names no
/// track of the song, or a track named before, is passed over.
pub fn select_tracks(song: &Song, options: &[(usize, i8)]) -> (r: Result<Vec<Track>, PlayError>)
    ensures
        selection_is(
            track_views(song.tracks@),
            options@,
            match r {
                Ok(selected) => Ok(track_views(selected@)),
                Err(e) => Err(e),
            },
        ),
        r is Ok <==> all_transposable(track_views(song.tracks@), options@),
{
    let ghost tracks = track_views(song.tracks@);
    let mut selected: Vec<Track> = Vec::new();
    let mut k: usize = 0;
    proof {
        assert(options@.take(0) =~= Seq::<(usize, i8)>::empty());
    }
    while k < options.len()
        invariant
            k <= options.len(),
            tracks == track_views(song.tracks@),
            selected.len() == chosen(options@.take(k as int), tracks.len()).len(),
            forall|m: int|
                0 <= m < selected.len() ==> transposable(
                    tracks[(#[trigger] chosen(options@.take(k as int), tracks.len())[m]).0 as int],
                    chosen(options@.take(k as int), tracks.len())[m].1,
                ) && selected[m]@ == transposed_events(
                    tracks[chosen(options@.take(k as int), tracks.len())[m].0 as int],
                    chosen(options@.take(k as int), tracks.len())[m].1,
                ),
        decreases options.len() - k,
    {
        let (index, octaves) = options[k];
        let ghost seen = chosen(options@.take(k as int), tracks.len());
        let ghost next = chosen(options@.take(k + 1), tracks.len());
        proof {
            assert(options@.take(k + 1).drop_last() =~= options@.take(k as int));
            assert(options@.take(k + 1).last() == options@[k as int]);
        }
        if index < song.tracks.len() && !listed_before(options, k, index) {
            assert(next == seen.push((index, octaves)));
            assert(tracks[index as int] == song.tracks@[index as int]@);
            match transpose_events(song.tracks[index].events(), octaves) {
                Ok(events) => {
                    selected.push(Track::new(events));
                },
                Err(e) => {
                    proof {
                        let picks = chosen(options@, tracks.len());
                        lemma_chosen_prefix(options@, tracks.len(), k + 1);
                        let at = seen.len() as int;
                        assert(picks[at] == next[at]);
                        assert forall|j: int| 0 <= j < at implies transposable(
                            tracks[(#[trigger] picks[j]).0 as int],
                            picks[j].1,
                        ) by {
                            assert(picks[j] == next[j]);
                            assert(next[j] == seen[j]);
                        }
                    }
                    return Err(e);
                },
            }
        } else {
            assert(next == seen);
        }
        k += 1;
    }
    proof {
        assert(options@.take(k as int) =~= options@);
        assert(track_views(selected@) =~= selected_tracks(tracks, options@));
    }
    Ok(selected)
}

impl View for Player {
    type V = Voices;

    closed spec fn view(&self) -> Voices {
        self.scheduler@
    }
}

impl Player {
    /// The player's invariant: that of its buzzers.
    pub closed spec fn wf(&self) -> bool {
        self.scheduler.wf()
    }

    /// Creates a player with the given number of buzzers, all of them free.
    pub fn new(buzzers: u8) -> (p: Player)
        ensures
            p.wf(),
            p@.free == Seq::new(buzzers as nat, |i: int| true),
            p@.playing == Seq::<(u8, usize)>::empty(),
    {
        Player { scheduler: NoteScheduler::new(buzzers) }
    }

    /// The sounding tones with their buzzers.
    pub fn playing(&self) -> (r: &Vec<(u8, usize)>)
        ensures
            r@ == self@.playing,
    {
        self.scheduler.playing()
    }

    /// Starts (`on`) or stops a single note and says what to send for it, if
    /// anything. A note that is started outside the playable range fails, once
    /// it has taken a buzzer.
    pub fn play_note(&mut self, midi_code: u8, on: bool) -> (r: Result<Option<Command>, PlayError>)
        requires
            old(self).wf(),
        ensures
            final(self).wf(),
            final(self)@ == if on {
                old(self)@.started(midi_code)
            } else {
                old(self)@.stopped(midi_code)
            },
            note_fails(old(self)@, midi_code, on) ==> r == Err::<Option<Command>, PlayError>(
                (PlayError::OutOfRange { tone: midi_code as i16 }),
            ),
            !note_fails(old(self)@, midi_code, on) ==> r == Ok::<Option<Command>, PlayError>(
                note_command(old(self)@, midi_code, on),
            ),
    {
        let maybe_buzzer_id = if on {
            self.scheduler.start_note(midi_code)
        } else {
            self.scheduler.stop_note(midi_code)
        };
        match maybe_buzzer_id {
            Some(buzzer_id) => {
                let freq: u16 = if on {
                    match midi_code_to_freq(midi_code) {
                        Some(freq) => freq,
                        None => {
                            return Err(PlayError::OutOfRange { tone: midi_code as i16 });
                        },
                    }
                } else {
                    0
                };
                Ok(Some(Command::new(buzzer_id, freq)))
            },
            None => Ok(None),
        }
    }

    /// Plays one event and says what it asks of the outside world.
    pub fn step(&mut self, event: Event) -> (r: Result<Option<Action>, PlayError>)
        requires
            old(self).wf(),
        ensures
            final(self).wf(),
            final(self)@ == voices_after(old(self)@, event),
            event_fails(old(self)@, event) ==> r == Err::<Option<Action>, PlayError>(
                (PlayError::OutOfRange { tone: tone_of(event) as i16 }),
            ),
            !event_fails(old(self)@, event) ==> r == Ok::<Option<Action>, PlayError>(
                action_of(old(self)@, event),
            ),
            playable(event) ==> !event_fails(old(self)@, event),
    {
        match event {
            Event::Play { tone, .. } => match self.play_note(tone, true) {
                Ok(Some(command)) => Ok(Some(Action::Send(command))),
                Ok(None) => Ok(None),
                Err(e) => Err(e),
            },
            Event::Stop { tone } => match self.play_note(tone, false) {
                Ok(Some(command)) => Ok(Some(Action::Send(command))),
                Ok(None) => Ok(None),
                Err(e) => Err(e),
            },
            Event::Wait(time) => if time != 0 {
                Ok(Some(Action::Sleep(time)))
            } else {
                Ok(None)
            },
        }
    }

    /// Plays the tracks of `song` that `options` list, transposed and merged
    /// under one clock, and gives what to send and how long to sleep, in
    /// order. Fails, with nothing played, where a listed track cannot be
    /// transposed.
    pub fn play_song(&mut self, song: Song, options: &[(usize, i8)]) -> (r: Result<
        Vec<Action>,
        PlayError,
    >)
        requires
            old(self).wf(),
        ensures
            final(self).wf(),
            r is Ok <==> all_transposable(track_views(song.tracks@), options@),
            match r {
                Ok(actions) => {
                    let events = merged(selected_tracks(track_views(song.tracks@), options@));
                    &&& actions@ == actions_of(old(self)@, events)
                    &&& final(self)@ == voices_after_all(old(self)@, events)
                },
                Err(e) => selection_is(track_views(song.tracks@), options@, Err(e)) && final(self)@
                    == old(self)@,
            },
    {
        let tracks = match select_tracks(&song, options) {
            Ok(tracks) => tracks,
            Err(e) => {
                return Err(e);
            },
        };
        let ghost selected = track_views(tracks@);
        let track = merge_tracks(tracks);
        let events = track.events();
        proof {
            let picks = chosen(options@, song.tracks@.len());
            let sources = track_views(song.tracks@);
            assert forall|i: int, p: int|
                0 <= i < selected.len() && 0 <= p < selected[i].len() && !(selected[i][p] is Wait) implies playable(
                #[trigger] selected[i][p],
            ) by {
                let source = sources[picks[i].0 as int];
                assert(selected[i] == transposed_events(source, picks[i].1));
                assert(in_range(transposed_tone(source[p], picks[i].1)));
            }
            lemma_merged_notes_from_tracks(selected, |e: Event| playable(e));
        }
        let mut actions: Vec<Action> = Vec::new();
        let mut i: usize = 0;
        proof {
            assert(events@.skip(0) =~= events@);
        }
        while i < events.len()
            invariant
                i <= events.len(),
                self.wf(),
                events@ == merged(selected),
                forall|k: int| 0 <= k < events@.len() ==> playable(#[trigger] events@[k]),
                actions@ + actions_of(self@, events@.skip(i as int)) == actions_of(
                    old(self)@,
                    events@,
                ),
                voices_after_all(self@, events@.skip(i as int)) == voices_after_all(
                    old(self)@,
                    events@,
                ),
            decreases events.len() - i,
        {
            let ghost before = self@;
            let ghost done = actions@;
            let ghost left = events@.skip(i as int);
            proof {
                assert(left[0] == events@[i as int]);
                assert(left.drop_first() =~= events@.skip(i + 1));
            }
            match self.step(events[i]) {
                Ok(Some(action)) => {
                    actions.push(action);
                    proof {
                        let rest = actions_of(self@, left.drop_first());
                        assert(done + (seq![action] + rest) =~= actions@ + rest);
                    }
                },
                Ok(None) => {},
                Err(e) => {
                    proof {
                        assert(playable(events@[i as int]));
                    }
                    return Err(e);
                },
            }
            i += 1;
        }
        proof {
            assert(events@.skip(i as int) =~= Seq::<Event>::empty());
            assert(actions@ + Seq::<Action>::empty() =~= actions@);
        }
        Ok(actions)
    }
}

} // verus!
