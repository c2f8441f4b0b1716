//! Decoding of MIDI messages into the note events of each track.
//!
//! A reader of MIDI files reports what it finds in file order: the header
//! once, a track change at the start of every track, and the messages of the
//! track with the ticks passed since the message before. The parser keeps the
//! notes and folds the time of everything else into the wait before the next
//! note.

use vstd::prelude::*;

use crate::song::{track_views, Event, Song, Track};
use crate::timeline::steady;

verus! {

/// A channel-voice message, reduced to what the parser reads of it.
#[derive(Clone, Copy, Debug, PartialEq, Eq, Structural)]
pub enum MidiMessage {
    NoteOff { note: u8, velocity: u8 },
    NoteOn { note: u8, velocity: u8 },
    ControlChange,
    ProgramChange,
    /// Any other channel-voice message.
    Other,
}

/// The kind of a meta event, reduced to what the parser tells apart.
#[derive(Clone, Copy, Debug, PartialEq, Eq, Structural)]
pub enum MetaKind {
    SequenceOrTrackName,
    EndOfTrack,
    /// Any other meta event.
    Other,
}

/// A track that is being parsed.
pub struct MidiTrack {
    pub name: Option<String>,
    pub notes: Vec<Event>,
    /// Ticks of the messages ignored since the last note.
    pub ignored_dt: u32,
}

/// Extracts the notes of a MIDI file, track by track.
pub struct MidiParser {
    pub time_base: Option<u16>,
    pub tracks: Vec<MidiTrack>,
}

/// What a track under parsing has come to: its events so far and the ticks
/// that wait to be added to the next note's wait.
pub struct Decoding {
    pub notes: Seq<Event>,
    pub pending: nat,
}

/// The event that a message stands for, if it is a note: a note-on with
/// velocity 0 counts as a note-off.
pub open spec fn note_of(message: MidiMessage) -> Option<Event> {
    match message {
        MidiMessage::NoteOn { note, velocity } => if velocity == 0 {
            Some(Event::Stop { tone: note })
        } else {
            Some(Event::Play { tone: note, velocity })
        },
        MidiMessage::NoteOff { note, .. } => Some(Event::Stop { tone: note }),
        _ => None,
    }
}

/// The text that the bytes of a name stand for, invalid UTF-8 replaced, as
/// std's `String::from_utf8_lossy` gives it.
pub uninterp spec fn utf8_lossy(bytes: Seq<u8>) -> Seq<char>;

/// Decodes a name with std's `String::from_utf8_lossy`. The result is taken on
/// trust to depend on the bytes alone.
#[verifier::external_body]
fn lossy_name(data: &Vec<u8>) -> (name: String)
    ensures
        name@ == utf8_lossy(data@),
{
    String::from_utf8_lossy(data).into_owned()
}

impl Decoding {
    /// After a message that is left out: its ticks wait for the next note.
    pub open spec fn ignored(self, delta_time: u32) -> Decoding {
        Decoding { notes: self.notes, pending: self.pending + delta_time as nat }
    }

    /// After a note: one wait for all the ticks since the note before, then
    /// the note.
    pub open spec fn emitted(self, delta_time: u32, event: Event) -> Decoding {
        Decoding {
            notes: self.notes.push(Event::Wait((self.pending + delta_time) as u32)).push(event),
            pending: 0,
        }
    }

    /// After a channel-voice message.
    pub open spec fn midi(self, delta_time: u32, message: MidiMessage) -> Decoding {
        match note_of(message) {
            Some(event) => self.emitted(delta_time, event),
            None => self.ignored(delta_time),
        }
    }

    /// After a meta event: only a kind that the parser does not know adds its
    /// ticks.
    pub open spec fn meta(self, delta_time: u32, kind: MetaKind) -> Decoding {
        match kind {
            MetaKind::Other => self.ignored(delta_time),
            _ => self,
        }
    }
}

/// Whatever message a track takes, every wait among its events stays
/// followed by a note: no two waits stand in a row and none at the end.
pub proof fn lemma_decoding_steady(before: Decoding, delta_time: u32, message: MidiMessage)
    requires
        steady(before.notes),
    ensures
        steady(before.midi(delta_time, message).notes),
        steady(before.ignored(delta_time).notes),
{
    let after = before.midi(delta_time, message).notes;
    assert forall|k: int| 0 <= k < after.len() && #[trigger] after[k] is Wait implies k + 1
        < after.len() && !(after[k + 1] is Wait) by {
        if k < before.notes.len() {
            assert(before.notes[k] is Wait);
            assert(after[k + 1] == before.notes[k + 1]);
        }
    }
}

impl View for MidiTrack {
    type V = Decoding;

    open spec fn view(&self) -> Decoding {
        Decoding { notes: self.notes@, pending: self.ignored_dt as nat }
    }
}

impl MidiTrack {
    /// Hands out the ticks ignored so far and starts counting anew.
    pub fn next_wait(&mut self) -> (dt: u32)
        ensures
            dt == old(self).ignored_dt,
            final(self).ignored_dt == 0,
            final(self).notes == old(self).notes,
            final(self).name == old(self).name,
    {
        let dt: u32 = self.ignored_dt;
        self.ignored_dt = 0;
        dt
    }

    /// Leaves a message out and keeps its ticks for the next note.
    fn ignore(&mut self, delta_time: u32)
        requires
            old(self).ignored_dt + delta_time <= u32::MAX,
        ensures
            final(self)@ == old(self)@.ignored(delta_time),
            final(self).name == old(self).name,
    {
        self.ignored_dt += delta_time;
    }

    /// Appends a note behind one wait for all the ticks since the note before.
    fn emit(&mut self, delta_time: u32, event: Event)
        requires
            old(self).ignored_dt + delta_time <= u32::MAX,
        ensures
            final(self)@ == old(self)@.emitted(delta_time, event),
            final(self).name == old(self).name,
    {
        let wait = Event::Wait(self.next_wait() + delta_time);
        self.notes.push(wait);
        self.notes.push(event);
    }
}

impl MidiParser {
    /// The track that the messages now go to.
    pub open spec fn current(&self) -> MidiTrack
        recommends
            self.tracks@.len() > 0,
    {
        self.tracks@.last()
    }

    /// Whether a message with `delta_time` can be taken: a track has begun,
    /// and its waiting ticks with these still fit a wait.
    pub open spec fn accepts(&self, delta_time: u32) -> bool {
        self.tracks@.len() > 0 && self.current().ignored_dt + delta_time <= u32::MAX
    }

    /// `self` differs from `before` in its current track at most.
    pub open spec fn same_but_current(&self, before: &MidiParser) -> bool {
        &&& self.time_base == before.time_base
        &&& self.tracks@.len() == before.tracks@.len()
        &&& self.tracks@.drop_last() == before.tracks@.drop_last()
        &&& self.tracks@.len() > 0 ==> self.current().name == before.current().name
    }

    /// A parser that has seen nothing yet.
    pub fn new() -> (p: MidiParser)
        ensures
            p.time_base is None,
            p.tracks@.len() == 0,
    {
        MidiParser { time_base: None, tracks: Vec::new() }
    }

    /// Whether a message with `delta_time` can be taken now.
    pub fn can_take(&self, delta_time: u32) -> (r: bool)
        ensures
            r == self.accepts(delta_time),
    {
        let count: usize = self.tracks.len();
        count > 0 && self.tracks[count - 1].ignored_dt <= u32::MAX - delta_time
    }

    /// The track that the messages now go to.
    pub fn current_track(&mut self) -> (track: &mut MidiTrack)
        requires
            old(self).tracks@.len() > 0,
        ensures
            *track == old(self).current(),
            final(self).time_base == old(self).time_base,
            final(self).tracks@ == old(self).tracks@.update(
                old(self).tracks@.len() - 1,
                *final(track),
            ),
    {
        let i: usize = self.tracks.len() - 1;
        &mut self.tracks[i]
    }

    /// Starts a new, empty track.
    pub fn add_track(&mut self)
        ensures
            final(self).time_base == old(self).time_base,
            final(self).tracks@.len() == old(self).tracks@.len() + 1,
            final(self).tracks@.drop_last() == old(self).tracks@,
            final(self).current().name is None,
            final(self).current()@ == (Decoding { notes: Seq::empty(), pending: 0 }),
    {
        let name: Option<String> = None;
        let notes: Vec<Event> = Vec::new();
        let ignored_dt: u32 = 0;
        self.tracks.push(MidiTrack { name, notes, ignored_dt });
        assert(self.tracks@.drop_last() =~= old(self).tracks@);
    }

    /// Takes the header of the file, which comes once.
    pub fn header(&mut self, format: u16, track: u16, time_base: u16)
        requires
            old(self).time_base is None,
        ensures
            final(self).time_base == Some(time_base),
            final(self).tracks == old(self).tracks,
    {
        self.time_base = Some(time_base);
    }

    /// Takes the start of a track.
    pub fn track_change(&mut self)
        ensures
            final(self).time_base == old(self).time_base,
            final(self).tracks@.len() == old(self).tracks@.len() + 1,
            final(self).tracks@.drop_last() == old(self).tracks@,
            final(self).current().name is None,
            final(self).current()@ == (Decoding { notes: Seq::empty(), pending: 0 }),
    {
        self.add_track();
    }

    /// Takes a meta event. A track name, which comes without delay, names the
    /// current track; the end of a track changes nothing; every other kind
    /// adds its ticks to the wait before the next note.
    pub fn meta_event(&mut self, delta_time: u32, event: &MetaKind, data: &Vec<u8>)
        requires
            !(*event is EndOfTrack) ==> old(self).accepts(delta_time),
            *event is SequenceOrTrackName ==> delta_time == 0,
        ensures
            *event is EndOfTrack ==> *final(self) == *old(self),
            final(self).time_base == old(self).time_base,
            final(self).tracks@.len() == old(self).tracks@.len(),
            final(self).tracks@.drop_last() == old(self).tracks@.drop_last(),
            final(self).current()@ == old(self).current()@.meta(delta_time, *event),
            *event is SequenceOrTrackName ==> final(self).current().name is Some,
            *event is SequenceOrTrackName ==> final(self).current().name.unwrap()@ == utf8_lossy(
                data@,
            ),
            !(*event is SequenceOrTrackName) ==> final(self).current().name == old(self).current().name,
    {
        match event {
            MetaKind::SequenceOrTrackName => {
                let name = lossy_name(data);
                let track = self.current_track();
                track.name = Some(name);
            },
            MetaKind::EndOfTrack => {},
            MetaKind::Other => {
                self.current_track().ignore(delta_time);
            },
        }
        assert(final(self).tracks@.drop_last() =~= old(self).tracks@.drop_last());
    }

    /// Takes a channel-voice message, whatever its channel. A note is
    /// appended behind one wait for all the ticks since the note before; the
    /// ticks of any other message are kept for the next note.
    pub fn midi_event(&mut self, delta_time: u32, event: &MidiMessage)
        requires
            old(self).accepts(delta_time),
        ensures
            final(self).same_but_current(old(self)),
            final(self).current()@ == old(self).current()@.midi(delta_time, *event),
    {
        let track = self.current_track();
        match *event {
            MidiMessage::NoteOn { note, velocity } => {
                if velocity == 0 {
                    track.emit(delta_time, Event::Stop { tone: note });
                } else {
                    track.emit(delta_time, Event::Play { tone: note, velocity });
                }
            },
            MidiMessage::NoteOff { note, .. } => {
                track.emit(delta_time, Event::Stop { tone: note });
            },
            MidiMessage::ProgramChange => {
                track.ignore(delta_time);
            },
            MidiMessage::ControlChange => {
                track.ignore(delta_time);
            },
            MidiMessage::Other => {
                track.ignore(delta_time);
            },
        }
        assert(final(self).tracks@.drop_last() =~= old(self).tracks@.drop_last());
    }

    /// Takes a system-exclusive event: its ticks are kept for the next note.
    pub fn sys_ex_event(&mut self, delta_time: u32)
        requires
            old(self).accepts(delta_time),
        ensures
            final(self).same_but_current(old(self)),
            final(self).current()@ == old(self).current()@.ignored(delta_time),
    {
        self.current_track().ignore(delta_time);
        assert(final(self).tracks@.drop_last() =~= old(self).tracks@.drop_last());
    }

    /// The song that was parsed: the header's time base and, for each track
    /// in turn, its notes.
    pub fn into_song(self) -> (song: Song)
        requires
            self.time_base is Some,
        ensures
            song.time_base == self.time_base.unwrap(),
            track_views(song.tracks@) == Seq::new(
                self.tracks@.len(),
                |i: int| self.tracks@[i].notes@,
            ),
    {
        let mut tracks: Vec<Track> = Vec::with_capacity(self.tracks.len());
        let mut i: usize = 0;
        while i < self.tracks.len()
            invariant
                i <= self.tracks.len(),
                tracks.len() == i,
                forall|j: int| 0 <= j < i ==> (#[trigger] tracks[j])@ == self.tracks@[j].notes@,
            decreases self.tracks.len() - i,
        {
            let notes = &self.tracks[i].notes;
            let mut events: Vec<Event> = Vec::with_capacity(notes.len());
            let mut k: usize = 0;
            while k < notes.len()
                invariant
                    k <= notes.len(),
                    events@ == notes@.take(k as int),
                decreases notes.len() - k,
            {
                events.push(notes[k]);
                k += 1;
                assert(events@ =~= notes@.take(k as int));
            }
            assert(notes@.take(k as int) =~= notes@);
            tracks.push(Track::new(events));
            i += 1;
        }
        let song = Song { time_base: self.time_base.unwrap(), tracks };
        assert(track_views(song.tracks@) =~= Seq::new(
            self.tracks@.len(),
            |i: int| self.tracks@[i].notes@,
        ));
        song
    }
}

} // verus!
