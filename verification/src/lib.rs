//! Plays polyphonic music on a bank of square-wave buzzers: note events are
//! decoded from MIDI messages, merged into one time-ordered stream, assigned to
//! a bounded pool of voices and encoded as the frames the buzzer firmware reads.

pub mod command;
pub mod midi_parser;
pub mod note_scheduler;
pub mod player;
pub mod song;
pub mod timeline;
pub mod util;

pub use command::{Command, PinId};
pub use midi_parser::{MetaKind, MidiMessage, MidiParser, MidiTrack};
pub use note_scheduler::NoteScheduler;
pub use player::{Action, Player};
pub use song::{Event, Song, Track};
pub use util::{freq_to_delay, midi_code_to_freq, transpose, PlayError};
