use arduplayer::{Event, MetaKind, MidiMessage, MidiParser};

fn on(note: u8, velocity: u8) -> MidiMessage {
    MidiMessage::NoteOn { note, velocity }
}

fn started() -> MidiParser {
    let mut parser = MidiParser::new();
    parser.header(1, 1, 480);
    parser.track_change();
    parser
}

#[test]
fn ignored_delta_is_folded_forward() {
    let mut parser = started();
    parser.midi_event(30, &MidiMessage::ProgramChange);
    parser.midi_event(20, &on(60, 100));
    assert_eq!(parser.tracks[0].notes, vec![Event::Wait(50), Event::Play { tone: 60, velocity: 100 }]);
    assert_eq!(parser.tracks[0].ignored_dt, 0);
}

#[test]
fn note_on_with_zero_velocity_is_a_stop() {
    let mut parser = started();
    parser.midi_event(0, &on(62, 0));
    assert_eq!(parser.tracks[0].notes, vec![Event::Wait(0), Event::Stop { tone: 62 }]);
}

#[test]
fn note_off_is_a_stop() {
    let mut parser = started();
    parser.midi_event(5, &MidiMessage::NoteOff { note: 70, velocity: 64 });
    assert_eq!(parser.tracks[0].notes, vec![Event::Wait(5), Event::Stop { tone: 70 }]);
}

#[test]
fn every_note_gets_one_wait() {
    let mut parser = started();
    parser.midi_event(0, &on(60, 1));
    parser.midi_event(10, &MidiMessage::ControlChange);
    parser.midi_event(10, &MidiMessage::Other);
    parser.sys_ex_event(10);
    parser.meta_event(10, &MetaKind::Other, &vec![]);
    parser.meta_event(1000, &MetaKind::EndOfTrack, &vec![]);
    parser.midi_event(10, &on(60, 0));
    parser.midi_event(3, &on(61, 127));
    assert_eq!(
        parser.tracks[0].notes,
        vec![
            Event::Wait(0),
            Event::Play { tone: 60, velocity: 1 },
            Event::Wait(50),
            Event::Stop { tone: 60 },
            Event::Wait(3),
            Event::Play { tone: 61, velocity: 127 },
        ]
    );
}

#[test]
fn ignored_messages_only_accumulate() {
    let mut parser = started();
    parser.midi_event(7, &MidiMessage::ProgramChange);
    parser.sys_ex_event(8);
    assert!(parser.tracks[0].notes.is_empty());
    assert_eq!(parser.tracks[0].ignored_dt, 15);
    assert_eq!(parser.tracks[0].next_wait(), 15);
    assert_eq!(parser.tracks[0].ignored_dt, 0);
}

#[test]
fn messages_go_to_the_latest_track() {
    let mut parser = started();
    parser.midi_event(1, &on(60, 9));
    parser.track_change();
    parser.midi_event(4, &MidiMessage::ControlChange);
    parser.track_change();
    parser.midi_event(2, &on(61, 9));
    assert_eq!(parser.tracks.len(), 3);
    assert_eq!(parser.tracks[0].notes, vec![Event::Wait(1), Event::Play { tone: 60, velocity: 9 }]);
    assert!(parser.tracks[1].notes.is_empty());
    assert_eq!(parser.tracks[1].ignored_dt, 4);
    assert_eq!(parser.tracks[2].notes, vec![Event::Wait(2), Event::Play { tone: 61, velocity: 9 }]);
    assert_eq!(parser.current_track().notes.len(), 2);
}

#[test]
fn track_name_is_decoded_leniently() {
    let mut parser = started();
    assert_eq!(parser.tracks[0].name, None);
    parser.midi_event(6, &MidiMessage::Other);
    parser.meta_event(0, &MetaKind::SequenceOrTrackName, &b"Lead \xe2\x99\xaa".to_vec());
    assert_eq!(parser.tracks[0].name, Some(String::from("Lead \u{266a}")));
    // naming a track neither emits nor loses the ticks that wait
    assert!(parser.tracks[0].notes.is_empty());
    assert_eq!(parser.tracks[0].ignored_dt, 6);
    parser.meta_event(0, &MetaKind::SequenceOrTrackName, &vec![b'a', 0xff, b'b']);
    assert_eq!(parser.tracks[0].name, Some(String::from("a\u{fffd}b")));
}

#[test]
fn header_sets_the_time_base() {
    let mut parser = MidiParser::new();
    assert_eq!(parser.time_base, None);
    assert!(parser.tracks.is_empty());
    parser.header(0, 3, 96);
    assert_eq!(parser.time_base, Some(96));
    assert!(parser.tracks.is_empty());
}

#[test]
fn parsed_tracks_become_a_song() {
    let mut parser = started();
    parser.midi_event(0, &on(60, 100));
    parser.midi_event(500, &on(60, 0));
    parser.track_change();
    parser.track_change();
    parser.midi_event(u32::MAX, &on(90, 1));
    let song = parser.into_song();
    assert_eq!(song.time_base, 480);
    assert_eq!(song.tracks.len(), 3);
    assert_eq!(
        song.tracks[0].events(),
        &vec![
            Event::Wait(0),
            Event::Play { tone: 60, velocity: 100 },
            Event::Wait(500),
            Event::Stop { tone: 60 },
        ]
    );
    assert!(song.tracks[1].events().is_empty());
    assert_eq!(
        song.tracks[2].events(),
        &vec![Event::Wait(u32::MAX), Event::Play { tone: 90, velocity: 1 }]
    );
}

#[test]
fn parser_takes_messages_once_a_track_began() {
    let mut parser = MidiParser::new();
    assert!(!parser.can_take(0));
    parser.track_change();
    assert!(parser.can_take(0));
    assert!(parser.can_take(u32::MAX));
    parser.midi_event(u32::MAX - 1, &MidiMessage::Other);
    assert!(parser.can_take(1));
    assert!(!parser.can_take(2));
    parser.midi_event(1, &on(60, 1));
    assert_eq!(parser.tracks[0].notes[0], Event::Wait(u32::MAX));
    assert!(parser.can_take(u32::MAX));
}
