use arduplayer::player::select_tracks;
use arduplayer::{
    freq_to_delay, Action, Command, Event, MetaKind, MidiMessage, MidiParser, PinId, PlayError,
    Player, Song, Track,
};

fn play(tone: u8) -> Event {
    Event::Play { tone, velocity: 100 }
}

fn stop(tone: u8) -> Event {
    Event::Stop { tone }
}

fn song(tracks: Vec<Vec<Event>>) -> Song {
    Song { time_base: 480, tracks: tracks.into_iter().map(Track::new).collect() }
}

fn send(buzzer: u8, frequency: u16) -> Action {
    Action::Send(Command::new(buzzer, frequency))
}

#[test]
fn single_voice_single_track() {
    let song = song(vec![vec![play(60), Event::Wait(500), stop(60), Event::Wait(500)]]);
    let mut player = Player::new(1);
    let actions = player.play_song(song, &[(0, 0)]).unwrap();
    assert_eq!(actions, vec![send(0, 262), Action::Sleep(500), send(0, 0), Action::Sleep(500)]);
    let frames: Vec<[u8; 3]> = actions
        .iter()
        .filter_map(|a| match a {
            Action::Send(command) => Some(command.to_bytes()),
            Action::Sleep(_) => None,
        })
        .collect();
    let delay = freq_to_delay(262);
    assert_eq!(frames, vec![[0, (delay & 0xff) as u8, (delay >> 8) as u8], [0, 0, 0]]);
}

#[test]
fn polyphony_and_saturation() {
    let one = vec![play(60), Event::Wait(100), stop(60)];
    let song = song(vec![one.clone(), one.clone(), one]);
    let mut player = Player::new(2);
    let actions = player.play_song(song, &[(0, 0), (1, 0), (2, 0)]).unwrap();
    assert_eq!(
        actions,
        vec![send(0, 262), send(1, 262), Action::Sleep(100), send(0, 0), send(1, 0)]
    );
    assert!(player.playing().is_empty());
}

#[test]
fn tracks_not_listed_are_left_out() {
    let chord = || {
        song(vec![
            vec![play(60), Event::Wait(10), stop(60)],
            vec![play(64), Event::Wait(10), stop(64)],
            vec![play(67), Event::Wait(10), stop(67)],
        ])
    };
    let mut player = Player::new(6);
    let actions = player.play_song(chord(), &[(2, 0), (0, 1)]).unwrap();
    assert_eq!(
        actions,
        vec![send(0, 392), send(1, 523), Action::Sleep(10), send(0, 0), send(1, 0)]
    );
    let mut silent = Player::new(6);
    assert_eq!(silent.play_song(chord(), &[]), Ok(vec![]));
}

#[test]
fn selection_follows_the_list() {
    let song = song(vec![vec![play(60)], vec![play(61)], vec![play(62)]]);
    let picked = select_tracks(&song, &[(1, 0), (7, 0), (0, -1), (1, 2), (2, 1)]).ok().unwrap();
    let events: Vec<Vec<Event>> = picked.iter().map(|t| t.events().clone()).collect();
    assert_eq!(events, vec![vec![play(61)], vec![play(48)], vec![play(74)]]);
    assert_eq!(select_tracks(&song, &[(3, 0)]).ok().unwrap().len(), 0);
}

#[test]
fn selection_fails_on_the_first_track_out_of_range() {
    let song = song(vec![vec![play(60)], vec![play(100), play(101)], vec![play(30)]]);
    assert_eq!(
        select_tracks(&song, &[(0, 0), (1, 2), (2, -1)]).err(),
        Some(PlayError::OutOfRange { tone: 124 })
    );
    assert_eq!(
        select_tracks(&song, &[(2, -1), (1, 2)]).err(),
        Some(PlayError::OutOfRange { tone: 18 })
    );
    // a track that is passed over is not looked at
    assert!(select_tracks(&song, &[(0, 0), (0, 9)]).is_ok());
    let mut player = Player::new(2);
    player.play_note(60, true).unwrap();
    assert_eq!(
        player.play_song(song, &[(1, 1)]),
        Err(PlayError::OutOfRange { tone: 112 })
    );
    assert_eq!(player.playing(), &vec![(60u8, 0usize)]);
}

#[test]
fn waits_of_no_length_ask_nothing() {
    let song = song(vec![vec![Event::Wait(0), play(69), Event::Wait(0), stop(69), Event::Wait(3)]]);
    let mut player = Player::new(1);
    assert_eq!(
        player.play_song(song, &[(0, 0)]),
        Ok(vec![send(0, 440), send(0, 0), Action::Sleep(3)])
    );
    assert_eq!(player.step(Event::Wait(0)), Ok(None));
    assert_eq!(player.step(Event::Wait(9)), Ok(Some(Action::Sleep(9))));
}

#[test]
fn play_note_starts_and_stops() {
    let mut player = Player::new(2);
    assert_eq!(player.play_note(60, true), Ok(Some(Command { pin_id: PinId(0), frequency: 262 })));
    assert_eq!(player.play_note(69, true), Ok(Some(Command::new(1, 440))));
    assert_eq!(player.play_note(72, true), Ok(None));
    assert_eq!(player.play_note(72, false), Ok(None));
    assert_eq!(player.play_note(60, false), Ok(Some(Command::new(0, 0))));
    assert_eq!(player.play_note(69, false), Ok(Some(Command::new(1, 0))));
    assert!(player.playing().is_empty());
}

#[test]
fn play_note_out_of_range_fails() {
    let mut player = Player::new(1);
    assert_eq!(player.play_note(10, true), Err(PlayError::OutOfRange { tone: 10 }));
    // the note took the buzzer before it failed, so the bank is full now
    assert_eq!(player.play_note(200, true), Ok(None));
    assert_eq!(player.step(play(108)), Ok(None));
    // stopping needs no frequency
    assert_eq!(player.play_note(10, false), Ok(Some(Command::new(0, 0))));
    assert_eq!(player.step(play(108)), Err(PlayError::OutOfRange { tone: 108 }));
}

#[test]
fn step_follows_the_events() {
    let mut player = Player::new(2);
    assert_eq!(player.step(play(24)), Ok(Some(send(0, 33))));
    assert_eq!(player.step(play(107)), Ok(Some(send(1, 3951))));
    assert_eq!(player.step(stop(50)), Ok(None));
    assert_eq!(player.step(stop(107)), Ok(Some(send(1, 0))));
    assert_eq!(player.playing(), &vec![(24u8, 0usize)]);
}

#[test]
fn parsed_song_is_played() {
    let mut parser = MidiParser::new();
    parser.header(1, 2, 96);
    parser.track_change();
    parser.meta_event(0, &MetaKind::SequenceOrTrackName, &b"melody".to_vec());
    parser.midi_event(0, &MidiMessage::ProgramChange);
    parser.midi_event(0, &MidiMessage::NoteOn { note: 57, velocity: 90 });
    parser.midi_event(100, &MidiMessage::NoteOff { note: 57, velocity: 0 });
    parser.meta_event(0, &MetaKind::EndOfTrack, &vec![]);
    parser.track_change();
    parser.midi_event(40, &MidiMessage::ControlChange);
    parser.midi_event(10, &MidiMessage::NoteOn { note: 45, velocity: 90 });
    parser.midi_event(50, &MidiMessage::NoteOn { note: 45, velocity: 0 });
    let song = parser.into_song();
    let mut player = Player::new(6);
    assert_eq!(
        player.play_song(song, &[(0, 1), (1, 1)]),
        Ok(vec![
            send(0, 440),
            Action::Sleep(50),
            send(1, 220),
            Action::Sleep(50),
            send(0, 0),
            send(1, 0),
        ])
    );
}
