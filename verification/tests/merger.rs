use arduplayer::song::{merge_tracks, pop_non_waits, transpose_events};
use arduplayer::{Event, PlayError, Track};
use std::collections::VecDeque;

fn play(tone: u8) -> Event {
    Event::Play { tone, velocity: 100 }
}

fn stop(tone: u8) -> Event {
    Event::Stop { tone }
}

fn total_wait(events: &[Event]) -> u64 {
    events.iter().map(|e| match e {
        Event::Wait(ms) => *ms as u64,
        _ => 0,
    }).sum()
}

fn notes(events: &[Event]) -> Vec<Event> {
    events.iter().copied().filter(|e| !e.is_wait()).collect()
}

#[test]
fn merge_aligns_two_tracks() {
    let a = Track::new(vec![play(60), Event::Wait(100), stop(60)]);
    let b = Track::new(vec![Event::Wait(40), play(64), Event::Wait(60), stop(64)]);
    let merged = merge_tracks(vec![a, b]);
    assert_eq!(
        merged.events(),
        &vec![play(60), Event::Wait(40), play(64), Event::Wait(60), stop(60), stop(64)]
    );
    assert_eq!(total_wait(merged.events()), 100);
}

#[test]
fn merge_of_nothing_is_empty() {
    assert!(merge_tracks(vec![]).events().is_empty());
    assert!(merge_tracks(vec![Track::new(vec![])]).events().is_empty());
    assert!(merge_tracks(vec![Track::new(vec![]), Track::new(vec![])]).events().is_empty());
}

#[test]
fn merge_of_one_track_keeps_it() {
    let events = vec![play(60), Event::Wait(500), stop(60), Event::Wait(500)];
    let merged = merge_tracks(vec![Track::new(events.clone())]);
    assert_eq!(merged.events(), &events);
}

#[test]
fn merge_breaks_ties_by_track_order() {
    let a = vec![play(60), play(61), Event::Wait(10), stop(60), stop(61)];
    let merged = merge_tracks(vec![Track::new(a.clone()), Track::new(a.clone())]);
    assert_eq!(
        merged.events(),
        &vec![
            play(60), play(61), play(60), play(61), Event::Wait(10), stop(60), stop(61), stop(60),
            stop(61),
        ]
    );
    let x = Track::new(vec![play(1), Event::Wait(5), play(2)]);
    let y = Track::new(vec![play(3), Event::Wait(5), play(4)]);
    let z = Track::new(vec![play(5), Event::Wait(5), play(6)]);
    assert_eq!(
        merge_tracks(vec![z, x, y]).events(),
        &vec![play(5), play(1), play(3), Event::Wait(5), play(6), play(2), play(4)]
    );
}

#[test]
fn merge_with_tracks_of_unequal_length() {
    let short = Track::new(vec![play(60), Event::Wait(5)]);
    let long = Track::new(vec![Event::Wait(10), play(64), Event::Wait(20), stop(64)]);
    let merged = merge_tracks(vec![short, long]);
    assert_eq!(
        merged.events(),
        &vec![play(60), Event::Wait(5), Event::Wait(5), play(64), Event::Wait(20), stop(64)]
    );
    assert_eq!(total_wait(merged.events()), 30);
}

#[test]
fn merge_keeps_waits_of_no_length() {
    let a = Track::new(vec![Event::Wait(0), play(60), Event::Wait(0), play(61)]);
    let b = Track::new(vec![Event::Wait(0), play(62), Event::Wait(7), stop(62)]);
    let merged = merge_tracks(vec![a, b]);
    assert_eq!(
        merged.events(),
        &vec![
            Event::Wait(0), play(60), play(62), Event::Wait(0), play(61), Event::Wait(7), stop(62),
        ]
    );
}

#[test]
fn merge_keeps_every_note_and_the_longest_duration() {
    let tracks: Vec<Vec<Event>> = vec![
        vec![play(30), Event::Wait(3), stop(30), Event::Wait(4), play(31), Event::Wait(1)],
        vec![Event::Wait(2), play(40), Event::Wait(2), play(41), stop(40), Event::Wait(9), stop(41)],
        vec![],
        vec![Event::Wait(1), Event::Wait(1), play(50), Event::Wait(u32::MAX - 2)],
        vec![play(60), stop(60)],
    ];
    let longest = tracks.iter().map(|t| total_wait(t)).max().unwrap();
    let count: usize = tracks.iter().map(|t| notes(t).len()).sum();
    let merged = merge_tracks(tracks.iter().map(|t| Track::new(t.clone())).collect());
    assert_eq!(total_wait(merged.events()), longest);
    assert_eq!(longest, u32::MAX as u64);
    assert_eq!(notes(merged.events()).len(), count);
    for track in &tracks {
        // every track's notes are found in the output, in the track's order
        let mut at = 0;
        for note in notes(track) {
            let found = merged.events()[at..].iter().position(|e| *e == note);
            assert!(found.is_some());
            at += found.unwrap() + 1;
        }
    }
}

#[test]
fn pop_non_waits_moves_the_head() {
    let mut queue: VecDeque<Event> = vec![play(1), stop(1), Event::Wait(3), play(2)].into();
    let mut buf = vec![Event::Wait(9)];
    pop_non_waits(&mut queue, &mut buf);
    assert_eq!(buf, vec![Event::Wait(9), play(1), stop(1)]);
    assert_eq!(queue, VecDeque::from(vec![Event::Wait(3), play(2)]));
    pop_non_waits(&mut queue, &mut buf);
    assert_eq!(buf.len(), 3);
    assert_eq!(queue.len(), 2);
    let mut all: VecDeque<Event> = vec![play(1), play(2)].into();
    pop_non_waits(&mut all, &mut buf);
    assert!(all.is_empty());
    assert_eq!(buf.len(), 5);
}

#[test]
fn event_is_wait() {
    assert!(Event::Wait(0).is_wait());
    assert!(Event::Wait(17).is_wait());
    assert!(!play(60).is_wait());
    assert!(!stop(60).is_wait());
}

#[test]
fn event_unwrap_wait_gives_access() {
    let mut event = Event::Wait(10);
    assert_eq!(*event.unwrap_wait(), 10);
    *event.unwrap_wait() -= 4;
    assert_eq!(event, Event::Wait(6));
}

#[test]
fn track_transpose_moves_every_tone() {
    let track = Track::new(vec![play(60), Event::Wait(5), stop(60), play(95)]);
    let moved = track.transpose(1).ok().unwrap();
    assert_eq!(moved.events(), &vec![play(72), Event::Wait(5), stop(72), play(107)]);
    let back = moved.transpose(-2).ok().unwrap();
    assert_eq!(back.events(), &vec![play(48), Event::Wait(5), stop(48), play(83)]);
}

#[test]
fn track_transpose_keeps_velocity_and_waits() {
    let events = vec![Event::Play { tone: 60, velocity: 7 }, Event::Wait(u32::MAX)];
    let moved = Track::new(events).transpose(-1).ok().unwrap();
    assert_eq!(moved.events(), &vec![Event::Play { tone: 48, velocity: 7 }, Event::Wait(u32::MAX)]);
}

#[test]
fn track_transpose_reports_first_tone_out_of_range() {
    let track = Track::new(vec![play(60), stop(100), play(107), Event::Wait(1)]);
    assert_eq!(track.transpose(2).err(), Some(PlayError::OutOfRange { tone: 124 }));
    let low = Track::new(vec![Event::Wait(1), stop(30), play(25)]);
    assert_eq!(low.transpose(-1).err(), Some(PlayError::OutOfRange { tone: 18 }));
    // without a shift, tones outside the table are refused as well
    let odd = vec![play(10)];
    assert_eq!(transpose_events(&odd, 0), Err(PlayError::OutOfRange { tone: 10 }));
    assert_eq!(transpose_events(&vec![], 9), Ok(vec![]));
    assert_eq!(transpose_events(&vec![Event::Wait(3)], 127), Ok(vec![Event::Wait(3)]));
}

fn note_times(events: &[Event]) -> Vec<(u64, Event)> {
    let mut now = 0u64;
    let mut times = Vec::new();
    for event in events {
        match event {
            Event::Wait(ms) => now += *ms as u64,
            note => times.push((now, *note)),
        }
    }
    times
}

#[test]
fn merge_keeps_every_note_at_its_time() {
    let tracks: Vec<Vec<Event>> = vec![
        vec![play(30), Event::Wait(3), stop(30), Event::Wait(4), play(31), Event::Wait(1)],
        vec![Event::Wait(2), play(40), Event::Wait(2), play(41), stop(40), Event::Wait(9), stop(41)],
        vec![Event::Wait(0), Event::Wait(7), play(50), Event::Wait(0), stop(50)],
    ];
    let merged = merge_tracks(tracks.iter().map(|t| Track::new(t.clone())).collect());
    let mut expected: Vec<(u64, Event)> = Vec::new();
    for track in &tracks {
        expected.extend(note_times(track));
    }
    // stable: notes of the same instant stay in the order of their tracks
    expected.sort_by_key(|(time, _)| *time);
    assert_eq!(note_times(merged.events()), expected);
}

#[test]
fn merge_of_tracks_without_double_waits_has_none() {
    let a = Track::new(vec![Event::Wait(5), play(60), Event::Wait(0), play(61), Event::Wait(9), stop(60)]);
    let b = Track::new(vec![play(62), Event::Wait(14), stop(62)]);
    let c = Track::new(vec![Event::Wait(14), play(63)]);
    let merged = merge_tracks(vec![a, b, c]);
    let events = merged.events();
    assert_eq!(
        events,
        &vec![
            play(62), Event::Wait(5), play(60), Event::Wait(0), play(61), Event::Wait(9), stop(60),
            stop(62), play(63),
        ]
    );
    for pair in events.windows(2) {
        assert!(!(pair[0].is_wait() && pair[1].is_wait()));
    }
    assert!(!events.last().unwrap().is_wait());
}
