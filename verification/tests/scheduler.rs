use arduplayer::NoteScheduler;

fn busy(scheduler: &NoteScheduler) -> usize {
    (0..scheduler.buzzers()).filter(|&i| !scheduler.is_free(i)).count()
}

#[test]
fn new_scheduler_is_all_free() {
    let scheduler = NoteScheduler::new(6);
    assert_eq!(scheduler.buzzers(), 6);
    assert!(scheduler.playing().is_empty());
    assert_eq!(busy(&scheduler), 0);
    assert_eq!(scheduler.playing_max_count(), 0);
}

#[test]
fn start_takes_lowest_free_buzzer() {
    let mut scheduler = NoteScheduler::new(3);
    assert_eq!(scheduler.start_note(60), Some(0));
    assert_eq!(scheduler.start_note(64), Some(1));
    assert_eq!(scheduler.start_note(67), Some(2));
    assert_eq!(scheduler.playing(), &vec![(60u8, 0usize), (64, 1), (67, 2)]);
    assert_eq!(scheduler.stop_note(64), Some(1));
    assert_eq!(scheduler.start_note(72), Some(1));
    assert_eq!(scheduler.stop_note(60), Some(0));
    assert_eq!(scheduler.stop_note(67), Some(2));
    assert_eq!(scheduler.start_note(50), Some(0));
}

#[test]
fn saturated_bank_drops_the_note() {
    let mut scheduler = NoteScheduler::new(2);
    assert_eq!(scheduler.start_note(60), Some(0));
    assert_eq!(scheduler.start_note(61), Some(1));
    assert_eq!(scheduler.start_note(62), None);
    assert_eq!(scheduler.playing().len(), 2);
    assert_eq!(scheduler.stop_note(62), None);
    assert_eq!(scheduler.playing().len(), 2);
}

#[test]
fn bank_without_buzzers() {
    let mut scheduler = NoteScheduler::new(0);
    assert_eq!(scheduler.start_note(60), None);
    assert_eq!(scheduler.stop_note(60), None);
    assert_eq!(scheduler.buzzers(), 0);
}

#[test]
fn stray_stop_is_discarded() {
    let mut scheduler = NoteScheduler::new(2);
    assert_eq!(scheduler.stop_note(60), None);
    assert_eq!(scheduler.start_note(60), Some(0));
    assert_eq!(scheduler.stop_note(61), None);
    assert_eq!(scheduler.playing(), &vec![(60u8, 0usize)]);
}

#[test]
fn duplicate_start_takes_second_buzzer() {
    let mut scheduler = NoteScheduler::new(3);
    assert_eq!(scheduler.start_note(60), Some(0));
    assert_eq!(scheduler.start_note(60), Some(1));
    // the oldest entry is released first
    assert_eq!(scheduler.stop_note(60), Some(0));
    assert!(scheduler.is_free(0));
    assert!(!scheduler.is_free(1));
    assert_eq!(scheduler.stop_note(60), Some(1));
    assert_eq!(scheduler.stop_note(60), None);
}

#[test]
fn stop_removes_by_swap_with_last() {
    let mut scheduler = NoteScheduler::new(4);
    scheduler.start_note(1);
    scheduler.start_note(2);
    scheduler.start_note(3);
    scheduler.start_note(4);
    assert_eq!(scheduler.stop_note(2), Some(1));
    assert_eq!(scheduler.playing(), &vec![(1u8, 0usize), (4, 3), (3, 2)]);
    assert_eq!(scheduler.stop_note(3), Some(2));
    assert_eq!(scheduler.playing(), &vec![(1u8, 0usize), (4, 3)]);
}

#[test]
fn start_then_stop_frees_the_buzzer() {
    let mut scheduler = NoteScheduler::new(4);
    scheduler.start_note(10);
    scheduler.start_note(11);
    let before: Vec<(u8, usize)> = scheduler.playing().clone();
    let voice = scheduler.start_note(60).unwrap();
    assert!(!scheduler.is_free(voice as usize));
    assert_eq!(scheduler.stop_note(60), Some(voice));
    assert!(scheduler.is_free(voice as usize));
    assert_eq!(scheduler.playing(), &before);
}

#[test]
fn busy_buzzers_equal_sounding_tones() {
    let mut scheduler = NoteScheduler::new(5);
    let script: [(u8, bool); 14] = [
        (60, true), (61, true), (60, true), (62, false), (60, false), (63, true), (64, true),
        (65, true), (66, true), (67, true), (61, false), (60, false), (60, false), (66, false),
    ];
    for (tone, on) in script {
        if on {
            scheduler.start_note(tone);
        } else {
            scheduler.stop_note(tone);
        }
        assert_eq!(busy(&scheduler), scheduler.playing().len());
        for &(_, buzzer) in scheduler.playing() {
            assert!(!scheduler.is_free(buzzer));
        }
        assert_eq!(scheduler.buzzers(), 5);
    }
}

#[test]
fn max_count_follows_the_peak() {
    let mut scheduler = NoteScheduler::new(3);
    scheduler.start_note(1);
    scheduler.start_note(2);
    assert_eq!(scheduler.playing_max_count(), 2);
    scheduler.stop_note(1);
    assert_eq!(scheduler.playing_max_count(), 2);
    scheduler.start_note(3);
    scheduler.start_note(4);
    assert_eq!(scheduler.playing_max_count(), 3);
    scheduler.start_note(5);
    assert_eq!(scheduler.playing_max_count(), 3);
}

#[test]
fn full_bank_of_255() {
    let mut scheduler = NoteScheduler::new(255);
    for i in 0..255u16 {
        assert_eq!(scheduler.start_note(60), Some(i as u8));
    }
    assert_eq!(scheduler.start_note(60), None);
    assert_eq!(scheduler.playing_max_count(), 255);
}
