use midi_chart::extract::{
    get_chart_notes, trail_length, ConvertError, Event, EventKind, PitchTable, Threshold, TickNote,
};

fn on(delta: u32, key: u8) -> Event {
    Event { delta, kind: EventKind::NoteOn { key, vel: 100 } }
}

fn off(delta: u32, key: u8) -> Event {
    Event { delta, kind: EventKind::NoteOff { key } }
}

const HALF_BEAT: Threshold = Threshold { num: 1, den: 2 };

#[test]
fn single_note_in_ticks() {
    let events = vec![on(0, 60), off(240, 60)];
    let x = get_chart_notes(&events, 480, Threshold { num: 0, den: 1 }, &PitchTable::chromatic()).unwrap();
    assert_eq!(x.notes, vec![TickNote { onset: 0, lane: 0, length: 240 }]);
    assert!(x.unrecognized.is_empty());
}

#[test]
fn note_count_is_half_the_note_events() {
    let events = vec![
        on(0, 60),
        on(10, 72),
        off(10, 60),
        Event { delta: 5, kind: EventKind::Other },
        on(5, 61),
        off(20, 72),
        off(20, 61),
    ];
    let x = get_chart_notes(&events, 480, HALF_BEAT, &PitchTable::chromatic()).unwrap();
    assert_eq!(x.notes.len(), 3);
    assert_eq!(x.notes.len() * 2, 6);
}

#[test]
fn two_presses_fail_as_malformed() {
    let events = vec![on(0, 60), on(100, 60), off(100, 60)];
    let r = get_chart_notes(&events, 480, HALF_BEAT, &PitchTable::chromatic());
    assert_eq!(r.err(), Some(ConvertError::MalformedPairing { key: 60, index: 1 }));
}

#[test]
fn release_without_press_fails() {
    let events = vec![off(0, 61)];
    let r = get_chart_notes(&events, 480, HALF_BEAT, &PitchTable::chromatic());
    assert_eq!(r.err(), Some(ConvertError::MalformedPairing { key: 61, index: 0 }));
}

#[test]
fn held_note_at_end_fails() {
    let events = vec![on(0, 60), off(10, 60), on(10, 63)];
    let r = get_chart_notes(&events, 480, HALF_BEAT, &PitchTable::chromatic());
    assert_eq!(r.err(), Some(ConvertError::UnterminatedNote { key: 63 }));
}

#[test]
fn zero_resolution_fails() {
    let events = vec![on(0, 60), off(10, 60)];
    let r = get_chart_notes(&events, 0, HALF_BEAT, &PitchTable::chromatic());
    assert_eq!(r.err(), Some(ConvertError::InvalidTiming));
}

#[test]
fn unknown_pitches_are_reported_and_skipped() {
    let events = vec![on(0, 40), on(10, 60), off(10, 40), off(10, 60)];
    let x = get_chart_notes(&events, 480, HALF_BEAT, &PitchTable::chromatic()).unwrap();
    assert_eq!(x.unrecognized, vec![0, 2]);
    assert_eq!(x.notes, vec![TickNote { onset: 10, lane: 0, length: 0 }]);
}

#[test]
fn zero_velocity_press_releases() {
    let events = vec![on(0, 74), Event { delta: 960, kind: EventKind::NoteOn { key: 74, vel: 0 } }];
    let x = get_chart_notes(&events, 480, HALF_BEAT, &PitchTable::chromatic()).unwrap();
    assert_eq!(x.notes, vec![TickNote { onset: 0, lane: 6, length: 960 }]);
}

#[test]
fn other_events_advance_time() {
    let events = vec![
        Event { delta: 100, kind: EventKind::Tempo(500000) },
        Event { delta: 50, kind: EventKind::Other },
        on(10, 62),
        off(1000, 62),
    ];
    let x = get_chart_notes(&events, 480, HALF_BEAT, &PitchTable::chromatic()).unwrap();
    assert_eq!(x.notes, vec![TickNote { onset: 160, lane: 2, length: 1000 }]);
}

#[test]
fn length_at_threshold_is_truncated() {
    // half a beat at 480 ticks per beat is 240 ticks, two steps
    assert_eq!(trail_length(240, HALF_BEAT, 480), 0);
    assert_eq!(trail_length(241, HALF_BEAT, 480), 241);
    let events = vec![on(0, 60), off(240, 60), on(0, 61), off(241, 61)];
    let x = get_chart_notes(&events, 480, HALF_BEAT, &PitchTable::chromatic()).unwrap();
    assert_eq!(x.notes[0].length, 0);
    assert_eq!(x.notes[1].length, 241);
}

#[test]
fn zero_denominator_makes_taps() {
    assert_eq!(trail_length(1_000_000, Threshold { num: 1, den: 0 }, 480), 0);
}

#[test]
fn sequential_notes_come_in_onset_order() {
    let events = vec![on(0, 60), on(5, 72), off(5, 60), on(5, 61), off(5, 72), off(5, 61)];
    let x = get_chart_notes(&events, 480, HALF_BEAT, &PitchTable::chromatic()).unwrap();
    let onsets: Vec<u128> = x.notes.iter().map(|n| n.onset).collect();
    assert_eq!(onsets, vec![0, 5, 15]);
}

#[test]
fn nested_notes_come_in_onset_order() {
    let events = vec![on(0, 60), on(10, 61), off(10, 61), off(10, 60)];
    let x = get_chart_notes(&events, 480, HALF_BEAT, &PitchTable::chromatic()).unwrap();
    let onsets: Vec<u128> = x.notes.iter().map(|n| n.onset).collect();
    assert_eq!(onsets, vec![0, 10]);
}

#[test]
fn long_note_held_across_a_short_one_comes_first() {
    let table = PitchTable::new(vec![(60, 4), (61, 5), (62, 6), (63, 7), (72, 0), (73, 1), (74, 2), (75, 3)]).unwrap();
    let events = vec![on(0, 60), on(480, 61), off(480, 61), off(480, 60)];
    let x = get_chart_notes(&events, 480, HALF_BEAT, &table).unwrap();
    assert_eq!(
        x.notes,
        vec![
            TickNote { onset: 0, lane: 4, length: 1440 },
            TickNote { onset: 480, lane: 5, length: 480 },
        ]
    );
}

#[test]
fn equal_onsets_keep_release_order() {
    let events = vec![on(0, 60), on(0, 61), off(10, 61), off(10, 60)];
    let x = get_chart_notes(&events, 480, HALF_BEAT, &PitchTable::chromatic()).unwrap();
    let lanes: Vec<u8> = x.notes.iter().map(|n| n.lane).collect();
    assert_eq!(lanes, vec![1, 0]);
}

#[test]
fn tables_reject_bad_entries() {
    assert!(PitchTable::new(vec![(60, 0), (61, 8)]).is_none());
    assert!(PitchTable::new(vec![(60, 0), (60, 1)]).is_none());
    let t = PitchTable::new(vec![(60, 4), (72, 0)]).unwrap();
    assert_eq!(t.len(), 2);
    assert_eq!(t.entry(0), (60, 4));
    assert_eq!(t.lookup(72), Some(1));
    assert_eq!(t.lookup(61), None);
}

#[test]
fn white_key_table_skips_black_keys() {
    let t = PitchTable::white_keys();
    assert_eq!(t.lookup(64), Some(2));
    assert_eq!(t.lookup(61), None);
    assert_eq!(t.entry(7), (72, 7));
}
