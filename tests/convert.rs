use midi_chart::chart::TieBreak;
use midi_chart::convert::{convert, Settings};
use midi_chart::extract::{ConvertError, Event, EventKind, PitchTable, Threshold};

fn on(delta: u32, key: u8) -> Event {
    Event { delta, kind: EventKind::NoteOn { key, vel: 100 } }
}

fn off(delta: u32, key: u8) -> Event {
    Event { delta, kind: EventKind::NoteOff { key } }
}

fn settings(tie: TieBreak) -> Settings {
    Settings { ticks_per_beat: 480, bpm: 120, threshold: Threshold { num: 0, den: 1 }, tie }
}

#[test]
fn one_note_end_to_end() {
    let events = vec![on(0, 60), off(240, 60)];
    let c = convert(&events, &PitchTable::chromatic(), settings(TieBreak::KeepLayout)).unwrap();
    assert_eq!(c.sections.len(), 1);
    let s = &c.sections[0];
    assert_eq!(s.section_notes.len(), 1);
    let n = s.section_notes[0];
    assert_eq!(n.time.num, 0);
    assert_eq!(n.length.num, 250 * n.length.den);
    assert_eq!(n.length.num as f64 / n.length.den as f64, 250.0);
    assert_eq!(n.note, 0);
    assert!(!s.must_hit_section);
    assert_eq!(s.length_in_steps, 16);
}

#[test]
fn one_low_note_is_never_a_tie() {
    let events = vec![on(0, 60), off(240, 60)];
    let c = convert(&events, &PitchTable::chromatic(), settings(TieBreak::MustHit)).unwrap();
    assert!(!c.sections[0].must_hit_section);
    assert_eq!(c.sections[0].section_notes[0].note, 0);
}

#[test]
fn double_press_produces_no_chart() {
    let events = vec![on(0, 60), on(240, 60), off(240, 60)];
    let r = convert(&events, &PitchTable::chromatic(), settings(TieBreak::KeepLayout));
    assert_eq!(r.err(), Some(ConvertError::MalformedPairing { key: 60, index: 1 }));
}

#[test]
fn invalid_timing_comes_first() {
    let events = vec![on(0, 60), on(240, 60)];
    let mut cfg = settings(TieBreak::KeepLayout);
    cfg.bpm = 0;
    let r = convert(&events, &PitchTable::chromatic(), cfg);
    assert_eq!(r.err(), Some(ConvertError::InvalidTiming));
    cfg.bpm = 120;
    cfg.ticks_per_beat = 0;
    let r = convert(&events, &PitchTable::chromatic(), cfg);
    assert_eq!(r.err(), Some(ConvertError::InvalidTiming));
}

#[test]
fn converting_twice_gives_the_same_chart() {
    let events = vec![on(0, 72), on(100, 60), off(500, 72), off(3000, 60), on(4000, 75), off(10, 75)];
    let cfg = Settings { ticks_per_beat: 480, bpm: 95, threshold: Threshold { num: 1, den: 2 }, tie: TieBreak::MustHit };
    let a = convert(&events, &PitchTable::chromatic(), cfg).unwrap();
    let b = convert(&events, &PitchTable::chromatic(), cfg).unwrap();
    assert_eq!(format!("{:?}", a.sections), format!("{:?}", b.sections));
    assert_eq!(a.unrecognized, b.unrecognized);
}

#[test]
fn upper_majority_section_is_remapped() {
    // two notes on 72 and 73 (lanes 4 and 5) in the first section, one on 60
    let events = vec![on(0, 72), off(100, 72), on(0, 73), off(100, 73), on(0, 60), off(100, 60)];
    let c = convert(&events, &PitchTable::chromatic(), settings(TieBreak::KeepLayout)).unwrap();
    let lanes: Vec<u8> = c.sections[0].section_notes.iter().map(|n| n.note).collect();
    assert!(c.sections[0].must_hit_section);
    assert_eq!(lanes, vec![0, 1, 4]);
}

#[test]
fn long_note_stays_in_its_onset_section() {
    // one section is 1920 ticks at 480 ticks per beat
    let events = vec![on(0, 72), on(2 * 1920, 60), off(10, 60), off(10, 72)];
    let c = convert(&events, &PitchTable::chromatic(), settings(TieBreak::KeepLayout)).unwrap();
    assert_eq!(c.sections.len(), 3);
    assert_eq!(c.sections[0].section_notes.len(), 1);
    assert!(c.sections[1].section_notes.is_empty());
    assert_eq!(c.sections[2].section_notes.len(), 1);
    let long = c.sections[0].section_notes[0];
    assert_eq!(long.time.num, 0);
    // 3860 ticks at 480 ticks per beat and 120 bpm
    assert_eq!(long.length.num * 480, 3860 * 500 * long.length.den);
    assert_eq!(c.sections[2].section_notes[0].time.num, 2 * 1920 * 500 * c.sections[2].section_notes[0].time.den / 480);
}
