use midi_chart::chart::{
    assign_camera, count_groups, pack_sections, section_index, Note, Section, Song, TieBreak,
    SECTION_LEN,
};
use midi_chart::extract::{ConvertError, TickNote};
use midi_chart::util::Fraction;

fn tick(onset: u128, lane: u8) -> TickNote {
    TickNote { onset, lane, length: 0 }
}

fn section(lanes: &[u8]) -> Section {
    let zero = Fraction { num: 0, den: 1 };
    Section {
        section_notes: lanes.iter().map(|&l| Note { time: zero, note: l, length: zero }).collect(),
        length_in_steps: SECTION_LEN,
        must_hit_section: false,
    }
}

fn lanes(s: &Section) -> Vec<u8> {
    s.section_notes.iter().map(|n| n.note).collect()
}

#[test]
fn boundary_note_opens_next_section() {
    // 4000 ticks per beat: 16 steps are 16000 ticks, 15.999 steps 15999
    assert_eq!(section_index(16000, 4000), 1);
    assert_eq!(section_index(15999, 4000), 0);
    let s = pack_sections(&vec![tick(15999, 0), tick(16000, 1)], 4000, 120).unwrap();
    assert_eq!(s.len(), 2);
    assert_eq!(lanes(&s[0]), vec![0]);
    assert_eq!(lanes(&s[1]), vec![1]);
}

#[test]
fn no_notes_give_one_empty_section() {
    let s = pack_sections(&vec![], 480, 120).unwrap();
    assert_eq!(s.len(), 1);
    assert!(s[0].section_notes.is_empty());
    assert_eq!(s[0].length_in_steps, 16);
    assert!(!s[0].must_hit_section);
}

#[test]
fn silent_gaps_leave_empty_sections() {
    // one section is 4 beats, 1920 ticks at 480 ticks per beat
    let s = pack_sections(&vec![tick(0, 0), tick(3 * 1920 + 5, 2)], 480, 120).unwrap();
    assert_eq!(s.len(), 4);
    assert_eq!(lanes(&s[0]), vec![0]);
    assert!(s[1].section_notes.is_empty());
    assert!(s[2].section_notes.is_empty());
    assert_eq!(lanes(&s[3]), vec![2]);
}

#[test]
fn packed_times_are_milliseconds() {
    let s = pack_sections(&vec![TickNote { onset: 480, lane: 3, length: 960 }], 480, 120).unwrap();
    let n = s[0].section_notes[0];
    // one beat at 120 bpm is 500 ms, two beats 1000 ms
    assert_eq!(n.time.num, 500 * n.time.den);
    assert_eq!(n.length.num, 1000 * n.length.den);
    assert_eq!(n.note, 3);
}

#[test]
fn zero_tempo_or_resolution_fails_packing() {
    assert_eq!(pack_sections(&vec![tick(0, 0)], 0, 120).err(), Some(ConvertError::InvalidTiming));
    assert_eq!(pack_sections(&vec![tick(0, 0)], 480, 0).err(), Some(ConvertError::InvalidTiming));
}

#[test]
fn majority_on_upper_lanes_swaps_groups() {
    let mut s = vec![section(&[4, 5, 1]), section(&[0, 1, 6]), section(&[])];
    assign_camera(&mut s, TieBreak::KeepLayout);
    assert!(s[0].must_hit_section);
    assert_eq!(lanes(&s[0]), vec![0, 1, 5]);
    assert!(!s[1].must_hit_section);
    assert_eq!(lanes(&s[1]), vec![0, 1, 6]);
    assert!(!s[2].must_hit_section);
}

#[test]
fn tie_follows_policy() {
    let mut must = vec![section(&[0, 4])];
    assign_camera(&mut must, TieBreak::MustHit);
    assert!(must[0].must_hit_section);
    assert_eq!(lanes(&must[0]), vec![4, 0]);
    let mut keep = vec![section(&[0, 4])];
    assign_camera(&mut keep, TieBreak::KeepLayout);
    assert!(!keep[0].must_hit_section);
    assert_eq!(lanes(&keep[0]), vec![0, 4]);
}

#[test]
fn empty_section_keeps_flag_under_tie_policy() {
    let mut s = vec![section(&[])];
    assign_camera(&mut s, TieBreak::MustHit);
    assert!(!s[0].must_hit_section);
}

#[test]
fn groups_are_counted() {
    let s = section(&[0, 3, 4, 7, 7]);
    assert_eq!(count_groups(&s.section_notes), (3, 2));
}

#[test]
fn song_keeps_its_fields() {
    let song = Song::new(
        "pico".to_string(),
        vec![section(&[1])],
        150,
        true,
        Fraction { num: 3, den: 1 },
        "bf".to_string(),
        "pico".to_string(),
        "philly".to_string(),
    );
    assert_eq!(song.song, "pico");
    assert_eq!(song.notes.len(), 1);
    assert_eq!(song.bpm, 150);
    assert!(song.needs_voices);
    assert_eq!(song.speed, Fraction { num: 3, den: 1 });
    assert_eq!(song.player1, "bf");
    assert_eq!(song.player2, "pico");
    assert_eq!(song.stage, "philly");
}
