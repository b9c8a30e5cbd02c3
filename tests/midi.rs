use midi_chart::extract::{Event, EventKind};
use midi_chart::midi::{
    bpm_from_tempo, find_tempo, notes_track_index, read_midi, ticks_per_beat, FileFormat,
    FileTiming, MidiError,
};
use midi_chart::util::{steps_to_millis, ticks_to_millis, ticks_to_steps, Fraction};

fn single_track_file() -> Vec<u8> {
    let track: Vec<u8> = vec![
        0x00, 0xFF, 0x51, 0x03, 0x07, 0xA1, 0x20, // tempo 500000
        0x00, 0x90, 0x3C, 0x64, // note on 60
        0x81, 0x70, 0x80, 0x3C, 0x40, // 240 ticks later, note off 60
        0x00, 0xFF, 0x2F, 0x00, // end of track
    ];
    let mut f = b"MThd".to_vec();
    f.extend_from_slice(&[0, 0, 0, 6, 0, 0, 0, 1, 0x01, 0xE0]);
    f.extend_from_slice(b"MTrk");
    f.extend_from_slice(&(track.len() as u32).to_be_bytes());
    f.extend_from_slice(&track);
    f
}

#[test]
fn reads_a_single_track_file() {
    let m = read_midi(&single_track_file()).unwrap();
    assert_eq!(m.ticks_per_beat, 480);
    assert_eq!(m.bpm, Some(120));
    assert_eq!(m.notes_track.len(), 4);
    assert_eq!(m.notes_track[1], Event { delta: 0, kind: EventKind::NoteOn { key: 60, vel: 100 } });
    assert_eq!(m.notes_track[2], Event { delta: 240, kind: EventKind::NoteOff { key: 60 } });
    assert_eq!(m.notes_track[3].kind, EventKind::Other);
}

#[test]
fn garbage_is_not_a_file() {
    assert_eq!(read_midi(b"not a midi file").err(), Some(MidiError::Parse));
}

#[test]
fn note_track_follows_format() {
    assert_eq!(notes_track_index(FileFormat::SingleTrack, 1), Ok(0));
    assert_eq!(notes_track_index(FileFormat::SingleTrack, 0), Err(MidiError::TrackCount));
    assert_eq!(notes_track_index(FileFormat::Parallel, 2), Ok(1));
    assert_eq!(notes_track_index(FileFormat::Parallel, 3), Err(MidiError::TrackCount));
    assert_eq!(notes_track_index(FileFormat::Sequential, 2), Err(MidiError::UnsupportedFormat));
}

#[test]
fn only_metrical_timing_is_read() {
    assert_eq!(ticks_per_beat(FileTiming::Metrical(96)), Ok(96));
    assert_eq!(ticks_per_beat(FileTiming::Timecode), Err(MidiError::TimecodeTiming));
}

#[test]
fn first_tempo_wins() {
    let track = vec![
        Event { delta: 0, kind: EventKind::Other },
        Event { delta: 0, kind: EventKind::Tempo(600000) },
        Event { delta: 0, kind: EventKind::Tempo(500000) },
    ];
    assert_eq!(find_tempo(&track), Some(600000));
    assert_eq!(find_tempo(&vec![]), None);
}

#[test]
fn tempo_to_bpm() {
    assert_eq!(bpm_from_tempo(500000), 120);
    assert_eq!(bpm_from_tempo(600000), 100);
    assert_eq!(bpm_from_tempo(461538), 130);
    assert_eq!(bpm_from_tempo(0), 65535);
    assert_eq!(bpm_from_tempo(1), 65535);
}

#[test]
fn unit_conversions() {
    assert_eq!(ticks_to_steps(240, 480), Fraction { num: 960, den: 480 });
    let ms = steps_to_millis(Fraction { num: 2, den: 1 }, 120);
    assert_eq!(ms.num, 250 * ms.den);
    let t = ticks_to_millis(960, 480, 60);
    assert_eq!(t.num, 2000 * t.den);
}


#[test]
fn cut_off_track_leaves_no_note_track() {
    // midly drops a track cut off after the header, leaving none
    let mut f = single_track_file();
    f.truncate(16);
    assert_eq!(read_midi(&f).err(), Some(MidiError::TrackCount));
}
