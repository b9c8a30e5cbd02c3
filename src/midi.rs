//! Reading a Standard MIDI File through the `midly` crate: which track holds
//! the notes, the resolution, the tempo, and the note track's events.
use vstd::prelude::*;
use crate::extract::{Event, EventKind};
use midly::{MetaMessage as Meta, MidiMessage as Msg, TrackEventKind as Kind};

verus! {

/// How the tracks of a file are laid out.
#[derive(Clone, Copy, Debug, PartialEq, Eq, Structural)]
pub enum FileFormat {
    SingleTrack,
    Parallel,
    Sequential,
}

/// The time base of a file: ticks per beat, or a frame-based time code.
#[derive(Clone, Copy, Debug, PartialEq, Eq, Structural)]
pub enum FileTiming {
    Metrical(u16),
    Timecode,
}

/// Why a file cannot be read as a chart source.
#[derive(Clone, Copy, Debug, PartialEq, Eq, Structural)]
pub enum MidiError {
    /// The bytes are not a Standard MIDI File.
    Parse,
    /// Sequential files are not read.
    UnsupportedFormat,
    /// A single-track file without a track, or a parallel file without
    /// exactly two.
    TrackCount,
    /// The time base is a time code, not ticks per beat.
    TimecodeTiming,
}

/// What the converter needs of a file: its resolution, its tempo if one is
/// given in the first track, and the events of the note track.
pub struct MidiSong {
    pub ticks_per_beat: u16,
    pub bpm: Option<u16>,
    pub notes_track: Vec<Event>,
}

#[verifier::external_type_specification]
#[verifier::external_body]
pub struct ExSmf<'a>(midly::Smf<'a>);

#[verifier::external_type_specification]
#[verifier::external_body]
pub struct ExMidlyError(midly::Error);

/// The tracks of a parsed file, each as its list of events.
pub uninterp spec fn smf_tracks(s: midly::Smf) -> Seq<Seq<Event>>;

/// The format and time base in the header of a parsed file.
pub uninterp spec fn smf_header(s: midly::Smf) -> (FileFormat, FileTiming);

/// The file that midly::Smf::parse decodes from the bytes `raw`, if they are
/// one.
pub uninterp spec fn parsed_smf(raw: Seq<u8>) -> Option<midly::Smf<'static>>;

/// Relies on midly::Smf::parse to decode a file's header and tracks; its
/// outcome depends on the bytes alone.
#[verifier::external_body]
fn parse_smf(raw: &[u8]) -> (r: Result<midly::Smf<'_>, midly::Error>)
    ensures
        match r {
            Ok(s) => parsed_smf(raw@) == Some(s),
            Err(_) => parsed_smf(raw@) is None,
        },
{
    midly::Smf::parse(raw)
}

/// Relies on the `header.format` field of midly::Smf.
#[verifier::external_body]
fn smf_format(smf: &midly::Smf) -> (r: FileFormat)
    ensures
        r == smf_header(*smf).0,
{
    match smf.header.format {
        midly::Format::SingleTrack => FileFormat::SingleTrack,
        midly::Format::Parallel => FileFormat::Parallel,
        midly::Format::Sequential => FileFormat::Sequential,
    }
}

/// Relies on the `header.timing` field of midly::Smf, and on
/// midly::num::u15::as_int for the ticks per beat.
#[verifier::external_body]
fn smf_timing(smf: &midly::Smf) -> (r: FileTiming)
    ensures
        r == smf_header(*smf).1,
{
    match smf.header.timing {
        midly::Timing::Metrical(t) => FileTiming::Metrical(t.as_int()),
        midly::Timing::Timecode(..) => FileTiming::Timecode,
    }
}

/// Relies on the `tracks` field of midly::Smf (a `Vec` of tracks).
#[verifier::external_body]
fn smf_track_count(smf: &midly::Smf) -> (r: usize)
    ensures
        r == smf_tracks(*smf).len(),
{
    smf.tracks.len()
}

/// Relies on the `tracks` field of midly::Smf (each track a `Vec` of events).
#[verifier::external_body]
fn smf_track_len(smf: &midly::Smf, i: usize) -> (r: usize)
    requires
        i < smf_tracks(*smf).len(),
    ensures
        r == smf_tracks(*smf)[i as int].len(),
{
    smf.tracks[i].len()
}

/// Relies on the `tracks` field of midly::Smf and on midly::TrackEvent: its
/// delta time, and its kind when it is a note-on, a note-off or a tempo.
#[verifier::external_body]
fn smf_event(smf: &midly::Smf, i: usize, j: usize) -> (r: Event)
    requires
        i < smf_tracks(*smf).len(),
        j < smf_tracks(*smf)[i as int].len(),
    ensures
        r == smf_tracks(*smf)[i as int][j as int],
{
    let e = &smf.tracks[i][j];
    let kind = match e.kind {
        Kind::Midi { message: Msg::NoteOn { key, vel }, .. } => EventKind::NoteOn { key: key.as_int(), vel: vel.as_int() },
        Kind::Midi { message: Msg::NoteOff { key, .. }, .. } => EventKind::NoteOff { key: key.as_int() },
        Kind::Meta(Meta::Tempo(t)) => EventKind::Tempo(t.as_int()),
        _ => EventKind::Other,
    };
    Event { delta: e.delta.as_int(), kind }
}

/// The events of track `i` of `smf`.
pub fn track_events(smf: &midly::Smf, i: usize) -> (r: Vec<Event>)
    requires
        i < smf_tracks(*smf).len(),
    ensures
        r@ == smf_tracks(*smf)[i as int],
{
    let n = smf_track_len(smf, i);
    let mut r: Vec<Event> = Vec::new();
    let mut j: usize = 0;
    while j < n
        invariant
            i < smf_tracks(*smf).len(),
            n == smf_tracks(*smf)[i as int].len(),
            j <= n,
            r@ =~= smf_tracks(*smf)[i as int].take(j as int),
        decreases n - j,
    {
        let e = smf_event(smf, i, j);
        r.push(e);
        j = j + 1;
    }
    r
}

/// Index of the track that holds the notes: the only one of a single-track
/// file, the second of a parallel file with two tracks.
pub open spec fn notes_track_spec(format: FileFormat, count: int) -> Result<usize, MidiError> {
    match format {
        FileFormat::SingleTrack => if count >= 1 {
            Ok(0)
        } else {
            Err(MidiError::TrackCount)
        },
        FileFormat::Parallel => if count == 2 {
            Ok(1)
        } else {
            Err(MidiError::TrackCount)
        },
        FileFormat::Sequential => Err(MidiError::UnsupportedFormat),
    }
}

/// Index of the track that holds the notes, for a file of format `format`
/// with `count` tracks.
pub fn notes_track_index(format: FileFormat, count: usize) -> (r: Result<usize, MidiError>)
    ensures
        r == notes_track_spec(format, count as int),
{
    match format {
        FileFormat::SingleTrack => if count >= 1 {
            Ok(0)
        } else {
            Err(MidiError::TrackCount)
        },
        FileFormat::Parallel => if count == 2 {
            Ok(1)
        } else {
            Err(MidiError::TrackCount)
        },
        FileFormat::Sequential => Err(MidiError::UnsupportedFormat),
    }
}

/// Ticks per beat of a metrical time base.
pub fn ticks_per_beat(timing: FileTiming) -> (r: Result<u16, MidiError>)
    ensures
        r == match timing {
            FileTiming::Metrical(t) => Ok::<u16, MidiError>(t),
            FileTiming::Timecode => Err(MidiError::TimecodeTiming),
        },
{
    match timing {
        FileTiming::Metrical(t) => Ok(t),
        FileTiming::Timecode => Err(MidiError::TimecodeTiming),
    }
}

/// The tempo of the first tempo event of `evs`, if any.
pub open spec fn first_tempo(evs: Seq<Event>) -> Option<u32>
    decreases evs.len(),
{
    if evs.len() == 0 {
        None
    } else {
        match evs[0].kind {
            EventKind::Tempo(t) => Some(t),
            _ => first_tempo(evs.drop_first()),
        }
    }
}

/// The tempo, in microseconds per beat, of the first tempo event of `track`.
pub fn find_tempo(track: &Vec<Event>) -> (r: Option<u32>)
    ensures
        r == first_tempo(track@),
{
    let n = track.len();
    let mut i: usize = 0;
    proof {
        assert(track@.skip(0) =~= track@);
    }
    while i < n
        invariant
            n == track@.len(),
            i <= n,
            first_tempo(track@) == first_tempo(track@.skip(i as int)),
        decreases n - i,
    {
        proof {
            let rest = track@.skip(i as int);
            assert(rest.drop_first() =~= track@.skip(i as int + 1));
            assert(rest[0] == track@[i as int]);
        }
        if let EventKind::Tempo(t) = track[i].kind {
            return Some(t);
        }
        i = i + 1;
    }
    None
}

/// Beats per minute for a tempo of `micros` microseconds per beat, rounded
/// down and capped at `u16::MAX` (which a zero tempo gives too).
pub open spec fn bpm_of(micros: int) -> int {
    if micros == 0 || 60_000_000int / micros > 0xFFFF {
        0xFFFF
    } else {
        60_000_000int / micros
    }
}

/// Beats per minute for a tempo of `micros` microseconds per beat.
pub fn bpm_from_tempo(micros: u32) -> (r: u16)
    ensures
        r == bpm_of(micros as int),
{
    if micros == 0 {
        return 0xFFFF;
    }
    let q = 60_000_000u32 / micros;
    if q > 0xFFFF {
        0xFFFF
    } else {
        q as u16
    }
}

/// What a file with header `(format, timing)` and tracks `tracks` yields:
/// resolution, tempo of the first track, and the events of the note track.
pub open spec fn song_of(header: (FileFormat, FileTiming), tracks: Seq<Seq<Event>>) -> Result<
    (u16, Option<u16>, Seq<Event>),
    MidiError,
> {
    match notes_track_spec(header.0, tracks.len() as int) {
        Err(e) => Err(e),
        Ok(i) => match header.1 {
            FileTiming::Timecode => Err(MidiError::TimecodeTiming),
            FileTiming::Metrical(tpb) => Ok(
                (
                    tpb,
                    match first_tempo(tracks[0]) {
                        Some(m) => Some(bpm_of(m as int) as u16),
                        None => None,
                    },
                    tracks[i as int],
                ),
            ),
        },
    }
}

/// The view of a `MidiSong`.
pub open spec fn midi_song_view(m: MidiSong) -> (u16, Option<u16>, Seq<Event>) {
    (m.ticks_per_beat, m.bpm, m.notes_track@)
}

/// What the converter needs of the parsed file `smf`.
pub fn midi_song(smf: &midly::Smf) -> (r: Result<MidiSong, MidiError>)
    ensures
        match r {
            Ok(m) => song_of(smf_header(*smf), smf_tracks(*smf)) == Ok::<
                (u16, Option<u16>, Seq<Event>),
                MidiError,
            >(midi_song_view(m)),
            Err(e) => song_of(smf_header(*smf), smf_tracks(*smf)) == Err::<
                (u16, Option<u16>, Seq<Event>),
                MidiError,
            >(e),
        },
{
    let count = smf_track_count(smf);
    let index = match notes_track_index(smf_format(smf), count) {
        Ok(i) => i,
        Err(e) => {
            return Err(e);
        },
    };
    let tpb = match ticks_per_beat(smf_timing(smf)) {
        Ok(t) => t,
        Err(e) => {
            return Err(e);
        },
    };
    let first = track_events(smf, 0);
    let bpm = match find_tempo(&first) {
        Some(m) => Some(bpm_from_tempo(m)),
        None => None,
    };
    let notes_track = track_events(smf, index);
    Ok(MidiSong { ticks_per_beat: tpb, bpm, notes_track })
}

/// What reading the bytes `raw` yields: `Parse` when they are not a
/// Standard MIDI File, else what the converter needs of the parsed file.
pub open spec fn read_outcome(raw: Seq<u8>) -> Result<(u16, Option<u16>, Seq<Event>), MidiError> {
    match parsed_smf(raw) {
        Some(s) => song_of(smf_header(s), smf_tracks(s)),
        None => Err(MidiError::Parse),
    }
}

/// Reads the bytes of a Standard MIDI File.
pub fn read_midi(raw: &[u8]) -> (r: Result<MidiSong, MidiError>)
    ensures
        match r {
            Ok(m) => read_outcome(raw@) == Ok::<(u16, Option<u16>, Seq<Event>), MidiError>(
                midi_song_view(m),
            ),
            Err(e) => read_outcome(raw@) == Err::<(u16, Option<u16>, Seq<Event>), MidiError>(e),
        },
{
    match parse_smf(raw) {
        Ok(smf) => midi_song(&smf),
        Err(_) => Err(MidiError::Parse),
    }
}

} // verus!
