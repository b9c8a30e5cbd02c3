//! The chart: notes in milliseconds, grouped into sections of sixteen steps,
//! and the section packer that builds them from extracted notes.
use vstd::prelude::*;
use crate::extract::{onsets_sorted, ConvertError, TickNote, TICK_LIMIT};
use crate::util::{millis, ticks_to_millis, Fraction};

verus! {

/// Steps per section.
pub const SECTION_LEN: u16 = 16;

/// A chart note: onset and hold length in milliseconds, and its lane (0..8).
#[derive(Clone, Copy, Debug, PartialEq, Eq, Structural)]
pub struct Note {
    pub time: Fraction,
    pub note: u8,
    pub length: Fraction,
}

/// A section of the chart. When `must_hit_section` holds, the first player
/// plays lanes 0..4 and has the camera.
#[derive(Debug)]
pub struct Section {
    pub section_notes: Vec<Note>,
    pub length_in_steps: u16,
    pub must_hit_section: bool,
}

/// The finished chart with its metadata.
#[derive(Debug)]
pub struct Song {
    pub song: String,
    pub notes: Vec<Section>,
    pub bpm: u16,
    pub needs_voices: bool,
    pub speed: Fraction,
    pub player1: String,
    pub player2: String,
    pub stage: String,
}

/// How a section with as many notes on lanes 4..8 as on lanes 0..4 is
/// focused.
#[derive(Clone, Copy, Debug, PartialEq, Eq, Structural)]
pub enum TieBreak {
    /// A tie makes the section must-hit.
    MustHit,
    /// A tie leaves the section as it is.
    KeepLayout,
}

impl Song {
    /// A song named `song` with the sections `notes` and its metadata.
    pub fn new(
        song: String,
        notes: Vec<Section>,
        bpm: u16,
        needs_voices: bool,
        speed: Fraction,
        player1: String,
        player2: String,
        stage: String,
    ) -> (r: Song)
        ensures
            r.song@ == song@,
            r.notes@ == notes@,
            r.bpm == bpm,
            r.needs_voices == needs_voices,
            r.speed == speed,
            r.player1@ == player1@,
            r.player2@ == player2@,
            r.stage@ == stage@,
    {
        Song { song, notes, bpm, needs_voices, speed, player1, player2, stage }
    }
}

/// Index of the section whose window holds tick `onset`: sections are
/// `4 * tpb` ticks (sixteen steps) long.
pub open spec fn section_of(onset: int, tpb: int) -> int {
    onset / (4 * tpb)
}

/// Whether `time` (in milliseconds) is that of a tick inside the window of
/// section `k`, `[16k, 16(k + 1))` steps.
pub open spec fn in_window(time: Fraction, k: int, tpb: int, bpm: int) -> bool {
    exists|o: int| 0 <= o && section_of(o, tpb) == k && time == millis(o, tpb, bpm)
}

/// The chart note for an extracted note.
pub open spec fn chart_note(n: TickNote, tpb: int, bpm: int) -> Note {
    Note { time: millis(n.onset as int, tpb, bpm), note: n.lane, length: millis(n.length as int, tpb, bpm) }
}

/// `p` extended by empty sections up to `m` sections.
pub open spec fn grow(p: Seq<Seq<TickNote>>, m: int) -> Seq<Seq<TickNote>> {
    if p.len() >= m {
        p
    } else {
        p + Seq::new((m - p.len()) as nat, |k: int| Seq::<TickNote>::empty())
    }
}

/// The sections, in ticks, that the packer builds from `notes`: it starts
/// with one empty section; each note first opens empty sections until the
/// last one's window reaches its onset, then joins the last section.
pub open spec fn pack(notes: Seq<TickNote>, tpb: int) -> Seq<Seq<TickNote>>
    decreases notes.len(),
{
    if notes.len() == 0 {
        seq![Seq::<TickNote>::empty()]
    } else {
        let prev = pack(notes.drop_last(), tpb);
        let grown = grow(prev, section_of(notes.last().onset as int, tpb) + 1);
        grown.update(grown.len() - 1, grown.last().push(notes.last()))
    }
}

/// Whether every note of `notes` has ticks below the limit and a lane below 8.
pub open spec fn notes_in_range(notes: Seq<TickNote>) -> bool {
    forall|j: int|
        0 <= j < notes.len() ==> #[trigger] notes[j].onset < TICK_LIMIT && notes[j].length
            < TICK_LIMIT && notes[j].lane < 8
}

/// Index of the section that holds a note at tick `onset`; the window of
/// section `r` is `[r * 4 * tpb, (r + 1) * 4 * tpb)`, so a note on a boundary
/// opens the later section.
pub fn section_index(onset: u128, ticks_per_beat: u16) -> (r: u128)
    requires
        ticks_per_beat > 0,
    ensures
        r == section_of(onset as int, ticks_per_beat as int),
        r * (4 * ticks_per_beat) <= onset < (r + 1) * (4 * ticks_per_beat),
{
    let unit: u128 = 4 * ticks_per_beat as u128;
    let r = onset / unit;
    assert(r * unit <= onset < (r + 1) * unit) by (nonlinear_arith)
        requires
            unit > 0,
            r == onset / unit,
    ;
    r
}

pub proof fn lemma_pack_len(notes: Seq<TickNote>, tpb: int)
    ensures
        pack(notes, tpb).len() >= 1,
    decreases notes.len(),
{
    if notes.len() > 0 {
        lemma_pack_len(notes.drop_last(), tpb);
    }
}

/// Packs `notes` (in ticks, at `ticks_per_beat` ticks per beat) into
/// sections of sixteen steps with times and lengths in milliseconds at `bpm`.
/// No section is must-hit yet.
pub fn pack_sections(notes: &Vec<TickNote>, ticks_per_beat: u16, bpm: u16) -> (r: Result<
    Vec<Section>,
    ConvertError,
>)
    requires
        notes_in_range(notes@),
    ensures
        ticks_per_beat == 0 || bpm == 0 <==> r is Err,
        r matches Err(e) ==> e == ConvertError::InvalidTiming,
        r matches Ok(v) ==> {
            let p = pack(notes@, ticks_per_beat as int);
            &&& v@.len() == p.len()
            &&& forall|k: int|
                0 <= k < v@.len() ==> (#[trigger] v@[k]).section_notes@ == p[k].map_values(
                    |n: TickNote| chart_note(n, ticks_per_beat as int, bpm as int),
                ) && v@[k].length_in_steps == SECTION_LEN && !v@[k].must_hit_section
        },
{
    if ticks_per_beat == 0 || bpm == 0 {
        return Err(ConvertError::InvalidTiming);
    }
    let ghost tpb = ticks_per_beat as int;
    let ghost cv = |n: TickNote| chart_note(n, ticks_per_beat as int, bpm as int);
    let mut sections: Vec<Section> = Vec::new();
    let mut current: Vec<Note> = Vec::new();
    let ghost mut g: Seq<Seq<TickNote>> = pack(Seq::empty(), tpb);
    let len = notes.len();
    let mut i: usize = 0;
    while i < len
        invariant
            len == notes@.len(),
            i <= len,
            tpb == ticks_per_beat,
            tpb > 0,
            cv == (|n: TickNote| chart_note(n, ticks_per_beat as int, bpm as int)),
            notes_in_range(notes@),
            g == pack(notes@.take(i as int), tpb),
            g.len() == sections@.len() + 1,
            forall|k: int|
                0 <= k < sections@.len() ==> (#[trigger] sections@[k]).section_notes@
                    == g[k].map_values(cv) && sections@[k].length_in_steps == SECTION_LEN
                    && !sections@[k].must_hit_section,
            current@ == g.last().map_values(cv),
        decreases len - i,
    {
        let note = notes[i];
        let idx = section_index(note.onset, ticks_per_beat);
        let ghost prev = g;
        while (sections.len() as u128) < idx
            invariant
                prev.len() >= 1,
                g.len() == sections@.len() + 1,
                g == grow(prev, g.len() as int),
                g.len() <= prev.len() || g.len() <= idx + 1,
                forall|k: int|
                    0 <= k < sections@.len() ==> (#[trigger] sections@[k]).section_notes@
                        == g[k].map_values(cv) && sections@[k].length_in_steps == SECTION_LEN
                        && !sections@[k].must_hit_section,
                current@ == g.last().map_values(cv),
            decreases idx - sections@.len(),
        {
            let done = Section { section_notes: current, length_in_steps: SECTION_LEN, must_hit_section: false };
            sections.push(done);
            current = Vec::new();
            proof {
                let ng = g.push(Seq::<TickNote>::empty());
                assert(ng =~= grow(prev, ng.len() as int));
                g = ng;
                assert(current@ =~= g.last().map_values(cv));
            }
        }
        proof {
            assert(grow(prev, idx + 1) == g) by {
                if prev.len() < idx + 1 {
                    assert(g.len() == idx + 1);
                }
            }
        }
        let c = Note {
            time: ticks_to_millis(note.onset, ticks_per_beat, bpm),
            note: note.lane,
            length: ticks_to_millis(note.length, ticks_per_beat, bpm),
        };
        current.push(c);
        proof {
            let t = notes@.take(i as int + 1);
            assert(t.drop_last() =~= notes@.take(i as int));
            assert(t.last() == note);
            g = g.update(g.len() - 1, g.last().push(note));
            assert(current@ =~= g.last().map_values(cv));
        }
        i = i + 1;
    }
    let last = Section { section_notes: current, length_in_steps: SECTION_LEN, must_hit_section: false };
    sections.push(last);
    proof {
        assert(notes@.take(len as int) =~= notes@);
    }
    Ok(sections)
}

/// Number of notes of `ns` on lanes 4 and up.
pub open spec fn upper_count(ns: Seq<Note>) -> int
    decreases ns.len(),
{
    if ns.len() == 0 {
        0
    } else {
        upper_count(ns.drop_last()) + if ns.last().note >= 4 {
            1int
        } else {
            0
        }
    }
}

/// Number of notes of `ns` on lanes 0..4.
pub open spec fn lower_count(ns: Seq<Note>) -> int {
    ns.len() - upper_count(ns)
}

/// Whether a section with notes `ns` is focused on lanes 4..8: it has notes,
/// and more of them there than on lanes 0..4, or as many when `tie` is
/// `MustHit`.
pub open spec fn focus_upper(ns: Seq<Note>, tie: TieBreak) -> bool {
    ns.len() > 0 && match tie {
        TieBreak::MustHit => upper_count(ns) >= lower_count(ns),
        TieBreak::KeepLayout => upper_count(ns) > lower_count(ns),
    }
}

/// Lane `l` moved to the other group of four.
pub open spec fn swap_lane(l: u8) -> u8 {
    if l >= 4 {
        (l - 4) as u8
    } else {
        (l + 4) as u8
    }
}

/// The notes `ns` with their lane groups swapped.
pub open spec fn swap_groups(ns: Seq<Note>) -> Seq<Note> {
    ns.map_values(|n: Note| Note { note: swap_lane(n.note), ..n })
}

/// The notes of a section after the camera pass.
pub open spec fn camera_notes(ns: Seq<Note>, tie: TieBreak) -> Seq<Note> {
    if focus_upper(ns, tie) {
        swap_groups(ns)
    } else {
        ns
    }
}

/// Whether every note of `ns` is on a lane below 8.
pub open spec fn lanes_in_range(ns: Seq<Note>) -> bool {
    forall|j: int| 0 <= j < ns.len() ==> #[trigger] ns[j].note < 8
}

/// Counts the notes of `ns` on lanes 4..8 and on lanes 0..4.
pub fn count_groups(ns: &Vec<Note>) -> (r: (usize, usize))
    ensures
        r.0 == upper_count(ns@),
        r.1 == lower_count(ns@),
{
    let len = ns.len();
    let mut upper: usize = 0;
    let mut i: usize = 0;
    while i < len
        invariant
            len == ns@.len(),
            i <= len,
            upper <= i,
            upper == upper_count(ns@.take(i as int)),
        decreases len - i,
    {
        proof {
            assert(ns@.take(i as int + 1).drop_last() =~= ns@.take(i as int));
        }
        if ns[i].note >= 4 {
            upper = upper + 1;
        }
        i = i + 1;
    }
    proof {
        assert(ns@.take(len as int) =~= ns@);
    }
    (upper, len - upper)
}

/// Decides, for every section that has notes, which lane group the camera
/// follows: when the notes on lanes 4..8 outnumber those on lanes 0..4 (or
/// equal them, under `TieBreak::MustHit`), the section becomes must-hit and
/// its two lane groups swap, so that the focused player plays lanes 0..4.
/// Other sections are left as they are.
pub fn assign_camera(sections: &mut Vec<Section>, tie: TieBreak)
    requires
        forall|k: int|
            0 <= k < old(sections)@.len() ==> lanes_in_range(
                (#[trigger] old(sections)@[k]).section_notes@,
            ),
    ensures
        final(sections)@.len() == old(sections)@.len(),
        forall|k: int|
            0 <= k < final(sections)@.len() ==> {
                let o = #[trigger] old(sections)@[k];
                let f = final(sections)@[k];
                &&& f.section_notes@ == camera_notes(o.section_notes@, tie)
                &&& f.must_hit_section == (o.must_hit_section || focus_upper(o.section_notes@, tie))
                &&& f.length_in_steps == o.length_in_steps
            },
{
    let len = sections.len();
    let ghost before = sections@;
    let mut i: usize = 0;
    while i < len
        invariant
            len == sections@.len(),
            before.len() == len,
            i <= len,
            forall|k: int|
                0 <= k < len ==> lanes_in_range((#[trigger] before[k]).section_notes@),
            forall|k: int|
                i <= k < len ==> (#[trigger] sections@[k]) == before[k],
            forall|k: int|
                0 <= k < i ==> {
                    let o = #[trigger] before[k];
                    let f = sections@[k];
                    &&& f.section_notes@ == camera_notes(o.section_notes@, tie)
                    &&& f.must_hit_section == (o.must_hit_section || focus_upper(
                        o.section_notes@,
                        tie,
                    ))
                    &&& f.length_in_steps == o.length_in_steps
                },
        decreases len - i,
    {
        let ns = &sections[i].section_notes;
        let (upper, lower) = count_groups(ns);
        let focus = ns.len() > 0 && match tie {
            TieBreak::MustHit => upper >= lower,
            TieBreak::KeepLayout => upper > lower,
        };
        if focus {
            let n = ns.len();
            let mut swapped: Vec<Note> = Vec::new();
            let mut j: usize = 0;
            while j < n
                invariant
                    n == ns@.len(),
                    j <= n,
                    lanes_in_range(ns@),
                    swapped@ =~= swap_groups(ns@.take(j as int)),
                decreases n - j,
            {
                let m = ns[j];
                let lane = if m.note >= 4 {
                    m.note - 4
                } else {
                    m.note + 4
                };
                swapped.push(Note { note: lane, ..m });
                j = j + 1;
            }
            proof {
                assert(ns@.take(n as int) =~= ns@);
            }
            let length_in_steps = sections[i].length_in_steps;
            sections.set(i, Section { section_notes: swapped, length_in_steps, must_hit_section: true });
        }
        i = i + 1;
    }
}

/// A section with notes, as many on each lane group, is must-hit under
/// `TieBreak::MustHit` and keeps its layout under `TieBreak::KeepLayout`.
pub proof fn law_tie_break(ns: Seq<Note>)
    requires
        ns.len() > 0,
        upper_count(ns) == lower_count(ns),
    ensures
        focus_upper(ns, TieBreak::MustHit),
        !focus_upper(ns, TieBreak::KeepLayout),
        camera_notes(ns, TieBreak::MustHit) == swap_groups(ns),
        camera_notes(ns, TieBreak::KeepLayout) == ns,
{
}

proof fn lemma_sorted_prefix(notes: Seq<TickNote>)
    requires
        notes.len() > 0,
        onsets_sorted(notes),
    ensures
        onsets_sorted(notes.drop_last()),
{
    let p = notes.drop_last();
    assert forall|i: int, j: int| 0 <= i <= j < p.len() implies #[trigger] p[i].onset <= #[trigger] p[j].onset by {
        assert(p[i] == notes[i] && p[j] == notes[j]);
    }
}

proof fn lemma_sorted_pack_len(notes: Seq<TickNote>, tpb: int)
    requires
        tpb > 0,
        notes.len() > 0,
        onsets_sorted(notes),
    ensures
        pack(notes, tpb).len() == section_of(notes.last().onset as int, tpb) + 1,
    decreases notes.len(),
{
    let prev = notes.drop_last();
    let last = notes.last();
    lemma_pack_len(prev, tpb);
    if prev.len() > 0 {
        lemma_sorted_prefix(notes);
        lemma_sorted_pack_len(prev, tpb);
        assert(prev.last().onset <= last.onset);
        vstd::arithmetic::div_mod::lemma_div_is_ordered(
            prev.last().onset as int,
            last.onset as int,
            4 * tpb,
        );
    }
    assert(section_of(last.onset as int, tpb) >= 0) by {
        vstd::arithmetic::div_mod::lemma_div_pos_is_pos(last.onset as int, 4 * tpb);
    }
}

/// On notes in onset order, every note lands in the section whose window
/// `[16k, 16(k + 1))` steps holds its onset: a note on a boundary opens the
/// later section.
pub proof fn law_window(notes: Seq<TickNote>, tpb: int)
    requires
        tpb > 0,
        onsets_sorted(notes),
    ensures
        forall|k: int, j: int|
            0 <= k < pack(notes, tpb).len() && 0 <= j < pack(notes, tpb)[k].len() ==> section_of(
                #[trigger] pack(notes, tpb)[k][j].onset as int,
                tpb,
            ) == k,
    decreases notes.len(),
{
    if notes.len() > 0 {
        let prev = notes.drop_last();
        let last = notes.last();
        lemma_sorted_prefix(notes);
        law_window(prev, tpb);
        lemma_pack_len(prev, tpb);
        lemma_sorted_pack_len(notes, tpb);
        let pp = pack(prev, tpb);
        let sl = section_of(last.onset as int, tpb);
        let grown = grow(pp, sl + 1);
        if prev.len() > 0 {
            lemma_sorted_pack_len(prev, tpb);
        }
        let out = pack(notes, tpb);
        assert(grown.len() == sl + 1);
        assert forall|k: int, j: int| 0 <= k < out.len() && 0 <= j < out[k].len() implies section_of(
            #[trigger] out[k][j].onset as int,
            tpb,
        ) == k by {
            if k < pp.len() {
                assert(grown[k] == pp[k]);
            }
            if k == out.len() - 1 && j == out[k].len() - 1 {
                assert(out[k][j] == last);
            } else {
                assert(out[k][j] == grown[k][j]);
                assert(k < pp.len());
            }
        }
    }
}

} // verus!
