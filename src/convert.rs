//! The whole conversion: extraction, packing and the camera pass.
use vstd::prelude::*;
use crate::chart::{
    assign_camera, camera_notes, chart_note, focus_upper, in_window, lanes_in_range, law_window,
    notes_in_range, pack, pack_sections, section_of, Section, TieBreak, SECTION_LEN,
};
use crate::extract::{extract, get_chart_notes, onsets_sorted, ConvertError, Event, PitchTable, Threshold, TickNote};

verus! {

/// The settings of one conversion.
#[derive(Clone, Copy, Debug, PartialEq, Eq, Structural)]
pub struct Settings {
    pub ticks_per_beat: u16,
    pub bpm: u16,
    pub threshold: Threshold,
    pub tie: TieBreak,
}

/// The sections of a converted stream, and the indices of the events whose
/// pitch is not in the table.
pub struct Chart {
    pub sections: Vec<Section>,
    pub unrecognized: Vec<usize>,
}

/// The notes of each section, in milliseconds, before the camera pass.
pub open spec fn packed_notes(notes: Seq<TickNote>, tpb: int, bpm: int) -> Seq<Seq<crate::chart::Note>> {
    pack(notes, tpb).map_values(
        |s: Seq<TickNote>| s.map_values(|n: TickNote| chart_note(n, tpb, bpm)),
    )
}

/// The chart of a stream: per section its notes and must-hit flag, and the
/// skipped event indices; or the failure. A zero ticks-per-beat or tempo
/// fails before anything else.
pub open spec fn chart_of(t: Seq<(u8, u8)>, cfg: Settings, evs: Seq<Event>) -> Result<
    (Seq<(Seq<crate::chart::Note>, bool)>, Seq<usize>),
    ConvertError,
> {
    if cfg.ticks_per_beat == 0 || cfg.bpm == 0 {
        Err(ConvertError::InvalidTiming)
    } else {
        match extract(t, cfg.threshold, cfg.ticks_per_beat as int, evs) {
            Err(e) => Err(e),
            Ok((notes, skipped)) => {
                let p = packed_notes(notes, cfg.ticks_per_beat as int, cfg.bpm as int);
                Ok(
                    (
                        p.map_values(
                            |ns: Seq<crate::chart::Note>|
                                (camera_notes(ns, cfg.tie), focus_upper(ns, cfg.tie)),
                        ),
                        skipped,
                    ),
                )
            },
        }
    }
}

/// The abstract value of a list of sections: notes and must-hit flag of each.
pub open spec fn sections_view(v: Seq<Section>) -> Seq<(Seq<crate::chart::Note>, bool)> {
    v.map_values(|s: Section| (s.section_notes@, s.must_hit_section))
}

proof fn lemma_pack_lanes(notes: Seq<TickNote>, tpb: int)
    requires
        notes_in_range(notes),
    ensures
        forall|k: int, j: int|
            0 <= k < pack(notes, tpb).len() && 0 <= j < pack(notes, tpb)[k].len() ==> #[trigger] pack(
                notes,
                tpb,
            )[k][j].lane < 8,
    decreases notes.len(),
{
    if notes.len() > 0 {
        let prev = notes.drop_last();
        assert forall|j: int| 0 <= j < prev.len() implies #[trigger] prev[j].onset < crate::extract::TICK_LIMIT
            && prev[j].length < crate::extract::TICK_LIMIT && prev[j].lane < 8 by {
            assert(prev[j] == notes[j]);
        }
        lemma_pack_lanes(prev, tpb);
        let pp = pack(prev, tpb);
        let last = notes[notes.len() - 1];
        assert(notes[notes.len() - 1].onset < crate::extract::TICK_LIMIT);
        assert(last.lane < 8);
        let grown = crate::chart::grow(pp, crate::chart::section_of(last.onset as int, tpb) + 1);
        assert forall|k: int, j: int| 0 <= k < grown.len() && 0 <= j < grown[k].len() implies #[trigger] grown[k][j].lane < 8 by {
            if k < pp.len() {
                assert(grown[k] == pp[k]);
                assert(pp[k][j].lane < 8);
            }
        }
        crate::chart::lemma_pack_len(prev, tpb);
        let out = pack(notes, tpb);
        assert(out == grown.update(grown.len() - 1, grown.last().push(last)));
        assert forall|k: int, j: int| 0 <= k < out.len() && 0 <= j < out[k].len() implies #[trigger] out[k][j].lane < 8 by {
            if k == grown.len() - 1 {
                if j < grown.last().len() {
                    assert(out[k][j] == grown[k][j]);
                }
            } else {
                assert(out[k] == grown[k]);
            }
        }
    }
}

/// Converts `events` into chart sections with the pitch table `table`: the
/// notes are extracted, packed into sections of sixteen steps with times in
/// milliseconds, and each section with notes gets its camera focus.
pub fn convert(events: &Vec<Event>, table: &PitchTable, settings: Settings) -> (r: Result<
    Chart,
    ConvertError,
>)
    ensures
        match r {
            Ok(c) => chart_of(table@, settings, events@) == Ok::<
                (Seq<(Seq<crate::chart::Note>, bool)>, Seq<usize>),
                ConvertError,
            >((sections_view(c.sections@), c.unrecognized@)),
            Err(e) => chart_of(table@, settings, events@) == Err::<
                (Seq<(Seq<crate::chart::Note>, bool)>, Seq<usize>),
                ConvertError,
            >(e),
        },
        r matches Ok(c) ==> forall|k: int|
            0 <= k < c.sections@.len() ==> (#[trigger] c.sections@[k]).length_in_steps
                == SECTION_LEN,
        r matches Ok(c) ==> forall|k: int, j: int|
            0 <= k < c.sections@.len() && 0 <= j < c.sections@[k].section_notes@.len() ==> in_window(
                #[trigger] c.sections@[k].section_notes@[j].time,
                k,
                settings.ticks_per_beat as int,
                settings.bpm as int,
            ),
{
    let tpb = settings.ticks_per_beat;
    let bpm = settings.bpm;
    if tpb == 0 || bpm == 0 {
        return Err(ConvertError::InvalidTiming);
    }
    let x = match get_chart_notes(events, tpb, settings.threshold, table) {
        Ok(x) => x,
        Err(e) => {
            return Err(e);
        },
    };
    let mut sections = match pack_sections(&x.notes, tpb, bpm) {
        Ok(s) => s,
        Err(e) => {
            return Err(e);
        },
    };
    let ghost notes = x.notes@;
    let ghost p = pack(notes, tpb as int);
    let ghost cv = |n: TickNote| chart_note(n, tpb as int, bpm as int);
    proof {
        lemma_pack_lanes(notes, tpb as int);
        assert forall|k: int| 0 <= k < sections@.len() implies lanes_in_range(
            (#[trigger] sections@[k]).section_notes@,
        ) by {
            assert(sections@[k].section_notes@ == p[k].map_values(cv));
            assert forall|j: int| 0 <= j < p[k].len() implies #[trigger] p[k].map_values(cv)[j].note < 8 by {
                assert(p[k][j].lane < 8);
            }
        }
    }
    let ghost before = sections@;
    assign_camera(&mut sections, settings.tie);
    proof {
        let pn = packed_notes(notes, tpb as int, bpm as int);
        let want = pn.map_values(
            |ns: Seq<crate::chart::Note>|
                (camera_notes(ns, settings.tie), focus_upper(ns, settings.tie)),
        );
        assert forall|k: int| 0 <= k < sections@.len() implies #[trigger] sections_view(sections@)[k] == want[k] by {
            assert(before[k].section_notes@ == pn[k]);
            assert(!before[k].must_hit_section);
        }
        assert forall|k: int| 0 <= k < sections@.len() implies (#[trigger] sections@[k]).length_in_steps
            == SECTION_LEN by {
            assert(before[k].length_in_steps == SECTION_LEN);
        }
        assert(sections_view(sections@) =~= want);
        assert(onsets_sorted(notes));
        law_window(notes, tpb as int);
        assert forall|k: int, j: int|
            0 <= k < sections@.len() && 0 <= j < sections@[k].section_notes@.len() implies in_window(
            #[trigger] sections@[k].section_notes@[j].time,
            k,
            tpb as int,
            bpm as int,
        ) by {
            let o = p[k][j].onset as int;
            assert(before[k].section_notes@ == pn[k]);
            assert(pn[k][j] == chart_note(p[k][j], tpb as int, bpm as int));
            assert(section_of(p[k][j].onset as int, tpb as int) == k);
            assert(sections@[k].section_notes@[j].time == pn[k][j].time);
            assert(0 <= o && section_of(o, tpb as int) == k && sections@[k].section_notes@[j].time
                == crate::util::millis(o, tpb as int, bpm as int));
        }
    }
    Ok(Chart { sections, unrecognized: x.unrecognized })
}

/// Converting the same stream with the same table and settings twice gives
/// the same chart, failure included: the outcome depends on the inputs alone.
pub proof fn law_same_input_same_chart(
    t1: Seq<(u8, u8)>,
    cfg1: Settings,
    evs1: Seq<Event>,
    t2: Seq<(u8, u8)>,
    cfg2: Settings,
    evs2: Seq<Event>,
)
    requires
        t1 == t2,
        cfg1 == cfg2,
        evs1 == evs2,
    ensures
        chart_of(t1, cfg1, evs1) == chart_of(t2, cfg2, evs2),
{
}

} // verus!
