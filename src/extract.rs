//! The note extractor: pairs note-on and note-off events of the tracked
//! pitches into chart notes, in tick units.
use vstd::prelude::*;

verus! {

/// What a track event means to the extractor.
#[derive(Clone, Copy, Debug, PartialEq, Eq, Structural)]
pub enum EventKind {
    NoteOn { key: u8, vel: u8 },
    NoteOff { key: u8 },
    /// A tempo meta event, in microseconds per beat.
    Tempo(u32),
    Other,
}

/// A track event: ticks since the previous event, and its kind.
#[derive(Clone, Copy, Debug, PartialEq, Eq, Structural)]
pub struct Event {
    pub delta: u32,
    pub kind: EventKind,
}

/// A paired note in ticks: onset since the start of the track, lane, and
/// hold length (zero for a tap).
#[derive(Clone, Copy, Debug, PartialEq, Eq, Structural)]
pub struct TickNote {
    pub onset: u128,
    pub lane: u8,
    pub length: u128,
}

/// Hold lengths up to this many beats (`num / den`) become taps. A zero
/// denominator makes every note a tap.
#[derive(Clone, Copy, Debug, PartialEq, Eq, Structural)]
pub struct Threshold {
    pub num: u32,
    pub den: u32,
}

/// Why a conversion fails.
#[derive(Clone, Copy, Debug, PartialEq, Eq, Structural)]
pub enum ConvertError {
    /// A press of a key that is held, or a release of a key that is not,
    /// at the event with this index.
    MalformedPairing { key: u8, index: usize },
    /// A key still held at the end of the stream.
    UnterminatedNote { key: u8 },
    /// A zero ticks-per-beat or tempo.
    InvalidTiming,
}

/// The notes of a stream and the indices of the events that named a pitch
/// outside the table.
pub struct Extraction {
    pub notes: Vec<TickNote>,
    pub unrecognized: Vec<usize>,
}

/// Upper bound (exclusive) of every tick count the extractor produces.
pub const TICK_LIMIT: u128 = 0x1_0000_0000_0000_0000_0000_0000;

/// The key an event presses (`true`) or releases (`false`); a note-on of
/// velocity zero releases.
pub open spec fn key_action(k: EventKind) -> Option<(u8, bool)> {
    match k {
        EventKind::NoteOn { key, vel } => Some((key, vel != 0)),
        EventKind::NoteOff { key } => Some((key, false)),
        _ => None,
    }
}

/// Index of the first entry among the first `n` of `t` whose pitch is `key`.
pub open spec fn first_index(t: Seq<(u8, u8)>, key: u8, n: nat) -> Option<int>
    decreases n,
{
    if n == 0 {
        None
    } else {
        match first_index(t, key, (n - 1) as nat) {
            Some(i) => Some(i),
            None => if t[n - 1].0 == key {
                Some(n - 1)
            } else {
                None
            },
        }
    }
}

/// Index of the first `true` among the first `n` of `h`.
pub open spec fn first_held(h: Seq<bool>, n: nat) -> Option<int>
    decreases n,
{
    if n == 0 {
        None
    } else {
        match first_held(h, (n - 1) as nat) {
            Some(i) => Some(i),
            None => if h[n - 1] {
                Some(n - 1)
            } else {
                None
            },
        }
    }
}

/// The hold length kept for a note of `raw` ticks: zero when `raw` ticks are
/// at most the threshold, in beats of `tpb` ticks.
pub open spec fn trail(raw: int, thr: Threshold, tpb: int) -> int {
    if raw * thr.den <= thr.num * tpb {
        0
    } else {
        raw
    }
}

/// The extractor's state after a prefix of the stream: per table entry
/// whether it is held and since when, the time cursor, the notes so far and
/// the indices of events with an unknown pitch.
pub struct ScanState {
    pub held: Seq<bool>,
    pub onset: Seq<u128>,
    pub time: int,
    pub notes: Seq<TickNote>,
    pub skipped: Seq<usize>,
}

pub open spec fn initial_state(n: nat) -> ScanState {
    ScanState {
        held: Seq::new(n, |k: int| false),
        onset: Seq::new(n, |k: int| 0u128),
        time: 0,
        notes: Seq::empty(),
        skipped: Seq::empty(),
    }
}

/// Where a note with onset `o` goes among `ns`: after the last note whose
/// onset is at most `o`, before the notes after it that start later.
pub open spec fn onset_pos(ns: Seq<TickNote>, o: int) -> int
    decreases ns.len(),
{
    if ns.len() == 0 {
        0
    } else if ns.last().onset <= o {
        ns.len() as int
    } else {
        onset_pos(ns.drop_last(), o)
    }
}

/// `ns` with `n` inserted by its onset; among notes with the same onset the
/// new one comes last.
pub open spec fn insert_by_onset(ns: Seq<TickNote>, n: TickNote) -> Seq<TickNote> {
    ns.insert(onset_pos(ns, n.onset as int), n)
}

/// Whether the onsets of `ns` never decrease.
pub open spec fn onsets_sorted(ns: Seq<TickNote>) -> bool {
    forall|i: int, j: int| 0 <= i <= j < ns.len() ==> #[trigger] ns[i].onset <= #[trigger] ns[j].onset
}

/// One event, the `i`-th of the stream, applied to state `s`.
pub open spec fn scan_step(
    t: Seq<(u8, u8)>,
    thr: Threshold,
    tpb: int,
    s: ScanState,
    e: Event,
    i: int,
) -> Result<ScanState, ConvertError> {
    let now = s.time + e.delta;
    let moved = ScanState { time: now, ..s };
    match key_action(e.kind) {
        None => Ok(moved),
        Some((key, pressed)) => match first_index(t, key, t.len()) {
            None => Ok(ScanState { skipped: s.skipped.push(i as usize), ..moved }),
            Some(p) => if s.held[p] == pressed {
                Err(ConvertError::MalformedPairing { key, index: i as usize })
            } else if pressed {
                Ok(
                    ScanState {
                        held: s.held.update(p, true),
                        onset: s.onset.update(p, now as u128),
                        ..moved
                    },
                )
            } else {
                let note = TickNote {
                    onset: s.onset[p],
                    lane: t[p].1,
                    length: trail(now - s.onset[p], thr, tpb) as u128,
                };
                Ok(ScanState { held: s.held.update(p, false), notes: insert_by_onset(s.notes, note), ..moved })
            },
        },
    }
}

/// The state after the first `n` events, or the first failure.
pub open spec fn scan(
    t: Seq<(u8, u8)>,
    thr: Threshold,
    tpb: int,
    evs: Seq<Event>,
    n: nat,
) -> Result<ScanState, ConvertError>
    decreases n,
{
    if n == 0 {
        Ok(initial_state(t.len()))
    } else {
        match scan(t, thr, tpb, evs, (n - 1) as nat) {
            Ok(s) => scan_step(t, thr, tpb, s, evs[n - 1], n - 1),
            Err(e) => Err(e),
        }
    }
}

/// What the extractor yields for a whole stream: the notes and the skipped
/// event indices, or the failure.
pub open spec fn extract(t: Seq<(u8, u8)>, thr: Threshold, tpb: int, evs: Seq<Event>) -> Result<
    (Seq<TickNote>, Seq<usize>),
    ConvertError,
> {
    if tpb == 0 {
        Err(ConvertError::InvalidTiming)
    } else {
        match scan(t, thr, tpb, evs, evs.len()) {
            Err(e) => Err(e),
            Ok(s) => match first_held(s.held, s.held.len()) {
                Some(p) => Err(ConvertError::UnterminatedNote { key: t[p].0 }),
                None => Ok((s.notes, s.skipped)),
            },
        }
    }
}

/// A pitch-to-lane table: distinct pitches, each mapped to a lane in 0..8.
pub struct PitchTable {
    entries: Vec<(u8, u8)>,
}

pub open spec fn table_wf(t: Seq<(u8, u8)>) -> bool {
    &&& forall|i: int| 0 <= i < t.len() ==> #[trigger] t[i].1 < 8
    &&& forall|i: int, j: int| 0 <= i < j < t.len() ==> #[trigger] t[i].0 != #[trigger] t[j].0
}

impl View for PitchTable {
    type V = Seq<(u8, u8)>;

    closed spec fn view(&self) -> Seq<(u8, u8)> {
        self.entries@
    }
}

proof fn lemma_first_index_found(t: Seq<(u8, u8)>, key: u8, i: nat, n: nat)
    requires
        i < n <= t.len(),
        first_index(t, key, i) == None::<int>,
        t[i as int].0 == key,
    ensures
        first_index(t, key, n) == Some(i as int),
    decreases n,
{
    if n > i + 1 {
        lemma_first_index_found(t, key, i, (n - 1) as nat);
    }
}

proof fn lemma_first_held_found(h: Seq<bool>, i: nat, n: nat)
    requires
        i < n <= h.len(),
        first_held(h, i) == None::<int>,
        h[i as int],
    ensures
        first_held(h, n) == Some(i as int),
    decreases n,
{
    if n > i + 1 {
        lemma_first_held_found(h, i, (n - 1) as nat);
    }
}

/// Once the scan fails, it fails the same way on every longer prefix.
proof fn lemma_scan_failed(
    t: Seq<(u8, u8)>,
    thr: Threshold,
    tpb: int,
    evs: Seq<Event>,
    n: nat,
    m: nat,
)
    requires
        n <= m,
        scan(t, thr, tpb, evs, n) is Err,
    ensures
        scan(t, thr, tpb, evs, m) == scan(t, thr, tpb, evs, n),
    decreases m,
{
    if m > n {
        lemma_scan_failed(t, thr, tpb, evs, n, (m - 1) as nat);
    }
}

impl PitchTable {
    #[verifier::type_invariant]
    spec fn inv(self) -> bool {
        table_wf(self.entries@)
    }

    /// A table from `(pitch, lane)` entries; `None` when a lane is 8 or more
    /// or a pitch occurs twice.
    pub fn new(entries: Vec<(u8, u8)>) -> (r: Option<PitchTable>)
        ensures
            r is Some <==> table_wf(entries@),
            r matches Some(t) ==> t@ == entries@,
    {
        let n = entries.len();
        let mut i: usize = 0;
        while i < n
            invariant
                n == entries.len(),
                i <= n,
                forall|a: int| 0 <= a < i ==> #[trigger] entries@[a].1 < 8,
                forall|a: int, b: int| 0 <= a < b < n && a < i ==> #[trigger] entries@[a].0 != #[trigger] entries@[b].0,
            decreases n - i,
        {
            if entries[i].1 >= 8 {
                return None;
            }
            let mut j: usize = i + 1;
            while j < n
                invariant
                    n == entries.len(),
                    i < j <= n,
                    forall|b: int| i < b < j ==> entries@[i as int].0 != #[trigger] entries@[b].0,
                decreases n - j,
            {
                if entries[i].0 == entries[j].0 {
                    return None;
                }
                j = j + 1;
            }
            i = i + 1;
        }
        Some(PitchTable { entries })
    }

    /// The chromatic layout: pitches 60..=63 on lanes 0..=3 and 72..=75 on
    /// lanes 4..=7.
    pub fn chromatic() -> (r: PitchTable)
        ensures
            r@ == seq![(60u8, 0u8), (61, 1), (62, 2), (63, 3), (72, 4), (73, 5), (74, 6), (75, 7)],
    {
        let entries = vec![(60u8, 0u8), (61, 1), (62, 2), (63, 3), (72, 4), (73, 5), (74, 6), (75, 7)];
        let r = PitchTable { entries };
        assert(r@ =~= seq![(60u8, 0u8), (61, 1), (62, 2), (63, 3), (72, 4), (73, 5), (74, 6), (75, 7)]);
        r
    }

    /// The white-key layout: the C major scale from pitch 60 to 72 on lanes
    /// 0..=7.
    pub fn white_keys() -> (r: PitchTable)
        ensures
            r@ == seq![(60u8, 0u8), (62, 1), (64, 2), (65, 3), (67, 4), (69, 5), (71, 6), (72, 7)],
    {
        let entries = vec![(60u8, 0u8), (62, 1), (64, 2), (65, 3), (67, 4), (69, 5), (71, 6), (72, 7)];
        let r = PitchTable { entries };
        assert(r@ =~= seq![(60u8, 0u8), (62, 1), (64, 2), (65, 3), (67, 4), (69, 5), (71, 6), (72, 7)]);
        r
    }

    /// Number of entries.
    pub fn len(&self) -> (r: usize)
        ensures
            r == self@.len(),
    {
        self.entries.len()
    }

    /// The entry at index `i`.
    pub fn entry(&self, i: usize) -> (r: (u8, u8))
        requires
            i < self@.len(),
        ensures
            r == self@[i as int],
            r.1 < 8,
    {
        proof {
            use_type_invariant(self);
        }
        self.entries[i]
    }

    /// Index of the entry for pitch `key`.
    pub fn lookup(&self, key: u8) -> (r: Option<usize>)
        ensures
            r matches Some(i) ==> first_index(self@, key, self@.len()) == Some(i as int) && i
                < self@.len(),
            r is None ==> first_index(self@, key, self@.len()) == None::<int>,
    {
        let n = self.entries.len();
        let mut i: usize = 0;
        while i < n
            invariant
                n == self@.len(),
                i <= n,
                first_index(self@, key, i as nat) == None::<int>,
            decreases n - i,
        {
            if self.entries[i].0 == key {
                proof {
                    lemma_first_index_found(self@, key, i as nat, n as nat);
                }
                return Some(i);
            }
            i = i + 1;
        }
        None
    }
}

/// The hold length kept for a note of `raw` ticks.
pub fn trail_length(raw: u128, threshold: Threshold, ticks_per_beat: u16) -> (r: u128)
    requires
        raw < TICK_LIMIT,
    ensures
        r == trail(raw as int, threshold, ticks_per_beat as int),
{
    assert(raw * threshold.den < 0x1_0000_0000_0000_0000_0000_0000 * 0x1_0000_0000) by (nonlinear_arith)
        requires
            raw < 0x1_0000_0000_0000_0000_0000_0000u128,
            threshold.den < 0x1_0000_0000,
    ;
    assert(threshold.num * ticks_per_beat < 0x1_0000_0000 * 0x1_0000) by (nonlinear_arith)
        requires
            threshold.num < 0x1_0000_0000,
            ticks_per_beat < 0x1_0000,
    ;
    if raw * (threshold.den as u128) <= (threshold.num as u128) * (ticks_per_beat as u128) {
        0
    } else {
        raw
    }
}

/// Whether the state `s` is the exec state given by these parts.
pub open spec fn state_is(
    s: ScanState,
    held: Seq<bool>,
    onset: Seq<u128>,
    time: u128,
    notes: Seq<TickNote>,
    skipped: Seq<usize>,
) -> bool {
    s.held == held && s.onset == onset && s.time == time as int && s.notes == notes && s.skipped
        == skipped
}

/// Where a note with onset `onset` goes among `notes`.
pub fn onset_slot(notes: &Vec<TickNote>, onset: u128) -> (r: usize)
    ensures
        r == onset_pos(notes@, onset as int),
{
    let mut j: usize = notes.len();
    proof {
        assert(notes@.take(j as int) =~= notes@);
    }
    while j > 0 && notes[j - 1].onset > onset
        invariant
            j <= notes@.len(),
            onset_pos(notes@, onset as int) == onset_pos(notes@.take(j as int), onset as int),
        decreases j,
    {
        proof {
            assert(notes@.take(j as int).drop_last() =~= notes@.take(j as int - 1));
        }
        j = j - 1;
    }
    proof {
        if j > 0 {
            assert(notes@.take(j as int).last() == notes@[j as int - 1]);
        }
    }
    j
}

/// Pairs the note events of `events` into notes, in ticks, with the table
/// `table`. Each note has its onset and its hold length (zero at or below
/// `threshold`); the notes are in onset order, and notes with the same onset
/// in the order of their release events.
pub fn get_chart_notes(
    events: &Vec<Event>,
    ticks_per_beat: u16,
    threshold: Threshold,
    table: &PitchTable,
) -> (r: Result<Extraction, ConvertError>)
    ensures
        match r {
            Ok(x) => extract(table@, threshold, ticks_per_beat as int, events@) == Ok::<
                (Seq<TickNote>, Seq<usize>),
                ConvertError,
            >((x.notes@, x.unrecognized@)),
            Err(e) => extract(table@, threshold, ticks_per_beat as int, events@) == Err::<
                (Seq<TickNote>, Seq<usize>),
                ConvertError,
            >(e),
        },
        r matches Ok(x) ==> forall|j: int|
            0 <= j < x.notes@.len() ==> #[trigger] x.notes@[j].onset < TICK_LIMIT
                && x.notes@[j].length < TICK_LIMIT && x.notes@[j].lane < 8,
        r matches Ok(x) ==> onsets_sorted(x.notes@),
{
    proof {
        use_type_invariant(table);
    }
    if ticks_per_beat == 0 {
        return Err(ConvertError::InvalidTiming);
    }
    let ghost t = table@;
    let ghost tpb = ticks_per_beat as int;
    let n = table.len();
    let mut held: Vec<bool> = Vec::new();
    let mut onsets: Vec<u128> = Vec::new();
    let mut k: usize = 0;
    while k < n
        invariant
            n == t.len(),
            k <= n,
            held@ =~= Seq::new(k as nat, |a: int| false),
            onsets@ =~= Seq::new(k as nat, |a: int| 0u128),
        decreases n - k,
    {
        held.push(false);
        onsets.push(0);
        k = k + 1;
    }
    let mut time: u128 = 0;
    let mut notes: Vec<TickNote> = Vec::new();
    let mut skipped: Vec<usize> = Vec::new();
    let len = events.len();
    let mut i: usize = 0;
    while i < len
        invariant
            len == events@.len(),
            n == t.len(),
            t == table@,
            tpb == ticks_per_beat,
            tpb > 0,
            i <= len,
            held@.len() == n,
            onsets@.len() == n,
            time <= i * 0xFFFF_FFFFu128,
            forall|a: int| 0 <= a < n ==> #[trigger] onsets@[a] <= time,
            forall|j: int|
                0 <= j < notes@.len() ==> #[trigger] notes@[j].onset < TICK_LIMIT
                    && notes@[j].length < TICK_LIMIT && notes@[j].lane < 8,
            forall|a: int| 0 <= a < t.len() ==> #[trigger] t[a].1 < 8,
            scan(t, threshold, tpb, events@, i as nat) matches Ok(s) && state_is(
                s,
                held@,
                onsets@,
                time,
                notes@,
                skipped@,
            ),
        decreases len - i,
    {
        let e = events[i];
        assert(i < 0x1_0000_0000_0000_0000);
        time = time + e.delta as u128;
        let action: Option<(u8, bool)> = match e.kind {
            EventKind::NoteOn { key, vel } => Some((key, vel != 0)),
            EventKind::NoteOff { key } => Some((key, false)),
            _ => None,
        };
        assert(action == key_action(e.kind));
        match action {
            None => {},
            Some((key, pressed)) => {
                match table.lookup(key) {
                    None => {
                        skipped.push(i);
                    },
                    Some(p) => {
                        if held[p] == pressed {
                            proof {
                                lemma_scan_failed(t, threshold, tpb, events@, (i + 1) as nat, len as nat);
                            }
                            return Err(ConvertError::MalformedPairing { key, index: i });
                        }
                        if pressed {
                            held.set(p, true);
                            onsets.set(p, time);
                        } else {
                            let start = onsets[p];
                            let length = trail_length(time - start, threshold, ticks_per_beat);
                            let lane = table.entry(p).1;
                            let note = TickNote { onset: start, lane, length };
                            assert(start <= time && time < TICK_LIMIT);
                            assert(length <= time - start);
                            let slot = onset_slot(&notes, start);
                            proof {
                                lemma_onset_pos_range(notes@, start as int);
                            }
                            let ghost before = notes@;
                            notes.insert(slot, note);
                            proof {
                                assert forall|j: int| 0 <= j < notes@.len() implies #[trigger] notes@[j].onset
                                    < TICK_LIMIT && notes@[j].length < TICK_LIMIT && notes@[j].lane < 8 by {
                                    if j < slot {
                                        assert(notes@[j] == before[j]);
                                        assert(before[j].onset < TICK_LIMIT);
                                    } else if j > slot {
                                        assert(notes@[j] == before[j - 1]);
                                        assert(before[j - 1].onset < TICK_LIMIT);
                                    } else {
                                        assert(notes@[j] == note);
                                    }
                                }
                            }
                            held.set(p, false);
                        }
                    },
                }
            },
        }
        i = i + 1;
    }
    let mut q: usize = 0;
    while q < n
        invariant
            n == t.len(),
            t == table@,
            tpb == ticks_per_beat,
            tpb > 0,
            held@.len() == n,
            q <= n,
            first_held(held@, q as nat) == None::<int>,
            forall|j: int|
                0 <= j < notes@.len() ==> #[trigger] notes@[j].onset < TICK_LIMIT
                    && notes@[j].length < TICK_LIMIT && notes@[j].lane < 8,
            scan(t, threshold, tpb, events@, events@.len()) matches Ok(s) && state_is(
                s,
                held@,
                onsets@,
                time,
                notes@,
                skipped@,
            ),
        decreases n - q,
    {
        if held[q] {
            proof {
                lemma_first_held_found(held@, q as nat, n as nat);
            }
            return Err(ConvertError::UnterminatedNote { key: table.entry(q).0 });
        }
        q = q + 1;
    }
    proof {
        lemma_scan_sorted(t, threshold, tpb, events@, len as nat);
    }
    Ok(Extraction { notes, unrecognized: skipped })
}

/// Number of the first `n` events that press or release a pitch of `t`.
pub open spec fn paired_events(t: Seq<(u8, u8)>, evs: Seq<Event>, n: nat) -> int
    decreases n,
{
    if n == 0 {
        0
    } else {
        paired_events(t, evs, (n - 1) as nat) + match key_action(evs[n - 1].kind) {
            Some((key, pressed)) => if first_index(t, key, t.len()) is Some {
                1int
            } else {
                0
            },
            None => 0,
        }
    }
}

/// Number of `true` among the first `n` of `h`.
pub open spec fn count_held(h: Seq<bool>, n: nat) -> int
    decreases n,
{
    if n == 0 {
        0
    } else {
        count_held(h, (n - 1) as nat) + if h[n - 1] {
            1int
        } else {
            0
        }
    }
}

proof fn lemma_first_index_is_entry(t: Seq<(u8, u8)>, key: u8, n: nat)
    requires
        n <= t.len(),
    ensures
        first_index(t, key, n) matches Some(p) ==> 0 <= p < n && t[p].0 == key,
    decreases n,
{
    if n > 0 {
        lemma_first_index_is_entry(t, key, (n - 1) as nat);
    }
}

proof fn lemma_count_held_update(h: Seq<bool>, p: int, b: bool, n: nat)
    requires
        0 <= p < h.len(),
        n <= h.len(),
    ensures
        count_held(h.update(p, b), n) == count_held(h, n) + if p < n {
            (if b {
                1int
            } else {
                0
            }) - (if h[p] {
                1int
            } else {
                0
            })
        } else {
            0
        },
    decreases n,
{
    if n > 0 {
        lemma_count_held_update(h, p, b, (n - 1) as nat);
    }
}

proof fn lemma_none_held(h: Seq<bool>, n: nat)
    requires
        n <= h.len(),
        first_held(h, n) == None::<int>,
    ensures
        count_held(h, n) == 0,
    decreases n,
{
    if n > 0 {
        lemma_none_held(h, (n - 1) as nat);
    }
}

proof fn lemma_all_released(h: Seq<bool>, n: nat)
    requires
        n <= h.len(),
        forall|i: int| 0 <= i < n ==> !#[trigger] h[i],
    ensures
        count_held(h, n) == 0,
    decreases n,
{
    if n > 0 {
        lemma_all_released(h, (n - 1) as nat);
    }
}

proof fn lemma_scan_balance(t: Seq<(u8, u8)>, thr: Threshold, tpb: int, evs: Seq<Event>, n: nat)
    requires
        n <= evs.len(),
        scan(t, thr, tpb, evs, n) is Ok,
    ensures
        scan(t, thr, tpb, evs, n) matches Ok(s) ==> s.held.len() == t.len() && 2 * s.notes.len()
            + count_held(s.held, s.held.len()) == paired_events(t, evs, n),
    decreases n,
{
    if n == 0 {
        let s = initial_state(t.len());
        lemma_all_released(s.held, s.held.len());
    } else {
        let m = (n - 1) as nat;
        if scan(t, thr, tpb, evs, m) is Err {
            lemma_scan_failed(t, thr, tpb, evs, m, n);
        }
        lemma_scan_balance(t, thr, tpb, evs, m);
        let s = scan(t, thr, tpb, evs, m)->Ok_0;
        let e = evs[m as int];
        match key_action(e.kind) {
            None => {},
            Some((key, pressed)) => {
                lemma_first_index_is_entry(t, key, t.len());
                match first_index(t, key, t.len()) {
                    None => {},
                    Some(p) => {
                        lemma_count_held_update(s.held, p, pressed, s.held.len());
                        lemma_onset_pos_range(s.notes, s.onset[p] as int);
                    },
                }
            },
        }
    }
}

/// Each press and its release make one note: on a stream that converts
/// without error, the notes number exactly half of the events that press or
/// release a pitch of the table.
pub proof fn law_note_count(t: Seq<(u8, u8)>, thr: Threshold, tpb: int, evs: Seq<Event>)
    requires
        extract(t, thr, tpb, evs) is Ok,
    ensures
        extract(t, thr, tpb, evs) matches Ok((notes, skipped)) ==> 2 * notes.len()
            == paired_events(t, evs, evs.len()),
{
    lemma_scan_balance(t, thr, tpb, evs, evs.len());
    let s = scan(t, thr, tpb, evs, evs.len())->Ok_0;
    lemma_none_held(s.held, s.held.len());
}

/// A note as long as the threshold (`raw / tpb` beats equal to
/// `num / den`) keeps no trail; one longer than the threshold keeps its
/// whole length.
pub proof fn law_truncation(raw: int, thr: Threshold, tpb: int)
    ensures
        raw * thr.den == thr.num * tpb ==> trail(raw, thr, tpb) == 0,
        raw * thr.den > thr.num * tpb ==> trail(raw, thr, tpb) == raw,
{
}

proof fn lemma_onset_pos_range(ns: Seq<TickNote>, o: int)
    ensures
        0 <= onset_pos(ns, o) <= ns.len(),
        forall|k: int| onset_pos(ns, o) <= k < ns.len() ==> #[trigger] ns[k].onset > o,
    decreases ns.len(),
{
    if ns.len() > 0 && ns.last().onset > o {
        lemma_onset_pos_range(ns.drop_last(), o);
        assert forall|k: int| onset_pos(ns, o) <= k < ns.len() implies #[trigger] ns[k].onset > o by {
            if k < ns.len() - 1 {
                assert(ns[k] == ns.drop_last()[k]);
            }
        }
    }
}

proof fn lemma_onset_pos_sorted(ns: Seq<TickNote>, o: int)
    requires
        onsets_sorted(ns),
    ensures
        forall|k: int| 0 <= k < onset_pos(ns, o) ==> #[trigger] ns[k].onset <= o,
    decreases ns.len(),
{
    lemma_onset_pos_range(ns, o);
    if ns.len() > 0 {
        if ns.last().onset <= o {
            assert forall|k: int| 0 <= k < onset_pos(ns, o) implies #[trigger] ns[k].onset <= o by {
                assert(ns[k].onset <= ns[ns.len() - 1].onset);
            }
        } else {
            let p = ns.drop_last();
            assert forall|i: int, j: int| 0 <= i <= j < p.len() implies #[trigger] p[i].onset
                <= #[trigger] p[j].onset by {
                assert(p[i] == ns[i] && p[j] == ns[j]);
            }
            lemma_onset_pos_sorted(p, o);
            lemma_onset_pos_range(p, o);
            assert forall|k: int| 0 <= k < onset_pos(ns, o) implies #[trigger] ns[k].onset <= o by {
                assert(ns[k] == p[k]);
            }
        }
    }
}

/// Inserting by onset keeps a list in onset order.
proof fn lemma_insert_sorted(ns: Seq<TickNote>, n: TickNote)
    requires
        onsets_sorted(ns),
    ensures
        onsets_sorted(insert_by_onset(ns, n)),
{
    let o = n.onset as int;
    lemma_onset_pos_range(ns, o);
    lemma_onset_pos_sorted(ns, o);
    let pos = onset_pos(ns, o);
    let r = insert_by_onset(ns, n);
    assert forall|i: int, j: int| 0 <= i <= j < r.len() implies #[trigger] r[i].onset <= #[trigger] r[j].onset by {
        if i < pos {
            assert(r[i] == ns[i]);
        } else if i > pos {
            assert(r[i] == ns[i - 1]);
        }
        if j < pos {
            assert(r[j] == ns[j]);
        } else if j > pos {
            assert(r[j] == ns[j - 1]);
        }
    }
}

proof fn lemma_scan_sorted(t: Seq<(u8, u8)>, thr: Threshold, tpb: int, evs: Seq<Event>, n: nat)
    requires
        scan(t, thr, tpb, evs, n) is Ok,
    ensures
        scan(t, thr, tpb, evs, n) matches Ok(s) ==> onsets_sorted(s.notes),
    decreases n,
{
    if n > 0 {
        let m = (n - 1) as nat;
        if scan(t, thr, tpb, evs, m) is Err {
            lemma_scan_failed(t, thr, tpb, evs, m, n);
        }
        lemma_scan_sorted(t, thr, tpb, evs, m);
        let s = scan(t, thr, tpb, evs, m)->Ok_0;
        match key_action(evs[m as int].kind) {
            Some((key, false)) => match first_index(t, key, t.len()) {
                Some(p) => {
                    let note = TickNote {
                        onset: s.onset[p],
                        lane: t[p].1,
                        length: trail(s.time + evs[m as int].delta - s.onset[p], thr, tpb) as u128,
                    };
                    lemma_insert_sorted(s.notes, note);
                },
                None => {},
            },
            _ => {},
        }
    }
}

/// The notes of a stream come out in the order of their onsets, however the
/// pitches interleave.
pub proof fn law_onset_order(t: Seq<(u8, u8)>, thr: Threshold, tpb: int, evs: Seq<Event>)
    requires
        extract(t, thr, tpb, evs) is Ok,
    ensures
        extract(t, thr, tpb, evs) matches Ok((notes, skipped)) ==> onsets_sorted(notes),
{
    lemma_scan_sorted(t, thr, tpb, evs, evs.len());
}

} // verus!
