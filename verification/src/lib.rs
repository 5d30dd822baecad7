use vstd::prelude::*;

use vstd::arithmetic::div_mod::{lemma_div_is_ordered, lemma_div_is_ordered_by_denominator};

mod emit;
mod event;
mod grid;
mod key_data;
mod note_data;
mod sort;
mod track;

pub use emit::dec_bytes;
pub use emit::dec_digits;
pub use emit::emit_from;
pub use emit::emit_track;
pub use emit::event_emit;
pub use emit::grid_token;
pub use emit::header_bytes;
pub use emit::nl_seq;
pub use emit::note_bytes;
pub use emit::note_emit;
pub use emit::push_all;
pub use emit::push_number;
pub use emit::rest_emit;
pub use emit::EmitState;
pub use emit::MmlStatus;
pub use event::DataKind;
pub use event::Event;
pub use grid::grid_rem;
pub use grid::grid_step;
pub use grid::lemma_grid_rem_complete;
pub use grid::lemma_grid_rem_total;
pub use key_data::KeyData;
pub use note_data::NoteData;
pub use sort::cst_le;
pub use sort::cst_lt;
pub use sort::ct_le;
pub use sort::sort_events1;
pub use sort::sort_events_cst;
pub use sort::sorted_cst;
pub use sort::sorted_ct;
pub use sort::tie_before;
pub use track::disabled_at;
pub use track::lane_monotonic;
pub use track::ledger_only_disabled;
pub use track::lemma_lane_alternation;
pub use track::lemma_sorted_lane_monotonic;
pub use track::no_tempo;
pub use track::note_sourced;
pub use track::note_sourced_le;
pub use track::notes_kept_le;
pub use track::note_pairs_ok;
pub use track::pair_ok_at;
pub use track::all_copies_present;
pub use track::assign_from;
pub use track::assign_spec;
pub use track::cd_covered;
pub use track::copy_event;
pub use track::find_lane;
pub use track::lane_copies;
pub use track::lowest_free;
pub use track::midnote_disabled;
pub use track::midnote_kept;
pub use track::non_tempo_events;
pub use track::point_copies;
pub use track::quantize_from;
pub use track::remove_key;
pub use track::retain_spec;
pub use track::tempo_copies;
pub use track::timbre_cd_copies;
pub use track::timbre_copies;
pub use track::timbre_lane_copies;
pub use track::AssignState;
pub use track::tempo_from_ledger;
pub use track::ChannelData;
pub use track::Track;

verus! {

/// The fatal errors of a conversion.  Recoverable anomalies (orphan
/// note-offs, colliding note-ons, mid-note tempo or timbre changes,
/// off-grid timing) never surface here; they are resolved locally.
#[derive(Clone, Copy, PartialEq, Eq, Structural, Debug)]
pub enum MmlError {
    /// The file's time division is timecode-based; a ticks-per-beat
    /// division is mandatory.
    UnsupportedTiming,
    /// More simultaneous notes on one channel than there are lanes.
    LaneExhausted,
    /// A note-on is not immediately paired with its note-off after pass 1.
    SoundIntegrity,
    /// Quantization broke per-lane ordering in pass 2.
    SoundCorrection,
    /// Per-lane ordering did not survive the final re-insertion in pass 3.
    MusicIntegrity,
}

/// The time division of the source file, as the decoder reports it.
#[derive(Clone, Copy, PartialEq, Eq, Structural, Debug)]
pub enum Timing {
    /// Ticks per beat (a metrical division).
    TicksPerBeat(u16),
    /// Ticks per frame and frames per second: rejected.
    Timecode(u8, u8),
}

/// One decoded channel message, reduced to the kinds this pipeline keeps.
#[derive(Clone, Copy, PartialEq, Eq, Structural, Debug)]
pub enum RawMessage {
    NoteOff { key: u8, vel: u8 },
    NoteOn { key: u8, vel: u8 },
    ProgramChange { program: u8 },
    /// A meta tempo change: microseconds per beat.
    Tempo { micros_per_beat: u32 },
    /// Any other message kind: discarded.
    Other,
}

/// One decoded track event: the tick delta since the previous event of the
/// same track, the channel it addresses, and the message.
#[derive(Clone, Copy, PartialEq, Eq, Structural, Debug)]
pub struct RawEvent {
    pub delta: u32,
    pub channel: u8,
    pub message: RawMessage,
}

/// One tempo-change point of the shared ledger.  `enable` starts true and
/// is cleared when some track finds the point unrepresentable; a disabled
/// point is suppressed for every track but never removed.
#[derive(Clone, Copy, PartialEq, Eq, Structural, Debug)]
pub struct TempoEvent {
    pub tick: u32,
    pub tempo: u32,
    pub enable: bool,
}

impl TempoEvent {
    pub fn new(tick: u32, tempo: u32) -> (r: Self)
        ensures
            r == (TempoEvent { tick, tempo, enable: true }),
    {
        TempoEvent { tick, tempo, enable: true }
    }
}

/// The quotient `a / b` rounded to the nearest integer, halves up.
pub open spec fn rounded_div(a: int, b: int) -> int {
    (2 * a + b) / (2 * b)
}

/// Linear interpolation from `[from_low, from_high]` into
/// `[to_low, to_high]`, rounded to the nearest integer and clamped.
pub open spec fn map_range_spec(
    value: int,
    from_low: int,
    from_high: int,
    to_low: int,
    to_high: int,
) -> int {
    let scaled = to_low + rounded_div((value - from_low) * (to_high - to_low), from_high - from_low);
    if scaled < to_low {
        to_low
    } else if scaled > to_high {
        to_high
    } else {
        scaled
    }
}

/// The tempo sequence with every redundant point dropped: a point falls
/// when a kept point already stands at its tick (at most one point per
/// distinct tick survives, first wins), or when its tempo equals the
/// nearest still-kept predecessor's, that predecessor carrying forward
/// across drops.  `pre` is the kept predecessor's tempo and `seen` the
/// ticks already kept.
pub open spec fn dedup_tempo_from(s: Seq<TempoEvent>, pre: u32, seen: Set<u32>) -> Seq<TempoEvent>
    decreases s.len(),
{
    if s.len() == 0 {
        Seq::empty()
    } else if seen.contains(s[0].tick) || s[0].tempo == pre {
        dedup_tempo_from(s.drop_first(), pre, seen)
    } else {
        seq![s[0]] + dedup_tempo_from(s.drop_first(), s[0].tempo, seen.insert(s[0].tick))
    }
}

/// The whole deduplicated ledger: the first point is always kept.
pub open spec fn dedup_tempo(s: Seq<TempoEvent>) -> Seq<TempoEvent> {
    if s.len() == 0 {
        Seq::empty()
    } else {
        seq![s[0]] + dedup_tempo_from(s.drop_first(), s[0].tempo, Set::empty().insert(s[0].tick))
    }
}

/// The absolute tick reached after the first `i` events of a raw track:
/// the sum of their deltas.
pub open spec fn prefix_ticks(t: Seq<RawEvent>, i: int) -> int
    decreases i,
{
    if i <= 0 {
        0
    } else {
        prefix_ticks(t, i - 1) + t[i - 1].delta
    }
}

/// Every absolute tick of the track fits the tick counter.
pub open spec fn track_ticks_ok(t: Seq<RawEvent>) -> bool {
    forall|i: int| 0 <= i <= t.len() ==> prefix_ticks(t, i) <= u32::MAX
}

/// The event kind a raw message maps to, if any: a note-on of velocity
/// zero counts as a note-off (MIDI convention), a kept note-on carries its
/// velocity mapped to a volume, and unsupported kinds are discarded.
pub open spec fn raw_to_kind(m: RawMessage) -> Option<DataKind> {
    match m {
        RawMessage::NoteOff { key, vel } => Some(DataKind::NoteOff(KeyData { key, vol: vel })),
        RawMessage::NoteOn { key, vel } => if vel == 0 {
            Some(DataKind::NoteOff(KeyData { key, vol: 0 }))
        } else {
            Some(
                DataKind::NoteOn(
                    KeyData { key, vol: map_range_spec(vel as int, 0, 127, 0, 100) as u8 },
                ),
            )
        },
        RawMessage::ProgramChange { program } => Some(DataKind::ChangeTimbre(program)),
        _ => None,
    }
}

/// The beats-per-minute a tempo message yields; a zero divisor saturates.
pub open spec fn bpm_of(micros: u32) -> u32 {
    if micros == 0 {
        u32::MAX
    } else {
        rounded_div(60_000_000, micros as int) as u32
    }
}

/// The events one raw track contributes, deltas resolved to absolute
/// ticks starting from `base`.
pub open spec fn build_events(t: Seq<RawEvent>, base: int) -> Seq<Event>
    decreases t.len(),
{
    if t.len() == 0 {
        Seq::empty()
    } else {
        let tick = base + t[0].delta;
        let rest = build_events(t.drop_first(), tick);
        match raw_to_kind(t[0].message) {
            Some(k) => seq![
                Event { channel: t[0].channel, sub_channel: 0, tick: tick as u32, data_kind: k },
            ] + rest,
            None => rest,
        }
    }
}

/// The tempo points one raw track contributes to the shared ledger.
pub open spec fn build_tempo(t: Seq<RawEvent>, base: int) -> Seq<TempoEvent>
    decreases t.len(),
{
    if t.len() == 0 {
        Seq::empty()
    } else {
        let tick = base + t[0].delta;
        let rest = build_tempo(t.drop_first(), tick);
        match t[0].message {
            RawMessage::Tempo { micros_per_beat } => seq![
                TempoEvent { tick: tick as u32, tempo: bpm_of(micros_per_beat), enable: true },
            ] + rest,
            _ => rest,
        }
    }
}

/// The converter: owns the raw file bytes until the decoder consumes them,
/// and remembers the file's ticks-per-beat once the timing is accepted.
pub struct Converter {
    pub data: Vec<u8>,
    pub ticks_per_beat: u32,
}

impl Converter {
    pub fn new(data: Vec<u8>) -> (r: Self)
        ensures
            r.data@ == data@,
            r.ticks_per_beat == 0,
    {
        Converter { data, ticks_per_beat: 0 }
    }

    /// Drop every tempo point that repeats a kept point's tick (first
    /// wins: at most one point per distinct tick survives) or the nearest
    /// kept predecessor's tempo.
    pub fn delete_duplicate_tempo(events: &mut Vec<TempoEvent>)
        ensures
            final(events)@ == dedup_tempo(old(events)@),
    {
        let ghost s = events@;
        let mut kept: Vec<TempoEvent> = Vec::new();
        if events.len() > 0 {
            kept.push(events[0]);
            let mut pre_tempo: u32 = events[0].tempo;
            let ghost mut seen: Set<u32> = Set::empty().insert(s[0].tick);
            let mut index: usize = 1;
            proof {
                assert(s.skip(1) =~= s.drop_first());
                assert forall|t: u32| #![trigger seen.contains(t)] seen.contains(t)
                    <==> exists|k: int|
                    0 <= k < kept@.len() && (#[trigger] kept@[k]).tick == t by {
                    if t == s[0].tick {
                        assert(kept@[0].tick == t);
                    }
                }
            }
            while index < events.len()
                invariant
                    s == events@,
                    1 <= index <= s.len(),
                    kept@.len() >= 1,
                    dedup_tempo(s) == kept@ + dedup_tempo_from(
                        s.skip(index as int),
                        pre_tempo,
                        seen,
                    ),
                    forall|t: u32|
                        #![trigger seen.contains(t)]
                        seen.contains(t) <==> exists|k: int|
                            0 <= k < kept@.len() && (#[trigger] kept@[k]).tick == t,
                decreases s.len() - index,
            {
                let i = index;
                proof {
                    assert(s.skip(i as int).drop_first() =~= s.skip(i as int + 1));
                    assert(s.skip(i as int)[0] == s[i as int]);
                }
                let ev = events[i];
                let tick_taken = ledger_has_tick(&kept, ev.tick);
                proof {
                    assert(tick_taken == seen.contains(ev.tick));
                }
                if !tick_taken && ev.tempo != pre_tempo {
                    let ghost kept0 = kept@;
                    let ghost seen0 = seen;
                    kept.push(ev);
                    pre_tempo = ev.tempo;
                    proof {
                        seen = seen.insert(ev.tick);
                        assert(kept@ =~= kept0 + seq![s[i as int]]);
                        assert(kept0 + (seq![s[i as int]] + dedup_tempo_from(
                            s.skip(i as int + 1),
                            pre_tempo,
                            seen,
                        )) =~= kept@ + dedup_tempo_from(s.skip(i as int + 1), pre_tempo, seen));
                        assert forall|t: u32| #![trigger seen.contains(t)] seen.contains(t)
                            <==> exists|k: int|
                            0 <= k < kept@.len() && (#[trigger] kept@[k]).tick == t by {
                            if t == ev.tick {
                                assert(kept@[kept@.len() - 1].tick == t);
                            } else {
                                if seen.contains(t) {
                                    let k = choose|k: int|
                                        0 <= k < kept0.len() && (#[trigger] kept0[k]).tick == t;
                                    assert(kept@[k].tick == t);
                                }
                                if exists|k: int|
                                    0 <= k < kept@.len() && (#[trigger] kept@[k]).tick == t {
                                    let k = choose|k: int|
                                        0 <= k < kept@.len() && (#[trigger] kept@[k]).tick == t;
                                    assert(k < kept0.len());
                                    assert(kept0[k].tick == t);
                                }
                            }
                        }
                    }
                }
                index = i + 1;
            }
            proof {
                assert(s.skip(s.len() as int) =~= Seq::<TempoEvent>::empty());
                assert(kept@ + Seq::<TempoEvent>::empty() =~= kept@);
            }
        }
        *events = kept;
    }

    /// Beats per minute from microseconds per beat: `60_000_000 / m`
    /// rounded to the nearest integer, halves up.
    pub fn get_tempo(microseconds_per_beat: u32) -> (r: u32)
        requires
            microseconds_per_beat >= 1,
        ensures
            r as int == rounded_div(60_000_000, microseconds_per_beat as int),
    {
        let m = microseconds_per_beat as u64;
        let q = (120_000_000u64 + m) / (2 * m);
        proof {
            lemma_div_is_ordered_by_denominator(120_000_000 + m as int, 2, 2 * m as int);
            lemma_div_is_ordered(120_000_000 + m as int, 0x1_FFFF_FFFFu64 as int, 2);
        }
        q as u32
    }

    /// Linear interpolation of `value` from `[from_low, from_high]` into
    /// `[to_low, to_high]`, rounded to the nearest integer and clamped to
    /// the target range.
    pub fn map_range(value: u8, from_low: u8, from_high: u8, to_low: u8, to_high: u8) -> (r: u8)
        requires
            from_low <= value,
            from_low < from_high,
            to_low <= to_high,
        ensures
            r as int == map_range_spec(
                value as int,
                from_low as int,
                from_high as int,
                to_low as int,
                to_high as int,
            ),
            to_low <= r <= to_high,
    {
        let a = (value - from_low) as u32;
        let b = (to_high - to_low) as u32;
        proof {
            vstd::arithmetic::mul::lemma_mul_upper_bound(a as int, 255, b as int, 255);
        }
        let num = a * b;
        let den = (from_high - from_low) as u32;
        let scaled = to_low as u32 + (2 * num + den) / (2 * den);
        if scaled < to_low as u32 {
            to_low
        } else if scaled > to_high as u32 {
            to_high
        } else {
            scaled as u8
        }
    }

    /// A MIDI note-on velocity (`0..=127`) mapped to an MML volume
    /// (`0..=100`).
    pub fn get_vol(vel: u8) -> (r: u8)
        ensures
            r as int == map_range_spec(vel as int, 0, 127, 0, 100),
            r <= 100,
    {
        Self::map_range(vel, 0, 127, 0, 100)
    }

    /// Build one track's event list from its decoded raw events, resolving
    /// the deltas to absolute ticks, and append its tempo changes to the
    /// shared ledger.
    pub fn build_track(track_index: usize, raw: &Vec<RawEvent>, tempo_events: &mut Vec<TempoEvent>) -> (r:
        Track)
        requires
            track_ticks_ok(raw@),
        ensures
            r.track_index == track_index,
            r.events@ == build_events(raw@, 0),
            r.channel_data_list@ == Seq::<ChannelData>::empty(),
            final(tempo_events)@ == old(tempo_events)@ + build_tempo(raw@, 0),
    {
        let ghost s = raw@;
        let mut track = Track::new(track_index);
        let mut ticks: u32 = 0;
        let mut i: usize = 0;
        proof {
            assert(s.skip(0) =~= s);
        }
        while i < raw.len()
            invariant
                i <= s.len(),
                s == raw@,
                track_ticks_ok(s),
                ticks as int == prefix_ticks(s, i as int),
                track.track_index == track_index,
                track.channel_data_list@ == Seq::<ChannelData>::empty(),
                build_events(s, 0) == track.events@ + build_events(s.skip(i as int), ticks as int),
                old(tempo_events)@ + build_tempo(s, 0) == tempo_events@ + build_tempo(
                    s.skip(i as int),
                    ticks as int,
                ),
            decreases s.len() - i,
        {
            let ghost events0 = track.events@;
            let ghost ledger0 = tempo_events@;
            let ghost ticks0 = ticks;
            let ev = raw[i];
            proof {
                assert(prefix_ticks(s, i as int + 1) == prefix_ticks(s, i as int) + s[i
                    as int].delta);
                assert(prefix_ticks(s, i as int + 1) <= u32::MAX);
                assert(s.skip(i as int).drop_first() =~= s.skip(i as int + 1));
                assert(s.skip(i as int)[0] == s[i as int]);
            }
            ticks = ticks + ev.delta;
            match ev.message {
                RawMessage::NoteOff { key, vel } => {
                    track.push_event(ev.channel, ticks, DataKind::NoteOff(KeyData::new(key, vel)));
                },
                RawMessage::NoteOn { key, vel } => {
                    if vel == 0 {
                        track.push_event(
                            ev.channel,
                            ticks,
                            DataKind::NoteOff(KeyData::new(key, vel)),
                        );
                    } else {
                        track.push_event(
                            ev.channel,
                            ticks,
                            DataKind::NoteOn(KeyData::new(key, Converter::get_vol(vel))),
                        );
                    }
                },
                RawMessage::ProgramChange { program } => {
                    track.push_event(ev.channel, ticks, DataKind::ChangeTimbre(program));
                },
                RawMessage::Tempo { micros_per_beat } => {
                    let bpm = if micros_per_beat == 0 {
                        u32::MAX
                    } else {
                        Converter::get_tempo(micros_per_beat)
                    };
                    tempo_events.push(TempoEvent::new(ticks, bpm));
                },
                RawMessage::Other => {},
            }
            proof {
                let tail = s.skip(i as int);
                match raw_to_kind(s[i as int].message) {
                    Some(k) => {
                        assert(track.events@ =~= events0 + seq![
                            Event {
                                channel: s[i as int].channel,
                                sub_channel: 0,
                                tick: ticks,
                                data_kind: k,
                            },
                        ]);
                        assert(build_events(tail, ticks0 as int) =~= seq![
                            Event {
                                channel: s[i as int].channel,
                                sub_channel: 0,
                                tick: ticks,
                                data_kind: k,
                            },
                        ] + build_events(s.skip(i as int + 1), ticks as int));
                        assert(events0 + build_events(tail, ticks0 as int) =~= track.events@
                            + build_events(s.skip(i as int + 1), ticks as int));
                    },
                    None => {},
                }
                match s[i as int].message {
                    RawMessage::Tempo { micros_per_beat } => {
                        assert(tempo_events@ =~= ledger0 + seq![
                            TempoEvent { tick: ticks, tempo: bpm_of(micros_per_beat), enable: true },
                        ]);
                        assert(build_tempo(tail, ticks0 as int) =~= seq![
                            TempoEvent { tick: ticks, tempo: bpm_of(micros_per_beat), enable: true },
                        ] + build_tempo(s.skip(i as int + 1), ticks as int));
                        assert(ledger0 + build_tempo(tail, ticks0 as int) =~= tempo_events@
                            + build_tempo(s.skip(i as int + 1), ticks as int));
                    },
                    _ => {},
                }
            }
            i += 1;
        }
        proof {
            assert(s.skip(s.len() as int) =~= Seq::<RawEvent>::empty());
            assert(track.events@ + Seq::<Event>::empty() =~= track.events@);
            assert(tempo_events@ + Seq::<TempoEvent>::empty() =~= tempo_events@);
        }
        track
    }

    /// Run the whole reconciliation on an already-decoded file: build the
    /// event model and the tempo ledger, deduplicate it, run the three
    /// passes over every track with the shared ledger, and write the MML
    /// score of every track that kept at least one event.  A timecode-based
    /// time division is rejected outright.
    pub fn convert_decoded(&mut self, timing: Timing, raw_tracks: &Vec<Vec<RawEvent>>) -> (r:
        Result<Vec<u8>, MmlError>)
        requires
            timing matches Timing::TicksPerBeat(t) ==> t >= 1,
            forall|j: int| 0 <= j < raw_tracks@.len() ==> track_ticks_ok(#[trigger] raw_tracks@[j]@),
        ensures
            (timing is Timecode) <==> (r == Err::<Vec<u8>, MmlError>(MmlError::UnsupportedTiming)),
            timing matches Timing::TicksPerBeat(t) ==> final(self).ticks_per_beat == t,
            (timing is TicksPerBeat && raw_tracks@.len() == 0) ==> (r matches Ok(score) && score@
                == Seq::<u8>::empty()),
            r != Err::<Vec<u8>, MmlError>(MmlError::MusicIntegrity),
    {
        let ticks_per_beat: u32;
        match timing {
            Timing::TicksPerBeat(t) => {
                ticks_per_beat = t as u32;
            },
            Timing::Timecode(_, _) => {
                return Err(MmlError::UnsupportedTiming);
            },
        }
        self.ticks_per_beat = ticks_per_beat;
        let mut tempo_events: Vec<TempoEvent> = Vec::new();
        let mut tracks: Vec<Track> = Vec::new();
        let mut j: usize = 0;
        while j < raw_tracks.len()
            invariant
                j <= raw_tracks@.len(),
                tracks@.len() == j,
                forall|x: int|
                    0 <= x < raw_tracks@.len() ==> track_ticks_ok(#[trigger] raw_tracks@[x]@),
            decreases raw_tracks@.len() - j,
        {
            let track = Self::build_track(j, &raw_tracks[j], &mut tempo_events);
            tracks.push(track);
            j += 1;
        }
        Self::delete_duplicate_tempo(&mut tempo_events);
        let mut parsed1: Vec<Track> = Vec::new();
        while tracks.len() > 0
            invariant
                timing is TicksPerBeat,
                self.ticks_per_beat == timing->TicksPerBeat_0,
                tracks@.len() + parsed1@.len() <= raw_tracks@.len(),
            decreases tracks@.len(),
        {
            let mut track = tracks.remove(0);
            if let Err(e) = track.parse1(&mut tempo_events) {
                return Err(e);
            }
            parsed1.push(track);
        }
        tracks = parsed1;
        let mut parsed2: Vec<Track> = Vec::new();
        while tracks.len() > 0
            invariant
                1 <= ticks_per_beat <= 0xFFFF,
                timing is TicksPerBeat,
                self.ticks_per_beat == timing->TicksPerBeat_0,
                tracks@.len() + parsed2@.len() <= raw_tracks@.len(),
            decreases tracks@.len(),
        {
            let mut track = tracks.remove(0);
            if track.events.len() > 0 {
                if let Err(e) = track.parse2(ticks_per_beat, &mut tempo_events) {
                    return Err(e);
                }
            }
            parsed2.push(track);
        }
        tracks = parsed2;
        let mut parsed3: Vec<Track> = Vec::new();
        while tracks.len() > 0
            invariant
                timing is TicksPerBeat,
                self.ticks_per_beat == timing->TicksPerBeat_0,
                tracks@.len() + parsed3@.len() <= raw_tracks@.len(),
                forall|x: int|
                    0 <= x < parsed3@.len() && (#[trigger] parsed3@[x]).events@.len() > 0
                        ==> sorted_cst(parsed3@[x].events@),
            decreases tracks@.len(),
        {
            let mut track = tracks.remove(0);
            if track.events.len() > 0 {
                if let Err(e) = track.parse3(&mut tempo_events) {
                    return Err(e);
                }
            }
            parsed3.push(track);
        }
        tracks = parsed3;
        let mut out: Vec<u8> = Vec::new();
        let mut k: usize = 0;
        while k < tracks.len()
            invariant
                k <= tracks@.len(),
                1 <= ticks_per_beat <= 0xFFFF,
                timing is TicksPerBeat,
                self.ticks_per_beat == timing->TicksPerBeat_0,
                tracks@.len() <= raw_tracks@.len(),
                raw_tracks@.len() == 0 ==> out@ == Seq::<u8>::empty(),
                forall|x: int|
                    0 <= x < tracks@.len() && (#[trigger] tracks@[x]).events@.len() > 0
                        ==> sorted_cst(tracks@[x].events@),
            decreases tracks@.len() - k,
        {
            if tracks[k].events.len() > 0 {
                let staff = tracks[k].convert(ticks_per_beat);
                crate::emit::push_all(&mut out, &staff);
            }
            k += 1;
        }
        Ok(out)
    }
}

/// Whether some kept ledger point already stands at the given tick.
fn ledger_has_tick(kept: &Vec<TempoEvent>, tick: u32) -> (r: bool)
    ensures
        r == exists|i: int| 0 <= i < kept@.len() && (#[trigger] kept@[i]).tick == tick,
{
    let mut i: usize = 0;
    while i < kept.len()
        invariant
            i <= kept@.len(),
            forall|k: int| 0 <= k < i ==> (#[trigger] kept@[k]).tick != tick,
        decreases kept@.len() - i,
    {
        if kept[i].tick == tick {
            assert(kept@[i as int].tick == tick);
            return true;
        }
        i += 1;
    }
    false
}

/// Law: a deduplicated ledger keeps its first point, never holds two
/// adjacent points with the same tempo, and never holds two points at one
/// tick.
pub proof fn lemma_dedup_tempo_adjacent_distinct(s: Seq<TempoEvent>)
    ensures
        s.len() > 0 ==> dedup_tempo(s).len() > 0 && dedup_tempo(s)[0] == s[0],
        forall|i: int|
            #![trigger dedup_tempo(s)[i]]
            0 <= i && i + 1 < dedup_tempo(s).len() ==> dedup_tempo(s)[i].tempo != dedup_tempo(s)[
                i + 1
            ].tempo,
        forall|i: int, j: int|
            #![trigger dedup_tempo(s)[i], dedup_tempo(s)[j]]
            0 <= i < j < dedup_tempo(s).len() ==> dedup_tempo(s)[i].tick != dedup_tempo(s)[j].tick,
{
    if s.len() > 0 {
        let seen0 = Set::<u32>::empty().insert(s[0].tick);
        lemma_dedup_tempo_from_ok(s.drop_first(), s[0].tempo, seen0);
        let r = dedup_tempo(s);
        let rest = dedup_tempo_from(s.drop_first(), s[0].tempo, seen0);
        assert forall|i: int| #![trigger r[i]] 0 <= i && i + 1 < r.len() implies r[i].tempo != r[
            i + 1
        ].tempo by {
            if i == 0 {
                assert(r[1] == rest[0]);
            } else {
                assert(r[i] == rest[i - 1]);
                assert(r[i + 1] == rest[i]);
            }
        }
        assert forall|i: int, j: int|
            #![trigger r[i], r[j]]
            0 <= i < j < r.len() implies r[i].tick != r[j].tick by {
            if i == 0 {
                assert(r[j] == rest[j - 1]);
                assert(!seen0.contains(rest[j - 1].tick));
            } else {
                assert(r[i] == rest[i - 1]);
                assert(r[j] == rest[j - 1]);
            }
        }
    }
}

proof fn lemma_dedup_tempo_from_ok(s: Seq<TempoEvent>, pre: u32, seen: Set<u32>)
    ensures
        dedup_tempo_from(s, pre, seen).len() > 0 ==> dedup_tempo_from(s, pre, seen)[0].tempo
            != pre,
        forall|i: int|
            #![trigger dedup_tempo_from(s, pre, seen)[i]]
            0 <= i && i + 1 < dedup_tempo_from(s, pre, seen).len() ==> dedup_tempo_from(
                s,
                pre,
                seen,
            )[i].tempo != dedup_tempo_from(s, pre, seen)[i + 1].tempo,
        forall|i: int|
            #![trigger dedup_tempo_from(s, pre, seen)[i]]
            0 <= i < dedup_tempo_from(s, pre, seen).len() ==> !seen.contains(
                dedup_tempo_from(s, pre, seen)[i].tick,
            ),
        forall|i: int, j: int|
            #![trigger dedup_tempo_from(s, pre, seen)[i], dedup_tempo_from(s, pre, seen)[j]]
            0 <= i < j < dedup_tempo_from(s, pre, seen).len() ==> dedup_tempo_from(
                s,
                pre,
                seen,
            )[i].tick != dedup_tempo_from(s, pre, seen)[j].tick,
    decreases s.len(),
{
    if s.len() == 0 {
    } else if seen.contains(s[0].tick) || s[0].tempo == pre {
        lemma_dedup_tempo_from_ok(s.drop_first(), pre, seen);
    } else {
        let seen2 = seen.insert(s[0].tick);
        lemma_dedup_tempo_from_ok(s.drop_first(), s[0].tempo, seen2);
        let r = dedup_tempo_from(s, pre, seen);
        let rest = dedup_tempo_from(s.drop_first(), s[0].tempo, seen2);
        assert(r == seq![s[0]] + rest);
        assert(r[0] == s[0]);
        assert forall|i: int| #![trigger r[i]] 0 <= i && i + 1 < r.len() implies r[i].tempo != r[
            i + 1
        ].tempo by {
            if i == 0 {
                assert(r[1] == rest[0]);
            } else {
                assert(r[i] == rest[i - 1]);
                assert(r[i + 1] == rest[i]);
            }
        }
        assert forall|i: int| #![trigger r[i]] 0 <= i < r.len() implies !seen.contains(
            r[i].tick,
        ) by {
            if i > 0 {
                assert(r[i] == rest[i - 1]);
                assert(!seen2.contains(rest[i - 1].tick));
            }
        }
        assert forall|i: int, j: int|
            #![trigger r[i], r[j]]
            0 <= i < j < r.len() implies r[i].tick != r[j].tick by {
            if i == 0 {
                assert(r[j] == rest[j - 1]);
                assert(!seen2.contains(rest[j - 1].tick));
            } else {
                assert(r[i] == rest[i - 1]);
                assert(r[j] == rest[j - 1]);
            }
        }
    }
}

/// Law: the velocity-to-volume map sends 0 to 0 and 127 to 100, and is
/// monotone non-decreasing in between.
pub proof fn lemma_vol_map_monotonic(v1: int, v2: int)
    requires
        0 <= v1 <= v2,
    ensures
        map_range_spec(0, 0, 127, 0, 100) == 0,
        map_range_spec(127, 0, 127, 0, 100) == 100,
        map_range_spec(v1, 0, 127, 0, 100) <= map_range_spec(v2, 0, 127, 0, 100),
{
    assert(127int / 254 == 0) by (nonlinear_arith);
    assert(25527int / 254 == 100) by (nonlinear_arith);
    assert(rounded_div(0, 127) == 0);
    assert(rounded_div(12700, 127) == 100);
    lemma_div_is_ordered(2 * (v1 * 100) + 127, 2 * (v2 * 100) + 127, 254);
}

} // verus!
