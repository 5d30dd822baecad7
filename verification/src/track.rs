use vstd::prelude::*;

use crate::event::{DataKind, Event};
use crate::note_data::NoteData;
use crate::sort::{cst_le, sorted_cst, sorted_ct};
use crate::TempoEvent;

verus! {

/// One event of the pairing check: a note-on must be followed at once by
/// its note-off on the same key, channel and lane, strictly later.
pub open spec fn pair_ok_at(s: Seq<Event>, i: int) -> bool {
    s[i].data_kind matches DataKind::NoteOn(key_on) ==> i + 1 < s.len() && (s[i
        + 1].data_kind matches DataKind::NoteOff(key_off) && key_off.key == key_on.key) && s[i
        + 1].channel == s[i].channel && s[i + 1].sub_channel == s[i].sub_channel && s[i].tick < s[i
        + 1].tick
}

/// The structural integrity of a reconciled track: every note-on is
/// immediately paired.
pub open spec fn note_pairs_ok(s: Seq<Event>) -> bool {
    forall|i: int| 0 <= i < s.len() ==> #[trigger] pair_ok_at(s, i)
}

/// No tempo events are left in the list.
pub open spec fn no_tempo(s: Seq<Event>) -> bool {
    forall|i: int| 0 <= i < s.len() ==> !(#[trigger] s[i].data_kind is ChangeTempo)
}

/// Adjacent events of one (channel, lane) never step backward in time.
pub open spec fn lane_monotonic(s: Seq<Event>) -> bool {
    forall|i: int|
        0 <= i && i + 1 < s.len() && s[i].channel == s[i + 1].channel && s[i].sub_channel == s[i
            + 1].sub_channel ==> #[trigger] s[i].tick <= s[i + 1].tick
}

/// How a pass may touch the shared tempo ledger: points are never added,
/// removed or reordered, their ticks and tempos never change, and the
/// enable flag only ever falls from true to false.
pub open spec fn ledger_only_disabled(pre: Seq<TempoEvent>, post: Seq<TempoEvent>) -> bool {
    post.len() == pre.len() && forall|i: int|
        0 <= i < pre.len() ==> (#[trigger] post[i]).tick == pre[i].tick && post[i].tempo
            == pre[i].tempo && (post[i].enable ==> pre[i].enable)
}

/// Law: a list in full (channel, lane, tick) order is in particular
/// monotonic inside every lane.
pub proof fn lemma_sorted_lane_monotonic(s: Seq<Event>)
    ensures
        sorted_cst(s) ==> lane_monotonic(s),
{
    if sorted_cst(s) {
        assert forall|i: int|
            0 <= i && i + 1 < s.len() && s[i].channel == s[i + 1].channel && s[i].sub_channel
                == s[i + 1].sub_channel implies #[trigger] s[i].tick <= s[i + 1].tick by {
            assert(cst_le(s[i], s[i + 1]));
        }
    }
}

/// Every note event of `out` is drawn from `src`: some source event
/// carries the same channel, tick and kind (the assigned lane may differ).
pub open spec fn note_sourced(out: Seq<Event>, src: Seq<Event>) -> bool {
    forall|p: int|
        0 <= p < out.len() && ((#[trigger] out[p]).data_kind is NoteOn || out[p].data_kind
            is NoteOff) ==> exists|j: int|
            0 <= j < src.len() && (#[trigger] src[j]).channel == out[p].channel && src[j].tick
                == out[p].tick && src[j].data_kind == out[p].data_kind
}

/// A permutation draws every note from its source.
proof fn lemma_perm_note_sourced(src: Seq<Event>, out: Seq<Event>)
    requires
        src.to_multiset() == out.to_multiset(),
    ensures
        note_sourced(out, src),
{
    assert forall|p: int|
        0 <= p < out.len() && ((#[trigger] out[p]).data_kind is NoteOn || out[p].data_kind
            is NoteOff) implies exists|j: int|
        0 <= j < src.len() && (#[trigger] src[j]).channel == out[p].channel && src[j].tick
            == out[p].tick && src[j].data_kind == out[p].data_kind by {
        broadcast use vstd::seq_lib::group_to_multiset_ensures;

        assert(out.contains(out[p]));
        assert(out.to_multiset().count(out[p]) > 0);
        assert(src.contains(out[p]));
        let j = choose|j: int| 0 <= j < src.len() && src[j] == out[p];
        assert(src[j].channel == out[p].channel);
    }
}

/// Appending one event keeps the notes sourced, given a witness `j` for
/// it when it is itself a note.
proof fn lemma_note_sourced_push(out: Seq<Event>, src: Seq<Event>, e: Event, j: int)
    requires
        note_sourced(out, src),
        (e.data_kind is NoteOn || e.data_kind is NoteOff) ==> 0 <= j < src.len()
            && src[j].channel == e.channel && src[j].tick == e.tick && src[j].data_kind
            == e.data_kind,
    ensures
        note_sourced(out.push(e), src),
{
    let out2 = out.push(e);
    assert forall|p: int|
        0 <= p < out2.len() && ((#[trigger] out2[p]).data_kind is NoteOn || out2[p].data_kind
            is NoteOff) implies exists|q: int|
        0 <= q < src.len() && (#[trigger] src[q]).channel == out2[p].channel && src[q].tick
            == out2[p].tick && src[q].data_kind == out2[p].data_kind by {
        if p < out.len() {
            assert(out2[p] == out[p]);
            assert(out[p].data_kind is NoteOn || out[p].data_kind is NoteOff);
            let q = choose|q: int|
                0 <= q < src.len() && (#[trigger] src[q]).channel == out[p].channel && src[q].tick
                    == out[p].tick && src[q].data_kind == out[p].data_kind;
            assert(src[q].channel == out2[p].channel);
        } else {
            assert(out2[p] == e);
            assert(src[j].channel == e.channel);
        }
    }
}

/// Drawing notes from a source is transitive.
proof fn lemma_note_sourced_trans(a: Seq<Event>, b: Seq<Event>, c: Seq<Event>)
    requires
        note_sourced(b, a),
        note_sourced(c, b),
    ensures
        note_sourced(c, a),
{
    assert forall|p: int|
        0 <= p < c.len() && ((#[trigger] c[p]).data_kind is NoteOn || c[p].data_kind is NoteOff)
        implies exists|j: int|
        0 <= j < a.len() && (#[trigger] a[j]).channel == c[p].channel && a[j].tick == c[p].tick
            && a[j].data_kind == c[p].data_kind by {
        let q = choose|q: int|
            0 <= q < b.len() && (#[trigger] b[q]).channel == c[p].channel && b[q].tick == c[p].tick
                && b[q].data_kind == c[p].data_kind;
        assert(b[q].data_kind is NoteOn || b[q].data_kind is NoteOff);
        let j = choose|j: int|
            0 <= j < a.len() && (#[trigger] a[j]).channel == b[q].channel && a[j].tick == b[q].tick
                && a[j].data_kind == b[q].data_kind;
        assert(a[j].channel == c[p].channel);
    }
}

/// Every note event of `out` descends from a source note of the same
/// channel, lane and kind whose tick is no earlier: quantization may only
/// have moved it backward.
pub open spec fn note_sourced_le(out: Seq<Event>, src: Seq<Event>) -> bool {
    forall|p: int|
        0 <= p < out.len() && ((#[trigger] out[p]).data_kind is NoteOn || out[p].data_kind
            is NoteOff) ==> exists|j: int|
            0 <= j < src.len() && (#[trigger] src[j]).channel == out[p].channel
                && src[j].sub_channel == out[p].sub_channel && src[j].data_kind
                == out[p].data_kind && out[p].tick <= src[j].tick
}

/// Every note event of `src` survives into `out` on the same channel,
/// lane and kind, its tick at most what it was: no note is lost.
pub open spec fn notes_kept_le(src: Seq<Event>, out: Seq<Event>) -> bool {
    forall|j: int|
        0 <= j < src.len() && ((#[trigger] src[j]).data_kind is NoteOn || src[j].data_kind
            is NoteOff) ==> exists|p: int|
            0 <= p < out.len() && (#[trigger] out[p]).channel == src[j].channel
                && out[p].sub_channel == src[j].sub_channel && out[p].data_kind
                == src[j].data_kind && out[p].tick <= src[j].tick
}

/// A permutation relates the notes exactly, in both directions.
proof fn lemma_perm_note_bijection(src: Seq<Event>, out: Seq<Event>)
    requires
        src.to_multiset() == out.to_multiset(),
    ensures
        note_sourced_le(out, src),
        notes_kept_le(src, out),
{
    assert forall|p: int|
        0 <= p < out.len() && ((#[trigger] out[p]).data_kind is NoteOn || out[p].data_kind
            is NoteOff) implies exists|j: int|
        0 <= j < src.len() && (#[trigger] src[j]).channel == out[p].channel && src[j].sub_channel
            == out[p].sub_channel && src[j].data_kind == out[p].data_kind && out[p].tick
            <= src[j].tick by {
        broadcast use vstd::seq_lib::group_to_multiset_ensures;

        assert(out.contains(out[p]));
        assert(out.to_multiset().count(out[p]) > 0);
        assert(src.contains(out[p]));
        let j = choose|j: int| 0 <= j < src.len() && src[j] == out[p];
        assert(src[j].channel == out[p].channel);
    }
    assert forall|j: int|
        0 <= j < src.len() && ((#[trigger] src[j]).data_kind is NoteOn || src[j].data_kind
            is NoteOff) implies exists|p: int|
        0 <= p < out.len() && (#[trigger] out[p]).channel == src[j].channel && out[p].sub_channel
            == src[j].sub_channel && out[p].data_kind == src[j].data_kind && out[p].tick
            <= src[j].tick by {
        broadcast use vstd::seq_lib::group_to_multiset_ensures;

        assert(src.contains(src[j]));
        assert(src.to_multiset().count(src[j]) > 0);
        assert(out.contains(src[j]));
        let p = choose|p: int| 0 <= p < out.len() && out[p] == src[j];
        assert(out[p].channel == src[j].channel);
    }
}

/// The tick-relaxed source relation composes.
proof fn lemma_note_sourced_le_trans(a: Seq<Event>, b: Seq<Event>, c: Seq<Event>)
    requires
        note_sourced_le(b, a),
        note_sourced_le(c, b),
    ensures
        note_sourced_le(c, a),
{
    assert forall|p: int|
        0 <= p < c.len() && ((#[trigger] c[p]).data_kind is NoteOn || c[p].data_kind is NoteOff)
        implies exists|j: int|
        0 <= j < a.len() && (#[trigger] a[j]).channel == c[p].channel && a[j].sub_channel
            == c[p].sub_channel && a[j].data_kind == c[p].data_kind && c[p].tick <= a[j].tick by {
        let q = choose|q: int|
            0 <= q < b.len() && (#[trigger] b[q]).channel == c[p].channel && b[q].sub_channel
                == c[p].sub_channel && b[q].data_kind == c[p].data_kind && c[p].tick <= b[q].tick;
        assert(b[q].data_kind is NoteOn || b[q].data_kind is NoteOff);
        let j = choose|j: int|
            0 <= j < a.len() && (#[trigger] a[j]).channel == b[q].channel && a[j].sub_channel
                == b[q].sub_channel && a[j].data_kind == b[q].data_kind && b[q].tick <= a[j].tick;
        assert(a[j].channel == c[p].channel);
    }
}

/// The tick-relaxed survival relation composes.
proof fn lemma_notes_kept_le_trans(a: Seq<Event>, b: Seq<Event>, c: Seq<Event>)
    requires
        notes_kept_le(a, b),
        notes_kept_le(b, c),
    ensures
        notes_kept_le(a, c),
{
    assert forall|j: int|
        0 <= j < a.len() && ((#[trigger] a[j]).data_kind is NoteOn || a[j].data_kind is NoteOff)
        implies exists|p: int|
        0 <= p < c.len() && (#[trigger] c[p]).channel == a[j].channel && c[p].sub_channel
            == a[j].sub_channel && c[p].data_kind == a[j].data_kind && c[p].tick <= a[j].tick by {
        let q = choose|q: int|
            0 <= q < b.len() && (#[trigger] b[q]).channel == a[j].channel && b[q].sub_channel
                == a[j].sub_channel && b[q].data_kind == a[j].data_kind && b[q].tick <= a[j].tick;
        assert(b[q].data_kind is NoteOn || b[q].data_kind is NoteOff);
        let p = choose|p: int|
            0 <= p < c.len() && (#[trigger] c[p]).channel == b[q].channel && c[p].sub_channel
                == b[q].sub_channel && c[p].data_kind == b[q].data_kind && c[p].tick
                <= b[q].tick;
        assert(c[p].channel == a[j].channel);
    }
}

/// Prepending non-note events relates the notes exactly, in both
/// directions.
proof fn lemma_prepend_note_bijection(copies: Seq<Event>, src: Seq<Event>)
    requires
        forall|p: int|
            0 <= p < copies.len() ==> !((#[trigger] copies[p]).data_kind is NoteOn) && !(
            copies[p].data_kind is NoteOff),
    ensures
        note_sourced_le(copies + src, src),
        notes_kept_le(src, copies + src),
{
    let out = copies + src;
    assert forall|p: int|
        0 <= p < out.len() && ((#[trigger] out[p]).data_kind is NoteOn || out[p].data_kind
            is NoteOff) implies exists|j: int|
        0 <= j < src.len() && (#[trigger] src[j]).channel == out[p].channel && src[j].sub_channel
            == out[p].sub_channel && src[j].data_kind == out[p].data_kind && out[p].tick
            <= src[j].tick by {
        assert(p >= copies.len());
        let j = p - copies.len();
        assert(src[j] == out[p]);
        assert(src[j].channel == out[p].channel);
    }
    assert forall|j: int|
        0 <= j < src.len() && ((#[trigger] src[j]).data_kind is NoteOn || src[j].data_kind
            is NoteOff) implies exists|p: int|
        0 <= p < out.len() && (#[trigger] out[p]).channel == src[j].channel && out[p].sub_channel
            == src[j].sub_channel && out[p].data_kind == src[j].data_kind && out[p].tick
            <= src[j].tick by {
        let p = j + copies.len();
        assert(out[p] == src[j]);
        assert(out[p].channel == src[j].channel);
    }
}

/// A pointwise change that keeps channel, lane and kind and never raises
/// a tick relates the notes exactly, in both directions.
proof fn lemma_pointwise_note_bijection(a: Seq<Event>, b: Seq<Event>)
    requires
        b.len() == a.len(),
        forall|k: int|
            0 <= k < a.len() ==> (#[trigger] b[k]).channel == a[k].channel && b[k].sub_channel
                == a[k].sub_channel && b[k].data_kind == a[k].data_kind && b[k].tick <= a[k].tick,
    ensures
        note_sourced_le(b, a),
        notes_kept_le(a, b),
{
    assert forall|p: int|
        0 <= p < b.len() && ((#[trigger] b[p]).data_kind is NoteOn || b[p].data_kind is NoteOff)
        implies exists|j: int|
        0 <= j < a.len() && (#[trigger] a[j]).channel == b[p].channel && a[j].sub_channel
            == b[p].sub_channel && a[j].data_kind == b[p].data_kind && b[p].tick <= a[j].tick by {
        assert(b[p].channel == a[p].channel);
        assert(a[p].channel == b[p].channel);
    }
    assert forall|j: int|
        0 <= j < a.len() && ((#[trigger] a[j]).data_kind is NoteOn || a[j].data_kind is NoteOff)
        implies exists|p: int|
        0 <= p < b.len() && (#[trigger] b[p]).channel == a[j].channel && b[p].sub_channel
            == a[j].sub_channel && b[p].data_kind == a[j].data_kind && b[p].tick <= a[j].tick by {
        assert(b[j].channel == a[j].channel);
    }
}

/// Every tempo event of the list is a stamped copy of an enabled ledger
/// point: disabled points reach no lane.
pub open spec fn tempo_from_ledger(s: Seq<Event>, ledger: Seq<TempoEvent>) -> bool {
    forall|p: int|
        0 <= p < s.len() ==> ((#[trigger] s[p]).data_kind matches DataKind::ChangeTempo(t)
            ==> exists|q: int|
            0 <= q < ledger.len() && (#[trigger] ledger[q]).enable && ledger[q].tick == s[p].tick
                && ledger[q].tempo == t)
}

/// A permutation preserves the ledger provenance of tempo events.
proof fn lemma_perm_tempo_from_ledger(a: Seq<Event>, b: Seq<Event>, ledger: Seq<TempoEvent>)
    requires
        a.to_multiset() == b.to_multiset(),
        tempo_from_ledger(a, ledger),
    ensures
        tempo_from_ledger(b, ledger),
{
    assert forall|p: int|
        0 <= p < b.len() implies ((#[trigger] b[p]).data_kind matches DataKind::ChangeTempo(t)
        ==> exists|q: int|
        0 <= q < ledger.len() && (#[trigger] ledger[q]).enable && ledger[q].tick == b[p].tick
            && ledger[q].tempo == t) by {
        broadcast use vstd::seq_lib::group_to_multiset_ensures;

        if b[p].data_kind is ChangeTempo {
            assert(b.contains(b[p]));
            assert(b.to_multiset().count(b[p]) > 0);
            assert(a.contains(b[p]));
            let j = choose|j: int| 0 <= j < a.len() && a[j] == b[p];
            assert(a[j].data_kind == b[p].data_kind);
        }
    }
}

/// Law: in a reconciled track (pass 1 accepted it), the note events of one
/// (channel, lane) strictly alternate: each note-on is followed at once by
/// its note-off on the same lane with a strictly greater tick, between two
/// note-ons of one lane always stands a note-off of that lane, and ticks
/// never decrease along a lane.
pub proof fn lemma_lane_alternation(s: Seq<Event>)
    requires
        note_pairs_ok(s),
        sorted_cst(s),
    ensures
        forall|i: int|
            0 <= i < s.len() && (#[trigger] s[i]).data_kind is NoteOn ==> i + 1 < s.len() && s[i
                + 1].data_kind is NoteOff && s[i + 1].channel == s[i].channel && s[i
                + 1].sub_channel == s[i].sub_channel && s[i].tick < s[i + 1].tick,
        forall|i: int, j: int|
            0 <= i < j < s.len() && (#[trigger] s[i]).data_kind is NoteOn && (#[trigger] s[j]).data_kind
                is NoteOn && s[i].channel == s[j].channel && s[i].sub_channel == s[j].sub_channel
                ==> i + 1 < j && s[i + 1].data_kind is NoteOff && s[i + 1].channel == s[j].channel
                && s[i + 1].sub_channel == s[j].sub_channel && s[i + 1].tick <= s[j].tick,
        lane_monotonic(s),
{
    assert forall|i: int|
        0 <= i < s.len() && (#[trigger] s[i]).data_kind is NoteOn implies i + 1 < s.len() && s[i
        + 1].data_kind is NoteOff && s[i + 1].channel == s[i].channel && s[i + 1].sub_channel
        == s[i].sub_channel && s[i].tick < s[i + 1].tick by {
        assert(pair_ok_at(s, i));
    }
    assert forall|i: int, j: int|
        0 <= i < j < s.len() && (#[trigger] s[i]).data_kind is NoteOn && (#[trigger] s[j]).data_kind
        is NoteOn && s[i].channel == s[j].channel && s[i].sub_channel == s[j].sub_channel implies i
        + 1 < j && s[i + 1].data_kind is NoteOff && s[i + 1].channel == s[j].channel && s[i
        + 1].sub_channel == s[j].sub_channel && s[i + 1].tick <= s[j].tick by {
        assert(pair_ok_at(s, i));
        if i + 1 < j {
            assert(cst_le(s[i + 1], s[j]));
        }
    }
    lemma_sorted_lane_monotonic(s);
}

/// Point `i` of the ledger after clearing the flag of every point at
/// `tick`: tick and tempo are untouched, the flag survives only where it
/// was set and the point stands elsewhere.
pub open spec fn disabled_at(pre: Seq<TempoEvent>, post: Seq<TempoEvent>, tick: u32, i: int) -> bool {
    &&& post[i].tick == pre[i].tick
    &&& post[i].tempo == pre[i].tempo
    &&& post[i].enable == (pre[i].enable && pre[i].tick != tick)
}

/// Clear the enable flag of every ledger point standing at `tick`.
fn disable_tempo_at(tempo_events: &mut Vec<TempoEvent>, tick: u32)
    ensures
        final(tempo_events)@.len() == old(tempo_events)@.len(),
        forall|i: int|
            0 <= i < old(tempo_events)@.len() ==> disabled_at(
                old(tempo_events)@,
                final(tempo_events)@,
                tick,
                i,
            ),
{
    let mut i: usize = 0;
    while i < tempo_events.len()
        invariant
            i <= tempo_events@.len(),
            tempo_events@.len() == old(tempo_events)@.len(),
            forall|k: int|
                i <= k < tempo_events@.len() ==> tempo_events@[k] == old(tempo_events)@[k],
            forall|k: int|
                0 <= k < i ==> disabled_at(old(tempo_events)@, tempo_events@, tick, k),
        decreases tempo_events@.len() - i,
    {
        let ghost pre = tempo_events@;
        let te = tempo_events[i];
        if te.tick == tick {
            tempo_events[i] = TempoEvent { tick: te.tick, tempo: te.tempo, enable: false };
        }
        proof {
            assert forall|k: int| 0 <= k < i + 1 implies disabled_at(
                old(tempo_events)@,
                tempo_events@,
                tick,
                k,
            ) by {
                if k < i {
                    assert(disabled_at(old(tempo_events)@, pre, tick, k));
                    assert(tempo_events@[k] == pre[k]);
                }
            }
        }
        i += 1;
    }
}

/// How many polyphony lanes one MIDI channel needed: the channel number
/// and the highest lane index that was ever assigned on it.
#[derive(Clone, Copy, PartialEq, Eq, Structural, Debug)]
pub struct ChannelData {
    pub channel: u8,
    pub sub_channel_max: u8,
}

impl ChannelData {
    pub fn new(channel: u8, sub_channel_max: u8) -> (r: Self)
        ensures
            r == (ChannelData { channel, sub_channel_max }),
    {
        ChannelData { channel, sub_channel_max }
    }
}

/// One MIDI track under reconciliation: its event list, the channels that
/// appeared in it, and the per-channel lane counts produced by pass 1.
pub struct Track {
    pub track_index: usize,
    pub events: Vec<Event>,
    pub channels: Vec<u8>,
    pub channel_data_list: Vec<ChannelData>,
}

impl Track {
    pub fn new(track_index: usize) -> (r: Self)
        ensures
            r.track_index == track_index,
            r.events@ =~= Seq::<Event>::empty(),
            r.channels@ =~= Seq::<u8>::empty(),
            r.channel_data_list@ =~= Seq::<ChannelData>::empty(),
    {
        Track {
            track_index,
            events: Vec::new(),
            channels: Vec::new(),
            channel_data_list: Vec::new(),
        }
    }

    /// Record a raw event on lane 0 and remember its channel.
    pub fn push_event(&mut self, channel: u8, tick: u32, data_kind: DataKind)
        ensures
            final(self).events@ == old(self).events@.push(
                Event { channel, sub_channel: 0, tick, data_kind },
            ),
            old(self).channels@.contains(channel) ==> final(self).channels@ == old(self).channels@,
            !old(self).channels@.contains(channel) ==> final(self).channels@ == old(
                self,
            ).channels@.push(channel),
            final(self).track_index == old(self).track_index,
            final(self).channel_data_list@ == old(self).channel_data_list@,
    {
        self.events.push(Event::new(channel, tick, data_kind));
        if !contains_u8(&self.channels, channel) {
            self.channels.push(channel);
        }
    }

    /// The lane of the first open note with the given key, if any.
    pub fn get_channel(notes: &Vec<NoteData>, key: &u8) -> (r: Option<u8>)
        ensures
            r == find_lane(notes@, *key),
            r is None ==> forall|i: int| 0 <= i < notes@.len() ==> notes@[i].key != key,
            r is Some ==> exists|i: int|
                0 <= i < notes@.len() && notes@[i].key == key && notes@[i].sub_channel == r->0
                    && (forall|j: int| 0 <= j < i ==> notes@[j].key != key),
    {
        let mut i: usize = 0;
        proof {
            assert(notes@.skip(0) =~= notes@);
        }
        while i < notes.len()
            invariant
                i <= notes@.len(),
                forall|j: int| 0 <= j < i ==> notes@[j].key != key,
                find_lane(notes@, *key) == find_lane(notes@.skip(i as int), *key),
            decreases notes@.len() - i,
        {
            proof {
                assert(notes@.skip(i as int)[0] == notes@[i as int]);
                assert(notes@.skip(i as int).drop_first() =~= notes@.skip(i as int + 1));
            }
            if notes[i].key == *key {
                return Some(notes[i].sub_channel);
            }
            i += 1;
        }
        proof {
            assert(notes@.skip(notes@.len() as int) =~= Seq::<NoteData>::empty());
        }
        None
    }

    /// The lowest lane index that no open note occupies, if one exists
    /// below the lane limit.
    pub fn get_new_channel(notes: &Vec<NoteData>) -> (r: Option<u8>)
        ensures
            r == lowest_free(notes@, 0),
            r is Some ==> r->0 < 255 && !lane_used(notes@, r->0) && (forall|m: u8|
                m < r->0 ==> lane_used(notes@, m)),
            r is None ==> forall|m: u8| m < 255 ==> lane_used(notes@, m),
    {
        let mut index: u8 = 0;
        while index < 255
            invariant
                forall|m: u8| m < index ==> lane_used(notes@, m),
                lowest_free(notes@, 0) == lowest_free(notes@, index as int),
            decreases 255 - index,
        {
            if !lane_occupied(notes, index) {
                return Some(index);
            }
            index += 1;
        }
        None
    }
}

impl Track {
    /// Keep only the events of channels that produced at least one usable
    /// note.
    fn retain_valid(&mut self, valid: &Vec<u8>)
        ensures
            final(self).track_index == old(self).track_index,
            final(self).channels@ == old(self).channels@,
            final(self).channel_data_list@ == old(self).channel_data_list@,
            sorted_cst(old(self).events@) ==> sorted_cst(final(self).events@),
            no_tempo(old(self).events@) ==> no_tempo(final(self).events@),
            note_sourced(final(self).events@, old(self).events@),
            final(self).events@ == retain_spec(old(self).events@, valid@),
            forall|p: int|
                0 <= p < final(self).events@.len() ==> valid@.contains(
                    (#[trigger] final(self).events@[p]).channel,
                ),
    {
        let ghost s0 = self.events@;
        let mut out: Vec<Event> = Vec::new();
        let mut i: usize = 0;
        proof {
            reveal_with_fuel(Seq::filter, 2);
            assert(s0.take(0) =~= Seq::<Event>::empty());
            assert(out@ =~= retain_spec(s0.take(0), valid@));
        }
        while i < self.events.len()
            invariant
                i <= s0.len(),
                self.events@ == s0,
                sorted_cst(s0) ==> sorted_cst(out@),
                sorted_cst(s0) ==> forall|p: int, k: int|
                    #![trigger out@[p], s0[k]]
                    0 <= p < out@.len() && i <= k < s0.len() ==> cst_le(out@[p], s0[k]),
                no_tempo(s0) ==> no_tempo(out@),
                note_sourced(out@, s0),
                out@ == retain_spec(s0.take(i as int), valid@),
                forall|p: int|
                    0 <= p < out@.len() ==> valid@.contains((#[trigger] out@[p]).channel),
            decreases s0.len() - i,
        {
            let ev = self.events[i];
            if contains_u8(valid, ev.channel) {
                proof {
                    lemma_note_sourced_push(out@, s0, ev, i as int);
                }
                out.push(ev);
            }
            proof {
                reveal_with_fuel(Seq::filter, 2);
                assert(s0.take(i as int + 1).drop_last() =~= s0.take(i as int));
                assert(s0.take(i as int + 1).last() == s0[i as int]);
                assert(out@ =~= retain_spec(s0.take(i as int + 1), valid@));
            }
            i += 1;
        }
        proof {
            assert(s0.take(s0.len() as int) =~= s0);
        }
        self.events = out;
    }

    /// Drop every tempo event from the list; every other event survives
    /// unchanged.
    fn strip_tempo(&mut self)
        ensures
            final(self).track_index == old(self).track_index,
            final(self).channels@ == old(self).channels@,
            final(self).channel_data_list@ == old(self).channel_data_list@,
            no_tempo(final(self).events@),
            sorted_cst(old(self).events@) ==> sorted_cst(final(self).events@),
            note_sourced_le(final(self).events@, old(self).events@),
            notes_kept_le(old(self).events@, final(self).events@),
            final(self).events@ == non_tempo_events(old(self).events@),
            no_tempo(old(self).events@) ==> final(self).events@ == old(self).events@,
    {
        let ghost s0 = self.events@;
        let mut out: Vec<Event> = Vec::new();
        let mut i: usize = 0;
        proof {
            reveal_with_fuel(Seq::filter, 2);
            assert(s0.take(0) =~= Seq::<Event>::empty());
            assert(out@ =~= non_tempo_events(s0.take(0)));
        }
        while i < self.events.len()
            invariant
                i <= s0.len(),
                self.events@ == s0,
                sorted_cst(s0) ==> sorted_cst(out@),
                sorted_cst(s0) ==> forall|p: int, k: int|
                    #![trigger out@[p], s0[k]]
                    0 <= p < out@.len() && i <= k < s0.len() ==> cst_le(out@[p], s0[k]),
                no_tempo(out@),
                note_sourced_le(out@, s0),
                out@ == non_tempo_events(s0.take(i as int)),
                no_tempo(s0) ==> out@ == s0.take(i as int),
                forall|j: int|
                    0 <= j < i && ((#[trigger] s0[j]).data_kind is NoteOn || s0[j].data_kind
                        is NoteOff) ==> exists|p: int|
                        0 <= p < out@.len() && (#[trigger] out@[p]).channel == s0[j].channel
                            && out@[p].sub_channel == s0[j].sub_channel && out@[p].data_kind
                            == s0[j].data_kind && out@[p].tick <= s0[j].tick,
            decreases s0.len() - i,
        {
            let ghost out_pre = out@;
            let ev = self.events[i];
            match ev.data_kind {
                DataKind::ChangeTempo(_) => {},
                _ => { out.push(ev); },
            }
            proof {
                if no_tempo(s0) {
                    assert(out@ =~= s0.take(i as int + 1));
                }
                reveal_with_fuel(Seq::filter, 2);
                assert(s0.take(i as int + 1).drop_last() =~= s0.take(i as int));
                assert(s0.take(i as int + 1).last() == s0[i as int]);
                assert(out@ =~= non_tempo_events(s0.take(i as int + 1)));
                assert forall|p: int|
                    0 <= p < out@.len() && ((#[trigger] out@[p]).data_kind is NoteOn
                        || out@[p].data_kind is NoteOff) implies exists|j: int|
                    0 <= j < s0.len() && (#[trigger] s0[j]).channel == out@[p].channel
                        && s0[j].sub_channel == out@[p].sub_channel && s0[j].data_kind
                        == out@[p].data_kind && out@[p].tick <= s0[j].tick by {
                    if p < out_pre.len() {
                        assert(out@[p] == out_pre[p]);
                        assert(out_pre[p].data_kind is NoteOn || out_pre[p].data_kind is NoteOff);
                        let j = choose|j: int|
                            0 <= j < s0.len() && (#[trigger] s0[j]).channel == out_pre[p].channel
                                && s0[j].sub_channel == out_pre[p].sub_channel && s0[j].data_kind
                                == out_pre[p].data_kind && out_pre[p].tick <= s0[j].tick;
                        assert(s0[j].channel == out@[p].channel);
                    } else {
                        assert(out@[p] == s0[i as int]);
                        assert(s0[i as int].channel == out@[p].channel);
                    }
                }
                assert forall|j: int|
                    0 <= j < i + 1 && ((#[trigger] s0[j]).data_kind is NoteOn || s0[j].data_kind
                        is NoteOff) implies exists|p: int|
                    0 <= p < out@.len() && (#[trigger] out@[p]).channel == s0[j].channel
                        && out@[p].sub_channel == s0[j].sub_channel && out@[p].data_kind
                        == s0[j].data_kind && out@[p].tick <= s0[j].tick by {
                    if j < i {
                        let p = choose|p: int|
                            0 <= p < out_pre.len() && (#[trigger] out_pre[p]).channel
                                == s0[j].channel && out_pre[p].sub_channel == s0[j].sub_channel
                                && out_pre[p].data_kind == s0[j].data_kind && out_pre[p].tick
                                <= s0[j].tick;
                        assert(out@[p] == out_pre[p]);
                        assert(out@[p].channel == s0[j].channel);
                    } else {
                        assert(out@[out@.len() - 1] == s0[i as int]);
                        assert(out@[out@.len() - 1].channel == s0[j].channel);
                    }
                }
            }
            i += 1;
        }
        proof {
            assert(s0.take(s0.len() as int) =~= s0);
        }
        self.events = out;
    }

    /// The pass-1 structural check: every note-on must be followed at once
    /// by its note-off on the same key, channel and lane, strictly later.
    fn check_integrity(&self) -> (r: Result<(), crate::MmlError>)
        ensures
            r is Ok <==> note_pairs_ok(self.events@),
            r is Err ==> r == Err::<(), crate::MmlError>(crate::MmlError::SoundIntegrity),
    {
        let mut i: usize = 0;
        while i < self.events.len()
            invariant
                i <= self.events@.len(),
                forall|k: int| 0 <= k < i ==> #[trigger] pair_ok_at(self.events@, k),
            decreases self.events@.len() - i,
        {
            let ev = self.events[i];
            if let DataKind::NoteOn(key_on) = ev.data_kind {
                if i + 1 >= self.events.len() {
                    assert(!pair_ok_at(self.events@, i as int));
                    return Err(crate::MmlError::SoundIntegrity);
                }
                let next = self.events[i + 1];
                let paired = match next.data_kind {
                    DataKind::NoteOff(key_off) => key_off.key == key_on.key && next.channel
                        == ev.channel && next.sub_channel == ev.sub_channel && ev.tick < next.tick,
                    _ => false,
                };
                if !paired {
                    assert(!pair_ok_at(self.events@, i as int));
                    return Err(crate::MmlError::SoundIntegrity);
                }
            }
            proof {
                assert(pair_ok_at(self.events@, i as int));
            }
            i += 1;
        }
        Ok(())
    }

    /// The per-lane ordering check of passes 2 and 3.
    fn check_monotonic(&self, err: crate::MmlError) -> (r: Result<(), crate::MmlError>)
        ensures
            r is Ok <==> lane_monotonic(self.events@),
            r is Err ==> r == Err::<(), crate::MmlError>(err),
    {
        let mut i: usize = 0;
        while i < self.events.len()
            invariant
                i <= self.events@.len(),
                forall|k: int|
                    0 <= k && k + 1 < self.events@.len() && k < i && self.events@[k].channel
                        == self.events@[k + 1].channel && self.events@[k].sub_channel
                        == self.events@[k + 1].sub_channel ==> #[trigger] self.events@[k].tick
                        <= self.events@[k + 1].tick,
            decreases self.events@.len() - i,
        {
            if i + 1 < self.events.len() {
                let ev = self.events[i];
                let next = self.events[i + 1];
                if ev.channel == next.channel && ev.sub_channel == next.sub_channel && ev.tick
                    > next.tick {
                    return Err(err);
                }
            }
            i += 1;
        }
        Ok(())
    }
}

/// Prepending only non-note events keeps the notes drawn from the old
/// list.
proof fn lemma_note_sourced_prepend(copies: Seq<Event>, src: Seq<Event>)
    requires
        forall|p: int|
            0 <= p < copies.len() ==> !((#[trigger] copies[p]).data_kind is NoteOn) && !(
            copies[p].data_kind is NoteOff),
    ensures
        note_sourced(copies + src, src),
{
    let out = copies + src;
    assert forall|p: int|
        0 <= p < out.len() && ((#[trigger] out[p]).data_kind is NoteOn || out[p].data_kind
            is NoteOff) implies exists|q: int|
        0 <= q < src.len() && (#[trigger] src[q]).channel == out[p].channel && src[q].tick
            == out[p].tick && src[q].data_kind == out[p].data_kind by {
        assert(p >= copies.len());
        let q = p - copies.len();
        assert(src[q] == out[p]);
        assert(src[q].channel == out[p].channel);
    }
}

impl Track {
    /// Put `copies` in front of the event list, as the broadcast steps of
    /// every pass insert their stamped copies at the head.
    fn prepend_events(&mut self, copies: Vec<Event>)
        ensures
            final(self).track_index == old(self).track_index,
            final(self).channels@ == old(self).channels@,
            final(self).channel_data_list@ == old(self).channel_data_list@,
            final(self).events@ == copies@ + old(self).events@,
    {
        let ghost c0 = copies@;
        let mut new_events = copies;
        let mut k: usize = 0;
        while k < self.events.len()
            invariant
                k <= self.events@.len(),
                self.track_index == old(self).track_index,
                self.channels@ == old(self).channels@,
                self.channel_data_list@ == old(self).channel_data_list@,
                self.events@ == old(self).events@,
                new_events@ == c0 + self.events@.take(k as int),
            decreases self.events@.len() - k,
        {
            let ev = self.events[k];
            new_events.push(ev);
            proof {
                assert(self.events@.take(k as int + 1) =~= self.events@.take(k as int).push(ev));
                assert(c0 + self.events@.take(k as int + 1) =~= (c0 + self.events@.take(
                    k as int,
                )).push(ev));
            }
            k += 1;
        }
        proof {
            assert(self.events@.take(self.events@.len() as int) =~= self.events@);
        }
        self.events = new_events;
    }

    /// Pass 1's lane assignment: walk the channel-grouped event list,
    /// give every note-on the lowest free lane of its channel, stamp each
    /// note-off with its note's lane, drop colliding note-ons and orphan
    /// note-offs, and record per-channel lane counts.  Returns the
    /// channels that produced at least one usable note.
    fn assign_lanes(&mut self) -> (r: Result<Vec<u8>, crate::MmlError>)
        ensures
            final(self).track_index == old(self).track_index,
            final(self).channels@ == old(self).channels@,
            note_sourced(final(self).events@, old(self).events@),
            final(self).channel_data_list@.len() >= old(self).channel_data_list@.len(),
            forall|k: int|
                0 <= k < old(self).channel_data_list@.len()
                    ==> #[trigger] final(self).channel_data_list@[k] == old(
                    self,
                ).channel_data_list@[k],
            r is Ok <==> assign_spec(old(self).events@, old(self).channel_data_list@).ok,
            r matches Ok(valid) ==> final(self).events@ == assign_spec(
                old(self).events@,
                old(self).channel_data_list@,
            ).out && final(self).channel_data_list@ == assign_spec(
                old(self).events@,
                old(self).channel_data_list@,
            ).cdl && valid@ == assign_spec(old(self).events@, old(self).channel_data_list@).valid,
            r is Err ==> final(self).events@ == old(self).events@,
            r is Err ==> r == Err::<Vec<u8>, crate::MmlError>(crate::MmlError::LaneExhausted),
    {
        let ghost s = self.events@;
        let ghost init = AssignState {
            out: Seq::empty(),
            notes: Seq::empty(),
            pre_channel: 0,
            valid: Seq::empty(),
            max: 0,
            cdl: self.channel_data_list@,
            ok: true,
        };
        let mut out: Vec<Event> = Vec::new();
        let mut notes: Vec<NoteData> = Vec::new();
        let mut pre_channel: u8 = 0;
        let mut valid_channels: Vec<u8> = Vec::new();
        let mut sub_channel_max: u8 = 0;
        let mut index: usize = 0;
        while index < self.events.len()
            invariant
                index <= self.events@.len(),
                self.track_index == old(self).track_index,
                self.channels@ == old(self).channels@,
                self.events@ == old(self).events@,
                s == old(self).events@,
                init == (AssignState {
                    out: Seq::<Event>::empty(),
                    notes: Seq::<NoteData>::empty(),
                    pre_channel: 0u8,
                    valid: Seq::<u8>::empty(),
                    max: 0u8,
                    cdl: old(self).channel_data_list@,
                    ok: true,
                }),
                note_sourced(out@, old(self).events@),
                assign_from(s, 0, init) == assign_from(
                    s,
                    index as int,
                    AssignState {
                        out: out@,
                        notes: notes@,
                        pre_channel: pre_channel,
                        valid: valid_channels@,
                        max: sub_channel_max,
                        cdl: self.channel_data_list@,
                        ok: true,
                    },
                ),
                self.channel_data_list@.len() >= old(self).channel_data_list@.len(),
                forall|k: int|
                    0 <= k < old(self).channel_data_list@.len()
                        ==> #[trigger] self.channel_data_list@[k] == old(
                        self,
                    ).channel_data_list@[k],
            decreases self.events@.len() - index,
        {
            let ghost st_pre = AssignState {
                out: out@,
                notes: notes@,
                pre_channel: pre_channel,
                valid: valid_channels@,
                max: sub_channel_max,
                cdl: self.channel_data_list@,
                ok: true,
            };
            let ev = self.events[index];
            if ev.channel != pre_channel {
                if contains_u8(&valid_channels, pre_channel) {
                    self.channel_data_list.push(ChannelData::new(pre_channel, sub_channel_max));
                }
                pre_channel = ev.channel;
                notes = Vec::new();
                sub_channel_max = 0;
            }
            match ev.data_kind {
                DataKind::NoteOn(key_data) => {
                    match Track::get_channel(&notes, &key_data.key) {
                        Some(_) => {
                            // A second note-on for a key that still sounds:
                            // one lane cannot carry the same pitch twice.
                        },
                        None => {
                            let sub_channel = match Track::get_new_channel(&notes) {
                                Some(new_channel) => new_channel,
                                None => {
                                    proof {
                                        reveal(assign_from);
                                        assert(!assign_from(s, 0, init).ok);
                                    }
                                    return Err(crate::MmlError::LaneExhausted);
                                },
                            };
                            if sub_channel > sub_channel_max {
                                sub_channel_max = sub_channel;
                            }
                            let mut stamped = ev;
                            stamped.sub_channel = sub_channel;
                            proof {
                                lemma_note_sourced_push(
                                    out@,
                                    old(self).events@,
                                    stamped,
                                    index as int,
                                );
                            }
                            out.push(stamped);
                            notes.push(NoteData::new(key_data.key, ev.tick, sub_channel));
                            if !contains_u8(&valid_channels, ev.channel) {
                                valid_channels.push(ev.channel);
                            }
                        },
                    }
                },
                DataKind::NoteOff(key_data) => {
                    match Track::get_channel(&notes, &key_data.key) {
                        Some(sub_channel) => {
                            let mut stamped = ev;
                            stamped.sub_channel = sub_channel;
                            proof {
                                lemma_note_sourced_push(
                                    out@,
                                    old(self).events@,
                                    stamped,
                                    index as int,
                                );
                            }
                            out.push(stamped);
                        },
                        None => {
                            // An orphan note-off: no note of this key is
                            // sounding; drop it.
                        },
                    }
                    notes = retain_not_key(notes, key_data.key);
                },
                DataKind::ChangeTimbre(_) => {
                    proof {
                        lemma_note_sourced_push(out@, old(self).events@, ev, index as int);
                    }
                    out.push(ev);
                },
                DataKind::ChangeTempo(_) => {
                    proof {
                        lemma_note_sourced_push(out@, old(self).events@, ev, index as int);
                    }
                    out.push(ev);
                },
            }
            proof {
                reveal(assign_from);
                assert(assign_from(s, index as int, st_pre) == assign_from(
                    s,
                    index as int + 1,
                    AssignState {
                        out: out@,
                        notes: notes@,
                        pre_channel: pre_channel,
                        valid: valid_channels@,
                        max: sub_channel_max,
                        cdl: self.channel_data_list@,
                        ok: true,
                    },
                ));
            }
            index += 1;
        }
        proof {
            reveal(assign_from);
            assert(assign_from(s, s.len() as int, AssignState {
                out: out@,
                notes: notes@,
                pre_channel: pre_channel,
                valid: valid_channels@,
                max: sub_channel_max,
                cdl: self.channel_data_list@,
                ok: true,
            }) == AssignState {
                out: out@,
                notes: notes@,
                pre_channel: pre_channel,
                valid: valid_channels@,
                max: sub_channel_max,
                cdl: self.channel_data_list@,
                ok: true,
            });
        }
        if contains_u8(&valid_channels, pre_channel) {
            self.channel_data_list.push(ChannelData::new(pre_channel, sub_channel_max));
        }
        self.events = out;
        Ok(valid_channels)
    }

    /// Pass 1's broadcast: give every lane of a channel its own copy of
    /// each timbre event (lane 0 keeps the original), and every lane of
    /// every recorded channel a copy of each enabled tempo point.
    fn broadcast_events(&mut self, tempo_events: &Vec<TempoEvent>)
        ensures
            final(self).track_index == old(self).track_index,
            final(self).channels@ == old(self).channels@,
            final(self).channel_data_list@ == old(self).channel_data_list@,
            note_sourced(final(self).events@, old(self).events@),
            final(self).events@ == tempo_copies(
                old(self).channel_data_list@,
                tempo_events@,
                0,
            ) + (timbre_copies(old(self).events@, old(self).channel_data_list@, 0) + old(
                self,
            ).events@),
    {
        let ghost full = timbre_copies(self.events@, self.channel_data_list@, 0);
        let mut copies: Vec<Event> = Vec::new();
        let mut i: usize = 0;
        proof {
            assert(Seq::<Event>::empty() + timbre_copies(self.events@, self.channel_data_list@, 0)
                =~= full);
        }
        while i < self.events.len()
            invariant
                i <= self.events@.len(),
                self.track_index == old(self).track_index,
                self.channels@ == old(self).channels@,
                self.channel_data_list@ == old(self).channel_data_list@,
                self.events@ == old(self).events@,
                full == timbre_copies(self.events@, self.channel_data_list@, 0),
                full == copies@ + timbre_copies(self.events@, self.channel_data_list@, i as int),
                forall|p: int|
                    0 <= p < copies@.len() ==> (#[trigger] copies@[p]).data_kind is ChangeTimbre,
            decreases self.events@.len() - i,
        {
            let ev = self.events[i];
            if let DataKind::ChangeTimbre(_) = ev.data_kind {
                proof {
                    assert(timbre_copies(self.events@, self.channel_data_list@, i as int)
                        =~= timbre_cd_copies(ev, self.channel_data_list@, 0) + timbre_copies(
                        self.events@,
                        self.channel_data_list@,
                        i as int + 1,
                    ));
                    assert(full =~= copies@ + timbre_cd_copies(ev, self.channel_data_list@, 0)
                        + timbre_copies(self.events@, self.channel_data_list@, i as int + 1));
                }
                let mut c: usize = 0;
                while c < self.channel_data_list.len()
                    invariant
                        ev.data_kind is ChangeTimbre,
                        self.track_index == old(self).track_index,
                        self.channels@ == old(self).channels@,
                        self.channel_data_list@ == old(self).channel_data_list@,
                        self.events@ == old(self).events@,
                        i < self.events@.len(),
                        ev == self.events@[i as int],
                        full == timbre_copies(self.events@, self.channel_data_list@, 0),
                        full == copies@ + timbre_cd_copies(ev, self.channel_data_list@, c as int)
                            + timbre_copies(self.events@, self.channel_data_list@, i as int + 1),
                        forall|p: int|
                            0 <= p < copies@.len() ==> (#[trigger] copies@[p]).data_kind
                                is ChangeTimbre,
                    decreases self.channel_data_list@.len() - c,
                {
                    let cd = self.channel_data_list[c];
                    proof {
                        assert(timbre_cd_copies(ev, self.channel_data_list@, c as int) =~= (if (
                        cd.channel == ev.channel) {
                            timbre_lane_copies(ev, cd, 1)
                        } else {
                            Seq::<Event>::empty()
                        }) + timbre_cd_copies(ev, self.channel_data_list@, c as int + 1));
                    }
                    if cd.channel == ev.channel && cd.sub_channel_max > 0 {
                        proof {
                            assert(full =~= copies@ + timbre_lane_copies(ev, cd, 1)
                                + timbre_cd_copies(ev, self.channel_data_list@, c as int + 1)
                                + timbre_copies(
                                self.events@,
                                self.channel_data_list@,
                                i as int + 1,
                            ));
                        }
                        let mut lane: u16 = 1;
                        while lane <= cd.sub_channel_max as u16
                            invariant
                                1 <= lane <= 256,
                                ev.data_kind is ChangeTimbre,
                                self.track_index == old(self).track_index,
                                self.channels@ == old(self).channels@,
                                self.channel_data_list@ == old(self).channel_data_list@,
                                self.events@ == old(self).events@,
                                i < self.events@.len(),
                                ev == self.events@[i as int],
                                c < self.channel_data_list@.len(),
                                cd == self.channel_data_list@[c as int],
                                full == timbre_copies(self.events@, self.channel_data_list@, 0),
                                full == copies@ + timbre_lane_copies(ev, cd, lane as int)
                                    + timbre_cd_copies(
                                    ev,
                                    self.channel_data_list@,
                                    c as int + 1,
                                ) + timbre_copies(
                                    self.events@,
                                    self.channel_data_list@,
                                    i as int + 1,
                                ),
                                forall|p: int|
                                    0 <= p < copies@.len() ==> (#[trigger] copies@[p]).data_kind
                                        is ChangeTimbre,
                            decreases cd.sub_channel_max as int + 1 - lane as int,
                        {
                            let ghost cp0 = copies@;
                            copies.push(
                                Event::new_with_sub(ev.channel, lane as u8, ev.tick, ev.data_kind),
                            );
                            proof {
                                assert(copies@ =~= cp0 + seq![
                                    Event {
                                        channel: ev.channel,
                                        sub_channel: lane as u8,
                                        tick: ev.tick,
                                        data_kind: ev.data_kind,
                                    },
                                ]);
                                assert(timbre_lane_copies(ev, cd, lane as int) =~= seq![
                                    Event {
                                        channel: ev.channel,
                                        sub_channel: lane as u8,
                                        tick: ev.tick,
                                        data_kind: ev.data_kind,
                                    },
                                ] + timbre_lane_copies(ev, cd, lane as int + 1));
                                assert(full =~= copies@ + timbre_lane_copies(
                                    ev,
                                    cd,
                                    lane as int + 1,
                                ) + timbre_cd_copies(ev, self.channel_data_list@, c as int + 1)
                                    + timbre_copies(
                                    self.events@,
                                    self.channel_data_list@,
                                    i as int + 1,
                                ));
                            }
                            lane += 1;
                        }
                        proof {
                            assert(timbre_lane_copies(ev, cd, lane as int)
                                =~= Seq::<Event>::empty());
                            assert(full =~= copies@ + timbre_cd_copies(
                                ev,
                                self.channel_data_list@,
                                c as int + 1,
                            ) + timbre_copies(self.events@, self.channel_data_list@, i as int + 1));
                        }
                    } else {
                        proof {
                            assert(full =~= copies@ + timbre_cd_copies(
                                ev,
                                self.channel_data_list@,
                                c as int + 1,
                            ) + timbre_copies(self.events@, self.channel_data_list@, i as int + 1));
                        }
                    }
                    c += 1;
                }
                proof {
                    assert(timbre_cd_copies(ev, self.channel_data_list@, self.channel_data_list@.len() as int)
                        =~= Seq::<Event>::empty());
                    assert(full =~= copies@ + timbre_copies(
                        self.events@,
                        self.channel_data_list@,
                        i as int + 1,
                    ));
                }
            } else {
                proof {
                    assert(timbre_copies(self.events@, self.channel_data_list@, i as int)
                        =~= Seq::<Event>::empty() + timbre_copies(
                        self.events@,
                        self.channel_data_list@,
                        i as int + 1,
                    ));
                    assert(full =~= copies@ + timbre_copies(
                        self.events@,
                        self.channel_data_list@,
                        i as int + 1,
                    ));
                }
            }
            i += 1;
        }
        let ghost c0 = copies@;
        proof {
            assert(timbre_copies(self.events@, self.channel_data_list@, self.events@.len() as int)
                =~= Seq::<Event>::empty());
            assert(copies@ + Seq::<Event>::empty() =~= copies@);
            assert(full == c0);
        }
        self.prepend_events(copies);
        let ghost mid = self.events@;
        proof {
            lemma_note_sourced_prepend(c0, old(self).events@);
        }
        self.insert_tempo_events(tempo_events);
        proof {
            lemma_note_sourced_trans(old(self).events@, mid, self.events@);
        }
    }

    /// Give every lane of every recorded channel a copy of each enabled
    /// tempo point, as passes 2 and 3 re-insert them.
    fn insert_tempo_events(&mut self, tempo_events: &Vec<TempoEvent>)
        ensures
            final(self).track_index == old(self).track_index,
            final(self).channels@ == old(self).channels@,
            final(self).channel_data_list@ == old(self).channel_data_list@,
            final(self).events@.len() >= old(self).events@.len(),
            note_sourced(final(self).events@, old(self).events@),
            note_sourced_le(final(self).events@, old(self).events@),
            notes_kept_le(old(self).events@, final(self).events@),
            tempo_from_ledger(old(self).events@, tempo_events@) ==> tempo_from_ledger(
                final(self).events@,
                tempo_events@,
            ),
            all_copies_present(final(self).events@, tempo_events@, final(self).channel_data_list@),
            forall|x: Event|
                old(self).events@.contains(x) ==> #[trigger] final(self).events@.contains(x),
            final(self).events@ == tempo_copies(old(self).channel_data_list@, tempo_events@, 0)
                + old(self).events@,
            (forall|t: int| 0 <= t < tempo_events@.len() ==> !(#[trigger] tempo_events@[t]).enable)
                ==> final(self).events@ == old(self).events@,
    {
        let ghost full_copies = tempo_copies(self.channel_data_list@, tempo_events@, 0);
        proof {
            assert(Seq::<Event>::empty() + tempo_copies(self.channel_data_list@, tempo_events@, 0)
                =~= full_copies);
        }
        let ghost none_enabled = forall|t: int|
            0 <= t < tempo_events@.len() ==> !(#[trigger] tempo_events@[t]).enable;
        let mut copies: Vec<Event> = Vec::new();
        let mut c: usize = 0;
        while c < self.channel_data_list.len()
            invariant
                self.track_index == old(self).track_index,
                self.channels@ == old(self).channels@,
                self.channel_data_list@ == old(self).channel_data_list@,
                self.events@ == old(self).events@,
                none_enabled == (forall|t: int|
                    0 <= t < tempo_events@.len() ==> !(#[trigger] tempo_events@[t]).enable),
                none_enabled ==> copies@.len() == 0,
                forall|p: int|
                    0 <= p < copies@.len() ==> (#[trigger] copies@[p]).data_kind is ChangeTempo,
                forall|p: int|
                    0 <= p < copies@.len() ==> exists|q: int|
                        0 <= q < tempo_events@.len() && (#[trigger] tempo_events@[q]).enable
                            && tempo_events@[q].tick == (#[trigger] copies@[p]).tick
                            && tempo_events@[q].tempo == copies@[p].data_kind->ChangeTempo_0,
                forall|x: int|
                    0 <= x < c ==> cd_covered(copies@, tempo_events@, #[trigger] self.channel_data_list@[x]),
                full_copies == tempo_copies(self.channel_data_list@, tempo_events@, 0),
                full_copies == copies@ + tempo_copies(
                    self.channel_data_list@,
                    tempo_events@,
                    c as int,
                ),
            decreases self.channel_data_list@.len() - c,
        {
            let cd = self.channel_data_list[c];
            proof {
                assert(tempo_copies(self.channel_data_list@, tempo_events@, c as int)
                    =~= point_copies(cd, tempo_events@, 0) + tempo_copies(
                    self.channel_data_list@,
                    tempo_events@,
                    c as int + 1,
                ));
                assert(full_copies =~= copies@ + point_copies(cd, tempo_events@, 0)
                    + tempo_copies(self.channel_data_list@, tempo_events@, c as int + 1));
            }
            let mut t: usize = 0;
            while t < tempo_events.len()
                invariant
                    t <= tempo_events@.len(),
                    self.track_index == old(self).track_index,
                    self.channels@ == old(self).channels@,
                    self.channel_data_list@ == old(self).channel_data_list@,
                    self.events@ == old(self).events@,
                    none_enabled == (forall|k: int|
                        0 <= k < tempo_events@.len() ==> !(#[trigger] tempo_events@[k]).enable),
                    none_enabled ==> copies@.len() == 0,
                    forall|p: int|
                        0 <= p < copies@.len() ==> (#[trigger] copies@[p]).data_kind
                            is ChangeTempo,
                forall|p: int|
                    0 <= p < copies@.len() ==> exists|q: int|
                        0 <= q < tempo_events@.len() && (#[trigger] tempo_events@[q]).enable
                            && tempo_events@[q].tick == (#[trigger] copies@[p]).tick
                            && tempo_events@[q].tempo == copies@[p].data_kind->ChangeTempo_0,
                    c < self.channel_data_list@.len(),
                    cd == self.channel_data_list@[c as int],
                    forall|x: int|
                        0 <= x < c ==> cd_covered(
                            copies@,
                            tempo_events@,
                            #[trigger] self.channel_data_list@[x],
                        ),
                    forall|q: int, l: u8|
                        0 <= q < t && (#[trigger] tempo_events@[q]).enable && l
                            <= cd.sub_channel_max ==> copies@.contains(
                            #[trigger] copy_event(cd, tempo_events@[q], l),
                        ),
                    full_copies == tempo_copies(self.channel_data_list@, tempo_events@, 0),
                    full_copies == copies@ + point_copies(cd, tempo_events@, t as int)
                        + tempo_copies(self.channel_data_list@, tempo_events@, c as int + 1),
                decreases tempo_events@.len() - t,
            {
                let te = tempo_events[t];
                if te.enable {
                    proof {
                        assert(point_copies(cd, tempo_events@, t as int) =~= lane_copies(cd, te, 0)
                            + point_copies(cd, tempo_events@, t as int + 1));
                        assert(full_copies =~= copies@ + lane_copies(cd, te, 0) + point_copies(
                            cd,
                            tempo_events@,
                            t as int + 1,
                        ) + tempo_copies(self.channel_data_list@, tempo_events@, c as int + 1));
                    }
                    let mut lane: u16 = 0;
                    while lane <= cd.sub_channel_max as u16
                        invariant
                            lane <= 256,
                            self.track_index == old(self).track_index,
                            self.channels@ == old(self).channels@,
                            self.channel_data_list@ == old(self).channel_data_list@,
                            self.events@ == old(self).events@,
                            !none_enabled,
                            t < tempo_events@.len(),
                            te == tempo_events@[t as int],
                            te.enable,
                            forall|p: int|
                                0 <= p < copies@.len() ==> (#[trigger] copies@[p]).data_kind
                                    is ChangeTempo,
                forall|p: int|
                    0 <= p < copies@.len() ==> exists|q: int|
                        0 <= q < tempo_events@.len() && (#[trigger] tempo_events@[q]).enable
                            && tempo_events@[q].tick == (#[trigger] copies@[p]).tick
                            && tempo_events@[q].tempo == copies@[p].data_kind->ChangeTempo_0,
                            c < self.channel_data_list@.len(),
                            cd == self.channel_data_list@[c as int],
                            forall|x: int|
                                0 <= x < c ==> cd_covered(
                                    copies@,
                                    tempo_events@,
                                    #[trigger] self.channel_data_list@[x],
                                ),
                            forall|q: int, l: u8|
                                0 <= q < t && (#[trigger] tempo_events@[q]).enable && l
                                    <= cd.sub_channel_max ==> copies@.contains(
                                    #[trigger] copy_event(cd, tempo_events@[q], l),
                                ),
                            forall|l: u8|
                                (l as int) < lane as int ==> copies@.contains(
                                    #[trigger] copy_event(cd, te, l),
                                ),
                            full_copies == tempo_copies(
                                self.channel_data_list@,
                                tempo_events@,
                                0,
                            ),
                            full_copies == copies@ + lane_copies(cd, te, lane as int)
                                + point_copies(cd, tempo_events@, t as int + 1) + tempo_copies(
                                self.channel_data_list@,
                                tempo_events@,
                                c as int + 1,
                            ),
                        decreases cd.sub_channel_max as int + 1 - lane as int,
                    {
                        let ghost cp0 = copies@;
                        proof {
                            lemma_contains_after_push(copies@, copy_event(cd, te, lane as u8));
                        }
                        copies.push(
                            Event::new_with_sub(
                                cd.channel,
                                lane as u8,
                                te.tick,
                                DataKind::ChangeTempo(te.tempo),
                            ),
                        );
                        proof {
                            assert(copies@[copies@.len() - 1] == copy_event(cd, te, lane as u8));
                            assert(copies@.contains(copy_event(cd, te, lane as u8)));
                            assert(copies@ =~= cp0 + seq![copy_event(cd, te, lane as u8)]);
                            assert(lane_copies(cd, te, lane as int) =~= seq![
                                copy_event(cd, te, lane as u8),
                            ] + lane_copies(cd, te, lane as int + 1));
                            assert(full_copies =~= copies@ + lane_copies(cd, te, lane as int + 1)
                                + point_copies(cd, tempo_events@, t as int + 1) + tempo_copies(
                                self.channel_data_list@,
                                tempo_events@,
                                c as int + 1,
                            ));
                        }
                        lane += 1;
                    }
                    proof {
                        assert(lane_copies(cd, te, lane as int) =~= Seq::<Event>::empty());
                    }
                }
                proof {
                    if !te.enable {
                        assert(point_copies(cd, tempo_events@, t as int) =~= Seq::<Event>::empty()
                            + point_copies(cd, tempo_events@, t as int + 1));
                    }
                    assert(full_copies =~= copies@ + point_copies(cd, tempo_events@, t as int + 1)
                        + tempo_copies(self.channel_data_list@, tempo_events@, c as int + 1));
                }
                t += 1;
            }
            proof {
                assert(point_copies(cd, tempo_events@, tempo_events@.len() as int)
                    =~= Seq::<Event>::empty());
                assert(full_copies =~= copies@ + tempo_copies(
                    self.channel_data_list@,
                    tempo_events@,
                    c as int + 1,
                ));
            }
            c += 1;
        }
        let ghost c0 = copies@;
        proof {
            assert(tempo_copies(
                self.channel_data_list@,
                tempo_events@,
                self.channel_data_list@.len() as int,
            ) =~= Seq::<Event>::empty());
            assert(copies@ + Seq::<Event>::empty() =~= copies@);
            assert(full_copies == c0);
            assert(all_copies_present(c0, tempo_events@, self.channel_data_list@));
        }
        self.prepend_events(copies);
        proof {
            lemma_contains_after_concat(c0, old(self).events@);
            lemma_contains_after_concat_right(c0, old(self).events@);
            lemma_copies_carry(c0, self.events@, tempo_events@, self.channel_data_list@);
            lemma_note_sourced_prepend(c0, old(self).events@);
            lemma_prepend_note_bijection(c0, old(self).events@);
            if tempo_from_ledger(old(self).events@, tempo_events@) {
                assert forall|p: int|
                    0 <= p < self.events@.len() implies ((#[trigger] self.events@[p]).data_kind
                    matches DataKind::ChangeTempo(t) ==> exists|q: int|
                    0 <= q < tempo_events@.len() && (#[trigger] tempo_events@[q]).enable
                        && tempo_events@[q].tick == self.events@[p].tick && tempo_events@[q].tempo
                        == t) by {
                    if p < c0.len() {
                        assert(self.events@[p] == c0[p]);
                    } else {
                        assert(self.events@[p] == old(self).events@[p - c0.len()]);
                    }
                }
            }
            if none_enabled {
                assert(c0 =~= Seq::<Event>::empty());
                assert(c0 + old(self).events@ =~= old(self).events@);
            }
        }
    }

    /// Pass 1's mid-note scan: a tempo change while a note sounds disables
    /// that ledger point for every track; a timbre change while a note
    /// sounds is dropped from this track only.  All tempo events are then
    /// stripped from the list.
    fn midnote_scan(&mut self, tempo_events: &mut Vec<TempoEvent>)
        ensures
            final(self).track_index == old(self).track_index,
            final(self).channels@ == old(self).channels@,
            final(self).channel_data_list@ == old(self).channel_data_list@,
            ledger_only_disabled(old(tempo_events)@, final(tempo_events)@),
            no_tempo(final(self).events@),
            sorted_cst(old(self).events@) ==> sorted_cst(final(self).events@),
            note_sourced(final(self).events@, old(self).events@),
            final(self).events@ == midnote_kept(old(self).events@, 0, false),
            forall|q: int|
                0 <= q < old(tempo_events)@.len() ==> (#[trigger] final(tempo_events)@[q]).tick
                    == old(tempo_events)@[q].tick && final(tempo_events)@[q].tempo == old(
                    tempo_events,
                )@[q].tempo && final(tempo_events)@[q].enable == (old(tempo_events)@[q].enable
                    && !midnote_disabled(old(self).events@, 0, false).contains(
                    old(tempo_events)@[q].tick,
                )),
    {
        let ghost s0 = self.events@;
        let ghost full_kept = midnote_kept(s0, 0, false);
        let ghost full_dis = midnote_disabled(s0, 0, false);
        let ghost mut d_acc: Set<u32> = Set::empty();
        let mut out: Vec<Event> = Vec::new();
        let mut note_on = false;
        let mut i: usize = 0;
        proof {
            assert(out@ + midnote_kept(s0, 0, false) =~= full_kept);
            assert(midnote_disabled(s0, 0, false).union(d_acc) =~= full_dis);
        }
        while i < self.events.len()
            invariant
                i <= s0.len(),
                self.events@ == s0,
                full_kept == midnote_kept(s0, 0, false),
                full_dis == midnote_disabled(s0, 0, false),
                self.track_index == old(self).track_index,
                self.channels@ == old(self).channels@,
                self.channel_data_list@ == old(self).channel_data_list@,
                ledger_only_disabled(old(tempo_events)@, tempo_events@),
                no_tempo(out@),
                note_sourced(out@, s0),
                full_kept == out@ + midnote_kept(s0, i as int, note_on),
                full_dis == midnote_disabled(s0, i as int, note_on).union(d_acc),
                forall|q: int|
                    0 <= q < old(tempo_events)@.len() ==> (#[trigger] tempo_events@[q]).tick
                        == old(tempo_events)@[q].tick && tempo_events@[q].tempo == old(
                        tempo_events,
                    )@[q].tempo && tempo_events@[q].enable == (old(tempo_events)@[q].enable
                        && !d_acc.contains(old(tempo_events)@[q].tick)),
                sorted_cst(s0) ==> sorted_cst(out@),
                sorted_cst(s0) ==> forall|p: int, k: int|
                    #![trigger out@[p], s0[k]]
                    0 <= p < out@.len() && i <= k < s0.len() ==> cst_le(out@[p], s0[k]),
            decreases s0.len() - i,
        {
            let ghost note_on0 = note_on;
            let ghost out0 = out@;
            let ghost dacc0 = d_acc;
            let ev = self.events[i];
            match ev.data_kind {
                DataKind::NoteOn(_) => {
                    note_on = true;
                    proof {
                        lemma_note_sourced_push(out@, s0, ev, i as int);
                    }
                    out.push(ev);
                },
                DataKind::NoteOff(_) => {
                    note_on = false;
                    proof {
                        lemma_note_sourced_push(out@, s0, ev, i as int);
                    }
                    out.push(ev);
                },
                DataKind::ChangeTempo(_) => {
                    if note_on {
                        let ghost mid = tempo_events@;
                        disable_tempo_at(tempo_events, ev.tick);
                        proof {
                            lemma_ledger_compose(old(tempo_events)@, mid, tempo_events@, ev.tick);
                            d_acc = d_acc.insert(ev.tick);
                            assert forall|q: int|
                                0 <= q < old(tempo_events)@.len() implies (
                                #[trigger] tempo_events@[q]).tick == old(tempo_events)@[q].tick
                                && tempo_events@[q].tempo == old(tempo_events)@[q].tempo
                                && tempo_events@[q].enable == (old(tempo_events)@[q].enable
                                && !d_acc.contains(old(tempo_events)@[q].tick)) by {
                                assert(disabled_at(mid, tempo_events@, ev.tick, q));
                            }
                        }
                    }
                },
                DataKind::ChangeTimbre(_) => {
                    if !note_on {
                        proof {
                            lemma_note_sourced_push(out@, s0, ev, i as int);
                        }
                        out.push(ev);
                    }
                },
            }
            proof {
                let kept_pre = midnote_kept(s0, i as int, note_on0);
                let kept_post = midnote_kept(s0, i as int + 1, note_on);
                let dis_pre = midnote_disabled(s0, i as int, note_on0);
                let dis_post = midnote_disabled(s0, i as int + 1, note_on);
                if out@.len() > out0.len() {
                    assert(kept_pre =~= seq![s0[i as int]] + kept_post);
                    assert(out0 + (seq![s0[i as int]] + kept_post) =~= out@ + kept_post);
                } else {
                    assert(kept_pre =~= kept_post);
                }
                assert(full_kept =~= out@ + kept_post);
                assert(dis_pre.union(dacc0) =~= dis_post.union(d_acc));
                assert(full_dis =~= dis_post.union(d_acc));
            }
            i += 1;
        }
        proof {
            assert(midnote_kept(s0, s0.len() as int, note_on) =~= Seq::<Event>::empty());
            assert(out@ + Seq::<Event>::empty() =~= out@);
            assert(midnote_disabled(s0, s0.len() as int, note_on) =~= Set::<u32>::empty());
            assert(Set::<u32>::empty().union(d_acc) =~= d_acc);
        }
        self.events = out;
    }
}

/// The events surviving the mid-note scan from `i` on: tempo events are
/// always stripped, a timbre change sounding inside a note is dropped,
/// and the note-on flag follows the note events of the walk.
pub open spec fn midnote_kept(s: Seq<Event>, i: int, note_on: bool) -> Seq<Event>
    decreases s.len() - i,
{
    if !(0 <= i < s.len()) {
        Seq::empty()
    } else {
        let ev = s[i];
        if ev.data_kind is NoteOn {
            seq![ev] + midnote_kept(s, i + 1, true)
        } else if ev.data_kind is NoteOff {
            seq![ev] + midnote_kept(s, i + 1, false)
        } else if ev.data_kind is ChangeTempo {
            midnote_kept(s, i + 1, note_on)
        } else if note_on {
            midnote_kept(s, i + 1, note_on)
        } else {
            seq![ev] + midnote_kept(s, i + 1, note_on)
        }
    }
}

/// The ticks of the tempo events the mid-note scan finds inside a
/// sounding note: the ledger points at these ticks are disabled for every
/// track.
pub open spec fn midnote_disabled(s: Seq<Event>, i: int, note_on: bool) -> Set<u32>
    decreases s.len() - i,
{
    if !(0 <= i < s.len()) {
        Set::empty()
    } else {
        let ev = s[i];
        if ev.data_kind is NoteOn {
            midnote_disabled(s, i + 1, true)
        } else if ev.data_kind is NoteOff {
            midnote_disabled(s, i + 1, false)
        } else if ev.data_kind is ChangeTempo && note_on {
            midnote_disabled(s, i + 1, note_on).insert(ev.tick)
        } else {
            midnote_disabled(s, i + 1, note_on)
        }
    }
}

/// The quantized image of the events from `i` on, together with the set
/// of ticks whose tempo points prove off-grid on the way.  The walk
/// carries the running (channel, lane) and the last corrected tick of the
/// lane; a lane change resets it to 0.  A note's tick snaps backward by
/// the grid residue of its gap; an off-grid tempo point leaves the gap
/// open and its tick joins the disabled set; timbre events pass through.
#[verifier::opaque]
pub open spec fn quantize_from(
    s: Seq<Event>,
    i: int,
    tpb: int,
    channel: u8,
    sub_channel: u8,
    pre_tick: int,
) -> (Seq<Event>, Set<u32>)
    decreases s.len() - i,
{
    if !(0 <= i < s.len()) {
        (Seq::empty(), Set::empty())
    } else {
        let ev = s[i];
        let boundary = ev.channel != channel || ev.sub_channel != sub_channel;
        let ch2 = if boundary {
            ev.channel
        } else {
            channel
        };
        let sub2 = if boundary {
            ev.sub_channel
        } else {
            sub_channel
        };
        let pre2: int = if boundary {
            0
        } else {
            pre_tick
        };
        if ev.data_kind is NoteOn || ev.data_kind is NoteOff {
            let rem = crate::grid::grid_rem(tpb, ev.tick - pre2);
            let tick2 = ev.tick - rem;
            let rest = quantize_from(s, i + 1, tpb, ch2, sub2, tick2);
            (
                seq![
                    Event {
                        channel: ev.channel,
                        sub_channel: ev.sub_channel,
                        tick: tick2 as u32,
                        data_kind: ev.data_kind,
                    },
                ] + rest.0,
                rest.1,
            )
        } else if ev.data_kind is ChangeTempo {
            let rem = crate::grid::grid_rem(tpb, ev.tick - pre2);
            if rem != 0 {
                let rest = quantize_from(s, i + 1, tpb, ch2, sub2, pre2);
                (seq![ev] + rest.0, rest.1.insert(ev.tick))
            } else {
                let rest = quantize_from(s, i + 1, tpb, ch2, sub2, ev.tick as int);
                (seq![ev] + rest.0, rest.1)
            }
        } else {
            let rest = quantize_from(s, i + 1, tpb, ch2, sub2, pre2);
            (seq![ev] + rest.0, rest.1)
        }
    }
}

/// The list without its tempo events, everything else in place.
pub open spec fn non_tempo_events(s: Seq<Event>) -> Seq<Event> {
    s.filter(|e: Event| !(e.data_kind is ChangeTempo))
}

/// The list restricted to the channels that produced a usable note.
pub open spec fn retain_spec(s: Seq<Event>, valid: Seq<u8>) -> Seq<Event> {
    s.filter(|e: Event| valid.contains(e.channel))
}

/// The copies of one timbre event for the extra lanes of one channel,
/// from `lane` up to the descriptor's maximum (lane 0 keeps the
/// original).
pub open spec fn timbre_lane_copies(ev: Event, cd: ChannelData, lane: int) -> Seq<Event>
    decreases cd.sub_channel_max + 1 - lane,
{
    if !(1 <= lane <= cd.sub_channel_max) {
        Seq::empty()
    } else {
        seq![
            Event {
                channel: ev.channel,
                sub_channel: lane as u8,
                tick: ev.tick,
                data_kind: ev.data_kind,
            },
        ] + timbre_lane_copies(ev, cd, lane + 1)
    }
}

/// The copies of one timbre event across the descriptors from `c` on.
pub open spec fn timbre_cd_copies(ev: Event, cdl: Seq<ChannelData>, c: int) -> Seq<Event>
    decreases cdl.len() - c,
{
    if !(0 <= c < cdl.len()) {
        Seq::empty()
    } else {
        (if cdl[c].channel == ev.channel {
            timbre_lane_copies(ev, cdl[c], 1)
        } else {
            Seq::empty()
        }) + timbre_cd_copies(ev, cdl, c + 1)
    }
}

/// Everything pass 1's timbre broadcast inserts: for each timbre event of
/// the list from `i` on, one copy per extra lane of its channel.
pub open spec fn timbre_copies(s: Seq<Event>, cdl: Seq<ChannelData>, i: int) -> Seq<Event>
    decreases s.len() - i,
{
    if !(0 <= i < s.len()) {
        Seq::empty()
    } else {
        (if s[i].data_kind is ChangeTimbre {
            timbre_cd_copies(s[i], cdl, 0)
        } else {
            Seq::empty()
        }) + timbre_copies(s, cdl, i + 1)
    }
}

/// The stamped copy that the broadcast of passes 2 and 3 makes of one
/// ledger point for one lane of one channel.
pub open spec fn copy_event(cd: ChannelData, te: TempoEvent, lane: u8) -> Event {
    Event {
        channel: cd.channel,
        sub_channel: lane,
        tick: te.tick,
        data_kind: DataKind::ChangeTempo(te.tempo),
    }
}

/// The stamped copies of one ledger point for the lanes of one channel,
/// from `lane` up to the descriptor's maximum.
pub open spec fn lane_copies(cd: ChannelData, te: TempoEvent, lane: int) -> Seq<Event>
    decreases cd.sub_channel_max + 1 - lane,
{
    if !(0 <= lane <= cd.sub_channel_max) {
        Seq::empty()
    } else {
        seq![copy_event(cd, te, lane as u8)] + lane_copies(cd, te, lane + 1)
    }
}

/// The stamped copies of the enabled ledger points from `t` on, for every
/// lane of one channel.
pub open spec fn point_copies(cd: ChannelData, ledger: Seq<TempoEvent>, t: int) -> Seq<Event>
    decreases ledger.len() - t,
{
    if !(0 <= t < ledger.len()) {
        Seq::empty()
    } else {
        (if ledger[t].enable {
            lane_copies(cd, ledger[t], 0)
        } else {
            Seq::empty()
        }) + point_copies(cd, ledger, t + 1)
    }
}

/// Everything the broadcast of passes 2 and 3 inserts: one stamped copy of
/// each enabled ledger point per (channel, lane) of the descriptors from
/// `c` on, in walk order.
pub open spec fn tempo_copies(cdl: Seq<ChannelData>, ledger: Seq<TempoEvent>, c: int) -> Seq<Event>
    decreases cdl.len() - c,
{
    if !(0 <= c < cdl.len()) {
        Seq::empty()
    } else {
        point_copies(cdl[c], ledger, 0) + tempo_copies(cdl, ledger, c + 1)
    }
}

/// Every enabled ledger point has its stamped copy in `s` on every lane of
/// the descriptor `cd`.
pub open spec fn cd_covered(s: Seq<Event>, ledger: Seq<TempoEvent>, cd: ChannelData) -> bool {
    forall|q: int, l: u8|
        0 <= q < ledger.len() && (#[trigger] ledger[q]).enable && l <= cd.sub_channel_max
            ==> s.contains(#[trigger] copy_event(cd, ledger[q], l))
}

/// Every enabled ledger point has its stamped copy in `s` on every lane of
/// every channel descriptor: the re-insertion really happened.
pub open spec fn all_copies_present(
    s: Seq<Event>,
    ledger: Seq<TempoEvent>,
    cdl: Seq<ChannelData>,
) -> bool {
    forall|c: int| 0 <= c < cdl.len() ==> cd_covered(s, ledger, #[trigger] cdl[c])
}

/// Appending an event loses no membership.
proof fn lemma_contains_after_push(s: Seq<Event>, e: Event)
    ensures
        forall|x: Event| s.contains(x) ==> #[trigger] s.push(e).contains(x),
{
    assert forall|x: Event| s.contains(x) implies #[trigger] s.push(e).contains(x) by {
        let k = choose|k: int| 0 <= k < s.len() && s[k] == x;
        assert(s.push(e)[k] == x);
    }
}

/// Concatenating on the right loses no membership of the left part.
proof fn lemma_contains_after_concat(a: Seq<Event>, b: Seq<Event>)
    ensures
        forall|x: Event| a.contains(x) ==> #[trigger] (a + b).contains(x),
{
    assert forall|x: Event| a.contains(x) implies #[trigger] (a + b).contains(x) by {
        let k = choose|k: int| 0 <= k < a.len() && a[k] == x;
        assert((a + b)[k] == x);
    }
}

/// Concatenating on the left loses no membership of the right part.
proof fn lemma_contains_after_concat_right(a: Seq<Event>, b: Seq<Event>)
    ensures
        forall|x: Event| b.contains(x) ==> #[trigger] (a + b).contains(x),
{
    assert forall|x: Event| b.contains(x) implies #[trigger] (a + b).contains(x) by {
        let k = choose|k: int| 0 <= k < b.len() && b[k] == x;
        assert((a + b)[a.len() + k] == x);
    }
}

/// A permutation keeps every membership.
proof fn lemma_perm_contains(a: Seq<Event>, b: Seq<Event>)
    requires
        a.to_multiset() == b.to_multiset(),
    ensures
        forall|x: Event| a.contains(x) ==> #[trigger] b.contains(x),
{
    assert forall|x: Event| a.contains(x) implies #[trigger] b.contains(x) by {
        broadcast use vstd::seq_lib::group_to_multiset_ensures;

        assert(a.to_multiset().count(x) > 0);
    }
}

/// Membership of every stamped copy carries across any list change that
/// loses no membership.
proof fn lemma_copies_carry(
    s1: Seq<Event>,
    s2: Seq<Event>,
    ledger: Seq<TempoEvent>,
    cdl: Seq<ChannelData>,
)
    requires
        all_copies_present(s1, ledger, cdl),
        forall|x: Event| s1.contains(x) ==> #[trigger] s2.contains(x),
    ensures
        all_copies_present(s2, ledger, cdl),
{
    assert forall|c: int| 0 <= c < cdl.len() implies cd_covered(s2, ledger, #[trigger] cdl[c]) by {
        assert(cd_covered(s1, ledger, cdl[c]));
        assert forall|q: int, l: u8|
            0 <= q < ledger.len() && (#[trigger] ledger[q]).enable && l
                <= cdl[c].sub_channel_max implies s2.contains(
            #[trigger] copy_event(cdl[c], ledger[q], l)) by {
            assert(s1.contains(copy_event(cdl[c], ledger[q], l)));
        }
    }
}

/// The running state of pass 1's lane assignment: the kept events so
/// far, the open-note set of the current channel, the channel being
/// walked, the channels that produced a usable note, the highest lane the
/// current channel needed, the recorded descriptors, and whether the walk
/// has not run out of lanes.
pub ghost struct AssignState {
    pub out: Seq<Event>,
    pub notes: Seq<NoteData>,
    pub pre_channel: u8,
    pub valid: Seq<u8>,
    pub max: u8,
    pub cdl: Seq<ChannelData>,
    pub ok: bool,
}

/// One full lane-assignment walk from event `i` on: at a channel change
/// the finished channel's descriptor is recorded if it was valid; a
/// colliding note-on and an orphan note-off are dropped; a kept note-on
/// takes the lowest free lane, a kept note-off its note's lane; running
/// out of lanes halts the walk with `ok == false`.
#[verifier::opaque]
pub open spec fn assign_from(s: Seq<Event>, i: int, st: AssignState) -> AssignState
    decreases s.len() - i,
{
    if !(0 <= i < s.len()) || !st.ok {
        st
    } else {
        let ev = s[i];
        let st1 = if ev.channel != st.pre_channel {
            AssignState {
                cdl: if st.valid.contains(st.pre_channel) {
                    st.cdl.push(
                        ChannelData { channel: st.pre_channel, sub_channel_max: st.max },
                    )
                } else {
                    st.cdl
                },
                pre_channel: ev.channel,
                notes: Seq::empty(),
                max: 0,
                ..st
            }
        } else {
            st
        };
        match ev.data_kind {
            DataKind::NoteOn(key_data) => {
                if find_lane(st1.notes, key_data.key) is Some {
                    assign_from(s, i + 1, st1)
                } else {
                    match lowest_free(st1.notes, 0) {
                        Option::None => AssignState { ok: false, ..st1 },
                        Option::Some(lane) => assign_from(
                            s,
                            i + 1,
                            AssignState {
                                out: st1.out.push(
                                    Event {
                                        channel: ev.channel,
                                        sub_channel: lane,
                                        tick: ev.tick,
                                        data_kind: ev.data_kind,
                                    },
                                ),
                                notes: st1.notes.push(
                                    NoteData {
                                        key: key_data.key,
                                        tick: ev.tick,
                                        sub_channel: lane,
                                    },
                                ),
                                max: if lane > st1.max {
                                    lane
                                } else {
                                    st1.max
                                },
                                valid: if st1.valid.contains(ev.channel) {
                                    st1.valid
                                } else {
                                    st1.valid.push(ev.channel)
                                },
                                ..st1
                            },
                        ),
                    }
                }
            },
            DataKind::NoteOff(key_data) => {
                let st2 = match find_lane(st1.notes, key_data.key) {
                    Option::Some(lane) => AssignState {
                        out: st1.out.push(
                            Event {
                                channel: ev.channel,
                                sub_channel: lane,
                                tick: ev.tick,
                                data_kind: ev.data_kind,
                            },
                        ),
                        ..st1
                    },
                    Option::None => st1,
                };
                assign_from(
                    s,
                    i + 1,
                    AssignState { notes: remove_key(st2.notes, key_data.key), ..st2 },
                )
            },
            _ => assign_from(s, i + 1, AssignState { out: st1.out.push(ev), ..st1 }),
        }
    }
}

/// The whole of pass 1's lane assignment, the last channel's descriptor
/// recorded after the walk.
pub open spec fn assign_spec(s: Seq<Event>, cdl0: Seq<ChannelData>) -> AssignState {
    let init = AssignState {
        out: Seq::empty(),
        notes: Seq::empty(),
        pre_channel: 0,
        valid: Seq::empty(),
        max: 0,
        cdl: cdl0,
        ok: true,
    };
    let fin = assign_from(s, 0, init);
    if fin.ok && fin.valid.contains(fin.pre_channel) {
        AssignState {
            cdl: fin.cdl.push(
                ChannelData { channel: fin.pre_channel, sub_channel_max: fin.max },
            ),
            ..fin
        }
    } else {
        fin
    }
}

/// Composing two ledger updates: disabling points on top of a
/// disable-only change is again a disable-only change.
proof fn lemma_ledger_compose(
    pre: Seq<TempoEvent>,
    mid: Seq<TempoEvent>,
    post: Seq<TempoEvent>,
    tick: u32,
)
    requires
        ledger_only_disabled(pre, mid),
        post.len() == mid.len(),
        forall|i: int| 0 <= i < mid.len() ==> disabled_at(mid, post, tick, i),
    ensures
        ledger_only_disabled(pre, post),
{
    assert forall|i: int|
        0 <= i < pre.len() implies (#[trigger] post[i]).tick == pre[i].tick && post[i].tempo
        == pre[i].tempo && (post[i].enable ==> pre[i].enable) by {
        assert(disabled_at(mid, post, tick, i));
        assert(mid[i].tick == pre[i].tick);
    }
}

/// The open-note working set without any note of the given key.
fn retain_not_key(notes: Vec<NoteData>, key: u8) -> (r: Vec<NoteData>)
    ensures
        r@ == remove_key(notes@, key),
        forall|p: int| 0 <= p < r@.len() ==> (#[trigger] r@[p]).key != key,
{
    let ghost full = remove_key(notes@, key);
    let mut out: Vec<NoteData> = Vec::new();
    let mut i: usize = 0;
    proof {
        assert(notes@.skip(0) =~= notes@);
        assert(out@ + remove_key(notes@, key) =~= full);
    }
    while i < notes.len()
        invariant
            i <= notes@.len(),
            full == remove_key(notes@, key),
            full == out@ + remove_key(notes@.skip(i as int), key),
            forall|p: int| 0 <= p < out@.len() ==> (#[trigger] out@[p]).key != key,
        decreases notes@.len() - i,
    {
        let ghost out0 = out@;
        proof {
            assert(notes@.skip(i as int)[0] == notes@[i as int]);
            assert(notes@.skip(i as int).drop_first() =~= notes@.skip(i as int + 1));
        }
        if notes[i].key != key {
            out.push(notes[i]);
            proof {
                assert(out@ =~= out0 + seq![notes@[i as int]]);
                assert(out0 + (seq![notes@[i as int]] + remove_key(
                    notes@.skip(i as int + 1),
                    key,
                )) =~= out@ + remove_key(notes@.skip(i as int + 1), key));
            }
        }
        i += 1;
    }
    proof {
        assert(notes@.skip(notes@.len() as int) =~= Seq::<NoteData>::empty());
        assert(out@ + Seq::<NoteData>::empty() =~= out@);
    }
    out
}

/// Whether some open note occupies the given lane.
pub open spec fn lane_used(notes: Seq<NoteData>, lane: u8) -> bool {
    exists|i: int| 0 <= i < notes.len() && notes[i].sub_channel == lane
}

/// The lane of the first open note with the given key, if any.
pub open spec fn find_lane(notes: Seq<NoteData>, key: u8) -> Option<u8>
    decreases notes.len(),
{
    if notes.len() == 0 {
        None
    } else if notes[0].key == key {
        Some(notes[0].sub_channel)
    } else {
        find_lane(notes.drop_first(), key)
    }
}

/// The lowest free lane at or above `from`, if one exists below the lane
/// limit.
pub open spec fn lowest_free(notes: Seq<NoteData>, from: int) -> Option<u8>
    decreases 255 - from,
{
    if !(0 <= from < 255) {
        None
    } else if !lane_used(notes, from as u8) {
        Some(from as u8)
    } else {
        lowest_free(notes, from + 1)
    }
}

/// The open-note set without any note of the given key.
pub open spec fn remove_key(notes: Seq<NoteData>, key: u8) -> Seq<NoteData>
    decreases notes.len(),
{
    if notes.len() == 0 {
        Seq::empty()
    } else if notes[0].key == key {
        remove_key(notes.drop_first(), key)
    } else {
        seq![notes[0]] + remove_key(notes.drop_first(), key)
    }
}

fn lane_occupied(notes: &Vec<NoteData>, lane: u8) -> (r: bool)
    ensures
        r == lane_used(notes@, lane),
{
    let mut i: usize = 0;
    while i < notes.len()
        invariant
            i <= notes@.len(),
            forall|j: int| 0 <= j < i ==> notes@[j].sub_channel != lane,
        decreases notes@.len() - i,
    {
        if notes[i].sub_channel == lane {
            assert(lane_used(notes@, lane));
            return true;
        }
        i += 1;
    }
    false
}

pub(crate) fn contains_u8(v: &Vec<u8>, x: u8) -> (r: bool)
    ensures
        r == v@.contains(x),
{
    let mut i: usize = 0;
    while i < v.len()
        invariant
            i <= v@.len(),
            forall|j: int| 0 <= j < i ==> v@[j] != x,
        decreases v@.len() - i,
    {
        if v[i] == x {
            assert(v@.contains(x)) by { assert(v@[i as int] == x); }
            return true;
        }
        i += 1;
    }
    false
}

impl Track {
    /// Pass 2's quantization: snap each note's inter-event gap backward
    /// onto the beat grid, exactly as `quantize_from` describes, and
    /// disable the ledger point of any tempo event whose gap the grid
    /// cannot express.  Timbre events pass through untouched.
    fn quantize(&mut self, ticks_per_beat: u32, tempo_events: &mut Vec<TempoEvent>)
        requires
            ticks_per_beat <= 0x3FFF_FFFF,
            sorted_cst(old(self).events@),
            old(self).events@.len() > 0,
        ensures
            final(self).track_index == old(self).track_index,
            final(self).channels@ == old(self).channels@,
            final(self).channel_data_list@ == old(self).channel_data_list@,
            final(self).events@.len() == old(self).events@.len(),
            final(self).events@ == quantize_from(
                old(self).events@,
                0,
                ticks_per_beat as int,
                old(self).events@[0].channel,
                old(self).events@[0].sub_channel,
                0,
            ).0,
            forall|q: int|
                0 <= q < old(tempo_events)@.len() ==> (#[trigger] final(tempo_events)@[q]).tick
                    == old(tempo_events)@[q].tick && final(tempo_events)@[q].tempo == old(
                    tempo_events,
                )@[q].tempo && final(tempo_events)@[q].enable == (old(tempo_events)@[q].enable
                    && !quantize_from(
                    old(self).events@,
                    0,
                    ticks_per_beat as int,
                    old(self).events@[0].channel,
                    old(self).events@[0].sub_channel,
                    0,
                ).1.contains(old(tempo_events)@[q].tick)),
            forall|k: int|
                0 <= k < old(self).events@.len() ==> (#[trigger] final(self).events@[k]).channel
                    == old(self).events@[k].channel && final(self).events@[k].sub_channel == old(
                    self,
                ).events@[k].sub_channel && final(self).events@[k].data_kind == old(
                    self,
                ).events@[k].data_kind && final(self).events@[k].tick <= old(self).events@[k].tick
                    && (!(old(self).events@[k].data_kind is NoteOn) && !(old(
                    self,
                ).events@[k].data_kind is NoteOff) ==> final(self).events@[k].tick == old(
                    self,
                ).events@[k].tick),
            ledger_only_disabled(old(tempo_events)@, final(tempo_events)@),
    {
        let ghost s0 = self.events@;
        let ghost tpbi = ticks_per_beat as int;
        let ghost full = quantize_from(s0, 0, tpbi, s0[0].channel, s0[0].sub_channel, 0);
        let ghost mut d_acc: Set<u32> = Set::empty();
        let mut channel = self.events[0].channel;
        let mut sub_channel = self.events[0].sub_channel;
        let mut pre_tick: u32 = 0;
        let mut i: usize = 0;
        proof {
            reveal(quantize_from);
            assert(s0.take(0) + quantize_from(s0, 0, tpbi, channel, sub_channel, 0).0 =~= full.0);
            assert(quantize_from(s0, 0, tpbi, channel, sub_channel, 0).1.union(d_acc) =~= full.1);
        }
        while i < self.events.len()
            invariant
                i <= s0.len(),
                self.events@.len() == s0.len(),
                ticks_per_beat <= 0x3FFF_FFFF,
                tpbi == ticks_per_beat as int,
                sorted_cst(s0),
                full == quantize_from(s0, 0, tpbi, s0[0].channel, s0[0].sub_channel, 0),
                self.track_index == old(self).track_index,
                self.channels@ == old(self).channels@,
                self.channel_data_list@ == old(self).channel_data_list@,
                ledger_only_disabled(old(tempo_events)@, tempo_events@),
                forall|k: int| i <= k < s0.len() ==> #[trigger] self.events@[k] == s0[k],
                forall|k: int|
                    0 <= k < i ==> (#[trigger] self.events@[k]).channel == s0[k].channel
                        && self.events@[k].sub_channel == s0[k].sub_channel
                        && self.events@[k].data_kind == s0[k].data_kind && self.events@[k].tick
                        <= s0[k].tick && (!(s0[k].data_kind is NoteOn) && !(s0[k].data_kind
                        is NoteOff) ==> self.events@[k].tick == s0[k].tick),
                forall|k: int|
                    i <= k < s0.len() && (#[trigger] s0[k]).channel == channel
                        && s0[k].sub_channel == sub_channel ==> pre_tick <= s0[k].tick,
                full.0 == self.events@.take(i as int) + quantize_from(
                    s0,
                    i as int,
                    tpbi,
                    channel,
                    sub_channel,
                    pre_tick as int,
                ).0,
                full.1 == quantize_from(
                    s0,
                    i as int,
                    tpbi,
                    channel,
                    sub_channel,
                    pre_tick as int,
                ).1.union(d_acc),
                forall|q: int|
                    0 <= q < old(tempo_events)@.len() ==> (#[trigger] tempo_events@[q]).tick
                        == old(tempo_events)@[q].tick && tempo_events@[q].tempo == old(
                        tempo_events,
                    )@[q].tempo && tempo_events@[q].enable == (old(tempo_events)@[q].enable
                        && !d_acc.contains(old(tempo_events)@[q].tick)),
            decreases s0.len() - i,
        {
            let ghost ch0 = channel;
            let ghost sub0 = sub_channel;
            let ghost pt0 = pre_tick;
            let ghost dacc0 = d_acc;
            let ghost evts0 = self.events@;
            let ev = self.events[i];
            if ev.channel != channel || ev.sub_channel != sub_channel {
                channel = ev.channel;
                sub_channel = ev.sub_channel;
                pre_tick = 0;
            }
            proof {
                assert forall|k: int|
                    i < k < s0.len() && (#[trigger] s0[k]).channel == channel && s0[k].sub_channel
                        == sub_channel implies ev.tick <= s0[k].tick by {
                    assert(cst_le(s0[i as int], s0[k]));
                }
            }
            let is_note = match ev.data_kind {
                DataKind::NoteOn(_) => true,
                DataKind::NoteOff(_) => true,
                _ => false,
            };
            if is_note {
                let remainder = Track::divsion_tick(ticks_per_beat, ev.tick - pre_tick);
                proof {
                    crate::grid::lemma_grid_rem_total(
                        ticks_per_beat as int,
                        (ev.tick - pre_tick) as int,
                    );
                }
                if remainder != 0 {
                    let mut snapped = ev;
                    snapped.tick = ev.tick - remainder;
                    self.events[i] = snapped;
                    pre_tick = snapped.tick;
                } else {
                    pre_tick = ev.tick;
                }
            } else if let DataKind::ChangeTempo(_) = ev.data_kind {
                let remainder = Track::divsion_tick(ticks_per_beat, ev.tick - pre_tick);
                if remainder != 0 {
                    let ghost mid = tempo_events@;
                    disable_tempo_at(tempo_events, ev.tick);
                    proof {
                        lemma_ledger_compose(old(tempo_events)@, mid, tempo_events@, ev.tick);
                        d_acc = d_acc.insert(ev.tick);
                        assert forall|q: int|
                            0 <= q < old(tempo_events)@.len() implies (
                            #[trigger] tempo_events@[q]).tick == old(tempo_events)@[q].tick
                            && tempo_events@[q].tempo == old(tempo_events)@[q].tempo
                            && tempo_events@[q].enable == (old(tempo_events)@[q].enable
                            && !d_acc.contains(old(tempo_events)@[q].tick)) by {
                            assert(disabled_at(mid, tempo_events@, ev.tick, q));
                        }
                    }
                } else {
                    pre_tick = ev.tick;
                }
            }
            proof {
                reveal(quantize_from);
                let suf = quantize_from(s0, i as int, tpbi, ch0, sub0, pt0 as int);
                let suf2 = quantize_from(
                    s0,
                    i as int + 1,
                    tpbi,
                    channel,
                    sub_channel,
                    pre_tick as int,
                );
                assert(suf.0 =~= seq![self.events@[i as int]] + suf2.0);
                assert(self.events@.take(i as int) =~= evts0.take(i as int));
                assert(self.events@.take(i as int + 1) =~= self.events@.take(i as int).push(
                    self.events@[i as int],
                ));
                assert(full.0 =~= self.events@.take(i as int + 1) + suf2.0);
                assert(full.1 =~= suf2.1.union(d_acc));
            }
            i += 1;
        }
        proof {
            reveal(quantize_from);
            assert(quantize_from(s0, s0.len() as int, tpbi, channel, sub_channel, pre_tick as int).0
                =~= Seq::<Event>::empty());
            assert(self.events@.take(s0.len() as int) =~= self.events@);
            assert(full.0 =~= self.events@);
            assert(full.1 =~= d_acc);
        }
    }

    /// Pass 1: order the raw events, assign polyphony lanes, broadcast
    /// timbre and tempo events into every lane, drop mid-note changes, and
    /// verify that every note-on is immediately paired with its note-off.
    pub fn parse1(&mut self, tempo_events: &mut Vec<TempoEvent>) -> (r: Result<
        (),
        crate::MmlError,
    >)
        ensures
            final(self).track_index == old(self).track_index,
            final(self).channels@ == old(self).channels@,
            ledger_only_disabled(old(tempo_events)@, final(tempo_events)@),
            note_sourced(final(self).events@, old(self).events@),
            final(self).channel_data_list@.len() >= old(self).channel_data_list@.len(),
            forall|k: int|
                0 <= k < old(self).channel_data_list@.len()
                    ==> #[trigger] final(self).channel_data_list@[k] == old(
                    self,
                ).channel_data_list@[k],
            r is Ok ==> note_pairs_ok(final(self).events@) && sorted_cst(final(self).events@)
                && no_tempo(final(self).events@),
            r == Err::<(), crate::MmlError>(crate::MmlError::SoundIntegrity) ==> !note_pairs_ok(
                final(self).events@,
            ),
            r is Err ==> r == Err::<(), crate::MmlError>(crate::MmlError::LaneExhausted) || r
                == Err::<(), crate::MmlError>(crate::MmlError::SoundIntegrity),
            exists|s1: Seq<Event>, s2: Seq<Event>|
                #![trigger s1.to_multiset(), s2.to_multiset()]
                {
                    let walk = assign_spec(s1, old(self).channel_data_list@);
                    s1.to_multiset() == old(self).events@.to_multiset() && sorted_ct(s1) && (r
                        == Err::<(), crate::MmlError>(crate::MmlError::LaneExhausted)
                        <==> !walk.ok) && (walk.ok ==> (s2.to_multiset() == (tempo_copies(
                        walk.cdl,
                        old(tempo_events)@,
                        0,
                    ) + (timbre_copies(walk.out, walk.cdl, 0) + walk.out)).to_multiset()
                        && sorted_cst(s2) && final(self).events@ == midnote_kept(
                        retain_spec(s2, walk.valid),
                        0,
                        false,
                    ) && final(self).channel_data_list@ == walk.cdl && (forall|q: int|
                        0 <= q < old(tempo_events)@.len()
                            ==> (#[trigger] final(tempo_events)@[q]).tick == old(
                            tempo_events,
                        )@[q].tick && final(tempo_events)@[q].tempo == old(tempo_events)@[q].tempo
                            && final(tempo_events)@[q].enable == (old(tempo_events)@[q].enable
                            && !midnote_disabled(retain_spec(s2, walk.valid), 0, false).contains(
                            old(tempo_events)@[q].tick))) && (r is Ok <==> note_pairs_ok(
                        final(self).events@,
                    ))))
                },
    {
        let ghost e0 = self.events@;
        crate::sort::sort_events1(&mut self.events);
        proof {
            lemma_perm_note_sourced(e0, self.events@);
        }
        let ghost e1 = self.events@;
        let valid_channels = match self.assign_lanes() {
            Ok(valid_channels) => valid_channels,
            Err(e) => {
                proof {
                    lemma_note_sourced_trans(e0, e1, self.events@);
                    let walk = assign_spec(e1, old(self).channel_data_list@);
                    assert(!walk.ok);
                    assert(e1.to_multiset() == old(self).events@.to_multiset());
                    // the second witness order is unconstrained when the
                    // walk halts; the empty list serves
                    assert(Seq::<Event>::empty().to_multiset()
                        == Seq::<Event>::empty().to_multiset());
                }
                return Err(e);
            },
        };
        proof {
            lemma_note_sourced_trans(e0, e1, self.events@);
        }
        let ghost e2 = self.events@;
        self.broadcast_events(tempo_events);
        proof {
            lemma_note_sourced_trans(e0, e2, self.events@);
        }
        let ghost e3 = self.events@;
        crate::sort::sort_events_cst(&mut self.events);
        proof {
            lemma_perm_note_sourced(e3, self.events@);
            lemma_note_sourced_trans(e0, e3, self.events@);
        }
        let ghost e4 = self.events@;
        self.retain_valid(&valid_channels);
        proof {
            lemma_note_sourced_trans(e0, e4, self.events@);
            assert(self.events@ == retain_spec(e4, valid_channels@));
        }
        let ghost e5 = self.events@;
        self.midnote_scan(tempo_events);
        proof {
            lemma_note_sourced_trans(e0, e5, self.events@);
            let walk = assign_spec(e1, old(self).channel_data_list@);
            assert(walk.ok);
            assert(e2 == walk.out);
            assert(valid_channels@ == walk.valid);
            assert(self.channel_data_list@ == walk.cdl);
            assert(e3 == tempo_copies(walk.cdl, old(tempo_events)@, 0) + (timbre_copies(
                walk.out,
                walk.cdl,
                0,
            ) + walk.out));
            assert(e4.to_multiset() == e3.to_multiset());
            assert(sorted_cst(e4));
            assert(e5 == retain_spec(e4, walk.valid));
            assert(self.events@ == midnote_kept(e5, 0, false));
            assert(e1.to_multiset() == old(self).events@.to_multiset());
            assert(sorted_ct(e1));
        }
        self.check_integrity()
    }

    /// Pass 2: re-insert the enabled tempo points, re-order, quantize
    /// every inter-event gap onto the beat grid, strip the tempo events
    /// again and verify that no lane runs backward in time.
    #[verifier::rlimit(100)]
    pub fn parse2(&mut self, ticks_per_beat: u32, tempo_events: &mut Vec<TempoEvent>) -> (r: Result<
        (),
        crate::MmlError,
    >)
        requires
            ticks_per_beat <= 0x3FFF_FFFF,
            old(self).events@.len() > 0,
        ensures
            final(self).track_index == old(self).track_index,
            final(self).channels@ == old(self).channels@,
            ledger_only_disabled(old(tempo_events)@, final(tempo_events)@),
            no_tempo(final(self).events@),
            note_sourced_le(final(self).events@, old(self).events@),
            notes_kept_le(old(self).events@, final(self).events@),
            exists|mid: Seq<Event>|
                #![trigger mid.to_multiset()]
                sorted_cst(mid) && mid.len() > 0 && mid.to_multiset() == (tempo_copies(
                    old(self).channel_data_list@,
                    old(tempo_events)@,
                    0,
                ) + old(self).events@).to_multiset() && final(self).events@ == non_tempo_events(
                    quantize_from(
                        mid,
                        0,
                        ticks_per_beat as int,
                        mid[0].channel,
                        mid[0].sub_channel,
                        0,
                    ).0,
                ) && (forall|q: int|
                    0 <= q < old(tempo_events)@.len() ==> (#[trigger] final(tempo_events)@[q]).tick
                        == old(tempo_events)@[q].tick && final(tempo_events)@[q].tempo == old(
                        tempo_events,
                    )@[q].tempo && final(tempo_events)@[q].enable == (old(
                        tempo_events,
                    )@[q].enable && !quantize_from(
                        mid,
                        0,
                        ticks_per_beat as int,
                        mid[0].channel,
                        mid[0].sub_channel,
                        0,
                    ).1.contains(old(tempo_events)@[q].tick))),
            r is Ok <==> lane_monotonic(final(self).events@),
            r is Err ==> r == Err::<(), crate::MmlError>(crate::MmlError::SoundCorrection),
    {
        let ghost f0 = self.events@;
        self.insert_tempo_events(tempo_events);
        let ghost f1 = self.events@;
        crate::sort::sort_events_cst(&mut self.events);
        proof {
            lemma_perm_note_bijection(f1, self.events@);
            lemma_note_sourced_le_trans(f0, f1, self.events@);
            lemma_notes_kept_le_trans(f0, f1, self.events@);
        }
        let ghost f2 = self.events@;
        self.quantize(ticks_per_beat, tempo_events);
        proof {
            lemma_pointwise_note_bijection(f2, self.events@);
            lemma_note_sourced_le_trans(f0, f2, self.events@);
            lemma_notes_kept_le_trans(f0, f2, self.events@);
        }
        let ghost f3 = self.events@;
        self.strip_tempo();
        proof {
            lemma_note_sourced_le_trans(f0, f3, self.events@);
            lemma_notes_kept_le_trans(f0, f3, self.events@);
            assert(f2.to_multiset() == (tempo_copies(
                old(self).channel_data_list@,
                old(tempo_events)@,
                0,
            ) + f0).to_multiset());
            assert(f2.len() > 0);
            assert(self.events@ == non_tempo_events(
                quantize_from(f2, 0, ticks_per_beat as int, f2[0].channel, f2[0].sub_channel, 0).0,
            ));
        }
        self.check_monotonic(crate::MmlError::SoundCorrection)
    }

    /// Pass 3: re-insert the tempo points that survived every disablement
    /// decision, re-order, and confirm that they still interleave legally.
    /// The final order makes the check a certainty: pass 3 cannot fail,
    /// and on a track that already stands in final order with no enabled
    /// tempo point left to insert it changes nothing at all.
    pub fn parse3(&mut self, tempo_events: &mut Vec<TempoEvent>) -> (r: Result<
        (),
        crate::MmlError,
    >)
        ensures
            final(tempo_events)@ == old(tempo_events)@,
            final(self).track_index == old(self).track_index,
            final(self).channels@ == old(self).channels@,
            final(self).channel_data_list@ == old(self).channel_data_list@,
            sorted_cst(final(self).events@),
            lane_monotonic(final(self).events@),
            note_sourced_le(final(self).events@, old(self).events@),
            notes_kept_le(old(self).events@, final(self).events@),
            no_tempo(old(self).events@) ==> tempo_from_ledger(
                final(self).events@,
                old(tempo_events)@,
            ),
            all_copies_present(
                final(self).events@,
                old(tempo_events)@,
                final(self).channel_data_list@,
            ),
            forall|x: Event|
                old(self).events@.contains(x) ==> #[trigger] final(self).events@.contains(x),
            final(self).events@.to_multiset() == (tempo_copies(
                old(self).channel_data_list@,
                old(tempo_events)@,
                0,
            ) + old(self).events@).to_multiset(),
            r is Ok,
            (sorted_cst(old(self).events@) && (forall|t: int|
                0 <= t < old(tempo_events)@.len() ==> !(#[trigger] old(tempo_events)@[t]).enable))
                ==> final(self).events@ == old(self).events@,
    {
        let ghost f0 = self.events@;
        proof {
            if no_tempo(f0) {
                assert forall|p: int|
                    0 <= p < f0.len() implies ((#[trigger] f0[p]).data_kind
                    matches DataKind::ChangeTempo(t) ==> exists|q: int|
                    0 <= q < tempo_events@.len() && (#[trigger] tempo_events@[q]).enable
                        && tempo_events@[q].tick == f0[p].tick && tempo_events@[q].tempo == t) by {
                    assert(!(f0[p].data_kind is ChangeTempo));
                }
            }
        }
        self.insert_tempo_events(tempo_events);
        let ghost f1 = self.events@;
        crate::sort::sort_events_cst(&mut self.events);
        proof {
            lemma_perm_note_bijection(f1, self.events@);
            lemma_note_sourced_le_trans(f0, f1, self.events@);
            lemma_notes_kept_le_trans(f0, f1, self.events@);
            if no_tempo(f0) {
                lemma_perm_tempo_from_ledger(f1, self.events@, tempo_events@);
            }
            lemma_perm_contains(f1, self.events@);
            lemma_copies_carry(f1, self.events@, tempo_events@, self.channel_data_list@);
            assert forall|x: Event| f0.contains(x) implies #[trigger] self.events@.contains(x) by {
                assert(f1.contains(x));
            }
            lemma_sorted_lane_monotonic(self.events@);
        }
        self.check_monotonic(crate::MmlError::MusicIntegrity)
    }
}

} // verus!
