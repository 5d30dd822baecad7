use midi2mml::Converter;
use midi2mml::DataKind;
use midi2mml::KeyData;
use midi2mml::MmlError;
use midi2mml::RawEvent;
use midi2mml::RawMessage;
use midi2mml::TempoEvent;
use midi2mml::Timing;
use midi2mml::Track;

fn on(delta: u32, channel: u8, key: u8, vel: u8) -> RawEvent {
    RawEvent { delta, channel, message: RawMessage::NoteOn { key, vel } }
}

fn off(delta: u32, channel: u8, key: u8) -> RawEvent {
    RawEvent { delta, channel, message: RawMessage::NoteOff { key, vel: 0 } }
}

fn tempo_meta(delta: u32, micros_per_beat: u32) -> RawEvent {
    RawEvent { delta, channel: 0, message: RawMessage::Tempo { micros_per_beat } }
}

#[test]
fn overlapping_notes_take_two_lanes() {
    // key 60 on@0, key 64 on@10, key 60 off@20, key 64 off@30:
    // lane 0 carries key 60 over 0..20, lane 1 carries key 64 over 10..30.
    let mut track = Track::new(0);
    track.push_event(0, 0, DataKind::NoteOn(KeyData::new(60, 79)));
    track.push_event(0, 10, DataKind::NoteOn(KeyData::new(64, 79)));
    track.push_event(0, 20, DataKind::NoteOff(KeyData::new(60, 0)));
    track.push_event(0, 30, DataKind::NoteOff(KeyData::new(64, 0)));
    let mut ledger: Vec<TempoEvent> = Vec::new();
    assert!(track.parse1(&mut ledger).is_ok());
    let got: Vec<(u8, u32, bool, u8)> = track
        .events
        .iter()
        .map(|e| {
            let (is_on, key) = match e.data_kind {
                DataKind::NoteOn(k) => (true, k.key),
                DataKind::NoteOff(k) => (false, k.key),
                _ => panic!("unexpected event kind"),
            };
            (e.sub_channel, e.tick, is_on, key)
        })
        .collect();
    assert_eq!(
        got,
        vec![
            (0, 0, true, 60),
            (0, 20, false, 60),
            (1, 10, true, 64),
            (1, 30, false, 64),
        ]
    );
    // channel 0 needed two lanes: its descriptor records lane maximum 1
    assert_eq!(track.channel_data_list.len(), 1);
    assert_eq!(track.channel_data_list[0].channel, 0);
    assert_eq!(track.channel_data_list[0].sub_channel_max, 1);
}

#[test]
fn note_on_velocity_zero_equals_note_off() {
    // Two identical files, except that one ends the note with a note-on of
    // velocity zero and the other with a real note-off.
    let with_vel0 = vec![vec![on(0, 0, 60, 100), on(5, 0, 60, 0)]];
    let with_off = vec![vec![on(0, 0, 60, 100), off(5, 0, 60)]];
    let mut c1 = Converter::new(Vec::new());
    let mut c2 = Converter::new(Vec::new());
    let out1 = c1.convert_decoded(Timing::TicksPerBeat(480), &with_vel0).unwrap();
    let out2 = c2.convert_decoded(Timing::TicksPerBeat(480), &with_off).unwrap();
    assert_eq!(out1, out2);
    assert!(!out1.is_empty());
}

#[test]
fn mid_note_tempo_point_is_disabled_and_absent() {
    // A tempo point at tick 100 spanned by a note from 90 to 110 is
    // disabled; no tempo token reaches the output.
    let raw = vec![vec![
        on(90, 0, 60, 100),
        tempo_meta(10, 500_000),
        off(10, 0, 60),
    ]];
    let mut conv = Converter::new(Vec::new());
    let out = conv.convert_decoded(Timing::TicksPerBeat(480), &raw).unwrap();
    assert!(!out.contains(&b't'));
}

#[test]
fn representable_tempo_point_is_kept() {
    // The same tempo point before the note survives and is written out.
    let raw = vec![vec![
        tempo_meta(80, 500_000),
        on(10, 0, 60, 100),
        off(20, 0, 60),
    ]];
    let mut conv = Converter::new(Vec::new());
    let out = conv.convert_decoded(Timing::TicksPerBeat(480), &raw).unwrap();
    let text = String::from_utf8(out).unwrap();
    assert!(text.contains("t120"));
}

#[test]
fn timecode_files_are_rejected() {
    let mut conv = Converter::new(Vec::new());
    let r = conv.convert_decoded(Timing::Timecode(25, 40), &Vec::new());
    assert_eq!(r, Err(MmlError::UnsupportedTiming));
}

#[test]
fn unpaired_note_on_fails_integrity() {
    // The orphan note-off for another key is dropped, leaving a note-on
    // with no partner.
    let mut track = Track::new(0);
    track.push_event(0, 0, DataKind::NoteOn(KeyData::new(60, 79)));
    track.push_event(0, 10, DataKind::NoteOff(KeyData::new(64, 0)));
    let mut ledger: Vec<TempoEvent> = Vec::new();
    assert_eq!(track.parse1(&mut ledger), Err(MmlError::SoundIntegrity));
}

#[test]
fn colliding_note_on_is_dropped_not_fatal() {
    // A second note-on for a key that still sounds is dropped; the track
    // still reconciles.
    let mut track = Track::new(0);
    track.push_event(0, 0, DataKind::NoteOn(KeyData::new(60, 79)));
    track.push_event(0, 5, DataKind::NoteOn(KeyData::new(60, 79)));
    track.push_event(0, 10, DataKind::NoteOff(KeyData::new(60, 0)));
    let mut ledger: Vec<TempoEvent> = Vec::new();
    assert!(track.parse1(&mut ledger).is_ok());
    assert_eq!(track.events.len(), 2);
}

#[test]
fn quantization_inversion_is_fatal() {
    // The note-on at tick 55 snaps back to 50, behind the timbre change at
    // tick 51 of the same lane: pass 2 reports the broken order.
    let mut track = Track::new(0);
    track.push_event(0, 0, DataKind::NoteOn(KeyData::new(60, 79)));
    track.push_event(0, 20, DataKind::NoteOff(KeyData::new(60, 0)));
    track.push_event(0, 51, DataKind::ChangeTimbre(3));
    track.push_event(0, 55, DataKind::NoteOn(KeyData::new(60, 79)));
    track.push_event(0, 75, DataKind::NoteOff(KeyData::new(60, 0)));
    let mut ledger: Vec<TempoEvent> = Vec::new();
    assert!(track.parse1(&mut ledger).is_ok());
    assert_eq!(track.parse2(480, &mut ledger), Err(MmlError::SoundCorrection));
}

#[test]
fn quantization_snaps_note_timing_backward() {
    let mut track = Track::new(0);
    track.push_event(0, 0, DataKind::NoteOn(KeyData::new(60, 79)));
    // a gap of 35 ticks leaves residue 5: the note-off snaps to tick 30
    track.push_event(0, 35, DataKind::NoteOff(KeyData::new(60, 0)));
    let mut ledger: Vec<TempoEvent> = Vec::new();
    assert!(track.parse1(&mut ledger).is_ok());
    assert!(track.parse2(480, &mut ledger).is_ok());
    assert_eq!(track.events[1].tick, 30);
}

#[test]
fn pass3_changes_nothing_on_a_settled_track() {
    let mut track = Track::new(0);
    track.push_event(0, 0, DataKind::NoteOn(KeyData::new(60, 79)));
    track.push_event(0, 20, DataKind::NoteOff(KeyData::new(60, 0)));
    let mut ledger: Vec<TempoEvent> = Vec::new();
    assert!(track.parse1(&mut ledger).is_ok());
    assert!(track.parse2(480, &mut ledger).is_ok());
    assert!(track.parse3(&mut ledger).is_ok());
    let settled: Vec<(u8, u8, u32)> =
        track.events.iter().map(|e| (e.channel, e.sub_channel, e.tick)).collect();
    // running the final pass again neither fails nor reorders anything
    assert!(track.parse3(&mut ledger).is_ok());
    let again: Vec<(u8, u8, u32)> =
        track.events.iter().map(|e| (e.channel, e.sub_channel, e.tick)).collect();
    assert_eq!(settled, again);
}

#[test]
fn two_lane_score_is_written_exactly() {
    // The overlapping-note scenario end to end, velocity 100 mapping to
    // volume 79 and keys 60/64 sitting in octave 5.
    let raw = vec![vec![
        on(0, 0, 60, 100),
        on(10, 0, 64, 100),
        off(10, 0, 60),
        off(10, 0, 64),
    ]];
    let mut conv = Converter::new(Vec::new());
    let out = conv.convert_decoded(Timing::TicksPerBeat(480), &raw).unwrap();
    let text = String::from_utf8(out).unwrap();
    let expected = ";########## Track:0 Channel:0 Sub:0 ##########\nv79o5c96\n;########## Track:0 Channel:0 Sub:1 ##########\nr192v79o5e96\n";
    assert_eq!(text, expected);
}

#[test]
fn tempo_point_at_note_start_survives() {
    // A tempo point at the very tick of a note-on stands before the note
    // in every lane and is kept, not treated as mid-note.
    let raw = vec![vec![
        tempo_meta(0, 500_000),
        on(0, 0, 60, 100),
        off(20, 0, 60),
    ]];
    let mut conv = Converter::new(Vec::new());
    let out = conv.convert_decoded(Timing::TicksPerBeat(480), &raw).unwrap();
    let text = String::from_utf8(out).unwrap();
    assert!(text.contains("t120"));
}

#[test]
fn timbre_change_reaches_every_lane() {
    // A program change on a two-lane channel is copied into both staffs.
    let raw = vec![vec![
        RawEvent { delta: 0, channel: 0, message: RawMessage::ProgramChange { program: 5 } },
        on(0, 0, 60, 100),
        on(10, 0, 64, 100),
        off(10, 0, 60),
        off(10, 0, 64),
    ]];
    let mut conv = Converter::new(Vec::new());
    let out = conv.convert_decoded(Timing::TicksPerBeat(480), &raw).unwrap();
    let text = String::from_utf8(out).unwrap();
    assert_eq!(text.matches("@5").count(), 2);
    assert!(text.contains("Sub:1"));
}

#[test]
fn empty_tracks_produce_no_output() {
    let raw: Vec<Vec<RawEvent>> = vec![Vec::new(), vec![tempo_meta(0, 500_000)]];
    let mut conv = Converter::new(Vec::new());
    let out = conv.convert_decoded(Timing::TicksPerBeat(480), &raw).unwrap();
    assert!(out.is_empty());
}
