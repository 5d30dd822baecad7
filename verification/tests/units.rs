use midi2mml::Converter;
use midi2mml::DataKind;
use midi2mml::Event;
use midi2mml::KeyData;
use midi2mml::MmlStatus;
use midi2mml::NoteData;
use midi2mml::TempoEvent;
use midi2mml::Track;

fn tempo(tick: u32, bpm: u32) -> TempoEvent {
    TempoEvent::new(tick, bpm)
}

#[test]
fn division_whole_note_has_no_remainder() {
    // ticks_per_beat 480: a gap of four beats is exactly one whole note.
    assert_eq!(Track::divsion_tick(480, 1920), 0);
}

#[test]
fn division_handles_every_unit() {
    // quarter, eighth, triplet-quarter, triplet-sixty-fourth, 128th
    assert_eq!(Track::divsion_tick(480, 480), 0);
    assert_eq!(Track::divsion_tick(480, 240), 0);
    assert_eq!(Track::divsion_tick(480, 160), 0);
    assert_eq!(Track::divsion_tick(480, 10), 0);
    assert_eq!(Track::divsion_tick(480, 15), 0);
    // mixed sums on the triplet-sixty-fourth grid decompose fully
    assert_eq!(Track::divsion_tick(480, 480 + 160 + 20), 0);
    assert_eq!(Track::divsion_tick(480, 1920 + 960 + 240 + 30), 0);
}

#[test]
fn division_leaves_inexpressible_residue() {
    // 35 = 20 + 15 is a sum of units, yet the greedy order grabs the
    // sixty-fourth note (30 ticks) first and strands a residue of 5.
    assert_eq!(Track::divsion_tick(480, 35), 5);
    // a residue smaller than every unit is returned unchanged
    assert_eq!(Track::divsion_tick(480, 7), 7);
}

#[test]
fn division_total_for_tiny_beats() {
    // Even a one-tick beat terminates and empties fully via the 4/2/1 rules.
    assert_eq!(Track::divsion_tick(1, 7), 0);
    // A zero beat matches no rule at all and returns the duration.
    assert_eq!(Track::divsion_tick(0, 9), 9);
}

#[test]
fn volume_map_endpoints_and_rounding() {
    assert_eq!(Converter::get_vol(0), 0);
    assert_eq!(Converter::get_vol(127), 100);
    // 64 * 100 / 127 = 50.39... rounds to 50
    assert_eq!(Converter::get_vol(64), 50);
    // 1 * 100 / 127 = 0.787... rounds to 1
    assert_eq!(Converter::get_vol(1), 1);
}

#[test]
fn volume_map_monotonic_over_all_velocities() {
    let mut prev = 0u8;
    for vel in 0..=127u8 {
        let v = Converter::get_vol(vel);
        assert!(v >= prev);
        assert!(v <= 100);
        prev = v;
    }
}

#[test]
fn tempo_from_microseconds_rounds_to_nearest() {
    assert_eq!(Converter::get_tempo(500_000), 120);
    assert_eq!(Converter::get_tempo(1_000_000), 60);
    // 60_000_000 / 8_000_000 = 7.5 rounds up
    assert_eq!(Converter::get_tempo(8_000_000), 8);
    // 60_000_000 / 7_000_000 = 8.57... rounds to 9
    assert_eq!(Converter::get_tempo(7_000_000), 9);
}

#[test]
fn tempo_dedup_carries_kept_predecessor_forward() {
    let mut ledger = vec![
        tempo(0, 120),
        tempo(10, 120),
        tempo(20, 140),
        tempo(30, 140),
        tempo(40, 120),
    ];
    Converter::delete_duplicate_tempo(&mut ledger);
    assert_eq!(ledger.len(), 3);
    assert_eq!((ledger[0].tick, ledger[0].tempo), (0, 120));
    assert_eq!((ledger[1].tick, ledger[1].tempo), (20, 140));
    assert_eq!((ledger[2].tick, ledger[2].tempo), (40, 120));
}

#[test]
fn tempo_dedup_keeps_first_of_identical_run() {
    let mut ledger = vec![tempo(0, 90), tempo(0, 90), tempo(5, 90)];
    Converter::delete_duplicate_tempo(&mut ledger);
    assert_eq!(ledger.len(), 1);
    assert_eq!((ledger[0].tick, ledger[0].tempo), (0, 90));
    let mut empty: Vec<TempoEvent> = Vec::new();
    Converter::delete_duplicate_tempo(&mut empty);
    assert!(empty.is_empty());
}

#[test]
fn tempo_dedup_adjacent_kept_points_differ() {
    let mut ledger = vec![
        tempo(0, 100),
        tempo(1, 100),
        tempo(2, 110),
        tempo(3, 100),
        tempo(4, 100),
        tempo(5, 110),
    ];
    Converter::delete_duplicate_tempo(&mut ledger);
    for pair in ledger.windows(2) {
        assert_ne!(pair[0].tempo, pair[1].tempo);
    }
    assert_eq!(ledger[0].tick, 0);
}

#[test]
fn tempo_dedup_keeps_one_point_per_tick() {
    // two points at one tick with different tempos: the first wins
    let mut ledger = vec![tempo(0, 100), tempo(0, 110), tempo(10, 110)];
    Converter::delete_duplicate_tempo(&mut ledger);
    assert_eq!(ledger.len(), 2);
    assert_eq!((ledger[0].tick, ledger[0].tempo), (0, 100));
    assert_eq!((ledger[1].tick, ledger[1].tempo), (10, 110));
    for i in 0..ledger.len() {
        for j in 0..i {
            assert_ne!(ledger[i].tick, ledger[j].tick);
        }
    }
}

#[test]
fn note_names_cover_the_octave() {
    assert_eq!(Track::get_note(60), b"c".to_vec());
    assert_eq!(Track::get_note(61), b"c+".to_vec());
    assert_eq!(Track::get_note(62), b"d".to_vec());
    assert_eq!(Track::get_note(64), b"e".to_vec());
    assert_eq!(Track::get_note(65), b"f".to_vec());
    assert_eq!(Track::get_note(66), b"f+".to_vec());
    assert_eq!(Track::get_note(67), b"g".to_vec());
    assert_eq!(Track::get_note(69), b"a".to_vec());
    assert_eq!(Track::get_note(71), b"b".to_vec());
    assert_eq!(Track::get_note(59), b"b".to_vec());
}

#[test]
fn numbers_render_in_decimal() {
    let mut out = Vec::new();
    midi2mml::push_number(&mut out, 0);
    midi2mml::push_number(&mut out, 7);
    midi2mml::push_number(&mut out, 1234);
    assert_eq!(out, b"071234".to_vec());
}

#[test]
fn rest_tokens_follow_the_greedy_order() {
    let mut mml = MmlStatus::new(480);
    let mut out = Vec::new();
    // one whole note of rest completes a line: the newline follows at once
    Track::calc_rest(1920, &mut mml, &mut out);
    assert_eq!(out, b"r1\n".to_vec());

    let mut mml = MmlStatus::new(480);
    let mut out = Vec::new();
    // 600 = 480 (quarter) + 120 (sixteenth)
    Track::calc_rest(600, &mut mml, &mut out);
    assert_eq!(out, b"r4r16".to_vec());
}

#[test]
fn note_tokens_tie_with_ampersand() {
    let mut mml = MmlStatus::new(480);
    let mut out = Vec::new();
    let note = Track::get_note(60);
    Track::calc_note(600, &note, &mut mml, &mut out);
    assert_eq!(out, b"c4&c16".to_vec());

    let mut mml = MmlStatus::new(480);
    let mut out = Vec::new();
    // a whole note needs no tie; its line break follows the token
    Track::calc_note(1920, &note, &mut mml, &mut out);
    assert_eq!(out, b"c1\n".to_vec());
}

#[test]
fn push_event_records_each_channel_once() {
    let mut track = Track::new(3);
    track.push_event(2, 0, DataKind::NoteOn(KeyData::new(60, 80)));
    track.push_event(2, 10, DataKind::NoteOff(KeyData::new(60, 0)));
    track.push_event(5, 20, DataKind::ChangeTimbre(7));
    assert_eq!(track.track_index, 3);
    assert_eq!(track.events.len(), 3);
    assert_eq!(track.channels, vec![2, 5]);
    assert_eq!(track.events[0].sub_channel, 0);
}

#[test]
fn value_types_hold_their_fields() {
    let kd = KeyData::new(64, 90);
    assert_eq!((kd.key, kd.vol), (64, 90));
    let nd = NoteData::new(64, 10, 2);
    assert_eq!((nd.key, nd.tick, nd.sub_channel), (64, 10, 2));
    let ev = Event::new(1, 5, DataKind::NoteOn(kd));
    assert_eq!((ev.channel, ev.sub_channel, ev.tick), (1, 0, 5));
    let ev2 = Event::new_with_sub(1, 4, 5, DataKind::NoteOn(kd));
    assert_eq!(ev2.sub_channel, 4);
    let te = TempoEvent::new(9, 140);
    assert!(te.enable);
    let conv = Converter::new(vec![1, 2, 3]);
    assert_eq!(conv.data, vec![1, 2, 3]);
    assert_eq!(conv.ticks_per_beat, 0);
}

#[test]
fn sorting_orders_by_channel_lane_tick() {
    let kd = KeyData::new(60, 80);
    let mut events = vec![
        Event::new_with_sub(1, 0, 5, DataKind::NoteOn(kd)),
        Event::new_with_sub(0, 1, 3, DataKind::NoteOn(kd)),
        Event::new_with_sub(0, 0, 9, DataKind::NoteOn(kd)),
        Event::new_with_sub(0, 0, 2, DataKind::NoteOn(kd)),
    ];
    midi2mml::sort_events_cst(&mut events);
    let keys: Vec<(u8, u8, u32)> =
        events.iter().map(|e| (e.channel, e.sub_channel, e.tick)).collect();
    assert_eq!(keys, vec![(0, 0, 2), (0, 0, 9), (0, 1, 3), (1, 0, 5)]);
    // sorting again changes nothing
    let before = keys;
    midi2mml::sort_events_cst(&mut events);
    let after: Vec<(u8, u8, u32)> =
        events.iter().map(|e| (e.channel, e.sub_channel, e.tick)).collect();
    assert_eq!(before, after);
}

#[test]
fn pass1_sort_breaks_tick_ties_by_kind() {
    // equal ticks: note-ons ascend by key, note-offs descend by key
    let mut events = vec![
        Event::new(0, 10, DataKind::NoteOn(KeyData::new(64, 80))),
        Event::new(0, 10, DataKind::NoteOn(KeyData::new(60, 80))),
        Event::new(0, 5, DataKind::NoteOff(KeyData::new(60, 0))),
        Event::new(0, 5, DataKind::NoteOff(KeyData::new(64, 0))),
    ];
    midi2mml::sort_events1(&mut events);
    assert_eq!(events[0].tick, 5);
    assert!(matches!(events[0].data_kind, DataKind::NoteOff(k) if k.key == 64));
    assert!(matches!(events[1].data_kind, DataKind::NoteOff(k) if k.key == 60));
    assert!(matches!(events[2].data_kind, DataKind::NoteOn(k) if k.key == 60));
    assert!(matches!(events[3].data_kind, DataKind::NoteOn(k) if k.key == 64));
}
