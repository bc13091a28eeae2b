use xg_editor::pattern::{default_pattern_notes, voice_for, MidiNote};
use xg_editor::playback::{
    build_play_events, channel_is_effectively_muted, due_events, meter_update, notes_active_at,
    notes_end_tick, play_route, playhead_bar_beat, MeterMsg, PlayEvent, PlayRoute,
};
use xg_editor::smf::{build_track_views, parse_smf, Smf};

#[test]
fn notes_active_at_detects_currently_sounding() {
    let mut evs = vec![
        PlayEvent::note(0, 60, 100, 0, true),
        PlayEvent::note(1, 67, 100, 100, true),
        PlayEvent::note(9, 36, 100, 200, true),
        PlayEvent::note(9, 36, 0, 300, false),
        PlayEvent::note(0, 60, 0, 480, false),
    ];
    evs.sort_by_key(|e| e.tick);
    let a200 = notes_active_at(200, &evs);
    assert!(a200.contains(&(0, 60)), "ch1 C4 still sounds (off at 480)");
    assert!(a200.contains(&(1, 67)), "ch2 G4 sounds (no off)");
    assert!(a200.contains(&(9, 36)), "kick on at 200, off at 300");
    let a300 = notes_active_at(300, &evs);
    assert!(!a300.contains(&(9, 36)), "kick is off at 300");
    let a600 = notes_active_at(600, &evs);
    assert!(a600.contains(&(1, 67)), "G4 hangs");
    assert!(!a600.contains(&(0, 60)), "C4 ended at 480");
    assert!(!a600.contains(&(9, 36)), "kick ended at 300");
    let a50 = notes_active_at(50, &evs);
    assert!(a50.contains(&(0, 60)) && !a50.contains(&(1, 67)), "at 50 only ch1");
}

#[test]
fn zoom1x_means_fit_region() {
    let end_tick = 32_852u32;
    let win = |zoom: f32| (end_tick as f32 / zoom.max(0.002)).round().max(1.0) as u32;
    assert_eq!(win(1.0), end_tick, "1x shows the whole region");
    assert!((win(2.0) as f32 - end_tick as f32 / 2.0).abs() < 1.0, "2x shows half");
    assert!((win(4.0) as f32 - end_tick as f32 / 4.0).abs() < 1.0, "4x shows a quarter");
    assert!(win(0.5) > end_tick, "0.5x shows more than the region");
}

#[test]
fn note_messages_exact() {
    let on = PlayEvent::note(4, 60, 100, 7, true);
    assert_eq!(on.bytes, vec![0x94, 60, 100]);
    assert!(!on.off);
    assert_eq!((on.tick, on.channel), (7, 4));
    let off = PlayEvent::note(5, 60, 100, 9, false);
    assert_eq!(off.bytes, vec![0x95, 60, 0]);
    assert!(off.off);
    assert_eq!(PlayEvent::cc(0x19, 0x87, 0xFF).bytes, vec![0xB9, 0x07, 0x7F]);
    assert_eq!(PlayEvent::cc(0x19, 0, 0).channel, 9);
    assert_eq!(PlayEvent::cc_tick(2, 10, 64, 480).tick, 480);
    assert_eq!(PlayEvent::prog(9, 16).bytes, vec![0xC9, 16]);
}

#[test]
fn default_notes_16_tracks() {
    let tracks = default_pattern_notes();
    assert_eq!(tracks.len(), 16);
    for (i, t) in tracks.iter().enumerate() {
        assert!(!t.is_empty());
        for n in t {
            assert!(n.pitch <= 127 && n.velocity <= 127);
            assert_eq!(n.channel, i as u8);
        }
    }
    // channels 0 and 1 have eight one-beat notes; the others add four off-beat notes
    assert_eq!(tracks[0].len(), 8);
    assert_eq!(tracks[2].len(), 12);
    assert_eq!(tracks[2][2], MidiNote { start_tick: 144, dur_ticks: 48, pitch: 71, velocity: 60, channel: 2 });
    assert_eq!(tracks[15][0], MidiNote { start_tick: 0, dur_ticks: 96, pitch: 33, velocity: 90, channel: 15 });
}

#[test]
fn demo_voice_names() {
    assert_eq!(voice_for(1), "GrandPno");
    assert_eq!(voice_for(16), "ElamStr");
    assert_eq!(voice_for(17), "????");
}

#[test]
fn play_events_build_correct() {
    let tracks = default_pattern_notes();
    let (evs, total) = build_play_events(None, &[], 0, &tracks, 768);
    assert_eq!(total, 768);
    assert!(!evs.is_empty());
    let ticks: Vec<u64> = evs.iter().map(|e| e.tick).collect();
    let mut sorted = ticks.clone();
    sorted.sort_unstable();
    assert_eq!(ticks, sorted, "ordered by tick");
    assert!(evs.iter().all(|e| e.tick <= 768));
    let ons = evs.iter().filter(|e| !e.off).count();
    let offs = evs.iter().filter(|e| e.off).count();
    assert!(ons >= 16 && offs >= 16);
    // every note has its on and off
    assert_eq!(ons, offs);
}

#[test]
fn notes_past_the_loop_end_wrap() {
    let tracks = vec![vec![MidiNote { start_tick: 90, dur_ticks: 20, pitch: 60, velocity: 80, channel: 0 }]];
    let (evs, _) = build_play_events(None, &[], 0, &tracks, 100);
    let got: Vec<(u64, Vec<u8>)> = evs.iter().map(|e| (e.tick, e.bytes.clone())).collect();
    assert_eq!(got, vec![(0, vec![0x90, 60, 80]), (90, vec![0x90, 60, 80]), (100, vec![0x90, 60, 0])]);
}

fn one_track_smf(trk: &[u8]) -> Vec<u8> {
    let mut data: Vec<u8> = Vec::new();
    data.extend_from_slice(b"MThd");
    data.extend_from_slice(&[0, 0, 0, 6, 0, 0, 0, 1, 0, 0x78]);
    data.extend_from_slice(b"MTrk");
    data.extend_from_slice(&(trk.len() as u32).to_be_bytes());
    data.extend_from_slice(trk);
    data
}

fn table_of(smf: &Smf) -> Vec<PlayEvent> {
    let views = build_track_views(smf);
    let end = notes_end_tick(&views);
    let (evs, total) = build_play_events(Some(smf), &views, end, &[], 768);
    assert_eq!(total, end.max(1));
    evs
}

#[test]
fn smf_ch10_drum_bank_injected() {
    let mut trk: Vec<u8> = Vec::new();
    trk.extend_from_slice(&[0x00, 0x99, 36, 100]);
    trk.extend_from_slice(&[0x60, 0x89, 36, 0]);
    trk.extend_from_slice(&[0x00, 0xFF, 0x2F, 0x00]);
    let smf = parse_smf(&one_track_smf(&trk)).expect("parse");
    let evs = table_of(&smf);
    let has_drum_bank = evs.iter().any(|e| {
        e.channel == 9 && e.tick == 0 && e.bytes == vec![0xB9, 0x00, 127]
    });
    assert!(has_drum_bank, "channel 10 gets bank MSB 127");
    assert!(evs.iter().any(|e| e.channel == 9 && e.bytes == vec![0xB9, 32, 0]));
    assert!(evs.iter().any(|e| e.channel == 9 && e.bytes == vec![0xC9, 0]));
    let has_kick = evs.iter().any(|e| !e.off && e.channel == 9 && e.bytes.len() == 3 && e.bytes[0] == 0x99 && e.bytes[1] == 36);
    assert!(has_kick);
}

#[test]
fn smf_cc_events_flow_into_play_events() {
    let mut trk: Vec<u8> = Vec::new();
    trk.extend_from_slice(&[0x00, 0xB1, 10, 127]);
    trk.extend_from_slice(&[0x00, 0x91, 60, 100]);
    trk.extend_from_slice(&[0x78, 0xB1, 10, 0]);
    trk.extend_from_slice(&[0x00, 0x81, 60, 0]);
    trk.extend_from_slice(&[0x00, 0xFF, 0x2F, 0x00]);
    let smf = parse_smf(&one_track_smf(&trk)).expect("parse");
    let evs = table_of(&smf);
    let pans: Vec<(u8, u64, u8)> = evs.iter()
        .filter(|e| e.bytes.len() == 3 && e.bytes[0] & 0xF0 == 0xB0 && e.bytes[1] == 10)
        .map(|e| (e.channel, e.tick, e.bytes[2]))
        .collect();
    assert_eq!(pans.len(), 2, "{pans:?}");
    assert!(pans.contains(&(1, 0, 127)));
    assert!(pans.contains(&(1, 120, 0)));
}

#[test]
fn smf_program_is_set_up_and_bank_select_skipped() {
    let mut trk: Vec<u8> = Vec::new();
    trk.extend_from_slice(&[0x00, 0xC2, 40]);
    trk.extend_from_slice(&[0x00, 0xB2, 0, 5]);
    trk.extend_from_slice(&[0x00, 0x92, 64, 90]);
    trk.extend_from_slice(&[0x30, 0x82, 64, 0]);
    trk.extend_from_slice(&[0x00, 0xFF, 0x2F, 0x00]);
    let smf = parse_smf(&one_track_smf(&trk)).expect("parse");
    let evs = table_of(&smf);
    assert!(evs.iter().any(|e| e.bytes == vec![0xC2, 40]));
    assert!(!evs.iter().any(|e| e.bytes.len() == 3 && e.bytes[0] == 0xB2 && e.bytes[1] == 0));
}

#[test]
fn notes_end_is_latest_note_end() {
    let mut trk: Vec<u8> = Vec::new();
    trk.extend_from_slice(&[0x00, 0x90, 60, 100]);
    trk.extend_from_slice(&[0x83, 0x00, 0x80, 60, 0]);
    trk.extend_from_slice(&[0x00, 0xFF, 0x2F, 0x00]);
    let smf = parse_smf(&one_track_smf(&trk)).expect("parse");
    let views = build_track_views(&smf);
    assert_eq!(notes_end_tick(&views), 384);
}

#[test]
fn bar_beat_tick_conversion() {
    assert_eq!(playhead_bar_beat(0, 96), (1, 1, 0));
    assert_eq!(playhead_bar_beat(96 * 4, 96), (2, 1, 0));
    assert_eq!(playhead_bar_beat(96 * 2, 96), (1, 3, 0));
    assert_eq!(playhead_bar_beat(100, 96), (1, 2, 4));
    assert_eq!(playhead_bar_beat(5, 0), (2, 2, 0));
}

#[test]
fn due_events_consume_window() {
    let evs = vec![
        PlayEvent::note(0, 60, 100, 0, true),
        PlayEvent::note(0, 62, 100, 10, true),
        PlayEvent::note(0, 64, 100, 20, true),
        PlayEvent::note(0, 66, 100, 30, true),
    ];
    let (fired, cursor) = due_events(&evs, 0, 5, 20);
    let ticks: Vec<u64> = fired.iter().map(|e| e.tick).collect();
    assert_eq!(ticks, vec![10, 20], "tick 0 is before the window");
    assert_eq!(cursor, 3);
    let (fired, cursor) = due_events(&evs, cursor, 21, 100);
    assert_eq!(fired.len(), 1);
    assert_eq!(cursor, 4);
    let (fired, cursor) = due_events(&evs, 9, 0, 100);
    assert!(fired.is_empty());
    assert_eq!(cursor, 9);
}

#[test]
fn mute_solo_default_all_off() {
    let m = [false; 16];
    let s = [false; 16];
    for ch in 0..16 {
        assert!(!channel_is_effectively_muted(&m, &s, ch));
    }
}

#[test]
fn mute_isolates_single_channel() {
    let mut m = [false; 16];
    m[3] = true;
    let s = [false; 16];
    for ch in 0..16 {
        assert_eq!(channel_is_effectively_muted(&m, &s, ch), ch == 3);
    }
}

#[test]
fn solo_isolates_soloed_channels_only() {
    let m = [false; 16];
    let mut s = [false; 16];
    s[2] = true;
    for ch in 0..16 {
        assert_eq!(channel_is_effectively_muted(&m, &s, ch), ch != 2);
    }
}

#[test]
fn mute_priority_over_solo() {
    let mut m = [false; 16];
    let mut s = [false; 16];
    s[0] = true;
    m[0] = true;
    assert!(channel_is_effectively_muted(&m, &s, 0));
    s[5] = true;
    assert!(!channel_is_effectively_muted(&m, &s, 5));
}

#[test]
fn solo_off_restores_normal_mute() {
    let mut m = [false; 16];
    let mut s = [false; 16];
    m[7] = true;
    s[3] = true;
    assert!(channel_is_effectively_muted(&m, &s, 7));
    s[3] = false;
    for ch in 0..16 {
        assert_eq!(channel_is_effectively_muted(&m, &s, ch), ch == 7);
    }
}

#[test]
fn meter_messages() {
    assert_eq!(meter_update(&PlayEvent::cc_tick(3, 7, 100, 0)), MeterMsg::Cc { ch: 3, num: 7, val: 100 });
    assert_eq!(meter_update(&PlayEvent::prog(2, 5)), MeterMsg::Program { ch: 2, prog: 5 });
    assert_eq!(meter_update(&PlayEvent::note(1, 60, 90, 0, true)), MeterMsg::Note { ch: 1, pitch: 60, vel: 90, off: false });
    assert_eq!(meter_update(&PlayEvent::note(1, 60, 90, 0, false)), MeterMsg::Note { ch: 1, pitch: 60, vel: 0, off: true });
    let odd = PlayEvent { tick: 0, bytes: vec![0xF0, 1], off: false, channel: 0xFF };
    assert_eq!(meter_update(&odd), MeterMsg::Ignored);
    let other = PlayEvent { tick: 0, bytes: vec![0xE0, 1, 2], off: false, channel: 2 };
    assert_eq!(meter_update(&other), MeterMsg::Other);
}

#[test]
fn smf_sysex_flows_into_play_events_and_broadcasts() {
    // SysEx 透传 — SMF 的 SysEx 进入播放事件表 (channel=0xFF 哨兵), 原始字节原样保留
    let mut trk: Vec<u8> = Vec::new();
    trk.extend_from_slice(&[0x00, 0xF0, 8, 0x43, 0x10, 0x4C, 0x00, 0x00, 0x00, 0x7F, 0xF7]);
    trk.extend_from_slice(&[0x00, 0x90, 60, 100]);
    trk.extend_from_slice(&[0x78, 0xF7, 2, 0x41, 0x42]); // F7 continuation
    trk.extend_from_slice(&[0x00, 0x80, 60, 0]);
    trk.extend_from_slice(&[0x00, 0xFF, 0x2F, 0x00]);
    let smf = parse_smf(&one_track_smf(&trk)).expect("SMF 解析失败");
    let evs = table_of(&smf);
    let sx: Vec<(u64, u8, Vec<u8>)> = evs.iter()
        .filter(|e| e.channel == 0xFF)
        .map(|e| (e.tick, e.bytes[0], e.bytes.clone()))
        .collect();
    assert_eq!(sx.len(), 2, "应保留 2 个 SysEx, got {sx:?}");
    assert_eq!(sx[0].0, 0, "第一个 SysEx tick 0, got {sx:?}");
    assert_eq!(sx[0].1, 0xF0, "第一个 SysEx 以 F0 起始, got {sx:?}");
    assert_eq!(sx[0].2, vec![0xF0, 0x43, 0x10, 0x4C, 0x00, 0x00, 0x00, 0x7F, 0xF7], "字节完整保留");
    assert_eq!(sx[1].0, 120, "第二个 SysEx tick 120 (F7 continuation), got {sx:?}");
    assert_eq!(sx[1].1, 0xF7, "F7 continuation 以 F7 起始, got {sx:?}");
    let ev = PlayEvent::sysex(vec![0xF0, 0x43, 0x10], 0);
    assert_eq!(ev.channel, 0xFF);
    // channel 0xFF: broadcast, whatever is muted or soloed
    let mut mutes = [true; 16];
    let solos = [true; 16];
    assert_eq!(play_route(ev.channel, &mutes, &solos), PlayRoute::Broadcast);
    assert_eq!(play_route(3, &mutes, &solos), PlayRoute::Silent);
    mutes[3] = false;
    assert_eq!(play_route(3, &mutes, &solos), PlayRoute::Part(3));
    assert_eq!(play_route(0x13, &mutes, &solos), PlayRoute::Part(0x13));
}

#[test]
fn smf_program_changes_play_at_their_tick() {
    let mut trk: Vec<u8> = Vec::new();
    trk.extend_from_slice(&[0x00, 0xC1, 5]);
    trk.extend_from_slice(&[0x00, 0x91, 60, 100]);
    trk.extend_from_slice(&[0x60, 0xC1, 40]); // program change in the middle, tick 96
    trk.extend_from_slice(&[0x60, 0x81, 60, 0]);
    trk.extend_from_slice(&[0x00, 0xFF, 0x2F, 0x00]);
    let smf = parse_smf(&one_track_smf(&trk)).expect("parse");
    let evs = table_of(&smf);
    let progs: Vec<(u64, Vec<u8>)> = evs.iter()
        .filter(|e| e.bytes.len() == 2 && e.bytes[0] & 0xF0 == 0xC0)
        .map(|e| (e.tick, e.bytes.clone()))
        .collect();
    assert_eq!(progs, vec![(0, vec![0xC1, 5]), (96, vec![0xC1, 40])]);
    // the table is in tick order
    assert!(evs.windows(2).all(|w| w[0].tick <= w[1].tick));
}

#[test]
fn notes_active_at_skips_non_note_messages() {
    let evs = vec![
        PlayEvent::sysex(vec![0xF7], 0),
        PlayEvent::cc_tick(0, 7, 100, 0),
        PlayEvent::note(0, 60, 100, 0, true),
    ];
    let a = notes_active_at(10, &evs);
    assert_eq!(a.len(), 1);
    assert!(a.contains(&(0, 60)));
}
