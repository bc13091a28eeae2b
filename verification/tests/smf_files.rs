use xg_editor::smf::{build_track_views, event_list_for_channel, parse_smf, smf_parse_completes, EventKind, Smf, SmfError, SmfEvent, TrackEvents};

fn u16be(v: u16) -> [u8; 2] { [(v >> 8) as u8, v as u8] }
fn u32be(v: u32) -> [u8; 4] { [(v >> 24) as u8, (v >> 16) as u8, (v >> 8) as u8, v as u8] }
fn mthd(fmt: u16, ntrk: u16, div: u16) -> Vec<u8> {
    let mut v = b"MThd".to_vec();
    v.extend_from_slice(&u32be(6));
    v.extend_from_slice(&u16be(fmt));
    v.extend_from_slice(&u16be(ntrk));
    v.extend_from_slice(&u16be(div));
    v
}
/// 构造一个 track chunk
fn mtrk(events: &[u8]) -> Vec<u8> {
    let mut v = b"MTrk".to_vec();
    v.extend_from_slice(&u32be(events.len() as u32));
    v.extend_from_slice(events);
    v
}
fn vlq(v: u64) -> Vec<u8> {
    let mut out = Vec::new();
    let mut bytes = vec![(v & 0x7f) as u8];
    let mut v = v >> 7;
    while v > 0 {
        bytes.insert(0, ((v & 0x7f) as u8) | 0x80);
        v >>= 7;
    }
    out.extend_from_slice(&bytes);
    out
}

#[test]
fn parse_minimal_smf_note() {
    // 单轨: delta0 NoteOn 60 v100, delta 96 NoteOff, delta0 EOT
    let mut ev = Vec::new();
    ev.extend_from_slice(&vlq(0));
    ev.extend_from_slice(&[0x90, 60, 100]);
    ev.extend_from_slice(&vlq(96));
    ev.extend_from_slice(&[0x80, 60, 0]);
    ev.extend_from_slice(&vlq(0));
    ev.extend_from_slice(&[0xff, 0x2f, 0]);
    let data: Vec<u8> = mthd(1, 1, 192).into_iter().chain(mtrk(&ev)).collect();
    let smf = parse_smf(&data).expect("parse");
    assert_eq!(smf.format, 1);
    assert_eq!(smf.ppq, 192);
    assert_eq!(smf.tracks.len(), 1);
    // events: 2 个 (NoteOn + NoteOff)
    let es = &smf.tracks[0].events;
    assert_eq!(es.len(), 2);
    match &es[0] {
        SmfEvent::NoteOn { tick, channel, pitch, vel } => {
            assert_eq!((*tick, *channel, *pitch, *vel), (0, 0, 60, 100));
        }
        _ => panic!("expected NoteOn"),
    }
    match &es[1] {
        SmfEvent::NoteOff { tick, channel, pitch } => {
            assert_eq!((*tick, *channel, *pitch), (96, 0, 60));
        }
        _ => panic!("expected NoteOff"),
    }
}

#[test]
fn parse_running_status() {
    // running status: 首事件 NoteOn, 后续省略 status
    let mut ev = Vec::new();
    ev.extend_from_slice(&vlq(0));
    ev.extend_from_slice(&[0x90, 60, 100]);
    ev.extend_from_slice(&vlq(1));
    ev.extend_from_slice(&[62, 90]); // running NoteOn
    ev.extend_from_slice(&vlq(1));
    ev.extend_from_slice(&[60, 0]); // running NoteOn vel 0 → NoteOff
    ev.extend_from_slice(&vlq(0));
    ev.extend_from_slice(&[0xff, 0x2f, 0]);
    let data: Vec<u8> = mthd(1, 1, 96).into_iter().chain(mtrk(&ev)).collect();
    let smf = parse_smf(&data).expect("parse");
    let es = &smf.tracks[0].events;
    assert_eq!(es.len(), 3);
    // 80..8f
    assert!(matches!(es[1], SmfEvent::NoteOn { tick: 1, pitch: 62, vel: 90, .. }));
    // vel 0 → NoteOff
    assert!(matches!(es[2], SmfEvent::NoteOff { tick: 2, pitch: 60, .. }));
}

#[test]
fn parse_tempo_and_timesig() {
    // delta0 tempo 500000(120bpm), delta0 NoteOn..., delta96 NoteOff, delta0 EOT
    // 加上 time sig 4/4
    let mut ev = Vec::new();
    ev.extend_from_slice(&vlq(0));
    ev.extend_from_slice(&[0xff, 0x51, 0x03, 0x07, 0xa1, 0x20]); // 500,000
    ev.extend_from_slice(&vlq(0));
    ev.extend_from_slice(&[0xff, 0x58, 0x04, 0x04, 0x02, 0x18, 0x08]);
    ev.extend_from_slice(&vlq(0));
    ev.extend_from_slice(&[0x90, 60, 100]);
    ev.extend_from_slice(&vlq(96));
    ev.extend_from_slice(&[0x80, 60, 0]);
    ev.extend_from_slice(&vlq(0));
    ev.extend_from_slice(&[0xff, 0x2f, 0]);
    let data: Vec<u8> = mthd(1, 1, 96).into_iter().chain(mtrk(&ev)).collect();
    let smf = parse_smf(&data).expect("parse");
    let es = &smf.tracks[0].events;
    assert!(es.iter().any(|e| matches!(e, SmfEvent::Tempo { us_per_qn: 500_000, .. })));
    assert!(es.iter().any(|e| matches!(e, SmfEvent::TimeSig { num: 4, denom: 4, .. })));
    assert_eq!(smf.meta_tempo_count, 1);
    assert_eq!(smf.meta_timesig_count, 1);
}

#[test]
fn build_views_pairs_notes() {
    // 构造一个多通道: ch0 note, ch1 note; 验证 visual 视图
    let mut t0 = Vec::new();
    t0.extend_from_slice(&vlq(0));
    t0.extend_from_slice(&[0x90, 60, 100]); // ch0
    t0.extend_from_slice(&vlq(96));
    t0.extend_from_slice(&[0x80, 60, 0]);
    t0.extend_from_slice(&vlq(0));
    t0.extend_from_slice(&[0x91, 72, 80]); // ch1
    t0.extend_from_slice(&vlq(48));
    t0.extend_from_slice(&[0x81, 72, 0]);
    t0.extend_from_slice(&vlq(0));
    t0.extend_from_slice(&[0xff, 0x2f, 0]);
    let mut t1 = Vec::new();
    t1.extend_from_slice(&vlq(0));
    t1.extend_from_slice(&[0xff, 0x51, 0x03, 0x07, 0xa1, 0x20]);
    t1.extend_from_slice(&vlq(0));
    t1.extend_from_slice(&[0x90, 64, 90]); // ch0 第二音
    t1.extend_from_slice(&vlq(48));
    t1.extend_from_slice(&[0x80, 64, 0]);
    t1.extend_from_slice(&vlq(0));
    t1.extend_from_slice(&[0xff, 0x2f, 0]);
    let data: Vec<u8> = mthd(1, 2, 96)
        .into_iter().chain(mtrk(&t0)).chain(mtrk(&t1)).collect();
    let smf = parse_smf(&data).expect("parse");
    assert_eq!(smf.format, 1);
    assert_eq!(smf.tracks.len(), 2);
    let views = build_track_views(&smf);
    // ch0: 2 音, ch1: 1 音
    assert_eq!(views[0].notes.len(), 2, "ch0 应有 2 音");
    assert_eq!(views[1].notes.len(), 1, "ch1 应有 1 音");
    // velocity 保留验证
    let v0: Vec<u8> = views[0].notes.iter().map(|n| n.vel).collect(); // ch0 两音 vel [100, 90]
    assert!(v0.contains(&100), "ch0 第一音 vel=100 应保留, got {:?}", v0);
    assert!(v0.contains(&90), "ch0 第二音 vel=90 应保留, got {:?}", v0);
    assert_eq!(views[1].notes[0].vel, 80, "ch1 vel=80 应保留");
    // 时长集合: ch0 有 dur96 和 dur48; ch1 有 dur48
    let mut d0: Vec<u64> = views[0].notes.iter().map(|n| n.dur_ticks).collect();
    d0.sort_unstable();
    assert_eq!(d0, vec![48, 96], "ch0 两音时值应 48+96");
    assert_eq!(views[1].notes[0].dur_ticks, 48, "ch1 单音时值 48");
    // ch0 程序号(无 program 事件)为 None
    assert!(views[0].program.is_none());
}

#[test]
fn event_list_filters_and_sorts_by_channel() {
    // Event List: 只列当前 channel 事件, tick 升序, 同 tick 保序
    let mut trk = Vec::new();
    // ★ SMF 事件 channel 是 0-based (解析 st&0x0f). 调用方要查真实 MIDI ch5 → 传 4.
    trk.push(SmfEvent::NoteOn { tick: 0, channel: 4, pitch: 60, vel: 100 });
    trk.push(SmfEvent::NoteOff { tick: 96, channel: 4, pitch: 60 });
    trk.push(SmfEvent::NoteOn { tick: 192, channel: 5, pitch: 62, vel: 80 }); // 其他通道(不入)
    trk.push(SmfEvent::Cc { tick: 48, channel: 4, num: 7, val: 100 });
    trk.push(SmfEvent::Program { tick: 48, channel: 4, program: 5 });
    trk.push(SmfEvent::Tempo { tick: 0, us_per_qn: 500_000 }); // 全局(不入)
    let smf = Smf { format: 1, ntracks: 1, ppq: 96, tracks: vec![TrackEvents { events: trk }], meta_tempo_count: 1, meta_timesig_count: 0 };

    // 查真实 MIDI ch5 → 传 0-based 4
    let rows = event_list_for_channel(&smf, 4);
    assert_eq!(rows.len(), 4, "ch5 应 4 事件, got {}", rows.len());
    assert_eq!(rows[0].tick, 0);
    assert!(matches!(rows[0].kind, EventKind::NoteOn { pitch: 60, vel: 100 }));
    assert_eq!(rows[1].tick, 48);
    assert!(matches!(rows[1].kind, EventKind::Cc { num: 7, val: 100 }));
    assert_eq!(rows[2].tick, 48);
    assert!(matches!(rows[2].kind, EventKind::Program { program: 5 }));
    assert_eq!(rows[3].tick, 96);
    assert!(matches!(rows[3].kind, EventKind::NoteOff { pitch: 60 }));

    // ch6 (0-based 5) → 1 事件
    let rows2 = event_list_for_channel(&smf, 5);
    assert_eq!(rows2.len(), 1, "ch6 应 1 事件");
    assert!(matches!(rows2[0].kind, EventKind::NoteOn { pitch: 62, vel: 80 }));
    // 传 1-based 4 (错误用法) 不该命中 ch5 → 0 事件 (钉死 0-based 约定)
    let rows3 = event_list_for_channel(&smf, 3);
    assert!(rows3.is_empty(), "传 3(1-based ch4) 不应命中 MIDI ch5");
}

#[test]
fn parse_rejects_non_smf() {
    assert_eq!(parse_smf(b"RIFF0000000000").err(), Some(SmfError::NotSmf));
    assert_eq!(parse_smf(&[0x4D, 0x54]).err(), Some(SmfError::NotSmf));
}

#[test]
fn parse_keeps_tick_order_per_track() {
    // law: within a track, ticks never decrease
    let mut ev = Vec::new();
    ev.extend_from_slice(&vlq(10));
    ev.extend_from_slice(&[0x90, 60, 100]);
    ev.extend_from_slice(&vlq(0));
    ev.extend_from_slice(&[0xB0, 7, 90]);
    ev.extend_from_slice(&vlq(200));
    ev.extend_from_slice(&[0x80, 60, 0]);
    ev.extend_from_slice(&vlq(5));
    ev.extend_from_slice(&[0xC0, 3]);
    ev.extend_from_slice(&vlq(0));
    ev.extend_from_slice(&[0xff, 0x2f, 0]);
    let data: Vec<u8> = mthd(0, 1, 96).into_iter().chain(mtrk(&ev)).collect();
    let smf = parse_smf(&data).expect("parse");
    let ticks: Vec<u64> = smf.tracks[0].events.iter().map(|e| match e {
        SmfEvent::NoteOn { tick, .. } | SmfEvent::NoteOff { tick, .. } | SmfEvent::Tempo { tick, .. }
        | SmfEvent::TimeSig { tick, .. } | SmfEvent::Cc { tick, .. } | SmfEvent::Program { tick, .. } | SmfEvent::SysEx { tick, .. } => *tick,
    }).collect();
    assert_eq!(ticks, vec![10, 10, 210, 215]);
}

#[test]
fn views_hold_only_their_channel() {
    // law: every note of view c is on channel c
    let mut t0 = Vec::new();
    t0.extend_from_slice(&vlq(0));
    t0.extend_from_slice(&[0x93, 50, 70]);
    t0.extend_from_slice(&vlq(0));
    t0.extend_from_slice(&[0x9A, 51, 71]);
    t0.extend_from_slice(&vlq(20));
    t0.extend_from_slice(&[0x83, 50, 0]);
    t0.extend_from_slice(&vlq(0));
    t0.extend_from_slice(&[0xff, 0x2f, 0]);
    let data: Vec<u8> = mthd(0, 1, 96).into_iter().chain(mtrk(&t0)).collect();
    let smf = parse_smf(&data).expect("parse");
    let views = build_track_views(&smf);
    assert_eq!(views.len(), 16);
    for (c, view) in views.iter().enumerate() {
        for n in &view.notes {
            assert_eq!(n.channel as usize, c);
        }
    }
    assert_eq!(views[3].notes.len(), 1);
    assert_eq!(views[3].notes[0].dur_ticks, 20);
    // a note never closed gets the placeholder length of 96 ticks
    assert_eq!(views[10].notes.len(), 1);
    assert_eq!(views[10].notes[0].dur_ticks, 96);
}

#[test]
fn error_names() {
    assert_eq!(SmfError::NotSmf.name(), "NotSmf");
}

#[test]
fn meta_event_keeps_running_status() {
    // NoteOn 90 60 100, tempo meta, then running-status data 62 90: still a NoteOn on ch0
    let ev = [0x00, 0x90, 60, 100, 0x00, 0xFF, 0x51, 0x03, 0x07, 0xA1, 0x20, 0x00, 62, 90, 0x00, 0xFF, 0x2F, 0x00];
    let data: Vec<u8> = mthd(0, 1, 96).into_iter().chain(mtrk(&ev)).collect();
    assert!(smf_parse_completes(&data));
    let smf = parse_smf(&data).expect("parse");
    let es = &smf.tracks[0].events;
    assert_eq!(es.len(), 3);
    assert!(matches!(es[0], SmfEvent::NoteOn { tick: 0, channel: 0, pitch: 60, vel: 100 }));
    assert!(matches!(es[1], SmfEvent::Tempo { tick: 0, us_per_qn: 500_000 }));
    assert!(matches!(es[2], SmfEvent::NoteOn { tick: 0, channel: 0, pitch: 62, vel: 90 }));
    assert_eq!(smf.meta_tempo_count, 1);
}

#[test]
fn stray_bytes_after_last_track_end_the_file() {
    let ev = [0x00, 0x90, 60, 100, 0x60, 0x80, 60, 0, 0x00, 0xFF, 0x2F, 0x00];
    let mut data: Vec<u8> = mthd(0, 1, 0xC0).into_iter().chain(mtrk(&ev)).collect();
    data.extend_from_slice(&[0x00, 0x00]);
    assert!(smf_parse_completes(&data));
    let smf = parse_smf(&data).expect("parse");
    assert_eq!(smf.tracks.len(), 1);
    let es = &smf.tracks[0].events;
    assert_eq!(es.len(), 2);
    assert!(matches!(es[0], SmfEvent::NoteOn { tick: 0, channel: 0, pitch: 60, vel: 100 }));
    assert!(matches!(es[1], SmfEvent::NoteOff { tick: 96, channel: 0, pitch: 60 }));
}

#[test]
fn files_the_parser_cannot_go_through_are_flagged() {
    // time signature with denominator power 8
    let ev = [0x00, 0xFF, 0x58, 0x04, 4, 8, 24, 8, 0x00, 0xFF, 0x2F, 0x00];
    let data: Vec<u8> = mthd(0, 1, 96).into_iter().chain(mtrk(&ev)).collect();
    assert!(!smf_parse_completes(&data));
    // running status after an undefined status byte
    let ev = [0x00, 0xF9, 0x00, 0x40, 0x00, 0xFF, 0x2F, 0x00];
    let data: Vec<u8> = mthd(0, 1, 96).into_iter().chain(mtrk(&ev)).collect();
    assert!(!smf_parse_completes(&data));
    // an ordinary file, and a rejected one, are not flagged
    let ev = [0x00, 0xFF, 0x58, 0x04, 4, 2, 24, 8, 0x00, 0xFF, 0x2F, 0x00];
    let data: Vec<u8> = mthd(0, 1, 96).into_iter().chain(mtrk(&ev)).collect();
    assert!(smf_parse_completes(&data));
    assert!(smf_parse_completes(b"not a midi file"));
}

#[test]
fn every_note_on_gives_one_note() {
    // three note-ons (one never closed), one stray note-off: three notes
    let ev = [
        0x00, 0x90, 60, 100, // on 60
        0x10, 0x90, 60, 90,  // on 60 again: closes the first
        0x10, 0x81, 70, 0,   // off without an open note
        0x10, 0x80, 60, 0,   // off 60
        0x00, 0x91, 64, 80,  // on 64 on ch1, never closed
        0x00, 0xFF, 0x2F, 0x00,
    ];
    let data: Vec<u8> = mthd(0, 1, 96).into_iter().chain(mtrk(&ev)).collect();
    let smf = parse_smf(&data).expect("parse");
    let views = build_track_views(&smf);
    let total: usize = views.iter().map(|v| v.notes.len()).sum();
    assert_eq!(total, 3);
    assert_eq!(views[1].notes[0].dur_ticks, 96, "an unclosed note gets the placeholder length");
}

#[test]
fn sysex_events_keep_their_bytes() {
    let ev = [0x00, 0xF0, 0x03, 0x7E, 0x7F, 0xF7, 0x10, 0xF7, 0x01, 0x42, 0x00, 0xFF, 0x2F, 0x00];
    let data: Vec<u8> = mthd(0, 1, 96).into_iter().chain(mtrk(&ev)).collect();
    let smf = parse_smf(&data).expect("parse");
    let es = &smf.tracks[0].events;
    assert_eq!(es.len(), 2);
    assert_eq!(es[0], SmfEvent::SysEx { tick: 0, bytes: vec![0xF0, 0x7E, 0x7F, 0xF7] });
    assert_eq!(es[1], SmfEvent::SysEx { tick: 16, bytes: vec![0xF7, 0x42] });
}
