use xg_editor::pattern::default_pattern_notes;
use xg_editor::piano_roll::pr_notes;
use xg_editor::playback::notes_end_tick;
use xg_editor::smf::{build_track_views, parse_smf, SmfEvent, SmfTrackView};
use xg_editor::tempo::tempo_changes;
use xg_editor::voice_pick::{smf_channel_voice, voice_name_for};

/// A one-track file (ppq 96) around the given track bytes.
fn one_track(trk: &[u8]) -> Vec<u8> {
    let mut data: Vec<u8> = Vec::new();
    data.extend_from_slice(b"MThd");
    data.extend_from_slice(&[0, 0, 0, 6, 0, 0, 0, 1, 0, 0x60]); // 1 track ppq 96
    data.extend_from_slice(b"MTrk");
    data.extend_from_slice(&(trk.len() as u32).to_be_bytes());
    data.extend_from_slice(trk);
    data
}

/// Views of a file, as loading builds them.
fn views_of(data: &[u8]) -> Vec<SmfTrackView> {
    let smf = parse_smf(data).expect("SMF 解析失败");
    build_track_views(&smf)
}

/// Names the channel rows show after loading (no voice table here).
fn channel_names(views: &[SmfTrackView]) -> Vec<String> {
    views.iter().enumerate().map(|(i, v)| smf_channel_voice(i, v.bank, v.program, None)).collect()
}

#[test]
fn ch10_always_shows_drumkit_name() {
    // ch10 强制鼓通道: 即使 SMF 给了 PC=0 (melodic GrandPno 号), 也应按 XG 显示鼓组名
    let mut trk: Vec<u8> = Vec::new();
    trk.extend_from_slice(&[0x00, 0xFF, 0x51, 0x03, 0x0F, 0x42, 0x40]); // tempo
    trk.extend_from_slice(&[0x00, 0xC9, 0]);
    trk.extend_from_slice(&[0x00, 0x99, 60, 100]);
    trk.extend_from_slice(&[0x83, 0x00, 0x89, 60, 0]);
    trk.extend_from_slice(&[0x00, 0xFF, 0x2F, 0x00]);
    let names = channel_names(&views_of(&one_track(&trk)));
    assert_eq!(names[9], "StandKit", "ch10 无 bank 默认应按鼓通道显示 LCD 名 StandKit, got '{}'", names[9]);
}

#[test]
fn ch10_responds_to_bank_for_drumkit() {
    // ch10 不应硬编码 Standard Kit —— 若有 bank(msb=127) 与 PC, 应响应显示实际鼓组
    let mut trk: Vec<u8> = Vec::new();
    trk.extend_from_slice(&[0x00, 0xFF, 0x51, 0x03, 0x0F, 0x42, 0x40]); // tempo
    trk.extend_from_slice(&[0x00, 0xB9, 0, 127]);
    trk.extend_from_slice(&[0x00, 0xC9, 16]);
    trk.extend_from_slice(&[0x00, 0x99, 60, 100]);
    trk.extend_from_slice(&[0x83, 0x00, 0x89, 60, 0]);
    trk.extend_from_slice(&[0x00, 0xFF, 0x2F, 0x00]);
    let names = channel_names(&views_of(&one_track(&trk)));
    assert_eq!(names[9], "Rock Kit", "ch10 有 bank msb=127 + PC16 应显示 Rock Kit, got '{}'", names[9]);
}

#[test]
fn smf_load_uses_real_ppq_and_tempo() {
    // 加载后 ppq/tempo 取 SMF 值, bar 数按真实 ppq 计算
    let us = 631_579u32; // 95 bpm
    let mut trk: Vec<u8> = Vec::new();
    trk.extend_from_slice(&[0x00, 0xFF, 0x51, 0x03, (us >> 16) as u8, (us >> 8) as u8, us as u8]);
    trk.extend_from_slice(&[0x00, 0x90, 60, 100]);
    trk.extend_from_slice(&[0x83, 0x00, 0x80, 60, 0]);
    trk.extend_from_slice(&[0x00, 0xFF, 0x2F, 0x00]);
    let data = one_track(&trk);
    let smf = parse_smf(&data).expect("SMF 解析失败");
    let ppq = smf.ppq as u64;
    assert_eq!(ppq, 96, "ppq 应取 SMF 的 96");
    let all: Vec<SmfEvent> = smf.tracks.iter().flat_map(|t| t.events.iter().cloned()).collect();
    let (base_us, _) = tempo_changes(&all);
    let tempo_bpm = 60_000_000.0 / base_us as f64;
    assert!((tempo_bpm - 95.0).abs() < 0.1, "tempo_bpm 应从 SMF 初始 tempo 反算 (95 bpm), got {tempo_bpm}");
    let smf_end_tick = notes_end_tick(&build_track_views(&smf));
    let bars = smf_end_tick / (ppq * 4) + 1;
    assert_eq!(bars, 2, "bar 数应按真实 ppq 计算");
}

#[test]
fn smf_load_fills_live_voice_names_from_program() {
    // 中央 channel view 的行头音色从 SMF program 来; 空通道 GrandPno; ch10 StandKit
    let mut trk: Vec<u8> = Vec::new();
    trk.extend_from_slice(&[0x00, 0xFF, 0x51, 0x03, 0x0F, 0x42, 0x40]); // tempo
    trk.extend_from_slice(&[0x00, 0xC0, 81]);
    trk.extend_from_slice(&[0x00, 0x90, 60, 100]);
    trk.extend_from_slice(&[0x83, 0x00, 0x80, 60, 0]);
    trk.extend_from_slice(&[0x00, 0xFF, 0x2F, 0x00]);
    let names = channel_names(&views_of(&one_track(&trk)));
    assert!(names[0].len() > 2, "ch1 应有音色名, got '{}'", names[0]);
    assert_eq!(names[1], "GrandPno");
    assert_eq!(names[9], "StandKit");
}

#[test]
fn pr_notes_no_ghost_after_smf_load() {
    // 加载 MIDI 后无音符的 channel 不得残留 demo(ghost) notes
    let mut trk: Vec<u8> = Vec::new();
    trk.extend_from_slice(&[0x00, 0xFF, 0x51, 0x03, 0x07, 0xA1, 0x20]);
    trk.extend_from_slice(&[0x00, 0x90, 60, 100]);
    trk.extend_from_slice(&[0x81, 0x00, 0x80, 60, 0]);
    trk.extend_from_slice(&[0x00, 0xFF, 0x2F, 0x00]);
    let views = views_of(&one_track(&trk));
    let demo = default_pattern_notes();
    // ch1 (有音符) → 应有 1 个 note
    let n1 = pr_notes(true, &views, &demo, 1);
    assert_eq!(n1.len(), 1, "Ch1 应有 SMF 的 1 个音符, got {}", n1.len());
    // ch2 (无音符) → 必须为空 (ghost 修复)
    let n2 = pr_notes(true, &views, &demo, 2);
    assert!(n2.is_empty(), "Ch2 无音符应返回空, 不得残留 demo: got {}", n2.len());
    // ch16 也无音符 → 空
    assert!(pr_notes(true, &views, &demo, 16).is_empty(), "Ch16 无音符应返回空");
    // 未加载 SMF 时 (默认) → ch1 应有 demo 音符
    let empty: Vec<SmfTrackView> = (0..16).map(|_| SmfTrackView::default()).collect();
    assert!(!pr_notes(false, &empty, &demo, 1).is_empty(), "未加载 SMF 时 Ch1 应有 demo 音符");
}

#[test]
fn pr_notes_lists_file_notes_in_roll_form() {
    let mut trk: Vec<u8> = Vec::new();
    trk.extend_from_slice(&[0x00, 0x91, 64, 90]);
    trk.extend_from_slice(&[0x60, 0x81, 64, 0]);
    trk.extend_from_slice(&[0x00, 0xFF, 0x2F, 0x00]);
    let views = views_of(&one_track(&trk));
    assert_eq!(pr_notes(true, &views, &[], 2), vec![(0, 96, 64)]);
    // channel 0 is read as channel 1
    assert_eq!(pr_notes(true, &views, &[], 0), pr_notes(true, &views, &[], 1));
    // a channel past the views: nothing
    assert!(pr_notes(true, &views, &[], 40).is_empty());
}

#[test]
fn playview_voice_name_maps_bank_and_drum() {
    // 鼓通道 (msb=127) → drum_display_name; 旋律 → 表中名 (无表时沿用 part 的名)
    assert_eq!(voice_name_for(127, 0, 0, "GrandPno", None), "StandKit");
    assert_eq!(voice_name_for(127, 0, 16, "GrandPno", None), "Rock Kit");
    let name = voice_name_for(0, 0, 0, "GrandPno", None);
    assert!(name.to_lowercase().contains("piano") || !name.is_empty(), "pc0 msb0 应映射到钢琴系, got {name}");
}
