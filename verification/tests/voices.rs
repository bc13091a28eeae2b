use xg_editor::data::{drum_display_name, Voice, VoiceBank};
use xg_editor::device::Device;
use xg_editor::voice_pick::{
    apply_bank_pc, current_lsb, current_msb, restore_axes, restored_voice, set_voice_from_quickpick,
    smf_channel_voice, voice_name_for, VoiceAxes,
};

fn v(msb: u8, prg: u8, lsb: u8, name: &str) -> Voice {
    Voice { msb, prg, lsb, name: name.to_string(), elc: Some(0), lvl: Some(0) }
}

/// A small table in the shape of the MU90 one.
fn sample_bank() -> VoiceBank {
    VoiceBank::from_direct(vec![
        v(0, 0, 0, "GrandPno"),
        v(0, 0, 1, "GrndPnoK"),
        v(0, 0, 18, "MelloGrP"),
        v(0, 0, 40, "PianoStr"),
        v(0, 0, 41, "Dream"),
        v(0, 9, 0, "Glocken"),
        v(0, 21, 0, "Acordion"),
        v(0, 21, 32, "AccordIt"),
        v(0, 21, 130, "Ext130"),
        v(0, 39, 0, "SynBass2"),
        v(0, 39, 64, "X WireBa"),
        v(0, 39, 65, "AtkPulse"),
        v(64, 48, 0, "Dog"),
        v(126, 0, 0, "SFX Kit1"),
        v(127, 0, 0, "Standard Kit"),
        v(127, 48, 0, "Symphony Kit"),
        v(48, 21, 8, "Glocken+"),
    ])
    .unwrap()
}

#[test]
fn drum_display_names_locked() {
    assert_eq!(drum_display_name(0), "StandKit");
    assert_eq!(drum_display_name(48), "SymphnKt");
    assert_eq!(drum_display_name(1), "Standrd2");
    assert_eq!(drum_display_name(16), "Rock Kit");
}

#[test]
fn drum_display_unknown_is_drum() {
    assert_eq!(drum_display_name(5), "Drum");
    assert_eq!(drum_display_name(255), "Drum");
}

#[test]
fn mu90_supported_msbs_lock() {
    let m = Device::Mu90;
    assert!(m.supports_msb(0), "MSB0 XG");
    assert!(m.supports_msb(64), "MSB64 SFX");
    assert!(m.supports_msb(126), "MSB126 SFX Kit");
    assert!(m.supports_msb(127), "MSB127 Drum");
    assert!(!m.supports_msb(48), "MSB48 not on the MU90");
    assert_eq!(m.supported_msbs(), &[0u8, 64, 126, 127]);
}

#[test]
fn find_grand_piano() {
    let bank = VoiceBank::from_direct(vec![v(0, 0, 0, "GrandPno")]).unwrap();
    let found = bank.xg_by_prg(0).expect("prg0");
    assert_eq!(found.name, "GrandPno");
    assert_eq!(found.msb, VoiceBank::XG_MSB);
    assert_eq!(found.msb, 0);
}

#[test]
fn by_msb_filters() {
    let bank = VoiceBank::from_direct(vec![v(127, 0, 0, "A"), v(127, 1, 0, "B"), v(48, 0, 0, "SFX")]).unwrap();
    assert_eq!(bank.by_msb(127).len(), 2);
    assert_eq!(bank.by_msb(48).len(), 1);
    assert_eq!(bank.find(127, 1, 0).unwrap().name, "B");
}

#[test]
fn empty_bank_is_error() {
    let r = VoiceBank::from_direct(Vec::new());
    assert!(r.is_err());
    assert_eq!(r.err().unwrap(), "音色表为空");
}

#[test]
fn lsb_variants_filters_over_127() {
    let bank = sample_bank();
    assert_eq!(bank.lsb_variants(0, 21), vec![0, 32]);
    assert_eq!(bank.find(0, 21, 32).map(|x| x.name.as_str()), Some("AccordIt"));
    assert!(bank.find(0, 21, 130).is_none(), "an LSB above 127 is never found");
    assert_eq!(bank.lsb_variants(0, 0), vec![0, 1, 18, 40, 41]);
}

#[test]
fn value_lists_ascend_without_repeats() {
    let bank = sample_bank();
    assert_eq!(bank.msb_values(), vec![0, 48, 64, 126, 127]);
    assert_eq!(bank.prg_values(0), vec![0, 9, 21, 39]);
    assert_eq!(bank.prg_values(127), vec![0, 48]);
    assert!(bank.prg_values(5).is_empty());
}

#[test]
fn voices_for_device_filters_mu90() {
    let bank = sample_bank();
    let list = bank.voices_for_device(Device::Mu90);
    assert!(!list.iter().any(|x| x.name == "Glocken+"), "MSB 48 is not an MU90 area");
    assert!(!list.iter().any(|x| x.lsb > 127));
    let keys: Vec<(u8, u8, u8)> = list.iter().map(|x| (x.msb, x.prg, x.lsb)).collect();
    let mut sorted = keys.clone();
    sorted.sort();
    assert_eq!(keys, sorted, "ordered by msb, program, lsb");
    assert_eq!(list.len(), 15);
    assert_eq!(list[0].name, "GrandPno");
    assert_eq!(list[list.len() - 1].name, "Symphony Kit");
}

#[test]
fn voices_for_device_merges_repeated_triples() {
    let bank = VoiceBank::from_direct(vec![
        v(0, 3, 0, "First"),
        v(0, 1, 0, "Low"),
        v(0, 3, 0, "Second"),
        v(0, 3, 1, "Var"),
        v(0, 1, 0, "LowAgain"),
    ])
    .unwrap();
    let list = bank.voices_for_device(Device::Mu90);
    let names: Vec<&str> = list.iter().map(|x| x.name.as_str()).collect();
    assert_eq!(names, vec!["Low", "First", "Var"], "one entry per (msb, prg, lsb), the first of the table");
}

#[test]
fn find_returns_first_match() {
    let bank = VoiceBank::from_direct(vec![v(0, 3, 0, "First"), v(0, 3, 0, "Second")]).unwrap();
    assert_eq!(bank.find(0, 3, 0).unwrap().name, "First");
    assert!(bank.find(0, 4, 0).is_none());
}

#[test]
fn quickpick_drives_3axis() {
    let bank = sample_bank();
    let start = VoiceAxes { msb_idx: 0, pc_idx: 0, lsb_idx: 0 };
    let p = set_voice_from_quickpick(Some(&bank), start, 0, 0, 21);
    assert_eq!((p.msb, p.lsb, p.prog0), (0, 0, 21));
    assert_eq!(p.prog0 as u32 + 1, 22);
    assert_eq!(p.voice, "Acordion");
    let p = set_voice_from_quickpick(Some(&bank), p.axes, 0, 32, 21);
    assert_eq!((p.msb, p.lsb), (0, 32));
    assert_eq!(p.voice, "AccordIt");
    assert_eq!(current_msb(Some(&bank), p.axes.msb_idx), 0);
    assert_eq!(current_lsb(Some(&bank), p.axes, p.prog0 as u32 + 1), 32);
    let p = set_voice_from_quickpick(Some(&bank), p.axes, 0, 0, 0);
    assert_eq!((p.msb, p.lsb, p.prog0), (0, 0, 0));
    assert_eq!(p.voice, "GrandPno");
}

#[test]
fn bank_pc_slider_updates_voice() {
    let bank = sample_bank();
    let p = apply_bank_pc(Some(&bank), VoiceAxes { msb_idx: 0, pc_idx: 0, lsb_idx: 0 });
    assert_eq!(p.voice, "GrandPno");
    let variants = bank.lsb_variants(0, 0);
    let dream_idx = variants.iter().position(|&l| l == 41).unwrap();
    let p = apply_bank_pc(Some(&bank), VoiceAxes { lsb_idx: dream_idx, ..p.axes });
    assert_eq!(p.voice, "Dream");
    assert_eq!(p.lsb, 41);
    // positions past the end are clamped to the last value
    let p = apply_bank_pc(Some(&bank), VoiceAxes { msb_idx: 99, pc_idx: 99, lsb_idx: 99 });
    assert_eq!((p.msb, p.prog0, p.lsb), (127, 48, 0));
    assert_eq!(p.axes, VoiceAxes { msb_idx: 4, pc_idx: 1, lsb_idx: 0 });
    assert_eq!(p.voice, "SymphnKt", "the drum area shows the kit's LCD name");
}

#[test]
fn apply_without_bank_names_nothing() {
    let p = apply_bank_pc(None, VoiceAxes { msb_idx: 3, pc_idx: 2, lsb_idx: 1 });
    assert_eq!((p.msb, p.prog0, p.lsb), (0, 0, 0));
    assert_eq!(p.axes, VoiceAxes { msb_idx: 3, pc_idx: 2, lsb_idx: 1 });
    assert_eq!(p.voice, "---");
    assert_eq!(current_msb(None, 0), 0);
}

#[test]
fn part_voice_names() {
    let bank = sample_bank();
    assert_eq!(voice_name_for(127, 0, 16, "x", Some(&bank)), "Rock Kit");
    assert_eq!(voice_name_for(0, 41, 0, "x", Some(&bank)), "Dream");
    assert_eq!(voice_name_for(0, 99, 9, "x", Some(&bank)), "Glocken", "falls back to the melodic voice");
    assert_eq!(voice_name_for(0, 99, 100, "Carried", Some(&bank)), "Carried");
    assert_eq!(voice_name_for(0, 99, 100, "", None), "GrandPno");
}

#[test]
fn smf_channel_voice_names() {
    let bank = sample_bank();
    // drum channel: standard kit unless the drum area is selected
    assert_eq!(smf_channel_voice(9, None, Some(0), Some(&bank)), "StandKit");
    assert_eq!(smf_channel_voice(9, Some((127, 0)), Some(16), Some(&bank)), "Rock Kit");
    assert_eq!(smf_channel_voice(9, Some((127, 0)), None, Some(&bank)), "StandKit");
    // melodic channels
    assert_eq!(smf_channel_voice(1, None, None, Some(&bank)), "GrandPno");
    assert_eq!(smf_channel_voice(0, None, Some(21), Some(&bank)), "Acordion");
    assert_eq!(smf_channel_voice(0, Some((0, 32)), Some(21), Some(&bank)), "AccordIt");
    assert_eq!(smf_channel_voice(0, Some((0, 5)), Some(21), Some(&bank)), "GrandPno");
}

#[test]
fn restored_selection() {
    let bank = sample_bank();
    let a = restore_axes(Some(&bank), VoiceAxes { msb_idx: 7, pc_idx: 7, lsb_idx: 7 }, 0, 41, 0);
    assert_eq!(a, VoiceAxes { msb_idx: 0, pc_idx: 0, lsb_idx: 4 });
    let keep = restore_axes(Some(&bank), VoiceAxes { msb_idx: 7, pc_idx: 7, lsb_idx: 7 }, 5, 5, 5);
    assert_eq!(keep, VoiceAxes { msb_idx: 7, pc_idx: 7, lsb_idx: 7 });
    assert_eq!(restored_voice(Some(&bank), 0, 0, 41, &"Old".to_string()), "Dream");
    assert_eq!(restored_voice(Some(&bank), 3, 3, 3, &"Old".to_string()), "Old");
}
