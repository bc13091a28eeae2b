use xg_editor::describe::{cc_short_name, event_detail_text, format_hex, midi_name, sysex_kind};
use xg_editor::smf::EventKind;

#[test]
fn sysex_kind_recognizes_roland_gs_xg_universal() {
    assert_eq!(sysex_kind(&[0xF0, 0x41, 0x10, 0x42, 0x12, 0x01, 0x24, 0x3A, 0x60, 0xF7]), "Roland GS param");
    assert_eq!(sysex_kind(&[0xF0, 0x41, 0x10, 0x42, 0x12, 0x40, 0x00, 0x7F, 0x00, 0x41, 0xF7]), "Roland GS param");
    assert_eq!(sysex_kind(&[0xF0, 0x43, 0x10, 0x4C, 0x00, 0x00, 0x7E, 0x00, 0xF7]), "XG param");
    assert_eq!(sysex_kind(&[0xF0, 0x7E, 0x7F, 0x09, 0x01, 0xF7]), "GM/Universal");
    assert_eq!(sysex_kind(&[0xF0, 0x15, 0x01, 0x02, 0xF7]), "MFG");
    assert_eq!(sysex_kind(&[0xF0]), "SX");
}

#[test]
fn sysex_kind_other_types() {
    assert_eq!(sysex_kind(&[0xF0, 0x43, 0x00, 0x4C]), "XG bulk");
    assert_eq!(sysex_kind(&[0xF0, 0x43, 0x21, 0x4C]), "XG dump-req");
    assert_eq!(sysex_kind(&[0xF0, 0x43, 0x31, 0x4C]), "XG param-req");
    assert_eq!(sysex_kind(&[0xF0, 0x43, 0x51]), "XG");
    assert_eq!(sysex_kind(&[0xF0, 0x41, 0x10, 0x42, 0x11]), "Roland GS req");
    assert_eq!(sysex_kind(&[0xF0, 0x41, 0x10, 0x42, 0x42]), "Roland GS reset");
    assert_eq!(sysex_kind(&[0xF0, 0x41, 0x10, 0x42, 0x01]), "Roland");
    assert_eq!(sysex_kind(&[0xF0, 0x7F, 0x01]), "Universal");
    assert_eq!(sysex_kind(&[0xF7, 0x43, 0x10]), "SX");
}

#[test]
fn event_detail_text_formats_all_kinds() {
    assert_eq!(event_detail_text(1, &EventKind::NoteOn { pitch: 60, vel: 100 }, 480), "ch1  tick=480  C4 (60)  vel=100");
    assert_eq!(event_detail_text(10, &EventKind::NoteOff { pitch: 45 }, 960), "ch10  tick=960  A2 (45)");
    assert_eq!(event_detail_text(1, &EventKind::Cc { num: 7, val: 100 }, 480), "ch1  tick=480  CC7 vol  val=100");
    assert_eq!(event_detail_text(2, &EventKind::Cc { num: 17, val: 64 }, 100), "ch2  tick=100  CC17  val=64");
    assert_eq!(event_detail_text(1, &EventKind::Program { program: 0 }, 0), "ch1  tick=0  program=1 (00)");
}

#[test]
fn program_detail_shows_hex() {
    assert_eq!(event_detail_text(3, &EventKind::Program { program: 0x7A }, 5), "ch3  tick=5  program=123 (7A)");
}

#[test]
fn note_names() {
    assert_eq!(midi_name(0), "C-1");
    assert_eq!(midi_name(61), "C#4");
    assert_eq!(midi_name(127), "G9");
    assert_eq!(midi_name(-1), "B-1");
    assert_eq!(midi_name(-13), "B-2");
}

#[test]
fn hex_dump() {
    assert_eq!(format_hex(&[0xF0, 0x43, 0x0A, 0xF7]), "F0 43 0A F7");
    assert_eq!(format_hex(&[]), "");
    assert_eq!(format_hex(&[7]), "07");
}

#[test]
fn controller_names() {
    assert_eq!(cc_short_name(64), "sustain");
    assert_eq!(cc_short_name(121), "reset-ctrl");
    assert_eq!(cc_short_name(3), "");
}
