use xg_editor::ms_button::MSKind;
use xg_editor::part::{param_offsets, slider_byte, slider_message, SystemFx, N_PARAMS, P};
use xg_editor::sysex::{part_param, Device};
use xg_editor::play_view::CentralView;
use xg_editor::transport::Transport;

#[test]
fn sys_fx_default() {
    let f = SystemFx::default();
    assert_eq!(f.rev_type, "Hall");
    assert_eq!(f.cho_type, "Chorus1");
    assert_eq!(f.var_type, "off");
}

#[test]
fn mix_parameter_indices() {
    assert_eq!(P::Volume.index(), 0);
    assert_eq!(P::Pan.index(), 3);
    assert_eq!(P::Key.index(), 7);
    assert_eq!(P::Pan as usize, 3);
    assert_eq!(N_PARAMS, 8);
}

#[test]
fn mute_solo_glyphs_and_colours() {
    assert_eq!(MSKind::Mute.glyph(), "M");
    assert_eq!(MSKind::Solo.glyph(), "S");
    assert_eq!(MSKind::Mute.active_rgb(), (0xe0, 0x35, 0x35));
    assert_eq!(MSKind::Solo.active_rgb(), (0xff, 0xb0, 0x30));
}

#[test]
fn transport_button_kinds_are_distinct() {
    let kinds = [Transport::Play, Transport::Pause, Transport::Stop, Transport::Record];
    let glyphs: Vec<&str> = kinds.iter().map(|k| k.glyph()).collect();
    assert_eq!(glyphs, vec!["\u{25B6}", "\u{23F8}", "\u{23F9}", "\u{23FA}"]);
    assert_eq!(Transport::Play.glyph_rgb(true), (0x5a, 0xd0, 0x7a));
    assert_eq!(Transport::Record.glyph_rgb(true), (0xff, 0x3b, 0x30));
    assert_eq!(Transport::Record.glyph_rgb(false), (0xe8, 0xe8, 0xe8));
    assert_eq!(Transport::Stop.glyph_rgb(false), (0xe8, 0xe8, 0xe8));
}

#[test]
fn central_view_labels() {
    assert_eq!(CentralView::default(), CentralView::ChannelNotes);
    assert_eq!(CentralView::PianoRoll.label(), "Piano Roll");
    assert_eq!(CentralView::ChannelNotes.label(), "Channel Notes");
    assert_eq!(CentralView::PlayView.label(), "PlayView");
}

#[test]
fn param_sysex_byte_gen() {
    // 直接验证滑块 → SysEx 字节生成逻辑 (无 UI, 程序断言)
    let offsets = param_offsets();
    // Volume(0) = 100 → offset 0x0B, 值 100
    let offset = offsets[0];
    let msg = part_param(Device::Param(0), 0, offset, 100).unwrap();
    assert_eq!(msg, vec![0xF0, 0x43, 0x10, 0x4C, 0x08, 0x00, 0x0B, 100, 0xF7]);
    // Pan(3) = +63 → offset 0x0E, 值 = 63 - (-64) = 127
    let offset = offsets[3];
    let msg = part_param(Device::Param(0), 0, offset, 127).unwrap();
    assert_eq!(msg, vec![0xF0, 0x43, 0x10, 0x4C, 0x08, 0x00, 0x0E, 127, 0xF7]);
    // Bright(2) = 0 → offset 0x1A, 值 = 0 - (-64) = 64 (中心)
    let offset = offsets[2];
    let msg = part_param(Device::Param(0), 0, offset, 64).unwrap();
    assert_eq!(msg, vec![0xF0, 0x43, 0x10, 0x4C, 0x08, 0x00, 0x1A, 64, 0xF7]);
}

#[test]
fn slider_offsets_in_panel_order() {
    assert_eq!(param_offsets(), vec![0x0B, 0x11, 0x1A, 0x0E, 0x13, 0x12, 0x14, 0x08, 0x18, 0x19]);
}

#[test]
fn slider_byte_shifts_signed_ranges_and_clamps() {
    assert_eq!(slider_byte(63, -64), 127);
    assert_eq!(slider_byte(0, -64), 64);
    assert_eq!(slider_byte(-64, -64), 0);
    assert_eq!(slider_byte(100, 0), 100);
    assert_eq!(slider_byte(200, 0), 127);
    assert_eq!(slider_byte(-5, 0), 0);
    assert_eq!(slider_byte(i32::MAX, -64), 127);
}

#[test]
fn slider_message_builds_part_parameter_change() {
    // part index 2 (Part 3), Pan at +63
    assert_eq!(
        slider_message(2, 0x0E, 63, -64),
        vec![0xF0, 0x43, 0x10, 0x4C, 0x08, 0x02, 0x0E, 127, 0xF7]
    );
    // Volume 100 on part 0
    assert_eq!(
        slider_message(0, 0x0B, 100, 0),
        vec![0xF0, 0x43, 0x10, 0x4C, 0x08, 0x00, 0x0B, 100, 0xF7]
    );
    // no such part: nothing to send
    assert!(slider_message(32, 0x0B, 100, 0).is_empty());
}
