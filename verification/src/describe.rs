//! Text shown for MIDI data in the event list and the SysEx panes: hexadecimal byte dumps,
//! the kind of a system exclusive message, controller short names, note names and the detail
//! line of an event.

use vstd::prelude::*;
use crate::text::{decimal, signed_decimal, hex2, push_char, push_decimal, push_signed_decimal, push_hex2, push_str};
use crate::smf::EventKind;

verus! {

/// Bytes as two-digit uppercase hexadecimal, separated by single spaces.
pub open spec fn hex_joined(s: Seq<u8>) -> Seq<char>
    decreases s.len(),
{
    if s.len() == 0 {
        Seq::empty()
    } else if s.len() == 1 {
        hex2(s[0])
    } else {
        hex_joined(s.drop_last()) + seq![' '] + hex2(s.last())
    }
}

/// Hexadecimal dump of a message ("F0 43 10 ... F7").
pub fn format_hex(bytes: &[u8]) -> (r: String)
    ensures
        r@ == hex_joined(bytes@),
{
    let mut s = String::new();
    let mut i: usize = 0;
    assert(bytes@.take(0) =~= Seq::<u8>::empty());
    while i < bytes.len()
        invariant
            0 <= i <= bytes@.len(),
            s@ == hex_joined(bytes@.take(i as int)),
        decreases bytes@.len() - i,
    {
        let ghost before = s@;
        if i > 0 {
            push_char(&mut s, ' ');
        }
        push_hex2(&mut s, bytes[i]);
        proof {
            let t = bytes@.take(i + 1);
            assert(t.drop_last() =~= bytes@.take(i as int));
            assert(t.last() == bytes@[i as int]);
            if i == 0 {
                assert(s@ =~= hex2(bytes@[0]));
            } else {
                assert(s@ =~= before + seq![' '] + hex2(bytes@[i as int]));
            }
        }
        i = i + 1;
    }
    assert(bytes@.take(bytes@.len() as int) =~= bytes@);
    s
}

/// The kind of a system exclusive message (the bytes include the leading F0): Yamaha XG by
/// its message type, Roland GS by its command, the universal IDs, another manufacturer, or
/// "SX" for anything shorter or not starting with F0.
pub open spec fn sysex_kind_text(d: Seq<u8>) -> Seq<char> {
    if d.len() >= 3 && d[0] == 0xF0 && d[1] == 0x43 {
        let t = d[2] & 0xF0;
        if t == 0x00 {
            "XG bulk"@
        } else if t == 0x10 {
            "XG param"@
        } else if t == 0x20 {
            "XG dump-req"@
        } else if t == 0x30 {
            "XG param-req"@
        } else {
            "XG"@
        }
    } else if d.len() >= 5 && d[0] == 0xF0 && d[1] == 0x41 {
        if d[4] == 0x12 {
            "Roland GS param"@
        } else if d[4] == 0x11 {
            "Roland GS req"@
        } else if d[4] == 0x42 {
            "Roland GS reset"@
        } else {
            "Roland"@
        }
    } else if d.len() >= 3 && d[0] == 0xF0 {
        if d[1] == 0x7E {
            "GM/Universal"@
        } else if d[1] == 0x7F {
            "Universal"@
        } else {
            "MFG"@
        }
    } else {
        "SX"@
    }
}

/// The kind of a system exclusive message, for the event list and the SysEx pane.
pub fn sysex_kind(data: &[u8]) -> (r: &'static str)
    ensures
        r@ == sysex_kind_text(data@),
{
    if data.len() >= 3 && data[0] == 0xF0 && data[1] == 0x43 {
        let t = data[2] & 0xF0;
        if t == 0x00 {
            "XG bulk"
        } else if t == 0x10 {
            "XG param"
        } else if t == 0x20 {
            "XG dump-req"
        } else if t == 0x30 {
            "XG param-req"
        } else {
            "XG"
        }
    } else if data.len() >= 5 && data[0] == 0xF0 && data[1] == 0x41 {
        // Roland GS: F0 41 <device> 42 <command>
        if data[4] == 0x12 {
            "Roland GS param"
        } else if data[4] == 0x11 {
            "Roland GS req"
        } else if data[4] == 0x42 {
            "Roland GS reset"
        } else {
            "Roland"
        }
    } else if data.len() >= 3 && data[0] == 0xF0 {
        if data[1] == 0x7E {
            "GM/Universal"
        } else if data[1] == 0x7F {
            "Universal"
        } else {
            "MFG"
        }
    } else {
        "SX"
    }
}

/// Short names of the common controllers; empty for the others.
pub open spec fn cc_name(num: u8) -> Seq<char> {
    if num == 0 { "bank MSB"@ }
    else if num == 1 { "mod"@ }
    else if num == 2 { "breath"@ }
    else if num == 4 { "foot"@ }
    else if num == 5 { "porta"@ }
    else if num == 7 { "vol"@ }
    else if num == 10 { "pan"@ }
    else if num == 11 { "expr"@ }
    else if num == 64 { "sustain"@ }
    else if num == 65 { "porta-on"@ }
    else if num == 66 { "sostenuto"@ }
    else if num == 67 { "soft"@ }
    else if num == 71 { "reson"@ }
    else if num == 72 { "rel"@ }
    else if num == 73 { "atk"@ }
    else if num == 74 { "cutoff"@ }
    else if num == 91 { "reverb"@ }
    else if num == 93 { "chorus"@ }
    else if num == 98 { "NRPN-L"@ }
    else if num == 99 { "NRPN-H"@ }
    else if num == 100 { "RPN-L"@ }
    else if num == 101 { "RPN-H"@ }
    else if num == 120 { "all-sound"@ }
    else if num == 121 { "reset-ctrl"@ }
    else if num == 123 { "all-notes"@ }
    else if num == 126 { "mono"@ }
    else if num == 127 { "poly"@ }
    else { ""@ }
}

/// Short name of a controller number (empty when it has none).
pub fn cc_short_name(num: u8) -> (r: &'static str)
    ensures
        r@ == cc_name(num),
{
    match num {
        0 => "bank MSB",
        1 => "mod",
        2 => "breath",
        4 => "foot",
        5 => "porta",
        7 => "vol",
        10 => "pan",
        11 => "expr",
        64 => "sustain",
        65 => "porta-on",
        66 => "sostenuto",
        67 => "soft",
        71 => "reson",
        72 => "rel",
        73 => "atk",
        74 => "cutoff",
        91 => "reverb",
        93 => "chorus",
        98 => "NRPN-L",
        99 => "NRPN-H",
        100 => "RPN-L",
        101 => "RPN-H",
        120 => "all-sound",
        121 => "reset-ctrl",
        123 => "all-notes",
        126 => "mono",
        127 => "poly",
        _ => "",
    }
}

/// The twelve pitch-class names, C first.
pub open spec fn pitch_class_names() -> Seq<Seq<char>> {
    seq!["C"@, "C#"@, "D"@, "D#"@, "E"@, "F"@, "F#"@, "G"@, "G#"@, "A"@, "A#"@, "B"@]
}

/// Quotient rounded toward zero.
pub open spec fn div_toward_zero(a: int, b: int) -> int {
    if a >= 0 { a / b } else { -((-a) / b) }
}

/// Note name of a MIDI pitch: pitch class (of the non-negative remainder) and octave, with
/// middle C (60) as "C4"; the octave is the pitch divided by 12 rounded toward zero, minus one.
pub open spec fn note_name(p: int) -> Seq<char> {
    pitch_class_names()[p % 12] + signed_decimal(div_toward_zero(p, 12) - 1)
}

/// Note name of a MIDI pitch (C-1..G9 over 0..127).
pub fn midi_name(p: i32) -> (r: String)
    ensures
        r@ == note_name(p as int),
{
    let names: &'static [&'static str; 12] = &["C", "C#", "D", "D#", "E", "F", "F#", "G", "G#", "A", "A#", "B"];
    let (q, rem): (i64, usize) = if p >= 0 {
        let u = p as u64;
        ((u / 12) as i64, (u % 12) as usize)
    } else {
        let m = (-(p as i64)) as u64;
        let back = (m % 12) as usize;
        (-((m / 12) as i64), if back == 0 { 0 } else { 12 - back })
    };
    proof {
        if p < 0 {
            let m = -(p as int);
            assert(p as int % 12 == (if m % 12 == 0 { 0 } else { 12 - m % 12 })) by (nonlinear_arith)
                requires m == -(p as int), m > 0;
        }
    }
    let mut s = String::new();
    push_str(&mut s, names[rem]);
    push_signed_decimal(&mut s, q - 1);
    s
}

/// The detail line of an event-list row: 1-based channel, absolute tick and the event's data.
pub open spec fn event_detail(ch: u8, kind: EventKind, tick: u64) -> Seq<char> {
    let head = "ch"@ + decimal(ch as nat) + "  tick="@ + decimal(tick as nat) + "  "@;
    match kind {
        EventKind::NoteOn { pitch, vel } =>
            head + note_name(pitch as int) + " ("@ + decimal(pitch as nat) + ")  vel="@ + decimal(vel as nat),
        EventKind::NoteOff { pitch } =>
            head + note_name(pitch as int) + " ("@ + decimal(pitch as nat) + ")"@,
        EventKind::Cc { num, val } => if cc_name(num).len() == 0 {
            head + "CC"@ + decimal(num as nat) + "  val="@ + decimal(val as nat)
        } else {
            head + "CC"@ + decimal(num as nat) + " "@ + cc_name(num) + "  val="@ + decimal(val as nat)
        },
        EventKind::Program { program } =>
            head + "program="@ + decimal((program + 1) as nat) + " ("@ + hex2(program) + ")"@,
    }
}

/// The detail line shown when an event-list row is opened (`ch` is the 1-based channel).
pub fn event_detail_text(ch: u8, kind: &EventKind, tick: u64) -> (r: String)
    requires
        !(*kind matches EventKind::Program { program } && program == 255),
    ensures
        r@ == event_detail(ch, *kind, tick),
{
    let mut s = String::new();
    push_str(&mut s, "ch");
    push_decimal(&mut s, ch as u64);
    push_str(&mut s, "  tick=");
    push_decimal(&mut s, tick);
    push_str(&mut s, "  ");
    let ghost head = s@;
    proof {
        reveal_strlit("ch");
        reveal_strlit("  tick=");
        reveal_strlit("  ");
        assert(head =~= "ch"@ + decimal(ch as nat) + "  tick="@ + decimal(tick as nat) + "  "@);
    }
    match kind {
        EventKind::NoteOn { pitch, vel } => {
            let name = midi_name(*pitch as i32);
            push_str(&mut s, name.as_str());
            push_str(&mut s, " (");
            push_decimal(&mut s, *pitch as u64);
            push_str(&mut s, ")  vel=");
            push_decimal(&mut s, *vel as u64);
            assert(s@ =~= event_detail(ch, *kind, tick));
        },
        EventKind::NoteOff { pitch } => {
            let name = midi_name(*pitch as i32);
            push_str(&mut s, name.as_str());
            push_str(&mut s, " (");
            push_decimal(&mut s, *pitch as u64);
            push_str(&mut s, ")");
            assert(s@ =~= event_detail(ch, *kind, tick));
        },
        EventKind::Cc { num, val } => {
            let name = cc_short_name(*num);
            push_str(&mut s, "CC");
            push_decimal(&mut s, *num as u64);
            if name.is_empty() {
                push_str(&mut s, "  val=");
                push_decimal(&mut s, *val as u64);
            } else {
                push_str(&mut s, " ");
                push_str(&mut s, name);
                push_str(&mut s, "  val=");
                push_decimal(&mut s, *val as u64);
            }
            assert(s@ =~= event_detail(ch, *kind, tick));
        },
        EventKind::Program { program } => {
            push_str(&mut s, "program=");
            push_decimal(&mut s, (*program + 1) as u64);
            push_str(&mut s, " (");
            push_hex2(&mut s, *program);
            push_str(&mut s, ")");
            assert(s@ =~= event_detail(ch, *kind, tick));
        },
    }
    s
}

} // verus!
