//! The built-in demo sequence: sixteen two-bar phrases, one per MIDI channel, played when no
//! Standard MIDI File is loaded, and the default voice names of the sixteen demo tracks.

use vstd::prelude::*;

verus! {

/// One sequencer note. Ticks are exact; playback converts them to time.
#[derive(Debug, Clone, Copy, PartialEq)]
pub struct MidiNote {
    /// start tick
    pub start_tick: u64,
    /// length in ticks
    pub dur_ticks: u64,
    /// 0..127 (C-1..G9)
    pub pitch: u8,
    /// 0..127
    pub velocity: u8,
    /// 0..15 (sending channel)
    pub channel: u8,
}

/// Ticks per quarter note of the demo sequence.
pub const PATTERN_PPQ: u64 = 96;

/// The eight on-beat pitches of channel `ch` (bass riff on channel 0, lowest line on 15).
pub open spec fn pattern_pitches(ch: int) -> Seq<u8> {
    if ch == 0 {
        seq![36u8, 36, 48, 36, 41, 41, 36, 43]
    } else if ch == 1 {
        seq![55u8, 55, 55, 50, 53, 55, 57, 55]
    } else if ch == 2 {
        seq![60u8, 64, 67, 64, 60, 65, 67, 64]
    } else if ch == 3 {
        seq![64u8, 67, 71, 67, 62, 65, 69, 65]
    } else if ch == 4 {
        seq![67u8, 71, 74, 71, 65, 69, 72, 69]
    } else if ch == 5 {
        seq![60u8, 60, 72, 60, 62, 60, 64, 50]
    } else if ch == 6 {
        seq![62u8, 65, 69, 65, 60, 64, 67, 64]
    } else if ch == 7 {
        seq![59u8, 62, 65, 62, 60, 65, 62, 59]
    } else if ch == 8 {
        seq![57u8, 60, 64, 60, 57, 62, 65, 62]
    } else if ch == 9 {
        seq![55u8, 59, 62, 59, 55, 60, 64, 60]
    } else if ch == 10 {
        seq![53u8, 57, 60, 57, 55, 59, 62, 59]
    } else if ch == 11 {
        seq![50u8, 54, 57, 54, 50, 55, 59, 55]
    } else if ch == 12 {
        seq![48u8, 52, 55, 52, 48, 53, 57, 53]
    } else if ch == 13 {
        seq![43u8, 47, 50, 47, 43, 48, 52, 48]
    } else if ch == 14 {
        seq![38u8, 41, 45, 41, 38, 43, 46, 43]
    } else {
        seq![33u8, 36, 40, 36, 33, 38, 41, 38]
    }
}

/// The notes of beat `b` of channel `ch`: a one-beat note at velocity 90 and, on odd beats of
/// channels 2 and up, an off-beat half-beat note a fifth higher (wrapping at 256) at velocity 60.
pub open spec fn beat_notes(ch: int, b: int) -> Seq<MidiNote> {
    let p = pattern_pitches(ch)[b];
    let on = MidiNote {
        start_tick: (b * 96) as u64,
        dur_ticks: 96,
        pitch: p,
        velocity: 90,
        channel: ch as u8,
    };
    if b % 2 == 1 && ch >= 2 {
        seq![on, MidiNote {
            start_tick: (b * 96 + 48) as u64,
            dur_ticks: 48,
            pitch: ((p + 7) % 256) as u8,
            velocity: 60,
            channel: ch as u8,
        }]
    } else {
        seq![on]
    }
}

/// The notes of the first `n` beats of channel `ch`, beat by beat.
pub open spec fn track_notes(ch: int, n: int) -> Seq<MidiNote>
    decreases n,
{
    if n <= 0 {
        Seq::empty()
    } else {
        track_notes(ch, n - 1) + beat_notes(ch, n - 1)
    }
}

/// The demo voice names of tracks 1..16.
pub open spec fn demo_voice_names() -> Seq<Seq<char>> {
    seq![
        "GrandPno"@, "Tinkle"@, "Megalith"@, "75'Organ"@, "MutedGt"@, "VintageCp"@, "ThermalX"@,
        "AeroStr"@, "ScrewDv"@, "Twinkle1"@, "KaossPad"@, "OrchStr"@, "DreamPno"@, "Miracle"@,
        "LoonLand"@, "ElamStr"@,
    ]
}

fn pattern_row(ch: usize) -> (r: &'static [u8])
    requires
        ch < 16,
    ensures
        r@ == pattern_pitches(ch as int),
{
    let a: &'static [u8; 8] = match ch {
        0 => &[36, 36, 48, 36, 41, 41, 36, 43],
        1 => &[55, 55, 55, 50, 53, 55, 57, 55],
        2 => &[60, 64, 67, 64, 60, 65, 67, 64],
        3 => &[64, 67, 71, 67, 62, 65, 69, 65],
        4 => &[67, 71, 74, 71, 65, 69, 72, 69],
        5 => &[60, 60, 72, 60, 62, 60, 64, 50],
        6 => &[62, 65, 69, 65, 60, 64, 67, 64],
        7 => &[59, 62, 65, 62, 60, 65, 62, 59],
        8 => &[57, 60, 64, 60, 57, 62, 65, 62],
        9 => &[55, 59, 62, 59, 55, 60, 64, 60],
        10 => &[53, 57, 60, 57, 55, 59, 62, 59],
        11 => &[50, 54, 57, 54, 50, 55, 59, 55],
        12 => &[48, 52, 55, 52, 48, 53, 57, 53],
        13 => &[43, 47, 50, 47, 43, 48, 52, 48],
        14 => &[38, 41, 45, 41, 38, 43, 46, 43],
        _ => &[33, 36, 40, 36, 33, 38, 41, 38],
    };
    let s: &'static [u8] = a.as_slice();
    assert(s@ =~= pattern_pitches(ch as int));
    s
}

/// The demo sequence: 16 tracks (one per channel, 4/4, 96 ticks per beat), each two bars of
/// one-beat notes with off-beat notes on odd beats of channels 2..15.
pub fn default_pattern_notes() -> (out: Vec<Vec<MidiNote>>)
    ensures
        out@.len() == 16,
        forall|ch: int| 0 <= ch < 16 ==> (#[trigger] out@[ch])@ == track_notes(ch, 8),
{
    let ppq: u64 = PATTERN_PPQ;
    let mut out: Vec<Vec<MidiNote>> = Vec::new();
    let mut ch: usize = 0;
    while ch < 16
        invariant
            0 <= ch <= 16,
            ppq == 96,
            out@.len() == ch,
            forall|c: int| 0 <= c < ch ==> (#[trigger] out@[c])@ == track_notes(c, 8),
        decreases 16 - ch,
    {
        let arr = pattern_row(ch);
        let mut notes: Vec<MidiNote> = Vec::new();
        let mut b: usize = 0;
        while b < 8
            invariant
                0 <= b <= 8,
                ch < 16,
                ppq == 96,
                arr@ == pattern_pitches(ch as int),
                notes@ == track_notes(ch as int, b as int),
            decreases 8 - b,
        {
            let p = arr[b];
            let start = (b as u64) * ppq;
            let ghost before = notes@;
            notes.push(MidiNote { start_tick: start, dur_ticks: ppq, pitch: p, velocity: 90, channel: ch as u8 });
            if b % 2 == 1 && ch >= 2 {
                notes.push(MidiNote {
                    start_tick: start + ppq / 2,
                    dur_ticks: ppq / 2,
                    pitch: p.wrapping_add(7),
                    velocity: 60,
                    channel: ch as u8,
                });
            }
            assert(notes@ =~= before + beat_notes(ch as int, b as int));
            b = b + 1;
        }
        out.push(notes);
        ch = ch + 1;
    }
    out
}

/// The demo voice name of track `i` (1-based); "????" past the sixteenth track.
pub fn voice_for(i: usize) -> (r: String)
    requires
        i >= 1,
    ensures
        i <= 16 ==> r@ == demo_voice_names()[i - 1],
        i > 16 ==> r@ == "????"@,
{
    let v: &'static [&'static str; 16] = &[
        "GrandPno", "Tinkle", "Megalith", "75'Organ", "MutedGt", "VintageCp", "ThermalX",
        "AeroStr", "ScrewDv", "Twinkle1", "KaossPad", "OrchStr", "DreamPno", "Miracle",
        "LoonLand", "ElamStr",
    ];
    if i <= v.len() {
        let s: &str = v[i - 1];
        s.to_owned()
    } else {
        "????".to_owned()
    }
}

} // verus!
