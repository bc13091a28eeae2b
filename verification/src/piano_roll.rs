//! Notes shown in the piano roll for one channel.

use vstd::prelude::*;
use crate::pattern::MidiNote;
use crate::smf::{SmfNote, SmfTrackView};

verus! {

/// A note as the piano roll draws it: (start tick, length in ticks, pitch).
pub type RollNote = (u64, u64, u8);

/// Roll form of a file note.
pub open spec fn file_roll_note(n: SmfNote) -> RollNote {
    (n.start_tick, n.dur_ticks, n.pitch)
}

/// Roll form of a demo note.
pub open spec fn demo_roll_note(n: MidiNote) -> RollNote {
    (n.start_tick, n.dur_ticks, n.pitch)
}

/// Notes of channel `ch` (1-based; 0 is read as 1). With a file loaded they come from the
/// file's view of that channel only, so a channel without notes shows none; without a
/// file they come from the demo track of that channel.
pub open spec fn roll_notes(file_loaded: bool, views: Seq<SmfTrackView>, tracks: Seq<Vec<MidiNote>>, ch: u8) -> Seq<RollNote> {
    let idx: int = if ch == 0 { 0 } else { ch - 1 };
    if file_loaded {
        if idx < views.len() {
            views[idx].notes@.map_values(|n: SmfNote| file_roll_note(n))
        } else {
            Seq::empty()
        }
    } else if idx < tracks.len() {
        tracks[idx]@.map_values(|n: MidiNote| demo_roll_note(n))
    } else {
        Seq::empty()
    }
}

/// Notes the piano roll draws for channel `ch` (see `roll_notes`).
pub fn pr_notes(file_loaded: bool, views: &[SmfTrackView], tracks: &[Vec<MidiNote>], ch: u8) -> (r: Vec<RollNote>)
    ensures
        r@ == roll_notes(file_loaded, views@, tracks@, ch),
{
    let idx: usize = if ch == 0 { 0 } else { (ch - 1) as usize };
    let mut out: Vec<RollNote> = Vec::new();
    if file_loaded {
        if idx < views.len() {
            let notes = &views[idx].notes;
            let mut i: usize = 0;
            while i < notes.len()
                invariant
                    0 <= i <= notes@.len(),
                    out@ =~= notes@.take(i as int).map_values(|n: SmfNote| file_roll_note(n)),
                decreases notes@.len() - i,
            {
                let n = &notes[i];
                out.push((n.start_tick, n.dur_ticks, n.pitch));
                assert(notes@.take(i as int + 1) =~= notes@.take(i as int).push(notes@[i as int]));
                i += 1;
            }
            assert(notes@.take(notes@.len() as int) =~= notes@);
        }
    } else if idx < tracks.len() {
        let notes = &tracks[idx];
        let mut i: usize = 0;
        while i < notes.len()
            invariant
                0 <= i <= notes@.len(),
                out@ =~= notes@.take(i as int).map_values(|n: MidiNote| demo_roll_note(n)),
            decreases notes@.len() - i,
        {
            let n = &notes[i];
            out.push((n.start_tick, n.dur_ticks, n.pitch));
            assert(notes@.take(i as int + 1) =~= notes@.take(i as int).push(notes@[i as int]));
            i += 1;
        }
        assert(notes@.take(notes@.len() as int) =~= notes@);
    }
    out
}

} // verus!
