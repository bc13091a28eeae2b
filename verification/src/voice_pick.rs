//! Voice selection by the three slider axes (bank MSB, program, bank LSB). Each slider steps
//! through the values the voice table actually has, so every position names an existing
//! voice; the quick-pick menu and restored settings set the three positions from values.

use vstd::prelude::*;
use crate::data::{
    Voice, VoiceBank, ascending, msb_set, prg_set, lsb_set, first_voice, drum_name,
    drum_display_name, strictly_ascending, lemma_ascending_members,
};

verus! {

/// Positions of the bank (MSB), program and variation (LSB) sliders in their value lists.
#[derive(Debug, Clone, Copy, PartialEq, Eq, Structural)]
pub struct VoiceAxes {
    pub msb_idx: usize,
    pub pc_idx: usize,
    pub lsb_idx: usize,
}

/// The voice the sliders select: positions (clamped into their lists), the three values and
/// the name shown on the LCD.
#[derive(Debug, Clone)]
pub struct VoicePick {
    pub axes: VoiceAxes,
    pub msb: u8,
    /// 0-based program
    pub prog0: u8,
    pub lsb: u8,
    pub voice: String,
}

/// The table of an optional voice bank (empty without one).
pub open spec fn bank_table(bank: Option<&VoiceBank>) -> Seq<Voice> {
    match bank {
        Some(b) => b.table(),
        None => Seq::empty(),
    }
}

/// Whether an optional voice bank is well formed.
pub open spec fn bank_ok(bank: Option<&VoiceBank>) -> bool {
    match bank {
        Some(b) => b.wf(),
        None => true,
    }
}

/// The value at a slider position clamped to the list (0 for an empty list).
pub open spec fn pick_at(list: Seq<u8>, idx: usize) -> u8 {
    if list.len() == 0 {
        0
    } else if idx < list.len() {
        list[idx as int]
    } else {
        list[list.len() - 1]
    }
}

/// A slider position clamped to the list (kept as it is for an empty list).
pub open spec fn clamp_index(list: Seq<u8>, idx: usize) -> usize {
    if list.len() == 0 {
        idx
    } else if idx < list.len() {
        idx
    } else {
        (list.len() - 1) as usize
    }
}

/// The first position of `x` in a list.
pub open spec fn position_of(s: Seq<u8>, x: u8) -> Option<usize>
    decreases s.len(),
{
    if s.len() == 0 {
        None
    } else {
        match position_of(s.drop_last(), x) {
            Some(k) => Some(k),
            None => if s.last() == x { Some((s.len() - 1) as usize) } else { None },
        }
    }
}

/// The sliders applied to a table: MSB from the table's MSB areas, program from that area's
/// programs, LSB from that program's variations, each position clamped into its list.
pub open spec fn apply_axes(t: Seq<Voice>, a: VoiceAxes) -> (VoiceAxes, u8, u8, u8) {
    let ms = ascending(msb_set(t));
    let msb = pick_at(ms, a.msb_idx);
    let ps = ascending(prg_set(t, msb));
    let prog0 = pick_at(ps, a.pc_idx);
    let ls = ascending(lsb_set(t, msb, prog0));
    let lsb = pick_at(ls, a.lsb_idx);
    (VoiceAxes { msb_idx: clamp_index(ms, a.msb_idx), pc_idx: clamp_index(ps, a.pc_idx), lsb_idx: clamp_index(ls, a.lsb_idx) }, msb, prog0, lsb)
}

/// The LCD name of a selection: the drum kit name in the drum area (MSB 127), otherwise the
/// table's voice, or "---" when there is none.
pub open spec fn voice_label(t: Seq<Voice>, msb: u8, prog0: u8, lsb: u8) -> Seq<char> {
    if msb == 127 {
        drum_name(prog0)
    } else {
        match first_voice(t, msb, prog0, lsb) {
            Some(v) => v.name@,
            None => "---"@,
        }
    }
}

/// Slider positions for a voice chosen by value: each axis moves to the value's position in
/// its list when it is there; a variation that is not listed selects the first one.
pub open spec fn quickpick_axes(t: Seq<Voice>, a: VoiceAxes, msb: u8, lsb: u8, prg0: u8) -> VoiceAxes {
    let ms = ascending(msb_set(t));
    let ps = ascending(prg_set(t, msb));
    let ls = ascending(lsb_set(t, msb, prg0));
    VoiceAxes {
        msb_idx: match position_of(ms, msb) { Some(k) => k, None => a.msb_idx },
        pc_idx: match position_of(ps, prg0) { Some(k) => k, None => a.pc_idx },
        lsb_idx: match position_of(ls, lsb) {
            Some(k) => k,
            None => if ls.len() > 0 { 0 } else { a.lsb_idx },
        },
    }
}

proof fn lemma_position_of(s: Seq<u8>, x: u8)
    requires
        s.len() <= usize::MAX,
    ensures
        position_of(s, x) matches Some(k) ==> k < s.len() && s[k as int] == x
            && forall|j: int| 0 <= j < k ==> s[j] != x,
        position_of(s, x) is None ==> !s.contains(x),
    decreases s.len(),
{
    if s.len() > 0 {
        let t = s.drop_last();
        lemma_position_of(t, x);
        assert forall|j: int| 0 <= j < t.len() implies #[trigger] t[j] == s[j] by {}
        match position_of(t, x) {
            Some(k) => {
                assert(position_of(s, x) == Some(k));
                assert(t[k as int] == s[k as int]);
                assert forall|j: int| 0 <= j < k implies s[j] != x by {
                    assert(t[j] == s[j]);
                }
            },
            None => {
                assert forall|j: int| 0 <= j < t.len() implies s[j] != x by {
                    assert(t[j] == s[j]);
                    if s[j] == x { assert(t.contains(x)); }
                }
                if s.last() != x {
                    assert(position_of(s, x) is None);
                    assert forall|j: int| 0 <= j < s.len() implies s[j] != x by {}
                } else {
                    assert(position_of(s, x) == Some((s.len() - 1) as usize));
                }
            },
        }
    }
}

/// The first position of `x` in `v`.
fn position(v: &Vec<u8>, x: u8) -> (r: Option<usize>)
    ensures
        r == position_of(v@, x),
{
    let mut i: usize = 0;
    let _n = v.len();
    proof { lemma_position_of(v@, x); }
    while i < v.len()
        invariant
            0 <= i <= v@.len(),
            forall|j: int| 0 <= j < i ==> v@[j] != x,
            position_of(v@, x) matches Some(k) ==> k < v@.len() && v@[k as int] == x
                && forall|j: int| 0 <= j < k ==> v@[j] != x,
            position_of(v@, x) is None ==> !v@.contains(x),
        decreases v@.len() - i,
    {
        if v[i] == x {
            proof {
                if let Some(k) = position_of(v@, x) {
                    if k > i {
                    } else if k < i {
                        assert(v@[k as int] != x);
                    }
                } else {
                    assert(v@.contains(x)) by { assert(v@[i as int] == x); }
                }
            }
            return Some(i);
        }
        i = i + 1;
    }
    proof {
        if let Some(k) = position_of(v@, x) {
            assert(v@[k as int] != x);
        }
    }
    None
}

/// In a strictly ascending list the position of the element at `k` is `k`.
proof fn lemma_position_ascending(s: Seq<u8>, k: int)
    requires
        strictly_ascending(s),
        0 <= k < s.len(),
        s.len() <= usize::MAX,
    ensures
        position_of(s, s[k]) == Some(k as usize),
{
    lemma_position_of(s, s[k]);
    assert(s.contains(s[k]));
    if let Some(p) = position_of(s, s[k]) {
        if (p as int) < k {
            assert(s[p as int] < s[k]);
        } else if (p as int) > k {
            assert(s[k] < s[p as int]);
        }
    }
}

fn value_at(list: &Vec<u8>, idx: usize) -> (r: (u8, usize))
    requires
        strictly_ascending(list@),
    ensures
        r.0 == pick_at(list@, idx),
        r.1 == clamp_index(list@, idx),
        position_of(list@, r.0) == (if list@.len() == 0 { None } else { Some(r.1) }),
{
    let n = list.len();
    if n == 0 {
        proof { lemma_position_of(list@, 0); }
        (0, idx)
    } else {
        let k = if idx < list.len() { idx } else { list.len() - 1 };
        proof { lemma_position_ascending(list@, k as int); }
        (list[k], k)
    }
}

/// Empty list for a missing bank.
fn msbs_of(bank: Option<&VoiceBank>) -> (r: Vec<u8>)
    requires
        bank_ok(bank),
    ensures
        r@ == ascending(msb_set(bank_table(bank))),
        strictly_ascending(r@),
{
    match bank {
        Some(b) => b.msb_values(),
        None => {
            proof { crate::data::lemma_ascending_listing(Seq::<u8>::empty()); }
            assert(msb_set(Seq::<Voice>::empty()) =~= Seq::<u8>::empty().to_set());
            Vec::new()
        },
    }
}

fn prgs_of(bank: Option<&VoiceBank>, msb: u8) -> (r: Vec<u8>)
    requires
        bank_ok(bank),
    ensures
        r@ == ascending(prg_set(bank_table(bank), msb)),
        strictly_ascending(r@),
{
    match bank {
        Some(b) => b.prg_values(msb),
        None => {
            proof { crate::data::lemma_ascending_listing(Seq::<u8>::empty()); }
            assert(prg_set(Seq::<Voice>::empty(), msb) =~= Seq::<u8>::empty().to_set());
            Vec::new()
        },
    }
}

fn lsbs_of(bank: Option<&VoiceBank>, msb: u8, prg: u8) -> (r: Vec<u8>)
    requires
        bank_ok(bank),
    ensures
        r@ == ascending(lsb_set(bank_table(bank), msb, prg)),
        r@.to_set() == lsb_set(bank_table(bank), msb, prg),
        strictly_ascending(r@),
{
    match bank {
        Some(b) => b.lsb_variants(msb, prg),
        None => {
            proof { crate::data::lemma_ascending_listing(Seq::<u8>::empty()); }
            assert(lsb_set(Seq::<Voice>::empty(), msb, prg) =~= Seq::<u8>::empty().to_set());
            Vec::new()
        },
    }
}

fn find_name(bank: Option<&VoiceBank>, msb: u8, prg: u8, lsb: u8) -> (r: Option<String>)
    requires
        bank_ok(bank),
    ensures
        match r {
            Some(n) => lsb <= 127 && (first_voice(bank_table(bank), msb, prg, lsb) matches Some(v) && n@ == v.name@),
            None => lsb > 127 || first_voice(bank_table(bank), msb, prg, lsb) is None,
        },
{
    match bank {
        Some(b) => match b.find(msb, prg, lsb) {
            Some(v) => Some(v.name.clone()),
            None => None,
        },
        None => None,
    }
}

/// Applies the three sliders: each position is clamped into the list of values valid for
/// the axes before it, and the selected voice is named (drum kit name in the drum area).
pub fn apply_bank_pc(bank: Option<&VoiceBank>, axes: VoiceAxes) -> (r: VoicePick)
    requires
        bank_ok(bank),
    ensures
        (r.axes, r.msb, r.prog0, r.lsb) == apply_axes(bank_table(bank), axes),
        r.voice@ == voice_label(bank_table(bank), r.msb, r.prog0, r.lsb),
{
    let msbs = msbs_of(bank);
    let (msb, msb_idx) = value_at(&msbs, axes.msb_idx);
    let prgs = prgs_of(bank, msb);
    let (prog0, pc_idx) = value_at(&prgs, axes.pc_idx);
    let variants = lsbs_of(bank, msb, prog0);
    let (lsb, lsb_idx) = value_at(&variants, axes.lsb_idx);
    let voice = if msb == 127 {
        drum_display_name(prog0).to_owned()
    } else {
        proof {
            // a listed variation is at most 127
            if variants@.len() > 0 {
                let k = clamp_index(variants@, axes.lsb_idx) as int;
                assert(variants@[k] == lsb);
                assert(variants@.to_set().contains(lsb));
                assert(lsb_set(bank_table(bank), msb, prog0).contains(lsb));
            }
        }
        match find_name(bank, msb, prog0, lsb) {
            Some(n) => n,
            None => "---".to_owned(),
        }
    };
    VoicePick { axes: VoiceAxes { msb_idx, pc_idx, lsb_idx }, msb, prog0, lsb, voice }
}

/// Moves the sliders to a voice chosen by value (quick-pick menu, or a part read back from
/// the device) and applies them.
pub fn set_voice_from_quickpick(bank: Option<&VoiceBank>, axes: VoiceAxes, msb: u8, lsb: u8, prg0: u8) -> (r: VoicePick)
    requires
        bank_ok(bank),
    ensures
        (r.axes, r.msb, r.prog0, r.lsb) == apply_axes(bank_table(bank), quickpick_axes(bank_table(bank), axes, msb, lsb, prg0)),
        r.voice@ == voice_label(bank_table(bank), r.msb, r.prog0, r.lsb),
{
    let msbs = msbs_of(bank);
    let prgs = prgs_of(bank, msb);
    let variants = lsbs_of(bank, msb, prg0);
    let msb_idx = match position(&msbs, msb) { Some(k) => k, None => axes.msb_idx };
    let pc_idx = match position(&prgs, prg0) { Some(k) => k, None => axes.pc_idx };
    let lsb_idx = match position(&variants, lsb) {
        Some(k) => k,
        None => if variants.len() > 0 { 0 } else { axes.lsb_idx },
    };
    apply_bank_pc(bank, VoiceAxes { msb_idx, pc_idx, lsb_idx })
}

/// The value at a position, or 0 past the end.
pub open spec fn at_or_zero(list: Seq<u8>, idx: usize) -> u8 {
    if idx < list.len() { list[idx as int] } else { 0 }
}

/// The MSB at the bank slider's position (0 past the end of the list).
pub fn current_msb(bank: Option<&VoiceBank>, msb_idx: usize) -> (r: u8)
    requires
        bank_ok(bank),
    ensures
        r == at_or_zero(ascending(msb_set(bank_table(bank))), msb_idx),
{
    let msbs = msbs_of(bank);
    if msb_idx < msbs.len() { msbs[msb_idx] } else { 0 }
}

/// The LSB at the variation slider's position, clamped, among the variations of the current
/// MSB and of the program shown 1-based as `cur_prog` (0 when there are none).
pub fn current_lsb(bank: Option<&VoiceBank>, axes: VoiceAxes, cur_prog: u32) -> (r: u8)
    requires
        bank_ok(bank),
    ensures
        r == pick_at(
            ascending(lsb_set(bank_table(bank), at_or_zero(ascending(msb_set(bank_table(bank))), axes.msb_idx),
                (if cur_prog == 0 { 0 } else { cur_prog - 1 }) as u8)),
            axes.lsb_idx),
{
    let msb = current_msb(bank, axes.msb_idx);
    let p = if cur_prog == 0 { 0 } else { cur_prog - 1 };
    #[verifier::truncate]
    let prog0 = p as u8;
    let variants = lsbs_of(bank, msb, prog0);
    value_at(&variants, axes.lsb_idx).0
}

/// Name of the voice a part plays: the drum kit name in the drum area (MSB 127); otherwise
/// the table's voice, or the melodic voice (MSB 0, LSB 0) of its program, or the name the
/// part already carries, or "GrandPno".
pub open spec fn part_voice_name(t: Seq<Voice>, msb: u8, lsb: u8, prg: u8, voice: Seq<char>) -> Seq<char> {
    if msb == 127 {
        drum_name(prg)
    } else if lsb <= 127 && first_voice(t, msb, prg, lsb) is Some {
        first_voice(t, msb, prg, lsb)->0.name@
    } else if first_voice(t, 0, prg, 0) is Some {
        first_voice(t, 0, prg, 0)->0.name@
    } else if voice.len() > 0 {
        voice
    } else {
        "GrandPno"@
    }
}

/// Name of the voice a part plays (see `part_voice_name`).
pub fn voice_name_for(msb: u8, lsb: u8, prg: u8, voice: &str, bank: Option<&VoiceBank>) -> (r: String)
    requires
        bank_ok(bank),
    ensures
        r@ == part_voice_name(bank_table(bank), msb, lsb, prg, voice@),
{
    if msb == 127 {
        return drum_display_name(prg).to_owned();
    }
    if let Some(n) = find_name(bank, msb, prg, lsb) {
        return n;
    }
    if let Some(n) = find_name(bank, 0, prg, 0) {
        return n;
    }
    if !voice.is_empty() {
        return voice.to_owned();
    }
    "GrandPno".to_owned()
}

/// Name shown for channel `i` (0-based) of a loaded file, from the bank and program its view
/// found: the drum channel (index 9) shows a drum kit (its program's in the drum area, else
/// the standard kit); another channel shows the table's voice for its bank, or the melodic
/// voice of its program without a bank, or "GrandPno".
pub open spec fn file_channel_voice(t: Seq<Voice>, i: usize, bank: Option<(u8, u8)>, program: Option<u8>) -> Seq<char> {
    if i == 9 {
        match (bank, program) {
            (Some((msb, _)), Some(p)) => if msb == 127 { drum_name(p) } else { drum_name(0) },
            _ => drum_name(0),
        }
    } else {
        match (bank, program) {
            (Some((msb, lsb)), Some(p)) => if lsb <= 127 && first_voice(t, msb, p, lsb) is Some {
                first_voice(t, msb, p, lsb)->0.name@
            } else {
                "GrandPno"@
            },
            (None, Some(p)) => if first_voice(t, 0, p, 0) is Some {
                first_voice(t, 0, p, 0)->0.name@
            } else {
                "GrandPno"@
            },
            _ => "GrandPno"@,
        }
    }
}

/// Name shown for channel `i` of a loaded file (see `file_channel_voice`).
pub fn smf_channel_voice(i: usize, bank: Option<(u8, u8)>, program: Option<u8>, voices: Option<&VoiceBank>) -> (r: String)
    requires
        bank_ok(voices),
    ensures
        r@ == file_channel_voice(bank_table(voices), i, bank, program),
{
    if i == 9 {
        match bank {
            Some((msb, _lsb)) => if msb == 127 {
                match program {
                    Some(p) => drum_display_name(p).to_owned(),
                    None => drum_display_name(0).to_owned(),
                }
            } else {
                drum_display_name(0).to_owned()
            },
            None => drum_display_name(0).to_owned(),
        }
    } else {
        let found = match bank {
            Some((msb, lsb)) => match program {
                Some(p) => find_name(voices, msb, p, lsb),
                None => None,
            },
            None => match program {
                Some(p) => find_name(voices, 0, p, 0),
                None => None,
            },
        };
        match found {
            Some(n) => n,
            None => "GrandPno".to_owned(),
        }
    }
}

/// Slider positions restored from saved values: each axis moves to the saved value's
/// position in its list when it is there and stays otherwise.
pub open spec fn restored_axes(t: Seq<Voice>, a: VoiceAxes, msb: u8, lsb: u8, pc: u8) -> VoiceAxes {
    VoiceAxes {
        msb_idx: match position_of(ascending(msb_set(t)), msb) { Some(k) => k, None => a.msb_idx },
        pc_idx: match position_of(ascending(prg_set(t, msb)), pc) { Some(k) => k, None => a.pc_idx },
        lsb_idx: match position_of(ascending(lsb_set(t, msb, pc)), lsb) { Some(k) => k, None => a.lsb_idx },
    }
}

/// Restores the slider positions from saved MSB, LSB and program values.
pub fn restore_axes(bank: Option<&VoiceBank>, axes: VoiceAxes, msb: u8, lsb: u8, pc: u8) -> (r: VoiceAxes)
    requires
        bank_ok(bank),
    ensures
        r == restored_axes(bank_table(bank), axes, msb, lsb, pc),
{
    let msbs = msbs_of(bank);
    let prgs = prgs_of(bank, msb);
    let variants = lsbs_of(bank, msb, pc);
    VoiceAxes {
        msb_idx: match position(&msbs, msb) { Some(k) => k, None => axes.msb_idx },
        pc_idx: match position(&prgs, pc) { Some(k) => k, None => axes.pc_idx },
        lsb_idx: match position(&variants, lsb) { Some(k) => k, None => axes.lsb_idx },
    }
}

/// The voice name after restoring saved values: the table's voice for them, or `current`.
pub fn restored_voice(bank: Option<&VoiceBank>, msb: u8, pc: u8, lsb: u8, current: &String) -> (r: String)
    requires
        bank_ok(bank),
    ensures
        r@ == (if lsb <= 127 && first_voice(bank_table(bank), msb, pc, lsb) is Some {
            first_voice(bank_table(bank), msb, pc, lsb)->0.name@
        } else {
            current@
        }),
{
    match find_name(bank, msb, pc, lsb) {
        Some(n) => n,
        None => current.clone(),
    }
}

/// Picking a voice of the table by its values and applying the sliders selects exactly that
/// voice's bank MSB, program and bank LSB (for an LSB a 7-bit bank select can carry).
pub proof fn quickpick_selects_voice(t: Seq<Voice>, a: VoiceAxes, i: int)
    requires
        0 <= i < t.len(),
        t[i].lsb <= 127,
    ensures
        ({
            let r = apply_axes(t, quickpick_axes(t, a, t[i].msb, t[i].lsb, t[i].prg));
            r.1 == t[i].msb && r.2 == t[i].prg && r.3 == t[i].lsb
        }),
{
    let v = t[i];
    let ms = ascending(msb_set(t));
    let ps = ascending(prg_set(t, v.msb));
    let ls = ascending(lsb_set(t, v.msb, v.prg));
    assert(msb_set(t).contains(v.msb));
    assert(prg_set(t, v.msb).contains(v.prg));
    assert(lsb_set(t, v.msb, v.prg).contains(v.lsb));
    lemma_ascending_members(msb_set(t));
    lemma_ascending_members(prg_set(t, v.msb));
    lemma_ascending_members(lsb_set(t, v.msb, v.prg));
    lemma_position_of(ms, v.msb);
    lemma_position_of(ps, v.prg);
    lemma_position_of(ls, v.lsb);
}

} // verus!
