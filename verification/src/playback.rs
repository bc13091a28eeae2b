//! Sequencer playback data: the MIDI messages queued for playback, the notes sounding at a
//! tick, the events due in a frame, the playback event table built from a file or the demo
//! sequence, and the per-channel mute / solo rule.

use vstd::prelude::*;
use crate::order::{insert_by_key, sort_by_key, sorted_by_key, lemma_insert_at, lemma_sort_push, lemma_sort_by_key};
use crate::pattern::MidiNote;
use crate::smf::{Smf, SmfEvent, SmfNote, SmfTrackView};
use crate::smf::views::{all_events, smf_tracks};
use std::collections::BTreeSet;

verus! {

broadcast use vstd::laws_cmp::group_laws_cmp;

/// A MIDI message queued for playback: trigger tick, complete message bytes, whether it is a
/// note-off (used to track sounding notes), and its channel.
#[derive(Debug, Clone, PartialEq)]
pub struct PlayEvent {
    /// absolute trigger tick
    pub tick: u64,
    /// complete MIDI message
    pub bytes: Vec<u8>,
    /// true for a note-off
    pub off: bool,
    /// channel
    pub channel: u8,
}

/// Model of a queued message: (tick, bytes, off, channel).
pub type PlayMsg = (u64, Seq<u8>, bool, u8);

impl View for PlayEvent {
    type V = PlayMsg;

    open spec fn view(&self) -> PlayMsg {
        (self.tick, self.bytes@, self.off, self.channel)
    }
}

/// The models of a sequence of queued messages.
pub open spec fn msgs(s: Seq<PlayEvent>) -> Seq<PlayMsg> {
    s.map_values(|e: PlayEvent| e@)
}

/// A note message: note-on with the velocity (7 bits) or note-off as a note-on of velocity 0.
pub open spec fn note_msg(channel: u8, pitch: u8, velocity: u8, tick: u64, on: bool) -> PlayMsg {
    (tick, seq![0x90u8 | (channel & 0x0f), pitch & 0x7f, if on { velocity & 0x7f } else { 0u8 }], !on, channel)
}

/// A control change at `tick` on the low four bits of `channel`.
pub open spec fn cc_msg(channel: u8, num: u8, val: u8, tick: u64) -> PlayMsg {
    (tick, seq![0xB0u8 | (channel & 0x0f), num & 0x7f, val & 0x7f], false, channel & 0x0f)
}

/// A program change at `tick` on the low four bits of `channel`.
pub open spec fn prog_msg_at(channel: u8, program: u8, tick: u64) -> PlayMsg {
    (tick, seq![0xC0u8 | (channel & 0x0f), program & 0x7f], false, channel & 0x0f)
}

/// A program change at tick 0.
pub open spec fn prog_msg(channel: u8, program: u8) -> PlayMsg {
    prog_msg_at(channel, program, 0)
}

/// Channel of the SysEx messages: none of the 16, so mute, solo and part routing pass them by.
pub const SYSEX_CHANNEL: u8 = 0xFF;

/// A SysEx message sent as it is at `tick`.
pub open spec fn sysex_msg(bytes: Seq<u8>, tick: u64) -> PlayMsg {
    (tick, bytes, false, SYSEX_CHANNEL)
}

impl PlayEvent {
    /// A note-on (or, with `on` false, a note-off sent as velocity 0) at `tick`.
    pub fn note(channel: u8, pitch: u8, velocity: u8, tick: u64, on: bool) -> (r: Self)
        ensures
            r@ == note_msg(channel, pitch, velocity, tick, on),
    {
        let status = 0x90 | (channel & 0x0f);
        let vel = if on { velocity & 0x7f } else { 0x00 };
        let r = PlayEvent { tick, bytes: vec![status, pitch & 0x7f, vel], off: !on, channel };
        assert(r.bytes@ =~= seq![0x90u8 | (channel & 0x0f), pitch & 0x7f, vel]);
        r
    }

    /// A control change (bank select and the like) at tick 0, for channel set-up before play.
    pub fn cc(channel: u8, num: u8, val: u8) -> (r: Self)
        ensures
            r@ == cc_msg(channel, num, val, 0),
    {
        let r = PlayEvent { tick: 0, bytes: vec![0xB0 | (channel & 0x0f), num & 0x7f, val & 0x7f], off: false, channel: channel & 0x0f };
        assert(r.bytes@ =~= seq![0xB0u8 | (channel & 0x0f), num & 0x7f, val & 0x7f]);
        r
    }

    /// A control change at an explicit tick (pan, volume and the like in the middle of a file).
    pub fn cc_tick(channel: u8, num: u8, val: u8, tick: u64) -> (r: Self)
        ensures
            r@ == cc_msg(channel, num, val, tick),
    {
        let r = PlayEvent { tick, bytes: vec![0xB0 | (channel & 0x0f), num & 0x7f, val & 0x7f], off: false, channel: channel & 0x0f };
        assert(r.bytes@ =~= seq![0xB0u8 | (channel & 0x0f), num & 0x7f, val & 0x7f]);
        r
    }

    /// A program change at an explicit tick (a program change in the middle of a file).
    pub fn prog_tick(channel: u8, program: u8, tick: u64) -> (r: Self)
        ensures
            r@ == prog_msg_at(channel, program, tick),
    {
        let r = PlayEvent { tick, bytes: vec![0xC0 | (channel & 0x0f), program & 0x7f], off: false, channel: channel & 0x0f };
        assert(r.bytes@ =~= seq![0xC0u8 | (channel & 0x0f), program & 0x7f]);
        r
    }

    /// A SysEx message from a file, sent unchanged at `tick` to every output (its channel is
    /// `SYSEX_CHANNEL`).
    pub fn sysex(bytes: Vec<u8>, tick: u64) -> (r: Self)
        ensures
            r@ == sysex_msg(bytes@, tick),
    {
        PlayEvent { tick, bytes, off: false, channel: SYSEX_CHANNEL }
    }

    /// A program change at tick 0, for channel set-up before play.
    pub fn prog(channel: u8, program: u8) -> (r: Self)
        ensures
            r@ == prog_msg(channel, program),
    {
        let r = PlayEvent { tick: 0, bytes: vec![0xC0 | (channel & 0x0f), program & 0x7f], off: false, channel: channel & 0x0f };
        assert(r.bytes@ =~= seq![0xC0u8 | (channel & 0x0f), program & 0x7f]);
        r
    }
}

/// A copy of a byte string.
fn copy_bytes(b: &Vec<u8>) -> (r: Vec<u8>)
    ensures
        r@ == b@,
{
    let mut r: Vec<u8> = Vec::new();
    let mut i: usize = 0;
    while i < b.len()
        invariant
            0 <= i <= b@.len(),
            r@ == b@.take(i as int),
        decreases b@.len() - i,
    {
        r.push(b[i]);
        i = i + 1;
        assert(r@ =~= b@.take(i as int));
    }
    assert(b@.take(b@.len() as int) =~= b@);
    r
}

/// A copy of a queued message.
fn duplicate(e: &PlayEvent) -> (r: PlayEvent)
    ensures
        r@ == e@,
{
    PlayEvent { tick: e.tick, bytes: e.bytes.clone(), off: e.off, channel: e.channel }
}

// ---------- notes sounding at a tick ----------

/// Whether a message is a note message (status 9n with its pitch byte).
pub open spec fn is_note_msg(e: PlayMsg) -> bool {
    e.1.len() >= 2 && e.1[0] & 0xF0 == 0x90
}

/// The (channel, pitch) pairs sounding after the messages of `s` in order: a note-on adds its
/// pair, a note-off removes it; other messages change nothing.
pub open spec fn sounding(s: Seq<PlayMsg>) -> Set<(u8, u8)>
    decreases s.len(),
{
    if s.len() == 0 {
        Set::empty()
    } else {
        let e = s.last();
        let key = (e.3, e.1[1]);
        if !is_note_msg(e) {
            sounding(s.drop_last())
        } else if e.2 {
            sounding(s.drop_last()).remove(key)
        } else {
            sounding(s.drop_last()).insert(key)
        }
    }
}

/// `k` is where the messages due at `pt` end: every message before it is at or before `pt`
/// and the one at `k`, if any, is after it.
pub open spec fn due_end(s: Seq<PlayMsg>, pt: u64, k: int) -> bool {
    &&& 0 <= k <= s.len()
    &&& forall|j: int| 0 <= j < k ==> (#[trigger] s[j]).0 <= pt
    &&& k < s.len() ==> s[k].0 > pt
}

/// The (channel, pitch) pairs still sounding at tick `pt`: the messages are read in order up
/// to the first one after `pt`; a note-on starts its pair and a note-off ends it.
pub fn notes_active_at(pt: u64, play_events: &[PlayEvent]) -> (r: BTreeSet<(u8, u8)>)
    ensures
        exists|k: int| due_end(msgs(play_events@), pt, k) && r@ == sounding(msgs(play_events@).take(k)),
{
    let ghost s = msgs(play_events@);
    let mut active: BTreeSet<(u8, u8)> = BTreeSet::new();
    let mut i: usize = 0;
    assert(s.take(0) =~= Seq::<PlayMsg>::empty());
    while i < play_events.len()
        invariant_except_break
            0 <= i <= play_events@.len(),
            s == msgs(play_events@),
            forall|j: int| 0 <= j < i ==> (#[trigger] s[j]).0 <= pt,
            active@ == sounding(s.take(i as int)),
        ensures
            due_end(s, pt, i as int),
            active@ == sounding(s.take(i as int)),
        decreases play_events@.len() - i,
    {
        let e = &play_events[i];
        if e.tick > pt {
            break;
        }
        if e.bytes.len() >= 2 && e.bytes[0] & 0xF0 == 0x90 {
            let key = (e.channel, e.bytes[1]);
            if !e.off {
                active.insert(key);
            } else {
                active.remove(&key);
            }
        }
        proof {
            assert(s.take(i + 1).drop_last() =~= s.take(i as int));
            assert(s.take(i + 1).last() == s[i as int]);
        }
        i = i + 1;
    }
    active
}

// ---------- events due in a frame ----------

/// The messages of `s[from..]` at or after `origin`, up to the first one after `next`.
pub open spec fn due_between(s: Seq<PlayMsg>, from: int, origin: u64, next: u64, upto: int) -> Seq<PlayMsg>
    decreases upto - from,
{
    if upto <= from {
        Seq::empty()
    } else {
        let rest = due_between(s, from, origin, next, upto - 1);
        let e = s[upto - 1];
        if e.0 >= origin && e.0 <= next { rest.push(e) } else { rest }
    }
}

/// Consumes the playback table from `cursor`: returns the messages with tick in
/// `[origin, next]` up to the first message after `next`, and the index of that message (or
/// the table's length), where the next frame resumes.
pub fn due_events(play_events: &[PlayEvent], cursor: usize, origin: u64, next: u64) -> (r: (Vec<PlayEvent>, usize))
    ensures
        cursor <= play_events@.len() ==> {
            &&& cursor <= r.1 <= play_events@.len()
            &&& forall|j: int| cursor <= j < r.1 ==> (#[trigger] play_events@[j]).tick <= next
            &&& r.1 < play_events@.len() ==> play_events@[r.1 as int].tick > next
            &&& msgs(r.0@) == due_between(msgs(play_events@), cursor as int, origin, next, r.1 as int)
        },
        cursor > play_events@.len() ==> r.0@.len() == 0 && r.1 == cursor,
{
    let ghost s = msgs(play_events@);
    let mut fired: Vec<PlayEvent> = Vec::new();
    let mut i = cursor;
    if cursor > play_events.len() {
        return (fired, cursor);
    }
    while i < play_events.len()
        invariant_except_break
            cursor <= i <= play_events@.len(),
            s == msgs(play_events@),
            forall|j: int| cursor <= j < i ==> (#[trigger] play_events@[j]).tick <= next,
            msgs(fired@) == due_between(s, cursor as int, origin, next, i as int),
        ensures
            cursor <= i <= play_events@.len(),
            forall|j: int| cursor <= j < i ==> (#[trigger] play_events@[j]).tick <= next,
            i < play_events@.len() ==> play_events@[i as int].tick > next,
            msgs(fired@) == due_between(s, cursor as int, origin, next, i as int),
        decreases play_events@.len() - i,
    {
        let t = play_events[i].tick;
        if t >= origin && t <= next {
            let ghost before = fired@;
            fired.push(duplicate(&play_events[i]));
            assert(msgs(fired@) =~= msgs(before).push(s[i as int]));
            i = i + 1;
        } else if t > next {
            break;
        } else {
            i = i + 1;
        }
    }
    (fired, i)
}

// ---------- mute / solo ----------

/// Whether a channel is silent in playback: while any channel is soloed, every channel that
/// is not soloed or is muted; otherwise the muted ones. Mute wins over solo.
pub open spec fn effectively_muted(mutes: Seq<bool>, solos: Seq<bool>, ch: int) -> bool {
    if exists|c: int| 0 <= c < solos.len() && solos[c] {
        !solos[ch] || mutes[ch]
    } else {
        mutes[ch]
    }
}

/// Whether channel `ch` (0..15) is silenced by the mute / solo switches.
pub fn channel_is_effectively_muted(mutes: &[bool; 16], solos: &[bool; 16], ch: usize) -> (r: bool)
    requires
        ch < 16,
    ensures
        r == effectively_muted(mutes@, solos@, ch as int),
{
    let mut any_solo = false;
    let mut c: usize = 0;
    while c < 16
        invariant
            0 <= c <= 16,
            any_solo == exists|d: int| 0 <= d < c && solos@[d],
        decreases 16 - c,
    {
        if solos[c] {
            any_solo = true;
        }
        c = c + 1;
    }
    if any_solo {
        !solos[ch] || mutes[ch]
    } else {
        mutes[ch]
    }
}

/// Where a played message goes.
#[derive(Debug, Clone, Copy, PartialEq, Eq, Structural)]
pub enum PlayRoute {
    /// to every selected output, past mute, solo and part routing (SysEx)
    Broadcast,
    /// to the output routed for this part (0-31)
    Part(u8),
    /// not sent: its channel is muted
    Silent,
}

/// The route of a message on `channel`: SysEx (channel `SYSEX_CHANNEL`) is broadcast; a
/// message whose channel (low four bits) is muted is not sent; any other goes to part
/// `channel % 32`.
pub open spec fn route_of(channel: u8, mutes: Seq<bool>, solos: Seq<bool>) -> PlayRoute {
    if channel == SYSEX_CHANNEL {
        PlayRoute::Broadcast
    } else if effectively_muted(mutes, solos, (channel % 16) as int) {
        PlayRoute::Silent
    } else {
        PlayRoute::Part(channel % 32)
    }
}

/// Where a played message on `channel` goes (see `route_of`).
pub fn play_route(channel: u8, mutes: &[bool; 16], solos: &[bool; 16]) -> (r: PlayRoute)
    ensures
        r == route_of(channel, mutes@, solos@),
{
    if channel == SYSEX_CHANNEL {
        PlayRoute::Broadcast
    } else if channel_is_effectively_muted(mutes, solos, (channel % 16) as usize) {
        PlayRoute::Silent
    } else {
        PlayRoute::Part(channel % 32)
    }
}

/// Playhead position as (bar, beat, tick in beat), bar and beat 1-based, four beats a bar.
pub open spec fn bar_beat(tick: u64, ppq: u64) -> (u64, u64, u64) {
    let q = if ppq == 0 { 1 } else { ppq };
    let beat = tick / q;
    ((beat / 4 + 1) as u64, (beat % 4 + 1) as u64, (tick % q) as u64)
}

/// The playhead's bar, beat and tick (a `ppq` of 0 counts as 1).
pub fn playhead_bar_beat(playhead_tick: u64, ppq: u64) -> (r: (u64, u64, u64))
    ensures
        r == bar_beat(playhead_tick, ppq),
{
    let q = if ppq == 0 { 1 } else { ppq };
    let beat = playhead_tick / q;
    let bar = beat / 4;
    (bar + 1, (beat % 4) + 1, playhead_tick % q)
}

// ---------- the playback table ----------

/// Orders queued messages by tick.
pub open spec fn msg_key() -> spec_fn(PlayMsg) -> u64 {
    |m: PlayMsg| m.0
}

/// A note as (channel, pitch, velocity, start tick, length in ticks).
pub type NoteT = (u8, u8, u8, u64, u64);

pub open spec fn smf_note_t(n: SmfNote) -> NoteT {
    (n.channel, n.pitch, n.vel, n.start_tick, n.dur_ticks)
}

pub open spec fn midi_note_t(n: MidiNote) -> NoteT {
    (n.channel, n.pitch, n.velocity, n.start_tick, n.dur_ticks)
}

pub open spec fn smf_notes_t(s: Seq<SmfNote>) -> Seq<NoteT> {
    s.map_values(|n: SmfNote| smf_note_t(n))
}

pub open spec fn midi_notes_t(s: Seq<MidiNote>) -> Seq<NoteT> {
    s.map_values(|n: MidiNote| midi_note_t(n))
}

/// The notes of the per-channel views, view after view.
pub open spec fn view_notes(views: Seq<SmfTrackView>) -> Seq<NoteT>
    decreases views.len(),
{
    if views.len() == 0 {
        Seq::empty()
    } else {
        view_notes(views.drop_last()) + smf_notes_t(views.last().notes@)
    }
}

/// The notes of the demo tracks, track after track.
pub open spec fn demo_notes(tracks: Seq<Vec<MidiNote>>) -> Seq<NoteT>
    decreases tracks.len(),
{
    if tracks.len() == 0 {
        Seq::empty()
    } else {
        demo_notes(tracks.drop_last()) + midi_notes_t(tracks.last()@)
    }
}

/// The messages of one note in a loop of `end` ticks: none for a zero-length note; otherwise
/// a note-on at its start modulo `end` and a note-off at its end, or, when it runs past the
/// loop end, a note-off at `end` and a second note-on at tick 0.
pub open spec fn wrapped_note(n: NoteT, end: u64) -> Seq<PlayMsg> {
    if n.4 == 0 {
        Seq::empty()
    } else {
        let start = (n.3 % end) as u64;
        let stop = start + n.4;
        if stop > end {
            seq![note_msg(n.0, n.1, n.2, start, true), note_msg(n.0, n.1, 0, end, false), note_msg(n.0, n.1, n.2, 0, true)]
        } else {
            seq![note_msg(n.0, n.1, n.2, start, true), note_msg(n.0, n.1, 0, stop as u64, false)]
        }
    }
}

/// The messages of a note list, note after note.
pub open spec fn wrapped_notes(ns: Seq<NoteT>, end: u64) -> Seq<PlayMsg>
    decreases ns.len(),
{
    if ns.len() == 0 {
        Seq::empty()
    } else {
        wrapped_notes(ns.drop_last(), end) + wrapped_note(ns.last(), end)
    }
}

/// The channels that have a note of nonzero length.
pub open spec fn note_channels(ns: Seq<NoteT>) -> Set<u8> {
    Set::new(|c: u8| exists|i: int| 0 <= i < ns.len() && (#[trigger] ns[i]).4 > 0 && ns[i].0 == c)
}

/// The program of the last program change on channel `ch`, if any.
pub open spec fn last_program(evs: Seq<SmfEvent>, ch: u8) -> Option<u8>
    decreases evs.len(),
{
    if evs.len() == 0 {
        None
    } else {
        match evs.last() {
            SmfEvent::Program { channel, program, .. } => if channel == ch {
                Some(program)
            } else {
                last_program(evs.drop_last(), ch)
            },
            _ => last_program(evs.drop_last(), ch),
        }
    }
}

/// Set-up of a channel before play: the drum channel (index 9) gets bank 127/0, and program
/// 0 when the file has no program change for it; the file's program changes are played at
/// their own ticks.
pub open spec fn channel_setup(ch: u8, evs: Seq<SmfEvent>) -> Seq<PlayMsg> {
    if ch == 9 {
        seq![cc_msg(9, 0, 127, 0), cc_msg(9, 32, 0, 0)] + match last_program(evs, 9) {
            Some(_) => Seq::empty(),
            None => seq![prog_msg(9, 0)],
        }
    } else {
        Seq::empty()
    }
}

/// Set-up messages of the channels in `chans` below `n`, ascending.
pub open spec fn setup_msgs(chans: Set<u8>, evs: Seq<SmfEvent>, n: int) -> Seq<PlayMsg>
    decreases n,
{
    if n <= 0 {
        Seq::empty()
    } else if chans.contains((n - 1) as u8) {
        setup_msgs(chans, evs, n - 1) + channel_setup((n - 1) as u8, evs)
    } else {
        setup_msgs(chans, evs, n - 1)
    }
}

/// The file's controller changes other than bank select, its program changes and its SysEx
/// messages (bytes unchanged), each at its tick capped at `end`, in file order.
pub open spec fn file_msgs(evs: Seq<SmfEvent>, end: u64) -> Seq<PlayMsg>
    decreases evs.len(),
{
    if evs.len() == 0 {
        Seq::empty()
    } else {
        let rest = file_msgs(evs.drop_last(), end);
        match evs.last() {
            SmfEvent::Cc { tick, channel, num, val } => if num != 0 && num != 32 {
                rest.push(cc_msg(channel & 0x0f, num, val, if tick < end { tick } else { end }))
            } else {
                rest
            },
            SmfEvent::Program { tick, channel, program } => rest.push(
                prog_msg_at(channel, program, if tick < end { tick } else { end }),
            ),
            SmfEvent::SysEx { tick, bytes } => rest.push(sysex_msg(bytes@, if tick < end { tick } else { end })),
            _ => rest,
        }
    }
}

pub open spec fn at_least_one(t: u64) -> u64 {
    if t == 0 { 1 } else { t }
}

/// The playback table, ordered by tick (messages of equal tick keep their order): with a
/// file, its notes looped over its end tick, the drum channel's set-up, and its controller
/// changes, program changes and SysEx messages at their ticks; without one, the demo tracks'
/// notes looped over the sequence length.
pub open spec fn play_table(smf: Option<&Smf>, views: Seq<SmfTrackView>, smf_end_tick: u64, tracks: Seq<Vec<MidiNote>>, total_ticks: u64) -> Seq<PlayMsg> {
    match smf {
        Some(f) => {
            let end = at_least_one(smf_end_tick);
            let ns = view_notes(views);
            let evs = all_events(smf_tracks(*f));
            sort_by_key(wrapped_notes(ns, end) + setup_msgs(note_channels(ns), evs, 16) + file_msgs(evs, end), msg_key())
        },
        None => sort_by_key(wrapped_notes(demo_notes(tracks), at_least_one(total_ticks)), msg_key()),
    }
}

/// Inserts a message after every queued message whose tick is not larger.
fn insert_event(evs: &mut Vec<PlayEvent>, e: PlayEvent)
    ensures
        msgs(final(evs)@) == insert_by_key(msgs(old(evs)@), e@, msg_key()),
{
    let t = e.tick;
    let mut k = evs.len();
    while k > 0 && evs[k - 1].tick > t
        invariant
            evs@ == old(evs)@,
            t == e.tick,
            0 <= k <= evs@.len(),
            forall|j: int| k <= j < evs@.len() ==> (msg_key())(#[trigger] msgs(evs@)[j]) > (msg_key())(e@),
        decreases k,
    {
        k = k - 1;
    }
    proof { lemma_insert_at(msgs(evs@), e@, msg_key(), k as int); }
    let ghost ev = e@;
    evs.insert(k, e);
    assert(msgs(evs@) =~= msgs(old(evs)@).take(k as int).push(ev) + msgs(old(evs)@).skip(k as int));
}

/// Adds a message to a table kept sorted: the table of `raw` becomes the table of `raw`
/// with the message appended.
fn add_event(evs: &mut Vec<PlayEvent>, e: PlayEvent, Ghost(raw): Ghost<Seq<PlayMsg>>)
    requires
        msgs(old(evs)@) == sort_by_key(raw, msg_key()),
    ensures
        msgs(final(evs)@) == sort_by_key(raw.push(e@), msg_key()),
{
    let ghost m = e@;
    insert_event(evs, e);
    proof { lemma_sort_push(raw, m, msg_key()); }
}

/// Adds the messages of one note looped over `end` ticks.
fn add_note(evs: &mut Vec<PlayEvent>, channel: u8, pitch: u8, vel: u8, start_tick: u64, dur: u64, end: u64, Ghost(raw): Ghost<Seq<PlayMsg>>)
    requires
        end > 0,
        dur > 0 ==> start_tick % end + dur <= u64::MAX,
        msgs(old(evs)@) == sort_by_key(raw, msg_key()),
    ensures
        msgs(final(evs)@) == sort_by_key(raw + wrapped_note((channel, pitch, vel, start_tick, dur), end), msg_key()),
{
    let ghost n: NoteT = (channel, pitch, vel, start_tick, dur);
    if dur == 0 {
        assert(raw + wrapped_note(n, end) =~= raw);
        return;
    }
    let start = start_tick % end;
    let stop = start + dur;
    let e1 = PlayEvent::note(channel, pitch, vel, start, true);
    let ghost r1 = raw.push(e1@);
    add_event(evs, e1, Ghost(raw));
    if stop > end {
        let e2 = PlayEvent::note(channel, pitch, 0, end, false);
        let ghost r2 = r1.push(e2@);
        add_event(evs, e2, Ghost(r1));
        let e3 = PlayEvent::note(channel, pitch, vel, 0, true);
        let ghost r3 = r2.push(e3@);
        add_event(evs, e3, Ghost(r2));
        assert(r3 =~= raw + wrapped_note(n, end));
    } else {
        let e2 = PlayEvent::note(channel, pitch, 0, stop, false);
        let ghost r2 = r1.push(e2@);
        add_event(evs, e2, Ghost(r1));
        assert(r2 =~= raw + wrapped_note(n, end));
    }
}

/// The playback table and the new loop length (the file's end tick, at least 1, when a file
/// is loaded; otherwise `total_ticks` unchanged). With a file the notes come from its
/// per-channel views, the drum channel is set up on the drum bank before play, and the file's
/// controller changes, program changes and SysEx messages follow at their ticks; without
/// one the demo tracks are played.
pub fn build_play_events(smf: Option<&Smf>, views: &[SmfTrackView], smf_end_tick: u64, tracks: &[Vec<MidiNote>], total_ticks: u64) -> (r: (Vec<PlayEvent>, u64))
    requires
        smf is Some ==> forall|i: int, j: int| 0 <= i < views@.len() && 0 <= j < views@[i].notes@.len()
            && (#[trigger] views@[i].notes@[j]).dur_ticks > 0 ==> {
                &&& views@[i].notes@[j].channel < 16
                &&& views@[i].notes@[j].start_tick % at_least_one(smf_end_tick) + views@[i].notes@[j].dur_ticks <= u64::MAX
            },
        smf matches Some(f) ==> forall|i: int, j: int| 0 <= i < f.tracks@.len() && 0 <= j < f.tracks@[i].events@.len()
            ==> ((#[trigger] f.tracks@[i].events@[j]) matches SmfEvent::Program { channel, .. } ==> channel < 16),
        smf is None ==> forall|i: int, j: int| 0 <= i < tracks@.len() && 0 <= j < tracks@[i]@.len()
            && (#[trigger] tracks@[i]@[j]).dur_ticks > 0
            ==> tracks@[i]@[j].start_tick % at_least_one(total_ticks) + tracks@[i]@[j].dur_ticks <= u64::MAX,
    ensures
        msgs(r.0@) == play_table(smf, views@, smf_end_tick, tracks@, total_ticks),
        r.1 == (if smf is Some { at_least_one(smf_end_tick) } else { total_ticks }),
{
    let mut evs: Vec<PlayEvent> = Vec::new();
    let total = if total_ticks == 0 { 1 } else { total_ticks };
    match smf {
        Some(f) => {
            let endt = if smf_end_tick == 0 { 1 } else { smf_end_tick };
            // notes of the views, and the channels that have some
            let mut has_notes: Vec<bool> = Vec::new();
            let mut c: usize = 0;
            while c < 16
                invariant
                    0 <= c <= 16,
                    has_notes@.len() == c,
                    forall|d: int| 0 <= d < c ==> !has_notes@[d],
                decreases 16 - c,
            {
                has_notes.push(false);
                c = c + 1;
            }
            let ghost mut raw: Seq<PlayMsg> = Seq::empty();
            let mut i: usize = 0;
            assert(views@.take(0) =~= Seq::<SmfTrackView>::empty());
            assert(note_channels(Seq::<NoteT>::empty()) =~= Set::<u8>::empty());
            while i < views.len()
                invariant
                    0 <= i <= views@.len(),
                    endt == at_least_one(smf_end_tick),
                    smf == Some(f),
                    forall|i: int, j: int| 0 <= i < views@.len() && 0 <= j < views@[i].notes@.len()
                        && (#[trigger] views@[i].notes@[j]).dur_ticks > 0 ==> {
                            &&& views@[i].notes@[j].channel < 16
                            &&& views@[i].notes@[j].start_tick % at_least_one(smf_end_tick) + views@[i].notes@[j].dur_ticks <= u64::MAX
                        },
                    has_notes@.len() == 16,
                    forall|d: int| 0 <= d < 16 ==> (has_notes@[d] <==> note_channels(view_notes(views@.take(i as int))).contains(d as u8)),
                    forall|d: u8| #[trigger] note_channels(view_notes(views@.take(i as int))).contains(d) ==> d < 16,
                    raw == wrapped_notes(view_notes(views@.take(i as int)), endt),
                    msgs(evs@) == sort_by_key(raw, msg_key()),
                decreases views@.len() - i,
            {
                let notes = &views[i].notes;
                let ghost base = view_notes(views@.take(i as int));
                let mut j: usize = 0;
                assert(base + smf_notes_t(notes@.take(0)) =~= base);
                while j < notes.len()
                    invariant
                        0 <= i < views@.len(),
                        notes == views@[i as int].notes,
                        0 <= j <= notes@.len(),
                        endt == at_least_one(smf_end_tick),
                        forall|i: int, j: int| 0 <= i < views@.len() && 0 <= j < views@[i].notes@.len()
                            && (#[trigger] views@[i].notes@[j]).dur_ticks > 0 ==> {
                                &&& views@[i].notes@[j].channel < 16
                                &&& views@[i].notes@[j].start_tick % at_least_one(smf_end_tick) + views@[i].notes@[j].dur_ticks <= u64::MAX
                            },
                        has_notes@.len() == 16,
                        forall|d: int| 0 <= d < 16 ==> (has_notes@[d] <==> note_channels(base + smf_notes_t(notes@.take(j as int))).contains(d as u8)),
                        forall|d: u8| #[trigger] note_channels(base + smf_notes_t(notes@.take(j as int))).contains(d) ==> d < 16,
                        raw == wrapped_notes(base + smf_notes_t(notes@.take(j as int)), endt),
                        msgs(evs@) == sort_by_key(raw, msg_key()),
                    decreases notes@.len() - j,
                {
                    let n = &notes[j];
                    let ghost pre = base + smf_notes_t(notes@.take(j as int));
                    let ghost post = base + smf_notes_t(notes@.take(j + 1));
                    assert(post =~= pre.push(smf_note_t(*n)));
                    assert(post.drop_last() =~= pre);
                    assert(notes@[j as int] == views@[i as int].notes@[j as int]);
                    add_note(&mut evs, n.channel, n.pitch, n.vel, n.start_tick, n.dur_ticks, endt, Ghost(raw));
                    proof { raw = raw + wrapped_note(smf_note_t(*n), endt); }
                    if n.dur_ticks > 0 {
                        has_notes.set(n.channel as usize, true);
                    }
                    proof {
                        assert forall|d: u8| note_channels(post).contains(d) <==> (note_channels(pre).contains(d) || (n.dur_ticks > 0 && d == n.channel)) by {
                            if note_channels(post).contains(d) {
                                let k = choose|k: int| 0 <= k < post.len() && (#[trigger] post[k]).4 > 0 && post[k].0 == d;
                                if k < pre.len() {
                                    assert(pre[k] == post[k]);
                                }
                            }
                            if note_channels(pre).contains(d) {
                                let k = choose|k: int| 0 <= k < pre.len() && (#[trigger] pre[k]).4 > 0 && pre[k].0 == d;
                                assert(post[k] == pre[k]);
                            }
                            if n.dur_ticks > 0 && d == n.channel {
                                assert(post[post.len() - 1] == smf_note_t(*n));
                            }
                        }
                    }
                    j = j + 1;
                }
                proof {
                    assert(notes@.take(notes@.len() as int) =~= notes@);
                    assert(views@.take(i + 1).drop_last() =~= views@.take(i as int));
                    assert(views@.take(i + 1).last() == views@[i as int]);
                }
                i = i + 1;
            }
            assert(views@.take(views@.len() as int) =~= views@);
            let ghost ns = view_notes(views@);
            let ghost notes_part = raw;
            let ghost fevs = all_events(smf_tracks(*f));
            // last program of each channel
            let mut prog: Vec<Option<u8>> = Vec::new();
            let mut c: usize = 0;
            while c < 16
                invariant
                    0 <= c <= 16,
                    prog@.len() == c,
                    forall|d: int| 0 <= d < c ==> prog@[d] is None,
                decreases 16 - c,
            {
                prog.push(None);
                c = c + 1;
            }
            let mut ti: usize = 0;
            let ghost ftr = smf_tracks(*f);
            assert(ftr.take(0) =~= Seq::<Seq<SmfEvent>>::empty());
            while ti < f.tracks.len()
                invariant
                    0 <= ti <= f.tracks@.len(),
                    ftr == smf_tracks(*f),
                    forall|i: int, j: int| 0 <= i < f.tracks@.len() && 0 <= j < f.tracks@[i].events@.len()
                        ==> ((#[trigger] f.tracks@[i].events@[j]) matches SmfEvent::Program { channel, .. } ==> channel < 16),
                    prog@.len() == 16,
                    forall|d: int| 0 <= d < 16 ==> prog@[d] == last_program(all_events(ftr.take(ti as int)), d as u8),
                decreases f.tracks@.len() - ti,
            {
                let tevs = &f.tracks[ti].events;
                let ghost base = all_events(ftr.take(ti as int));
                let mut j: usize = 0;
                assert(base + tevs@.take(0) =~= base);
                while j < tevs.len()
                    invariant
                        0 <= ti < f.tracks@.len(),
                        tevs == f.tracks@[ti as int].events,
                        0 <= j <= tevs@.len(),
                        forall|i: int, j: int| 0 <= i < f.tracks@.len() && 0 <= j < f.tracks@[i].events@.len()
                            ==> ((#[trigger] f.tracks@[i].events@[j]) matches SmfEvent::Program { channel, .. } ==> channel < 16),
                        prog@.len() == 16,
                        forall|d: int| 0 <= d < 16 ==> prog@[d] == last_program(base + tevs@.take(j as int), d as u8),
                    decreases tevs@.len() - j,
                {
                    let ghost pre = base + tevs@.take(j as int);
                    assert((base + tevs@.take(j + 1)).drop_last() =~= pre);
                    assert((base + tevs@.take(j + 1)).last() == tevs@[j as int]);
                    assert(tevs@[j as int] == f.tracks@[ti as int].events@[j as int]);
                    match &tevs[j] {
                        SmfEvent::Program { channel, program, .. } => {
                            prog.set(*channel as usize, Some(*program));
                        },
                        _ => {},
                    }
                    j = j + 1;
                }
                proof {
                    assert(tevs@.take(tevs@.len() as int) =~= tevs@);
                    assert(ftr[ti as int] == tevs@);
                    crate::smf::views::lemma_all_events_take(ftr, ti as int);
                }
                ti = ti + 1;
            }
            assert(ftr.take(ftr.len() as int) =~= ftr);
            // channel set-up, ascending
            let mut c: usize = 0;
            assert(notes_part + setup_msgs(note_channels(ns), fevs, 0) =~= notes_part);
            while c < 16
                invariant
                    0 <= c <= 16,
                    has_notes@.len() == 16,
                    forall|d: int| 0 <= d < 16 ==> (has_notes@[d] <==> note_channels(ns).contains(d as u8)),
                    prog@.len() == 16,
                    forall|d: int| 0 <= d < 16 ==> prog@[d] == last_program(fevs, d as u8),
                    raw == notes_part + setup_msgs(note_channels(ns), fevs, c as int),
                    msgs(evs@) == sort_by_key(raw, msg_key()),
                decreases 16 - c,
            {
                let ghost before = raw;
                let ch = c as u8;
                if has_notes[c] && c == 9 {
                    let e1 = PlayEvent::cc(9, 0, 127);
                    let ghost r1 = raw.push(e1@);
                    add_event(&mut evs, e1, Ghost(raw));
                    let e2 = PlayEvent::cc(9, 32, 0);
                    let ghost r2 = r1.push(e2@);
                    add_event(&mut evs, e2, Ghost(r1));
                    if prog[9].is_none() {
                        let e3 = PlayEvent::prog(9, 0);
                        let ghost r3 = r2.push(e3@);
                        add_event(&mut evs, e3, Ghost(r2));
                        proof { raw = r3; }
                    } else {
                        proof { raw = r2; }
                    }
                }
                proof {
                    assert(raw =~= notes_part + setup_msgs(note_channels(ns), fevs, c + 1));
                }
                c = c + 1;
            }
            // the file's controller changes (bank select is set up above)
            let ghost setup_part = raw;
            let mut ti: usize = 0;
            assert(setup_part + file_msgs(all_events(ftr.take(0)), endt) =~= setup_part);
            while ti < f.tracks.len()
                invariant
                    0 <= ti <= f.tracks@.len(),
                    ftr == smf_tracks(*f),
                    endt == at_least_one(smf_end_tick),
                    raw == setup_part + file_msgs(all_events(ftr.take(ti as int)), endt),
                    msgs(evs@) == sort_by_key(raw, msg_key()),
                decreases f.tracks@.len() - ti,
            {
                let tevs = &f.tracks[ti].events;
                let ghost base = all_events(ftr.take(ti as int));
                let mut j: usize = 0;
                assert(base + tevs@.take(0) =~= base);
                while j < tevs.len()
                    invariant
                        0 <= ti < f.tracks@.len(),
                        tevs == f.tracks@[ti as int].events,
                        0 <= j <= tevs@.len(),
                        raw == setup_part + file_msgs(base + tevs@.take(j as int), endt),
                        msgs(evs@) == sort_by_key(raw, msg_key()),
                    decreases tevs@.len() - j,
                {
                    let ghost pre = base + tevs@.take(j as int);
                    assert((base + tevs@.take(j + 1)).drop_last() =~= pre);
                    assert((base + tevs@.take(j + 1)).last() == tevs@[j as int]);
                    match &tevs[j] {
                        SmfEvent::Cc { tick, channel, num, val } => {
                            if *num != 0 && *num != 32 {
                                let t = if *tick < endt { *tick } else { endt };
                                let e = PlayEvent::cc_tick(*channel & 0x0f, *num, *val, t);
                                let ghost r1 = raw.push(e@);
                                add_event(&mut evs, e, Ghost(raw));
                                proof { raw = r1; }
                            }
                        },
                        SmfEvent::Program { tick, channel, program } => {
                            let t = if *tick < endt { *tick } else { endt };
                            let e = PlayEvent::prog_tick(*channel, *program, t);
                            let ghost r1 = raw.push(e@);
                            add_event(&mut evs, e, Ghost(raw));
                            proof { raw = r1; }
                        },
                        SmfEvent::SysEx { tick, bytes } => {
                            let t = if *tick < endt { *tick } else { endt };
                            let e = PlayEvent::sysex(copy_bytes(bytes), t);
                            let ghost r1 = raw.push(e@);
                            add_event(&mut evs, e, Ghost(raw));
                            proof { raw = r1; }
                        },
                        _ => {},
                    }
                    j = j + 1;
                }
                proof {
                    assert(tevs@.take(tevs@.len() as int) =~= tevs@);
                    assert(ftr[ti as int] == tevs@);
                    crate::smf::views::lemma_all_events_take(ftr, ti as int);
                }
                ti = ti + 1;
            }
            proof {
                assert(raw =~= wrapped_notes(ns, endt) + setup_msgs(note_channels(ns), fevs, 16) + file_msgs(fevs, endt));
            }
            (evs, endt)
        },
        None => {
            let ghost mut raw: Seq<PlayMsg> = Seq::empty();
            let mut i: usize = 0;
            assert(tracks@.take(0) =~= Seq::<Vec<MidiNote>>::empty());
            while i < tracks.len()
                invariant
                    0 <= i <= tracks@.len(),
                    total == at_least_one(total_ticks),
                    forall|i: int, j: int| 0 <= i < tracks@.len() && 0 <= j < tracks@[i]@.len()
                        && (#[trigger] tracks@[i]@[j]).dur_ticks > 0
                        ==> tracks@[i]@[j].start_tick % at_least_one(total_ticks) + tracks@[i]@[j].dur_ticks <= u64::MAX,
                    raw == wrapped_notes(demo_notes(tracks@.take(i as int)), total),
                    msgs(evs@) == sort_by_key(raw, msg_key()),
                decreases tracks@.len() - i,
            {
                let notes = &tracks[i];
                let ghost base = demo_notes(tracks@.take(i as int));
                let mut j: usize = 0;
                assert(base + midi_notes_t(notes@.take(0)) =~= base);
                while j < notes.len()
                    invariant
                        0 <= i < tracks@.len(),
                        *notes == tracks@[i as int],
                        0 <= j <= notes@.len(),
                        total == at_least_one(total_ticks),
                        forall|i: int, j: int| 0 <= i < tracks@.len() && 0 <= j < tracks@[i]@.len()
                            && (#[trigger] tracks@[i]@[j]).dur_ticks > 0
                            ==> tracks@[i]@[j].start_tick % at_least_one(total_ticks) + tracks@[i]@[j].dur_ticks <= u64::MAX,
                        raw == wrapped_notes(base + midi_notes_t(notes@.take(j as int)), total),
                        msgs(evs@) == sort_by_key(raw, msg_key()),
                    decreases notes@.len() - j,
                {
                    let n = &notes[j];
                    let ghost pre = base + midi_notes_t(notes@.take(j as int));
                    let ghost post = base + midi_notes_t(notes@.take(j + 1));
                    assert(post =~= pre.push(midi_note_t(*n)));
                    assert(post.drop_last() =~= pre);
                    assert(notes@[j as int] == tracks@[i as int]@[j as int]);
                    add_note(&mut evs, n.channel, n.pitch, n.velocity, n.start_tick, n.dur_ticks, total, Ghost(raw));
                    proof { raw = raw + wrapped_note(midi_note_t(*n), total); }
                    j = j + 1;
                }
                proof {
                    assert(notes@.take(notes@.len() as int) =~= notes@);
                    assert(tracks@.take(i + 1).drop_last() =~= tracks@.take(i as int));
                    assert(tracks@.take(i + 1).last() == tracks@[i as int]);
                }
                i = i + 1;
            }
            assert(tracks@.take(tracks@.len() as int) =~= tracks@);
            (evs, total_ticks)
        },
    }
}

// ---------- loading and metering ----------

/// The latest note end (start + length) over the notes of the views, 0 without notes.
pub open spec fn notes_end(ns: Seq<NoteT>) -> int
    decreases ns.len(),
{
    if ns.len() == 0 {
        0
    } else {
        let e = ns.last().3 + ns.last().4;
        let m = notes_end(ns.drop_last());
        if e > m { e } else { m }
    }
}

/// The end tick of a loaded file's notes: the latest note end over all channel views.
pub fn notes_end_tick(views: &[SmfTrackView]) -> (r: u64)
    requires
        forall|i: int, j: int| 0 <= i < views@.len() && 0 <= j < views@[i].notes@.len()
            ==> (#[trigger] views@[i].notes@[j]).start_tick + views@[i].notes@[j].dur_ticks <= u64::MAX,
    ensures
        r == notes_end(view_notes(views@)),
{
    let mut end: u64 = 0;
    let mut i: usize = 0;
    assert(views@.take(0) =~= Seq::<SmfTrackView>::empty());
    while i < views.len()
        invariant
            0 <= i <= views@.len(),
            forall|i: int, j: int| 0 <= i < views@.len() && 0 <= j < views@[i].notes@.len()
                ==> (#[trigger] views@[i].notes@[j]).start_tick + views@[i].notes@[j].dur_ticks <= u64::MAX,
            end == notes_end(view_notes(views@.take(i as int))),
        decreases views@.len() - i,
    {
        let notes = &views[i].notes;
        let ghost base = view_notes(views@.take(i as int));
        let mut j: usize = 0;
        assert(base + smf_notes_t(notes@.take(0)) =~= base);
        while j < notes.len()
            invariant
                0 <= i < views@.len(),
                notes == views@[i as int].notes,
                0 <= j <= notes@.len(),
                forall|i: int, j: int| 0 <= i < views@.len() && 0 <= j < views@[i].notes@.len()
                    ==> (#[trigger] views@[i].notes@[j]).start_tick + views@[i].notes@[j].dur_ticks <= u64::MAX,
                end == notes_end(base + smf_notes_t(notes@.take(j as int))),
            decreases notes@.len() - j,
        {
            let n = &notes[j];
            assert(notes@[j as int] == views@[i as int].notes@[j as int]);
            let ghost pre = base + smf_notes_t(notes@.take(j as int));
            assert((base + smf_notes_t(notes@.take(j + 1))) =~= pre.push(smf_note_t(*n)));
            assert(pre.push(smf_note_t(*n)).drop_last() =~= pre);
            let e = n.start_tick + n.dur_ticks;
            if e > end {
                end = e;
            }
            j = j + 1;
        }
        proof {
            assert(notes@.take(notes@.len() as int) =~= notes@);
            assert(views@.take(i + 1).drop_last() =~= views@.take(i as int));
        }
        i = i + 1;
    }
    assert(views@.take(views@.len() as int) =~= views@);
    end
}

/// What a played message changes in the channel meters and live state.
#[derive(Debug, Clone, Copy, PartialEq, Eq, Structural)]
pub enum MeterMsg {
    /// channel above 15: nothing changes and the message is not counted
    Ignored,
    /// controller `num` of channel `ch` is now `val`
    Cc { ch: u8, num: u8, val: u8 },
    /// program of channel `ch`
    Program { ch: u8, prog: u8 },
    /// a note message: a note-off releases `pitch`; a note-on with nonzero velocity holds it
    Note { ch: u8, pitch: u8, vel: u8, off: bool },
    /// counted, nothing else changes
    Other,
}

/// The meter change of a played message (missing data bytes count as 0 for notes).
pub open spec fn meter_msg(m: PlayMsg) -> MeterMsg {
    let (tick, b, off, ch) = m;
    if ch >= 16 {
        MeterMsg::Ignored
    } else {
        let status: u8 = if b.len() > 0 { b[0] } else { 0 };
        if status & 0xF0 == 0xB0 {
            if b.len() > 2 { MeterMsg::Cc { ch, num: b[1], val: b[2] } } else { MeterMsg::Other }
        } else if status & 0xF0 == 0xC0 {
            if b.len() > 1 { MeterMsg::Program { ch, prog: b[1] } } else { MeterMsg::Other }
        } else if status & 0xF0 == 0x90 {
            MeterMsg::Note {
                ch,
                pitch: if b.len() > 1 { b[1] } else { 0 },
                vel: if b.len() > 2 { b[2] } else { 0 },
                off,
            }
        } else {
            MeterMsg::Other
        }
    }
}

/// Decodes a played message for the meters and live channel state.
pub fn meter_update(ev: &PlayEvent) -> (r: MeterMsg)
    ensures
        r == meter_msg(ev@),
{
    if ev.channel >= 16 {
        return MeterMsg::Ignored;
    }
    let ch = ev.channel;
    let n = ev.bytes.len();
    let status = if n > 0 { ev.bytes[0] } else { 0 };
    if status & 0xF0 == 0xB0 {
        if n > 2 { MeterMsg::Cc { ch, num: ev.bytes[1], val: ev.bytes[2] } } else { MeterMsg::Other }
    } else if status & 0xF0 == 0xC0 {
        if n > 1 { MeterMsg::Program { ch, prog: ev.bytes[1] } } else { MeterMsg::Other }
    } else if status & 0xF0 == 0x90 {
        MeterMsg::Note {
            ch,
            pitch: if n > 1 { ev.bytes[1] } else { 0 },
            vel: if n > 2 { ev.bytes[2] } else { 0 },
            off: ev.off,
        }
    } else {
        MeterMsg::Other
    }
}

// ---------- laws ----------

/// The playback table is in tick order and holds exactly the note, set-up, controller,
/// program and SysEx messages it is built from.
pub proof fn play_table_is_ordered(smf: Option<&Smf>, views: Seq<SmfTrackView>, smf_end_tick: u64, tracks: Seq<Vec<MidiNote>>, total_ticks: u64)
    ensures
        sorted_by_key(play_table(smf, views, smf_end_tick, tracks, total_ticks), msg_key()),
        play_table(smf, views, smf_end_tick, tracks, total_ticks).to_multiset() == (match smf {
            Some(f) => {
                let end = at_least_one(smf_end_tick);
                let ns = view_notes(views);
                let evs = all_events(smf_tracks(*f));
                wrapped_notes(ns, end) + setup_msgs(note_channels(ns), evs, 16) + file_msgs(evs, end)
            },
            None => wrapped_notes(demo_notes(tracks), at_least_one(total_ticks)),
        }).to_multiset(),
{
    match smf {
        Some(f) => {
            let end = at_least_one(smf_end_tick);
            let ns = view_notes(views);
            let evs = all_events(smf_tracks(*f));
            lemma_sort_by_key(wrapped_notes(ns, end) + setup_msgs(note_channels(ns), evs, 16) + file_msgs(evs, end), msg_key());
        },
        None => lemma_sort_by_key(wrapped_notes(demo_notes(tracks), at_least_one(total_ticks)), msg_key()),
    }
}

/// Every message due in a frame lies between the frame's origin and its end tick.
pub proof fn due_messages_in_window(s: Seq<PlayMsg>, from: int, origin: u64, next: u64, upto: int)
    ensures
        forall|i: int| 0 <= i < due_between(s, from, origin, next, upto).len()
            ==> origin <= (#[trigger] due_between(s, from, origin, next, upto)[i]).0 <= next,
    decreases upto - from,
{
    if upto > from {
        due_messages_in_window(s, from, origin, next, upto - 1);
        let rest = due_between(s, from, origin, next, upto - 1);
        let e = s[upto - 1];
        if e.0 >= origin && e.0 <= next {
            assert forall|i: int| 0 <= i < rest.push(e).len() implies origin <= (#[trigger] rest.push(e)[i]).0 <= next by {
                if i < rest.len() { assert(rest.push(e)[i] == rest[i]); }
            }
        }
    }
}

/// Mute wins: a muted channel is silent whatever is soloed; while any channel is soloed, an
/// unmuted soloed channel sounds and every other channel is silent; with no solo, exactly
/// the muted channels are silent.
pub proof fn mute_solo_rules(mutes: Seq<bool>, solos: Seq<bool>, ch: int)
    requires
        mutes.len() == 16,
        solos.len() == 16,
        0 <= ch < 16,
    ensures
        mutes[ch] ==> effectively_muted(mutes, solos, ch),
        (exists|c: int| 0 <= c < 16 && solos[c]) ==> (effectively_muted(mutes, solos, ch) <==> (!solos[ch] || mutes[ch])),
        (forall|c: int| 0 <= c < 16 ==> !solos[c]) ==> (effectively_muted(mutes, solos, ch) <==> mutes[ch]),
{
}


/// A SysEx message is broadcast whatever is muted or soloed; every other message follows
/// the mute / solo rule of its channel.
pub proof fn sysex_passes_mute_and_routing(channel: u8, mutes: Seq<bool>, solos: Seq<bool>)
    ensures
        channel == SYSEX_CHANNEL ==> route_of(channel, mutes, solos) == PlayRoute::Broadcast,
        channel != SYSEX_CHANNEL ==> (route_of(channel, mutes, solos) == PlayRoute::Silent
            <==> effectively_muted(mutes, solos, (channel % 16) as int)),
{
}


proof fn lemma_view_notes_has(views: Seq<SmfTrackView>, i: int, j: int)
    requires
        0 <= i < views.len(),
        0 <= j < views[i].notes@.len(),
    ensures
        view_notes(views).contains(smf_note_t(views[i].notes@[j])),
    decreases views.len(),
{
    let rest = view_notes(views.drop_last());
    let last = smf_notes_t(views.last().notes@);
    if i == views.len() - 1 {
        assert(view_notes(views)[rest.len() + j] == last[j]);
    } else {
        assert(views.drop_last()[i] == views[i]);
        lemma_view_notes_has(views.drop_last(), i, j);
        let k = choose|k: int| 0 <= k < rest.len() && rest[k] == smf_note_t(views[i].notes@[j]);
        assert(view_notes(views)[k] == rest[k]);
    }
}

proof fn lemma_wrapped_notes_has(ns: Seq<NoteT>, end: u64, k: int, m: int)
    requires
        0 <= k < ns.len(),
        0 <= m < wrapped_note(ns[k], end).len(),
    ensures
        wrapped_notes(ns, end).contains(wrapped_note(ns[k], end)[m]),
    decreases ns.len(),
{
    let rest = wrapped_notes(ns.drop_last(), end);
    if k == ns.len() - 1 {
        assert(wrapped_notes(ns, end)[rest.len() + m] == wrapped_note(ns.last(), end)[m]);
    } else {
        assert(ns.drop_last()[k] == ns[k]);
        lemma_wrapped_notes_has(ns.drop_last(), end, k, m);
        let q = choose|q: int| 0 <= q < rest.len() && rest[q] == wrapped_note(ns[k], end)[m];
        assert(wrapped_notes(ns, end)[q] == rest[q]);
    }
}

/// With a file loaded, every note of the views with a nonzero length is played with its own
/// channel, pitch and velocity: its note-on `9n pitch vel` is in the table at the note's start
/// tick looped over the end tick.
pub proof fn file_notes_play_with_their_velocity(f: &Smf, views: Seq<SmfTrackView>, smf_end_tick: u64, tracks: Seq<Vec<MidiNote>>, total_ticks: u64, i: int, j: int)
    requires
        0 <= i < views.len(),
        0 <= j < views[i].notes@.len(),
        views[i].notes@[j].dur_ticks > 0,
    ensures
        ({
            let n = views[i].notes@[j];
            play_table(Some(f), views, smf_end_tick, tracks, total_ticks).contains((
                (n.start_tick % at_least_one(smf_end_tick)) as u64,
                seq![0x90u8 | (n.channel & 0x0f), n.pitch & 0x7f, n.vel & 0x7f],
                false,
                n.channel,
            ))
        }),
{
    broadcast use vstd::seq_lib::group_seq_properties;
    let n = views[i].notes@[j];
    let end = at_least_one(smf_end_tick);
    let ns = view_notes(views);
    let evs = all_events(smf_tracks(*f));
    lemma_view_notes_has(views, i, j);
    let k = choose|k: int| 0 <= k < ns.len() && ns[k] == smf_note_t(n);
    lemma_wrapped_notes_has(ns, end, k, 0);
    let msg = wrapped_note(ns[k], end)[0];
    let w = wrapped_notes(ns, end);
    let raw = w + setup_msgs(note_channels(ns), evs, 16) + file_msgs(evs, end);
    let q = choose|q: int| 0 <= q < w.len() && w[q] == msg;
    assert(raw[q] == msg);
    lemma_sort_by_key(raw, msg_key());
    assert(raw.to_multiset().count(msg) > 0);
    assert(sort_by_key(raw, msg_key()).to_multiset().count(msg) > 0);
    assert(msg == ((n.start_tick % end) as u64, seq![0x90u8 | (n.channel & 0x0f), n.pitch & 0x7f, n.vel & 0x7f], false, n.channel));
}

} // verus!
