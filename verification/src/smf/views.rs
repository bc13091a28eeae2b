//! Per-channel views of parsed events: paired notes per channel, and the event list of one
//! channel. Both work on all tracks' events merged in tick order (a stable sort: events of
//! equal tick keep their file order, track by track).

use vstd::prelude::*;
use super::{Smf, SmfEvent, TrackEvents};
use crate::order::{insert_by_key, sort_by_key, sorted_by_key, lemma_insert_at, lemma_sort_by_key};

verus! {

// ---------- merged events ----------

pub open spec fn event_tick(e: SmfEvent) -> u64 {
    match e {
        SmfEvent::NoteOn { tick, .. } => tick,
        SmfEvent::NoteOff { tick, .. } => tick,
        SmfEvent::Tempo { tick, .. } => tick,
        SmfEvent::TimeSig { tick, .. } => tick,
        SmfEvent::Cc { tick, .. } => tick,
        SmfEvent::Program { tick, .. } => tick,
        SmfEvent::SysEx { tick, .. } => tick,
    }
}

pub open spec fn tick_key() -> spec_fn(SmfEvent) -> u64 {
    |e: SmfEvent| event_tick(e)
}

fn tick_of(e: &SmfEvent) -> (r: u64)
    ensures
        r == event_tick(*e),
{
    match e {
        SmfEvent::NoteOn { tick, .. } => *tick,
        SmfEvent::NoteOff { tick, .. } => *tick,
        SmfEvent::Tempo { tick, .. } => *tick,
        SmfEvent::TimeSig { tick, .. } => *tick,
        SmfEvent::Cc { tick, .. } => *tick,
        SmfEvent::Program { tick, .. } => *tick,
        SmfEvent::SysEx { tick, .. } => *tick,
    }
}

/// The events of all tracks, track after track, each in file order.
pub open spec fn all_events(tracks: Seq<Seq<SmfEvent>>) -> Seq<SmfEvent>
    decreases tracks.len(),
{
    if tracks.len() == 0 {
        Seq::empty()
    } else {
        all_events(tracks.drop_last()) + tracks.last()
    }
}

/// The tracks of a file as event sequences.
pub open spec fn smf_tracks(smf: Smf) -> Seq<Seq<SmfEvent>> {
    Seq::new(smf.tracks@.len(), |i: int| smf.tracks@[i].events@)
}

pub proof fn lemma_all_events_take(tracks: Seq<Seq<SmfEvent>>, i: int)
    requires
        0 <= i < tracks.len(),
    ensures
        all_events(tracks.take(i + 1)) == all_events(tracks.take(i)) + tracks[i],
{
    assert(tracks.take(i + 1).drop_last() =~= tracks.take(i));
}

// ---------- event list of one channel ----------

/// The kind and data of a channel event in the event list.
#[derive(Debug, Clone, Copy, PartialEq, Eq, Structural)]
pub enum EventKind {
    NoteOn { pitch: u8, vel: u8 },
    NoteOff { pitch: u8 },
    Cc { num: u8, val: u8 },
    Program { program: u8 },
}

/// One row of the event list: absolute tick and event.
#[derive(Debug, Clone, Copy, PartialEq, Eq, Structural)]
pub struct EventRow {
    pub tick: u64,
    pub kind: EventKind,
}

/// The row of an event if it is a note, controller or program event on channel `ch`
/// (tempo and time signature are global and have none).
pub open spec fn row_of(e: SmfEvent, ch: u8) -> Option<EventRow> {
    match e {
        SmfEvent::NoteOn { tick, channel, pitch, vel } => if channel == ch {
            Some(EventRow { tick, kind: EventKind::NoteOn { pitch, vel } })
        } else {
            None
        },
        SmfEvent::NoteOff { tick, channel, pitch } => if channel == ch {
            Some(EventRow { tick, kind: EventKind::NoteOff { pitch } })
        } else {
            None
        },
        SmfEvent::Cc { tick, channel, num, val } => if channel == ch {
            Some(EventRow { tick, kind: EventKind::Cc { num, val } })
        } else {
            None
        },
        SmfEvent::Program { tick, channel, program } => if channel == ch {
            Some(EventRow { tick, kind: EventKind::Program { program } })
        } else {
            None
        },
        _ => None,
    }
}

/// The rows of channel `ch` in the order of `evs`.
pub open spec fn channel_rows(evs: Seq<SmfEvent>, ch: u8) -> Seq<EventRow>
    decreases evs.len(),
{
    if evs.len() == 0 {
        Seq::empty()
    } else {
        match row_of(evs.last(), ch) {
            Some(r) => channel_rows(evs.drop_last(), ch).push(r),
            None => channel_rows(evs.drop_last(), ch),
        }
    }
}

pub open spec fn row_key() -> spec_fn(EventRow) -> u64 {
    |r: EventRow| r.tick
}

/// The event list of channel `ch` (0-based): its rows in tick order, equal ticks in file order.
pub open spec fn event_list(tracks: Seq<Seq<SmfEvent>>, ch: u8) -> Seq<EventRow> {
    sort_by_key(channel_rows(all_events(tracks), ch), row_key())
}

fn row_of_exec(e: &SmfEvent, ch: u8) -> (r: Option<EventRow>)
    ensures
        r == row_of(*e, ch),
{
    match e {
        SmfEvent::NoteOn { tick, channel, pitch, vel } => if *channel == ch {
            Some(EventRow { tick: *tick, kind: EventKind::NoteOn { pitch: *pitch, vel: *vel } })
        } else {
            None
        },
        SmfEvent::NoteOff { tick, channel, pitch } => if *channel == ch {
            Some(EventRow { tick: *tick, kind: EventKind::NoteOff { pitch: *pitch } })
        } else {
            None
        },
        SmfEvent::Cc { tick, channel, num, val } => if *channel == ch {
            Some(EventRow { tick: *tick, kind: EventKind::Cc { num: *num, val: *val } })
        } else {
            None
        },
        SmfEvent::Program { tick, channel, program } => if *channel == ch {
            Some(EventRow { tick: *tick, kind: EventKind::Program { program: *program } })
        } else {
            None
        },
        _ => None,
    }
}

/// Inserts a row after every row whose tick is not larger.
fn insert_row(rows: &mut Vec<EventRow>, r: EventRow)
    ensures
        final(rows)@ == insert_by_key(old(rows)@, r, row_key()),
{
    let mut k = rows.len();
    while k > 0 && rows[k - 1].tick > r.tick
        invariant
            rows@ == old(rows)@,
            0 <= k <= rows@.len(),
            forall|j: int| k <= j < rows@.len() ==> (row_key())(#[trigger] rows@[j]) > (row_key())(r),
        decreases k,
    {
        k = k - 1;
    }
    proof { lemma_insert_at(rows@, r, row_key(), k as int); }
    rows.insert(k, r);
    assert(rows@ =~= old(rows)@.take(k as int).push(r) + old(rows)@.skip(k as int));
}

/// The events of channel `ch` (0-based) over all tracks, in tick order; events of equal tick
/// keep their file order. Tempo and time signature events are not listed.
pub fn event_list_for_channel(smf: &Smf, ch: u8) -> (rows: Vec<EventRow>)
    ensures
        rows@ == event_list(smf_tracks(*smf), ch),
{
    let ghost tracks = smf_tracks(*smf);
    let mut rows: Vec<EventRow> = Vec::new();
    let mut i: usize = 0;
    assert(tracks.take(0) =~= Seq::<Seq<SmfEvent>>::empty());
    while i < smf.tracks.len()
        invariant
            tracks == smf_tracks(*smf),
            0 <= i <= smf.tracks@.len(),
            rows@ == sort_by_key(channel_rows(all_events(tracks.take(i as int)), ch), row_key()),
        decreases smf.tracks@.len() - i,
    {
        let evs = &smf.tracks[i].events;
        let ghost base = all_events(tracks.take(i as int));
        let mut j: usize = 0;
        assert(base + evs@.take(0) =~= base);
        while j < evs.len()
            invariant
                0 <= j <= evs@.len(),
                rows@ == sort_by_key(channel_rows(base + evs@.take(j as int), ch), row_key()),
            decreases evs@.len() - j,
        {
            let ghost prev = base + evs@.take(j as int);
            assert(base + evs@.take(j + 1) =~= prev.push(evs@[j as int]));
            assert((prev.push(evs@[j as int])).drop_last() =~= prev);
            let ghost c = channel_rows(prev, ch);
            match row_of_exec(&evs[j], ch) {
                Some(r) => {
                    insert_row(&mut rows, r);
                    proof {
                        assert(channel_rows(prev.push(evs@[j as int]), ch) == c.push(r));
                        assert(c.push(r).drop_last() =~= c);
                        assert(sort_by_key(c.push(r), row_key()) == insert_by_key(sort_by_key(c, row_key()), r, row_key()));
                    }
                },
                None => {
                    assert(channel_rows(prev.push(evs@[j as int]), ch) == c);
                },
            }
            j = j + 1;
        }
        proof {
            lemma_all_events_take(tracks, i as int);
            assert(evs@.take(evs@.len() as int) =~= evs@);
            assert(tracks[i as int] == evs@);
        }
        i = i + 1;
    }
    assert(tracks.take(tracks.len() as int) =~= tracks);
    rows
}

/// The event list is in tick order and holds exactly the channel's rows.
pub proof fn event_list_is_ordered(tracks: Seq<Seq<SmfEvent>>, ch: u8)
    ensures
        sorted_by_key(event_list(tracks, ch), row_key()),
        event_list(tracks, ch).to_multiset() == channel_rows(all_events(tracks), ch).to_multiset(),
{
    lemma_sort_by_key(channel_rows(all_events(tracks), ch), row_key());
}

// ---------- paired notes per channel ----------

/// One paired note (track view / piano roll / playback).
#[derive(Debug, Clone, Copy, PartialEq, Eq, Structural)]
pub struct SmfNote {
    pub channel: u8,
    pub pitch: u8,
    pub vel: u8,
    pub start_tick: u64,
    pub dur_ticks: u64,
}

/// Per-channel view: paired notes, last program, and bank select (MSB, LSB) once either
/// has been set to something other than 0.
#[derive(Debug, Clone)]
pub struct SmfTrackView {
    pub notes: Vec<SmfNote>,
    pub program: Option<u8>,
    pub bank: Option<(u8, u8)>,
    pub name: String,
}

impl Default for SmfTrackView {
    fn default() -> (r: Self)
        ensures
            r.notes@ == Seq::<SmfNote>::empty(),
            r.program is None,
            r.bank is None,
            r.name@ == Seq::<char>::empty(),
    {
        SmfTrackView { notes: Vec::new(), program: None, bank: None, name: String::new() }
    }
}

/// A channel view as values.
pub struct ViewModel {
    pub notes: Seq<SmfNote>,
    pub program: Option<u8>,
    pub bank: Option<(u8, u8)>,
}

/// Pairing state: the 16 channel views and, per (channel, pitch) key `channel*256 + pitch`,
/// the open note-ons (start tick, velocity) in the order they were opened.
pub struct PairState {
    pub views: Seq<ViewModel>,
    pub open: Seq<Seq<(u64, u8)>>,
}

pub open spec fn empty_view() -> ViewModel {
    ViewModel { notes: Seq::empty(), program: None, bank: None }
}

pub open spec fn pair_start() -> PairState {
    PairState {
        views: Seq::new(16, |i: int| empty_view()),
        open: Seq::new(4096, |k: int| Seq::<(u64, u8)>::empty()),
    }
}

pub open spec fn open_key(ch: u8, pitch: u8) -> int {
    ch * 256 + pitch
}

/// The note from an open start to `tick`.
pub open spec fn closed_note(ch: u8, pitch: u8, o: (u64, u8), tick: u64) -> SmfNote {
    SmfNote { channel: ch, pitch, vel: o.1, start_tick: o.0, dur_ticks: (tick - o.0) as u64 }
}

/// The notes a new note-on at `tick` closes: every open start not after `tick`, in order.
pub open spec fn closed_by(stack: Seq<(u64, u8)>, ch: u8, pitch: u8, tick: u64) -> Seq<SmfNote>
    decreases stack.len(),
{
    if stack.len() == 0 {
        Seq::empty()
    } else {
        let prev = closed_by(stack.drop_last(), ch, pitch, tick);
        if tick >= stack.last().0 {
            prev.push(closed_note(ch, pitch, stack.last(), tick))
        } else {
            prev
        }
    }
}

pub open spec fn with_notes(v: ViewModel, notes: Seq<SmfNote>) -> ViewModel {
    ViewModel { notes, program: v.program, bank: v.bank }
}

/// One event of the merged sequence:
/// - note-on: closes the open notes of its (channel, pitch) and opens a new one;
/// - note-off: closes the most recently opened note of its (channel, pitch), if any;
/// - program change: records the program;
/// - controller 0 / 32: bank MSB / LSB (from (0, 0) when unset), recorded once not both 0.
pub open spec fn pair_step(st: PairState, e: SmfEvent) -> PairState {
    match e {
        SmfEvent::NoteOn { tick, channel, pitch, vel } => {
            let k = open_key(channel, pitch);
            let v = st.views[channel as int];
            PairState {
                views: st.views.update(
                    channel as int,
                    with_notes(v, v.notes + closed_by(st.open[k], channel, pitch, tick)),
                ),
                open: st.open.update(k, seq![(tick, vel)]),
            }
        },
        SmfEvent::NoteOff { tick, channel, pitch } => {
            let k = open_key(channel, pitch);
            if channel < 16 && st.open[k].len() > 0 {
                let o = st.open[k].last();
                let open2 = st.open.update(k, st.open[k].drop_last());
                let v = st.views[channel as int];
                if tick >= o.0 {
                    PairState {
                        views: st.views.update(channel as int, with_notes(v, v.notes.push(closed_note(channel, pitch, o, tick)))),
                        open: open2,
                    }
                } else {
                    PairState { views: st.views, open: open2 }
                }
            } else {
                st
            }
        },
        SmfEvent::Program { channel, program, .. } => {
            let v = st.views[channel as int];
            PairState {
                views: st.views.update(channel as int, ViewModel { program: Some(program), ..v }),
                open: st.open,
            }
        },
        SmfEvent::Cc { channel, num, val, .. } => {
            let v = st.views[channel as int];
            let (m, l) = match v.bank {
                Some(b) => b,
                None => (0u8, 0u8),
            };
            let m2 = if num == 0 { val } else { m };
            let l2 = if num == 32 { val } else { l };
            if m2 != 0 || l2 != 0 {
                PairState {
                    views: st.views.update(channel as int, ViewModel { bank: Some((m2, l2)), ..v }),
                    open: st.open,
                }
            } else {
                st
            }
        },
        _ => st,
    }
}

pub open spec fn pair_fold(st: PairState, evs: Seq<SmfEvent>) -> PairState
    decreases evs.len(),
{
    if evs.len() == 0 {
        st
    } else {
        pair_step(pair_fold(st, evs.drop_last()), evs.last())
    }
}

/// A note-on never closed gets a placeholder length of 96 ticks.
pub open spec fn open_note(ch: u8, pitch: u8, o: (u64, u8)) -> SmfNote {
    SmfNote { channel: ch, pitch, vel: o.1, start_tick: o.0, dur_ticks: 96 }
}

pub open spec fn open_notes(stack: Seq<(u64, u8)>, ch: u8, pitch: u8) -> Seq<SmfNote> {
    stack.map_values(|o: (u64, u8)| open_note(ch, pitch, o))
}

/// The unclosed notes of channel `ch` for pitches below `n`, pitch by pitch.
pub open spec fn flush_notes(open: Seq<Seq<(u64, u8)>>, ch: u8, n: nat) -> Seq<SmfNote>
    decreases n,
{
    if n == 0 {
        Seq::empty()
    } else {
        flush_notes(open, ch, (n - 1) as nat) + open_notes(open[ch * 256 + n - 1], ch, (n - 1) as u8)
    }
}

/// The 16 channel views of a file's tracks.
pub open spec fn track_views(tracks: Seq<Seq<SmfEvent>>) -> Seq<ViewModel> {
    let st = pair_fold(pair_start(), sort_by_key(all_events(tracks), tick_key()));
    Seq::new(16, |ch: int| with_notes(st.views[ch], st.views[ch].notes + flush_notes(st.open, ch as u8, 256)))
}

/// Note, controller and program events address one of the 16 channels.
pub open spec fn event_channel_ok(e: SmfEvent) -> bool {
    match e {
        SmfEvent::NoteOn { channel, .. } => channel < 16,
        SmfEvent::Cc { channel, .. } => channel < 16,
        SmfEvent::Program { channel, .. } => channel < 16,
        _ => true,
    }
}

pub open spec fn channels_ok(evs: Seq<SmfEvent>) -> bool {
    forall|i: int| 0 <= i < evs.len() ==> event_channel_ok(#[trigger] evs[i])
}

/// The exec views and open table seen as a `PairState`.
pub open spec fn pair_model(views: Seq<SmfTrackView>, open: Seq<Vec<(u64, u8)>>) -> PairState {
    PairState {
        views: Seq::new(views.len(), |i: int| ViewModel { notes: views[i].notes@, program: views[i].program, bank: views[i].bank }),
        open: Seq::new(open.len(), |k: int| open[k]@),
    }
}

/// The events a sequence of references points to.
pub open spec fn deref_events(s: Seq<&SmfEvent>) -> Seq<SmfEvent> {
    s.map_values(|e: &SmfEvent| *e)
}

/// Inserts an event after every event whose tick is not larger.
fn insert_event<'a>(all: &mut Vec<&'a SmfEvent>, e: &'a SmfEvent)
    ensures
        deref_events(final(all)@) == insert_by_key(deref_events(old(all)@), *e, tick_key()),
{
    let t = tick_of(e);
    let mut k = all.len();
    while k > 0 && tick_of(all[k - 1]) > t
        invariant
            all@ == old(all)@,
            t == event_tick(*e),
            0 <= k <= all@.len(),
            forall|j: int| k <= j < all@.len() ==> (tick_key())(#[trigger] deref_events(all@)[j]) > (tick_key())(*e),
        decreases k,
    {
        k = k - 1;
    }
    proof { lemma_insert_at(deref_events(all@), *e, tick_key(), k as int); }
    all.insert(k, e);
    assert(deref_events(all@) =~= deref_events(old(all)@).take(k as int).push(*e) + deref_events(old(all)@).skip(k as int));
}

/// Appends a note to channel `ch`'s view.
fn push_note(views: &mut Vec<SmfTrackView>, ch: usize, n: SmfNote)
    requires
        ch < old(views)@.len(),
    ensures
        final(views)@.len() == old(views)@.len(),
        forall|i: int| 0 <= i < old(views)@.len() && i != ch ==> #[trigger] final(views)@[i] == old(views)@[i],
        final(views)@[ch as int].notes@ == old(views)@[ch as int].notes@.push(n),
        final(views)@[ch as int].program == old(views)@[ch as int].program,
        final(views)@[ch as int].bank == old(views)@[ch as int].bank,
        final(views)@[ch as int].name@ == old(views)@[ch as int].name@,
{
    views[ch].notes.push(n);
}

/// Applies one merged event to the views and the open-note table (see `pair_step`).
fn pair_event(views: &mut Vec<SmfTrackView>, open: &mut Vec<Vec<(u64, u8)>>, e: &SmfEvent)
    requires
        old(views)@.len() == 16,
        old(open)@.len() == 4096,
        event_channel_ok(*e),
    ensures
        final(views)@.len() == 16,
        final(open)@.len() == 4096,
        pair_model(final(views)@, final(open)@) == pair_step(pair_model(old(views)@, old(open)@), *e),
        forall|i: int| 0 <= i < 16 ==> #[trigger] final(views)@[i].name@ == old(views)@[i].name@,
{
    let ghost st = pair_model(old(views)@, old(open)@);
    match e {
        SmfEvent::NoteOn { tick, channel, pitch, vel } => {
            let (tick, channel, pitch, vel) = (*tick, *channel, *pitch, *vel);
            let ch = channel as usize;
            assert(ch < 16);
            let k = ch * 256 + pitch as usize;
            assert(k < 4096);
            let n = open[k].len();
            let mut j: usize = 0;
            while j < n
                invariant
                    ch < 16,
                    k == open_key(channel, pitch),
                    k < 4096,
                    open@.len() == 4096,
                    open@ == old(open)@,
                    n == open@[k as int]@.len(),
                    0 <= j <= n,
                    views@.len() == 16,
                    forall|i: int| 0 <= i < 16 && i != ch ==> #[trigger] views@[i] == old(views)@[i],
                    views@[ch as int].notes@ == old(views)@[ch as int].notes@ + closed_by(
                        open@[k as int]@.take(j as int),
                        channel,
                        pitch,
                        tick,
                    ),
                    views@[ch as int].program == old(views)@[ch as int].program,
                    views@[ch as int].bank == old(views)@[ch as int].bank,
                    views@[ch as int].name@ == old(views)@[ch as int].name@,
                decreases n - j,
            {
                let ghost stack = open@[k as int]@;
                let (s, sv) = open[k][j];
                assert(stack.take(j + 1).drop_last() =~= stack.take(j as int));
                if tick >= s {
                    push_note(views, ch, SmfNote { channel, pitch, vel: sv, start_tick: s, dur_ticks: tick - s });
                }
                j = j + 1;
            }
            assert(open@[k as int]@.take(n as int) =~= open@[k as int]@);
            open[k].clear();
            open[k].push((tick, vel));
            proof {
                let m = pair_model(views@, open@);
                let r = pair_step(st, *e);
                assert(m.open =~= r.open);
                assert(m.views =~= r.views);
            }
        },
        SmfEvent::NoteOff { tick, channel, pitch } => {
            let (tick, channel, pitch) = (*tick, *channel, *pitch);
            if channel < 16 {
                let ch = channel as usize;
                let k = ch * 256 + pitch as usize;
                assert(k < 4096);
                if open[k].len() > 0 {
                    let ghost stack = open@[k as int]@;
                    let o = open[k].pop();
                    match o {
                        Some((s, sv)) => {
                            if tick >= s {
                                push_note(views, ch, SmfNote { channel, pitch, vel: sv, start_tick: s, dur_ticks: tick - s });
                            }
                        },
                        None => {},
                    }
                    proof {
                        let m = pair_model(views@, open@);
                        let r = pair_step(st, *e);
                        assert(m.open =~= r.open);
                        assert(m.views =~= r.views);
                    }
                } else {
                    assert(pair_model(views@, open@) =~= st);
                }
            } else {
                assert(pair_model(views@, open@) =~= st);
            }
        },
        SmfEvent::Program { channel, program, .. } => {
            let (channel, program) = (*channel, *program);
            let ch = channel as usize;
            views[ch].program = Some(program);
            proof {
                let m = pair_model(views@, open@);
                let r = pair_step(st, *e);
                assert(m.open =~= r.open);
                assert(m.views =~= r.views);
            }
        },
        SmfEvent::Cc { channel, num, val, .. } => {
            let (channel, num, val) = (*channel, *num, *val);
            let ch = channel as usize;
            let (mut msb, mut lsb) = match views[ch].bank {
                Some(b) => b,
                None => (0u8, 0u8),
            };
            if num == 0 {
                msb = val;
            } else if num == 32 {
                lsb = val;
            }
            if msb != 0 || lsb != 0 {
                views[ch].bank = Some((msb, lsb));
                proof {
                    let m = pair_model(views@, open@);
                    let r = pair_step(st, *e);
                    assert(m.open =~= r.open);
                    assert(m.views =~= r.views);
                }
            } else {
                assert(pair_model(views@, open@) =~= st);
            }
        },
        _ => {
            assert(pair_model(views@, open@) =~= st);
        },
    }
}

/// Every element of a stable sort comes from the sorted sequence.
proof fn lemma_sorted_channels_ok(s: Seq<SmfEvent>)
    requires
        channels_ok(s),
    ensures
        channels_ok(sort_by_key(s, tick_key())),
{
    broadcast use vstd::seq_lib::group_seq_properties;
    lemma_sort_by_key(s, tick_key());
    let t = sort_by_key(s, tick_key());
    assert forall|i: int| 0 <= i < t.len() implies event_channel_ok(#[trigger] t[i]) by {
        assert(t.to_multiset().count(t[i]) > 0);
        assert(s.to_multiset().count(t[i]) > 0);
        let j = choose|j: int| 0 <= j < s.len() && s[j] == t[i];
        assert(event_channel_ok(s[j]));
    }
}

/// All tracks' events merged in tick order (equal ticks in file order).
fn merged_events<'a>(smf: &'a Smf) -> (all: Vec<&'a SmfEvent>)
    ensures
        deref_events(all@) == sort_by_key(all_events(smf_tracks(*smf)), tick_key()),
{
    let ghost tracks = smf_tracks(*smf);
    let mut all: Vec<&'a SmfEvent> = Vec::new();
    assert(deref_events(all@) =~= Seq::<SmfEvent>::empty());
    let mut i: usize = 0;
    assert(tracks.take(0) =~= Seq::<Seq<SmfEvent>>::empty());
    while i < smf.tracks.len()
        invariant
            tracks == smf_tracks(*smf),
            0 <= i <= smf.tracks@.len(),
            deref_events(all@) == sort_by_key(all_events(tracks.take(i as int)), tick_key()),
        decreases smf.tracks@.len() - i,
    {
        let evs = &smf.tracks[i].events;
        let ghost base = all_events(tracks.take(i as int));
        let mut j: usize = 0;
        assert(base + evs@.take(0) =~= base);
        while j < evs.len()
            invariant
                0 <= j <= evs@.len(),
                deref_events(all@) == sort_by_key(base + evs@.take(j as int), tick_key()),
            decreases evs@.len() - j,
        {
            let ghost prev = base + evs@.take(j as int);
            assert(base + evs@.take(j + 1) =~= prev.push(evs@[j as int]));
            assert((prev.push(evs@[j as int])).drop_last() =~= prev);
            insert_event(&mut all, &evs[j]);
            j = j + 1;
        }
        proof {
            lemma_all_events_take(tracks, i as int);
            assert(evs@.take(evs@.len() as int) =~= evs@);
            assert(tracks[i as int] == evs@);
        }
        i = i + 1;
    }
    assert(tracks.take(tracks.len() as int) =~= tracks);
    all
}

/// Per-channel views of all tracks (16 channels): notes paired from note-on/note-off in tick
/// order, the last program change, and bank select. A note-on closes earlier open notes of
/// the same channel and pitch; a note-off closes the latest one. Notes never closed are
/// appended at the end, pitch by pitch, with a length of 96 ticks.
pub fn build_track_views(smf: &Smf) -> (views: Vec<SmfTrackView>)
    requires
        channels_ok(all_events(smf_tracks(*smf))),
    ensures
        views@.len() == 16,
        forall|ch: int| 0 <= ch < 16 ==> {
            &&& #[trigger] views@[ch].notes@ == track_views(smf_tracks(*smf))[ch].notes
            &&& views@[ch].program == track_views(smf_tracks(*smf))[ch].program
            &&& views@[ch].bank == track_views(smf_tracks(*smf))[ch].bank
            &&& views@[ch].name@ == Seq::<char>::empty()
        },
{
    let ghost tracks = smf_tracks(*smf);
    let mut views: Vec<SmfTrackView> = Vec::new();
    let mut c: usize = 0;
    while c < 16
        invariant
            0 <= c <= 16,
            views@.len() == c,
            forall|i: int| 0 <= i < c ==> {
                &&& (#[trigger] views@[i]).notes@ == Seq::<SmfNote>::empty()
                &&& views@[i].program is None
                &&& views@[i].bank is None
                &&& views@[i].name@ == Seq::<char>::empty()
            },
        decreases 16 - c,
    {
        views.push(SmfTrackView::default());
        c = c + 1;
    }
    let mut open: Vec<Vec<(u64, u8)>> = Vec::new();
    let mut k: usize = 0;
    while k < 4096
        invariant
            0 <= k <= 4096,
            open@.len() == k,
            forall|i: int| 0 <= i < k ==> (#[trigger] open@[i])@ == Seq::<(u64, u8)>::empty(),
        decreases 4096 - k,
    {
        open.push(Vec::new());
        k = k + 1;
    }
    proof {
        let m = pair_model(views@, open@);
        assert(m.views =~= pair_start().views);
        assert(m.open =~= pair_start().open);
    }
    let all = merged_events(smf);
    proof { lemma_sorted_channels_ok(all_events(tracks)); }
    let ghost sorted = deref_events(all@);
    let mut i: usize = 0;
    assert(sorted.take(0) =~= Seq::<SmfEvent>::empty());
    while i < all.len()
        invariant
            sorted == deref_events(all@),
            sorted == sort_by_key(all_events(tracks), tick_key()),
            channels_ok(sorted),
            0 <= i <= all@.len(),
            views@.len() == 16,
            open@.len() == 4096,
            pair_model(views@, open@) == pair_fold(pair_start(), sorted.take(i as int)),
            forall|c: int| 0 <= c < 16 ==> (#[trigger] views@[c]).name@ == Seq::<char>::empty(),
        decreases all@.len() - i,
    {
        assert(sorted.take(i + 1).drop_last() =~= sorted.take(i as int));
        assert(event_channel_ok(sorted[i as int]));
        assert(sorted[i as int] == *all@[i as int]);
        pair_event(&mut views, &mut open, all[i]);
        i = i + 1;
    }
    assert(sorted.take(sorted.len() as int) =~= sorted);
    let ghost st = pair_fold(pair_start(), sorted);
    // notes never closed: appended channel by channel, pitch by pitch, 96 ticks long
    let mut ch: usize = 0;
    while ch < 16
        invariant
            0 <= ch <= 16,
            views@.len() == 16,
            open@.len() == 4096,
            st.open == pair_model(views@, open@).open,
            st.views.len() == 16,
            forall|c: int| 0 <= c < 16 ==> (#[trigger] views@[c]).name@ == Seq::<char>::empty(),
            forall|c: int| 0 <= c < 16 ==> (#[trigger] views@[c]).program == st.views[c].program,
            forall|c: int| 0 <= c < 16 ==> (#[trigger] views@[c]).bank == st.views[c].bank,
            forall|c: int| 0 <= c < ch ==> (#[trigger] views@[c]).notes@ == st.views[c].notes
                + flush_notes(st.open, c as u8, 256),
            forall|c: int| ch <= c < 16 ==> (#[trigger] views@[c]).notes@ == st.views[c].notes,
        decreases 16 - ch,
    {
        let mut pitch: usize = 0;
        while pitch < 256
            invariant
                ch < 16,
                0 <= pitch <= 256,
                views@.len() == 16,
                open@.len() == 4096,
                st.open == pair_model(views@, open@).open,
                st.views.len() == 16,
                forall|c: int| 0 <= c < 16 ==> (#[trigger] views@[c]).name@ == Seq::<char>::empty(),
                forall|c: int| 0 <= c < 16 ==> (#[trigger] views@[c]).program == st.views[c].program,
                forall|c: int| 0 <= c < 16 ==> (#[trigger] views@[c]).bank == st.views[c].bank,
                forall|c: int| 0 <= c < ch ==> (#[trigger] views@[c]).notes@ == st.views[c].notes
                    + flush_notes(st.open, c as u8, 256),
                forall|c: int| ch < c < 16 ==> (#[trigger] views@[c]).notes@ == st.views[c].notes,
                views@[ch as int].notes@ == st.views[ch as int].notes + flush_notes(st.open, ch as u8, pitch as nat),
            decreases 256 - pitch,
        {
            let key = ch * 256 + pitch;
            let ghost before = views@[ch as int].notes@;
            let n = open[key].len();
            let mut j: usize = 0;
            while j < n
                invariant
                    ch < 16,
                    pitch < 256,
                    key == ch * 256 + pitch,
                    key < 4096,
                    0 <= j <= n,
                    n == open@[key as int]@.len(),
                    views@.len() == 16,
                    open@.len() == 4096,
                    st.open == pair_model(views@, open@).open,
                    st.views.len() == 16,
                    forall|c: int| 0 <= c < 16 ==> (#[trigger] views@[c]).name@ == Seq::<char>::empty(),
                    forall|c: int| 0 <= c < 16 ==> (#[trigger] views@[c]).program == st.views[c].program,
                    forall|c: int| 0 <= c < 16 ==> (#[trigger] views@[c]).bank == st.views[c].bank,
                    forall|c: int| 0 <= c < ch ==> (#[trigger] views@[c]).notes@ == st.views[c].notes
                        + flush_notes(st.open, c as u8, 256),
                    forall|c: int| ch < c < 16 ==> (#[trigger] views@[c]).notes@ == st.views[c].notes,
                    views@[ch as int].notes@ == before + open_notes(open@[key as int]@, ch as u8, pitch as u8).take(j as int),
                decreases n - j,
            {
                let (s, sv) = open[key][j];
                push_note(&mut views, ch, SmfNote { channel: ch as u8, pitch: pitch as u8, vel: sv, start_tick: s, dur_ticks: 96 });
                assert(open_notes(open@[key as int]@, ch as u8, pitch as u8).take(j + 1)
                    =~= open_notes(open@[key as int]@, ch as u8, pitch as u8).take(j as int).push(
                        open_note(ch as u8, pitch as u8, open@[key as int]@[j as int])));
                j = j + 1;
            }
            proof {
                assert(open_notes(open@[key as int]@, ch as u8, pitch as u8).take(n as int)
                    =~= open_notes(open@[key as int]@, ch as u8, pitch as u8));
                assert(st.open[key as int] == open@[key as int]@);
                assert(flush_notes(st.open, ch as u8, (pitch + 1) as nat) == flush_notes(st.open, ch as u8, pitch as nat)
                    + open_notes(st.open[ch * 256 + pitch], ch as u8, pitch as u8));
            }
            pitch = pitch + 1;
        }
        ch = ch + 1;
    }
    proof {
        assert forall|c: int| 0 <= c < 16 implies {
            &&& #[trigger] views@[c].notes@ == track_views(tracks)[c].notes
            &&& views@[c].program == track_views(tracks)[c].program
            &&& views@[c].bank == track_views(tracks)[c].bank
        } by {
            assert(track_views(tracks)[c] == with_notes(st.views[c], st.views[c].notes + flush_notes(st.open, c as u8, 256)));
        }
    }
    views
}

// ---------- channel of the paired notes ----------

/// Every note of every channel view carries that view's channel.
pub open spec fn views_own_channel(views: Seq<ViewModel>) -> bool {
    forall|c: int, j: int| 0 <= c < views.len() && 0 <= j < views[c].notes.len()
        ==> (#[trigger] views[c].notes[j]).channel == c
}

proof fn lemma_closed_by_channel(stack: Seq<(u64, u8)>, ch: u8, pitch: u8, tick: u64)
    ensures
        forall|j: int| 0 <= j < closed_by(stack, ch, pitch, tick).len()
            ==> (#[trigger] closed_by(stack, ch, pitch, tick)[j]).channel == ch,
    decreases stack.len(),
{
    if stack.len() > 0 {
        lemma_closed_by_channel(stack.drop_last(), ch, pitch, tick);
        let prev = closed_by(stack.drop_last(), ch, pitch, tick);
        if tick >= stack.last().0 {
            let r = prev.push(closed_note(ch, pitch, stack.last(), tick));
            assert forall|j: int| 0 <= j < r.len() implies (#[trigger] r[j]).channel == ch by {
                if j < prev.len() { assert(r[j] == prev[j]); }
            }
        }
    }
}

proof fn lemma_flush_channel(open: Seq<Seq<(u64, u8)>>, ch: u8, n: nat)
    ensures
        forall|j: int| 0 <= j < flush_notes(open, ch, n).len() ==> (#[trigger] flush_notes(open, ch, n)[j]).channel == ch,
    decreases n,
{
    if n > 0 {
        lemma_flush_channel(open, ch, (n - 1) as nat);
        let a = flush_notes(open, ch, (n - 1) as nat);
        let b = open_notes(open[ch * 256 + n - 1], ch, (n - 1) as u8);
        assert forall|j: int| 0 <= j < (a + b).len() implies #[trigger] (a + b)[j].channel == ch by {
            if j >= a.len() {
                assert((a + b)[j] == b[j - a.len()]);
            }
        }
    }
}

proof fn lemma_pair_fold_channel(evs: Seq<SmfEvent>)
    requires
        channels_ok(evs),
    ensures
        pair_fold(pair_start(), evs).views.len() == 16,
        pair_fold(pair_start(), evs).open.len() == 4096,
        views_own_channel(pair_fold(pair_start(), evs).views),
    decreases evs.len(),
{
    if evs.len() > 0 {
        let t = evs.drop_last();
        assert(channels_ok(t)) by {
            assert forall|i: int| 0 <= i < t.len() implies event_channel_ok(#[trigger] t[i]) by {
                assert(t[i] == evs[i]);
            }
        }
        lemma_pair_fold_channel(t);
        let st = pair_fold(pair_start(), t);
        let e = evs.last();
        assert(event_channel_ok(evs[evs.len() - 1]));
        let st2 = pair_step(st, e);
        match e {
            SmfEvent::NoteOn { tick, channel, pitch, vel } => {
                lemma_closed_by_channel(st.open[open_key(channel, pitch)], channel, pitch, tick);
                let v = st.views[channel as int];
                let added = closed_by(st.open[open_key(channel, pitch)], channel, pitch, tick);
                assert forall|c: int, j: int| 0 <= c < st2.views.len() && 0 <= j < st2.views[c].notes.len()
                    implies (#[trigger] st2.views[c].notes[j]).channel == c by {
                    if c == channel as int && j >= v.notes.len() {
                        assert(st2.views[c].notes[j] == added[j - v.notes.len()]);
                    }
                }
            },
            SmfEvent::NoteOff { tick, channel, pitch } => {},
            _ => {},
        }
    }
}

/// Each of the 16 channel views holds only notes of its own channel.
pub proof fn views_hold_own_channel(tracks: Seq<Seq<SmfEvent>>)
    requires
        channels_ok(all_events(tracks)),
    ensures
        track_views(tracks).len() == 16,
        views_own_channel(track_views(tracks)),
{
    let all = all_events(tracks);
    let sorted = sort_by_key(all, tick_key());
    lemma_sort_by_key(all, tick_key());
    assert(channels_ok(sorted)) by {
        assert forall|i: int| 0 <= i < sorted.len() implies event_channel_ok(#[trigger] sorted[i]) by {
            assert(sorted.to_multiset().count(sorted[i]) > 0) by {
                broadcast use vstd::seq_lib::group_seq_properties;
            }
            assert(all.to_multiset().count(sorted[i]) > 0);
            broadcast use vstd::seq_lib::group_seq_properties;
            let k = choose|k: int| 0 <= k < all.len() && all[k] == sorted[i];
            assert(event_channel_ok(all[k]));
        }
    }
    lemma_pair_fold_channel(sorted);
    let st = pair_fold(pair_start(), sorted);
    let tv = track_views(tracks);
    assert forall|c: int, j: int| 0 <= c < tv.len() && 0 <= j < tv[c].notes.len()
        implies (#[trigger] tv[c].notes[j]).channel == c by {
        let base = st.views[c].notes;
        lemma_flush_channel(st.open, c as u8, 256);
        if j >= base.len() {
            assert(tv[c].notes[j] == flush_notes(st.open, c as u8, 256)[j - base.len()]);
        }
    }
}

// ---------- one note per note-on ----------

/// Number of note-on events.
pub open spec fn note_ons(evs: Seq<SmfEvent>) -> int
    decreases evs.len(),
{
    if evs.len() == 0 {
        0
    } else {
        note_ons(evs.drop_last()) + if evs.last() is NoteOn { 1int } else { 0int }
    }
}

/// Number of notes in the first `n` views.
pub open spec fn notes_total(vs: Seq<ViewModel>, n: int) -> int
    decreases n,
{
    if n <= 0 {
        0
    } else {
        notes_total(vs, n - 1) + vs[n - 1].notes.len()
    }
}

/// Number of open note-ons under the first `n` keys.
pub open spec fn open_total(o: Seq<Seq<(u64, u8)>>, n: int) -> int
    decreases n,
{
    if n <= 0 {
        0
    } else {
        open_total(o, n - 1) + o[n - 1].len()
    }
}

proof fn lemma_note_ons_insert(s: Seq<SmfEvent>, e: SmfEvent)
    ensures
        note_ons(insert_by_key(s, e, tick_key())) == note_ons(s) + if e is NoteOn { 1int } else { 0int },
    decreases s.len(),
{
    if s.len() == 0 || (tick_key())(s.last()) <= (tick_key())(e) {
        assert(s.push(e).drop_last() =~= s);
    } else {
        let t = s.drop_last();
        lemma_note_ons_insert(t, e);
        let r = insert_by_key(t, e, tick_key()).push(s.last());
        assert(r.drop_last() =~= insert_by_key(t, e, tick_key()));
    }
}

proof fn lemma_note_ons_sort(s: Seq<SmfEvent>)
    ensures
        note_ons(sort_by_key(s, tick_key())) == note_ons(s),
    decreases s.len(),
{
    if s.len() > 0 {
        lemma_note_ons_sort(s.drop_last());
        lemma_note_ons_insert(sort_by_key(s.drop_last(), tick_key()), s.last());
    }
}

proof fn lemma_notes_total_update(vs: Seq<ViewModel>, c: int, v: ViewModel, n: int)
    requires
        0 <= c < vs.len(),
        0 <= n <= vs.len(),
    ensures
        notes_total(vs.update(c, v), n) == notes_total(vs, n) + if c < n { v.notes.len() - vs[c].notes.len() } else { 0int },
    decreases n,
{
    if n > 0 {
        lemma_notes_total_update(vs, c, v, n - 1);
    }
}

proof fn lemma_open_total_update(o: Seq<Seq<(u64, u8)>>, k: int, x: Seq<(u64, u8)>, n: int)
    requires
        0 <= k < o.len(),
        0 <= n <= o.len(),
    ensures
        open_total(o.update(k, x), n) == open_total(o, n) + if k < n { x.len() - o[k].len() } else { 0int },
    decreases n,
{
    if n > 0 {
        lemma_open_total_update(o, k, x, n - 1);
    }
}

/// A note-on whose open starts are all at or before it closes every one of them.
proof fn lemma_closed_by_all(stack: Seq<(u64, u8)>, ch: u8, pitch: u8, tick: u64)
    requires
        forall|j: int| 0 <= j < stack.len() ==> (#[trigger] stack[j]).0 <= tick,
    ensures
        closed_by(stack, ch, pitch, tick).len() == stack.len(),
    decreases stack.len(),
{
    if stack.len() > 0 {
        let t = stack.drop_last();
        assert forall|j: int| 0 <= j < t.len() implies (#[trigger] t[j]).0 <= tick by {
            assert(t[j] == stack[j]);
        }
        lemma_closed_by_all(t, ch, pitch, tick);
        assert(stack[stack.len() - 1].0 <= tick);
    }
}

/// Along events in tick order, every note-on is a note or an open entry: notes and open
/// entries together count the note-ons, and no open entry starts after the last event.
proof fn lemma_pair_fold_count(evs: Seq<SmfEvent>)
    requires
        channels_ok(evs),
        sorted_by_key(evs, tick_key()),
    ensures
        pair_fold(pair_start(), evs).views.len() == 16,
        pair_fold(pair_start(), evs).open.len() == 4096,
        notes_total(pair_fold(pair_start(), evs).views, 16) + open_total(pair_fold(pair_start(), evs).open, 4096)
            == note_ons(evs),
        evs.len() > 0 ==> forall|k: int, j: int| 0 <= k < 4096 && 0 <= j < pair_fold(pair_start(), evs).open[k].len()
            ==> (#[trigger] pair_fold(pair_start(), evs).open[k][j]).0 <= event_tick(evs.last()),
        evs.len() == 0 ==> forall|k: int| 0 <= k < 4096 ==> (#[trigger] pair_fold(pair_start(), evs).open[k]).len() == 0,
    decreases evs.len(),
{
    if evs.len() == 0 {
        let st = pair_start();
        assert(notes_total(st.views, 16) == 0) by {
            assert forall|n: int| 0 <= n <= 16 implies #[trigger] notes_total(st.views, n) == 0 by {
                lemma_notes_zero(st.views, n);
            }
        }
        assert(open_total(st.open, 4096) == 0) by {
            lemma_open_zero(st.open, 4096);
        }
    } else {
        let t = evs.drop_last();
        assert(channels_ok(t)) by {
            assert forall|i: int| 0 <= i < t.len() implies event_channel_ok(#[trigger] t[i]) by {
                assert(t[i] == evs[i]);
            }
        }
        assert(sorted_by_key(t, tick_key())) by {
            assert forall|i: int, j: int| 0 <= i <= j < t.len() implies (tick_key())(t[i]) <= (tick_key())(t[j]) by {
                assert(t[i] == evs[i] && t[j] == evs[j]);
            }
        }
        lemma_pair_fold_count(t);
        let st = pair_fold(pair_start(), t);
        let e = evs.last();
        assert(event_channel_ok(evs[evs.len() - 1]));
        let bound = event_tick(e);
        assert forall|k: int, j: int| 0 <= k < 4096 && 0 <= j < st.open[k].len() implies (#[trigger] st.open[k][j]).0 <= bound by {
            if t.len() > 0 {
                assert(t.last() == evs[evs.len() - 2]);
                assert((tick_key())(evs[evs.len() - 2]) <= (tick_key())(evs[evs.len() - 1]));
            }
        }
        assert(t.push(e) =~= evs);
        match e {
            SmfEvent::NoteOn { tick, channel, pitch, vel } => {
                let k = open_key(channel, pitch);
                let stack = st.open[k];
                assert forall|j: int| 0 <= j < stack.len() implies (#[trigger] stack[j]).0 <= tick by {
                    assert(st.open[k][j].0 <= bound);
                }
                lemma_closed_by_all(stack, channel, pitch, tick);
                let v = st.views[channel as int];
                let v2 = with_notes(v, v.notes + closed_by(stack, channel, pitch, tick));
                lemma_notes_total_update(st.views, channel as int, v2, 16);
                lemma_open_total_update(st.open, k, seq![(tick, vel)], 4096);
            },
            SmfEvent::NoteOff { tick, channel, pitch } => {
                let k = open_key(channel, pitch);
                if channel < 16 && st.open[k].len() > 0 {
                    let o = st.open[k].last();
                    assert(o.0 <= tick) by {
                        assert(st.open[k][st.open[k].len() - 1].0 <= bound);
                    }
                    let v = st.views[channel as int];
                    let v2 = with_notes(v, v.notes.push(closed_note(channel, pitch, o, tick)));
                    lemma_notes_total_update(st.views, channel as int, v2, 16);
                    lemma_open_total_update(st.open, k, st.open[k].drop_last(), 4096);
                    let st2 = pair_step(st, e);
                    assert forall|kk: int, j: int| 0 <= kk < 4096 && 0 <= j < st2.open[kk].len() implies (#[trigger] st2.open[kk][j]).0 <= bound by {
                        if kk == k {
                            assert(st2.open[kk][j] == st.open[k][j]);
                        }
                    }
                }
            },
            SmfEvent::Program { channel, program, .. } => {
                let v = st.views[channel as int];
                lemma_notes_total_update(st.views, channel as int, ViewModel { program: Some(program), ..v }, 16);
            },
            SmfEvent::Cc { channel, num, val, .. } => {
                let v = st.views[channel as int];
                let (m, l) = match v.bank {
                    Some(b) => b,
                    None => (0u8, 0u8),
                };
                let m2 = if num == 0 { val } else { m };
                let l2 = if num == 32 { val } else { l };
                lemma_notes_total_update(st.views, channel as int, ViewModel { bank: Some((m2, l2)), ..v }, 16);
            },
            _ => {},
        }
    }
}

proof fn lemma_notes_zero(vs: Seq<ViewModel>, n: int)
    requires
        0 <= n <= vs.len(),
        forall|i: int| 0 <= i < vs.len() ==> (#[trigger] vs[i]).notes.len() == 0,
    ensures
        notes_total(vs, n) == 0,
    decreases n,
{
    if n > 0 {
        lemma_notes_zero(vs, n - 1);
    }
}

proof fn lemma_open_zero(o: Seq<Seq<(u64, u8)>>, n: int)
    requires
        0 <= n <= o.len(),
        forall|k: int| 0 <= k < o.len() ==> (#[trigger] o[k]).len() == 0,
    ensures
        open_total(o, n) == 0,
    decreases n,
{
    if n > 0 {
        lemma_open_zero(o, n - 1);
    }
}

/// The unclosed notes of a channel count the open entries of its 256 keys.
proof fn lemma_flush_count(o: Seq<Seq<(u64, u8)>>, ch: u8, n: nat)
    requires
        ch < 16,
        n <= 256,
        o.len() == 4096,
    ensures
        flush_notes(o, ch, n).len() == open_total(o, ch * 256 + n) - open_total(o, ch * 256),
    decreases n,
{
    if n > 0 {
        lemma_flush_count(o, ch, (n - 1) as nat);
    }
}

/// The views built from a file hold exactly one note per note-on: a note-on is closed by
/// the next note-on or note-off of its channel and pitch, or given its placeholder length
/// at the end; note-offs without an open note add nothing.
pub proof fn one_note_per_note_on(tracks: Seq<Seq<SmfEvent>>)
    requires
        channels_ok(all_events(tracks)),
    ensures
        notes_total(track_views(tracks), 16) == note_ons(all_events(tracks)),
{
    let all = all_events(tracks);
    let sorted = sort_by_key(all, tick_key());
    lemma_sort_by_key(all, tick_key());
    lemma_note_ons_sort(all);
    assert(channels_ok(sorted)) by {
        assert forall|i: int| 0 <= i < sorted.len() implies event_channel_ok(#[trigger] sorted[i]) by {
            assert(sorted.to_multiset().count(sorted[i]) > 0) by {
                broadcast use vstd::seq_lib::group_seq_properties;
            }
            assert(all.to_multiset().count(sorted[i]) > 0);
            broadcast use vstd::seq_lib::group_seq_properties;
            let k = choose|k: int| 0 <= k < all.len() && all[k] == sorted[i];
            assert(event_channel_ok(all[k]));
        }
    }
    lemma_pair_fold_count(sorted);
    let st = pair_fold(pair_start(), sorted);
    let tv = track_views(tracks);
    assert forall|c: int| 0 <= c <= 16 implies #[trigger] notes_total(tv, c) == notes_total(st.views, c) + open_total(st.open, c * 256) by {
        lemma_views_count(st, tv, c);
    }
}

proof fn lemma_views_count(st: PairState, tv: Seq<ViewModel>, c: int)
    requires
        st.views.len() == 16,
        st.open.len() == 4096,
        tv.len() == 16,
        forall|ch: int| 0 <= ch < 16 ==> (#[trigger] tv[ch]).notes == st.views[ch].notes + flush_notes(st.open, ch as u8, 256),
        0 <= c <= 16,
    ensures
        notes_total(tv, c) == notes_total(st.views, c) + open_total(st.open, c * 256),
    decreases c,
{
    if c > 0 {
        lemma_views_count(st, tv, c - 1);
        lemma_flush_count(st.open, (c - 1) as u8, 256);
        assert(tv[c - 1].notes.len() == st.views[c - 1].notes.len() + flush_notes(st.open, (c - 1) as u8, 256).len());
        assert((c - 1) * 256 + 256 == c * 256);
    }
}


/// Bank select on a channel: controller 0 sets the MSB and controller 32 the LSB of the
/// channel's bank (from 0/0 when none is recorded yet), and the bank is recorded once either
/// is nonzero; other controllers leave it as it was.
pub proof fn bank_select_sets_bank(evs: Seq<SmfEvent>, tick: u64, c: u8, num: u8, val: u8)
    requires
        c < 16,
        channels_ok(evs),
    ensures
        ({
            let before = pair_fold(pair_start(), evs).views[c as int].bank;
            let (m, l) = match before {
                Some(b) => b,
                None => (0u8, 0u8),
            };
            let after = pair_fold(pair_start(), evs.push(SmfEvent::Cc { tick, channel: c, num, val })).views[c as int].bank;
            &&& num == 32 && (m != 0 || val != 0) ==> after == Some((m, val))
            &&& num == 0 && (val != 0 || l != 0) ==> after == Some((val, l))
            &&& num != 0 && num != 32 ==> after == before
        }),
{
    lemma_pair_fold_channel(evs);
    let e = SmfEvent::Cc { tick, channel: c, num, val };
    assert(evs.push(e).drop_last() =~= evs);
}

} // verus!

