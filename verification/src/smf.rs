//! Standard MIDI File (SMF) parser.
//!
//! - `MThd` header: format, track count, division (PPQN only; SMPTE is rejected)
//! - `MTrk` chunks: variable-length delta times, running status
//! - Meta events: tempo (51), time signature (58), end of track (2F); SysEx (F0/F7) kept with
//!   their bytes
//! The parser is tolerant: it reads every `MTrk` that follows the header, and a chunk whose
//! declared length runs past the end of the data is read up to the end.

pub mod views;

pub use views::{build_track_views, event_list_for_channel, EventKind, EventRow, SmfNote, SmfTrackView};



use vstd::prelude::*;

verus! {

/// One decoded event at its absolute tick. A SysEx event keeps the message as the file
/// holds it: its status byte (F0, or F7 for a continuation or escape) and then its body.
#[derive(Debug, Clone, PartialEq, Eq)]
pub enum SmfEvent {
    NoteOn { tick: u64, channel: u8, pitch: u8, vel: u8 },
    NoteOff { tick: u64, channel: u8, pitch: u8 },
    Tempo { tick: u64, us_per_qn: u32 },
    TimeSig { tick: u64, num: u8, denom: u8 },
    Cc { tick: u64, channel: u8, num: u8, val: u8 },
    Program { tick: u64, channel: u8, program: u8 },
    SysEx { tick: u64, bytes: Vec<u8> },
}

/// An event as a value (the bytes of a SysEx event as a sequence).
pub enum EventModel {
    NoteOn { tick: u64, channel: u8, pitch: u8, vel: u8 },
    NoteOff { tick: u64, channel: u8, pitch: u8 },
    Tempo { tick: u64, us_per_qn: u32 },
    TimeSig { tick: u64, num: u8, denom: u8 },
    Cc { tick: u64, channel: u8, num: u8, val: u8 },
    Program { tick: u64, channel: u8, program: u8 },
    SysEx { tick: u64, bytes: Seq<u8> },
}

impl View for SmfEvent {
    type V = EventModel;

    open spec fn view(&self) -> EventModel {
        match self {
            SmfEvent::NoteOn { tick, channel, pitch, vel } => EventModel::NoteOn { tick: *tick, channel: *channel, pitch: *pitch, vel: *vel },
            SmfEvent::NoteOff { tick, channel, pitch } => EventModel::NoteOff { tick: *tick, channel: *channel, pitch: *pitch },
            SmfEvent::Tempo { tick, us_per_qn } => EventModel::Tempo { tick: *tick, us_per_qn: *us_per_qn },
            SmfEvent::TimeSig { tick, num, denom } => EventModel::TimeSig { tick: *tick, num: *num, denom: *denom },
            SmfEvent::Cc { tick, channel, num, val } => EventModel::Cc { tick: *tick, channel: *channel, num: *num, val: *val },
            SmfEvent::Program { tick, channel, program } => EventModel::Program { tick: *tick, channel: *channel, program: *program },
            SmfEvent::SysEx { tick, bytes } => EventModel::SysEx { tick: *tick, bytes: bytes@ },
        }
    }
}

/// The events of a sequence as values.
pub open spec fn events_view(s: Seq<SmfEvent>) -> Seq<EventModel> {
    s.map_values(|e: SmfEvent| e@)
}

/// An optional event as a value.
pub open spec fn opt_view(e: Option<SmfEvent>) -> Option<EventModel> {
    match e {
        Some(x) => Some(x@),
        None => None,
    }
}

/// The tick of an event value.
pub open spec fn model_tick(e: EventModel) -> u64 {
    match e {
        EventModel::NoteOn { tick, .. } => tick,
        EventModel::NoteOff { tick, .. } => tick,
        EventModel::Tempo { tick, .. } => tick,
        EventModel::TimeSig { tick, .. } => tick,
        EventModel::Cc { tick, .. } => tick,
        EventModel::Program { tick, .. } => tick,
        EventModel::SysEx { tick, .. } => tick,
    }
}

#[derive(Debug, Clone, Copy, PartialEq, Eq, Structural)]
pub enum SmfError {
    NotSmf,
    /// not enough bytes
    Truncated,
    /// SMPTE time-code division (not supported)
    UnsupportedDivision,
    /// corrupt variable-length quantity
    BadVlq,
    /// track data exhausted
    EndOfData,
}

impl SmfError {
    /// The variant's name (what the error prints as).
    pub fn name(&self) -> (r: &'static str)
        ensures
            r@ == smf_error_name(*self),
    {
        match self {
            SmfError::NotSmf => "NotSmf",
            SmfError::Truncated => "Truncated",
            SmfError::UnsupportedDivision => "UnsupportedDivision",
            SmfError::BadVlq => "BadVlq",
            SmfError::EndOfData => "EndOfData",
        }
    }
}

pub open spec fn smf_error_name(e: SmfError) -> Seq<char> {
    match e {
        SmfError::NotSmf => "NotSmf"@,
        SmfError::Truncated => "Truncated"@,
        SmfError::UnsupportedDivision => "UnsupportedDivision"@,
        SmfError::BadVlq => "BadVlq"@,
        SmfError::EndOfData => "EndOfData"@,
    }
}

/// The events of one track in file order.
#[derive(Debug, Clone)]
pub struct TrackEvents {
    pub events: Vec<SmfEvent>,
}

impl Default for TrackEvents {
    fn default() -> (r: Self)
        ensures
            r.events@ == Seq::<SmfEvent>::empty(),
    {
        TrackEvents { events: Vec::new() }
    }
}

/// A parsed file: format, declared track count, ticks per quarter note, tracks, meta counts.
#[derive(Debug, Clone)]
pub struct Smf {
    pub format: u16,
    pub ntracks: u16,
    pub ppq: u32,
    pub tracks: Vec<TrackEvents>,
    pub meta_tempo_count: usize,
    pub meta_timesig_count: usize,
}

// ---------- byte-level grammar ----------

/// The byte at `pos` and the position after it.
pub open spec fn byte_at(d: Seq<u8>, pos: int) -> Result<(u8, int), SmfError> {
    if 0 <= pos < d.len() {
        Ok((d[pos], pos + 1))
    } else {
        Err(SmfError::Truncated)
    }
}

/// Big-endian 16-bit value at `pos`.
pub open spec fn be_u16_at(d: Seq<u8>, pos: int) -> Result<(u16, int), SmfError> {
    if 0 <= pos && pos + 2 <= d.len() {
        Ok(((d[pos] * 256 + d[pos + 1]) as u16, pos + 2))
    } else {
        Err(SmfError::Truncated)
    }
}

/// Big-endian 32-bit value at `pos`.
pub open spec fn be_u32_at(d: Seq<u8>, pos: int) -> Result<(u32, int), SmfError> {
    if 0 <= pos && pos + 4 <= d.len() {
        Ok((
            (d[pos] * 16777216 + d[pos + 1] * 65536 + d[pos + 2] * 256 + d[pos + 3]) as u32,
            pos + 4,
        ))
    } else {
        Err(SmfError::Truncated)
    }
}

/// Variable-length quantity: 7 bits per byte, high bit set on every byte but the last.
/// Continuing after `cnt` bytes with accumulated value `acc`. Running out of bytes is
/// `EndOfData`; a fifth byte is `BadVlq`.
pub open spec fn vlq_from(d: Seq<u8>, pos: int, acc: nat, cnt: nat) -> Result<(nat, int), SmfError>
    decreases 5 - cnt,
{
    if cnt >= 5 {
        Err(SmfError::BadVlq)
    } else if !(0 <= pos < d.len()) {
        Err(SmfError::EndOfData)
    } else {
        let b = d[pos];
        let acc2 = acc * 128 + (b % 128) as nat;
        if cnt + 1 > 4 {
            Err(SmfError::BadVlq)
        } else if b < 128 {
            Ok((acc2, pos + 1))
        } else {
            vlq_from(d, pos + 1, acc2, cnt + 1)
        }
    }
}

pub open spec fn vlq_at(d: Seq<u8>, pos: int) -> Result<(nat, int), SmfError> {
    vlq_from(d, pos, 0, 0)
}

/// `n` bytes at `pos`.
pub open spec fn take_at(d: Seq<u8>, pos: int, n: nat) -> Result<(Seq<u8>, int), SmfError> {
    if 0 <= pos && pos + n <= d.len() {
        Ok((d.subrange(pos, pos + n), pos + n))
    } else {
        Err(SmfError::Truncated)
    }
}

/// A SysEx body: VLQ length then that many bytes; the body and the position after it.
pub open spec fn sysex_at(d: Seq<u8>, pos: int) -> Result<(Seq<u8>, int), SmfError> {
    match vlq_at(d, pos) {
        Ok((n, p)) => take_at(d, p, n),
        Err(e) => Err(e),
    }
}

pub open spec fn is_channel_status(st: u8) -> bool {
    0x80 <= st <= 0xEF
}

/// The rest of a channel message with status `st` whose first data byte `d0` has been read
/// (`pos` is after `d0`): the event it records, if any, and the position after the message.
/// Note-on with velocity 0 is a note-off. Aftertouch, pitch bend and channel pressure record
/// nothing; under running status channel pressure consumes one more byte.
pub open spec fn channel_message(d: Seq<u8>, st: u8, d0: u8, pos: int, tick: u64, running: bool)
    -> Result<(Option<EventModel>, int), SmfError>
{
    let ch = st & 0x0F;
    if 0x80 <= st <= 0x8F {
        match byte_at(d, pos) {
            Ok((_, p)) => Ok((Some(EventModel::NoteOff { tick, channel: ch, pitch: d0 }), p)),
            Err(e) => Err(e),
        }
    } else if 0x90 <= st <= 0x9F {
        match byte_at(d, pos) {
            Ok((vel, p)) => if vel == 0 {
                Ok((Some(EventModel::NoteOff { tick, channel: ch, pitch: d0 }), p))
            } else {
                Ok((Some(EventModel::NoteOn { tick, channel: ch, pitch: d0, vel }), p))
            },
            Err(e) => Err(e),
        }
    } else if 0xB0 <= st <= 0xBF {
        match byte_at(d, pos) {
            Ok((val, p)) => Ok((Some(EventModel::Cc { tick, channel: ch, num: d0, val }), p)),
            Err(e) => Err(e),
        }
    } else if 0xC0 <= st <= 0xCF {
        Ok((Some(EventModel::Program { tick, channel: ch, program: d0 }), pos))
    } else if 0xD0 <= st <= 0xDF && !running {
        Ok((None, pos))
    } else {
        // A0..AF, D0..DF under running status, E0..EF: one more byte, nothing recorded
        match byte_at(d, pos) {
            Ok((_, p)) => Ok((None, p)),
            Err(e) => Err(e),
        }
    }
}

/// Parser state inside one track chunk.
pub struct TrackState {
    pub pos: int,
    pub tick: int,
    pub running: Option<u8>,
    pub events: Seq<EventModel>,
    pub tempo: int,
    pub ts: int,
}

pub enum TrackStep {
    /// one event read, continue
    Next(TrackState),
    /// end of the track (data exhausted or end-of-track meta event)
    Done(TrackState),
    /// parse error
    Failed(SmfError),
    /// input on which the parser panics (arithmetic overflow, or running status after a
    /// non-channel status byte)
    Panicked,
}

/// Appends an optional event.
pub open spec fn push_opt(evs: Seq<EventModel>, e: Option<EventModel>) -> Seq<EventModel> {
    match e {
        Some(ev) => evs.push(ev),
        None => evs,
    }
}

/// A meta event `FF type len data` after the `FF` byte at `s.pos`.
pub open spec fn meta_step(d: Seq<u8>, s: TrackState, tick: u64) -> TrackStep {
    match byte_at(d, s.pos) {
        Err(e) => TrackStep::Failed(e),
        Ok((mtype, p1)) => match vlq_at(d, p1) {
            Err(e) => TrackStep::Failed(e),
            Ok((mlen, p2)) => match take_at(d, p2, mlen) {
                Err(e) => TrackStep::Failed(e),
                Ok((mbuf, p3)) => {
                    let s3 = TrackState { pos: p3, ..s };
                    if mtype == 0x2F {
                        TrackStep::Done(s3)
                    } else if mtype == 0x51 && mbuf.len() >= 3 {
                        if s.tempo + 1 > usize::MAX {
                            TrackStep::Panicked
                        } else {
                            let us = (mbuf[0] * 65536 + mbuf[1] * 256 + mbuf[2]) as u32;
                            TrackStep::Next(TrackState {
                                events: s.events.push(EventModel::Tempo { tick, us_per_qn: us }),
                                tempo: s.tempo + 1,
                                ..s3
                            })
                        }
                    } else if mtype == 0x58 && mbuf.len() >= 2 {
                        if mbuf[1] >= 8 || s.ts + 1 > usize::MAX {
                            TrackStep::Panicked
                        } else {
                            TrackStep::Next(TrackState {
                                events: s.events.push(
                                    EventModel::TimeSig { tick, num: mbuf[0], denom: (1u8 << mbuf[1]) },
                                ),
                                ts: s.ts + 1,
                                ..s3
                            })
                        }
                    } else {
                        TrackStep::Next(s3)
                    }
                },
            },
        },
    }
}

/// One event whose first byte is at `s.pos` (`s.pos < d.len()`), at tick `s.tick`.
pub open spec fn event_step(d: Seq<u8>, s: TrackState) -> TrackStep {
    let tick = s.tick as u64;
    let p1 = s.pos;
    let first = d[p1];
    if first < 0x80 {
        match s.running {
            None => TrackStep::Failed(SmfError::NotSmf),
            Some(st) => if !is_channel_status(st) {
                TrackStep::Panicked
            } else {
                match channel_message(d, st, first, p1 + 1, tick, true) {
                    Err(e) => TrackStep::Failed(e),
                    Ok((ev, p)) => TrackStep::Next(TrackState { pos: p, events: push_opt(s.events, ev), ..s }),
                }
            },
        }
    } else {
        let st = first;
        let p2 = p1 + 1;
        if is_channel_status(st) {
            match byte_at(d, p2) {
                Err(e) => TrackStep::Failed(e),
                Ok((d0, p3)) => match channel_message(d, st, d0, p3, tick, false) {
                    Err(e) => TrackStep::Failed(e),
                    Ok((ev, p)) => TrackStep::Next(TrackState {
                        pos: p,
                        running: Some(st),
                        events: push_opt(s.events, ev),
                        ..s
                    }),
                },
            }
        } else if st == 0xF0 || st == 0xF7 {
            match sysex_at(d, p2) {
                Err(e) => TrackStep::Failed(e),
                Ok((body, p)) => TrackStep::Next(TrackState {
                    pos: p,
                    running: None,
                    events: s.events.push(EventModel::SysEx { tick, bytes: seq![st] + body }),
                    ..s
                }),
            }
        } else if 0xF1 <= st <= 0xF6 {
            match sysex_at(d, p2) {
                Err(e) => TrackStep::Failed(e),
                Ok((_, p)) => TrackStep::Next(TrackState { pos: p, running: None, ..s }),
            }
        } else if st == 0xFF {
            meta_step(d, TrackState { pos: p2, ..s }, tick)
        } else {
            TrackStep::Next(TrackState { pos: p2, running: Some(st), ..s })
        }
    }
}

/// One step of the track loop from state `s`: delta time, then one event.
pub open spec fn track_step(d: Seq<u8>, s: TrackState) -> TrackStep {
    match vlq_at(d, s.pos) {
        Err(SmfError::EndOfData) => TrackStep::Done(s),
        Err(e) => TrackStep::Failed(e),
        Ok((dt, p1)) => {
            let t = s.tick + dt;
            if t > u64::MAX {
                TrackStep::Panicked
            } else if p1 >= d.len() {
                TrackStep::Done(TrackState { pos: p1, tick: t, ..s })
            } else {
                event_step(d, TrackState { pos: p1, tick: t, ..s })
            }
        },
    }
}

pub enum TrackEnd {
    Done,
    Failed(SmfError),
    Panicked,
}

/// The track loop run to its end from state `s`: how it ends and the state at the end.
#[verifier::opaque]
pub open spec fn track_run(d: Seq<u8>, s: TrackState) -> (TrackEnd, TrackState)
    decreases d.len() - s.pos,
{
    match track_step(d, s) {
        TrackStep::Next(n) => if s.pos < n.pos <= d.len() {
            track_run(d, n)
        } else {
            (TrackEnd::Failed(SmfError::NotSmf), n)
        },
        TrackStep::Done(n) => (TrackEnd::Done, n),
        TrackStep::Failed(e) => (TrackEnd::Failed(e), s),
        TrackStep::Panicked => (TrackEnd::Panicked, s),
    }
}

/// The initial state of a chunk: position 0, tick 0, no running status.
pub open spec fn track_start(events: Seq<EventModel>, tempo: int, ts: int) -> TrackState {
    TrackState { pos: 0, tick: 0, running: None, events, tempo, ts }
}

// ---------- byte cursor ----------

struct Cursor<'a> {
    data: &'a [u8],
    pos: usize,
}

impl<'a> Cursor<'a> {
    fn new(data: &'a [u8]) -> (r: Self)
        ensures
            r.data@ == data@,
            r.pos == 0,
    {
        Cursor { data, pos: 0 }
    }

    fn byte(&mut self) -> (r: Result<u8, SmfError>)
        ensures
            final(self).data@ == old(self).data@,
            match byte_at(old(self).data@, old(self).pos as int) {
                Ok((b, p)) => r == Ok::<u8, SmfError>(b) && final(self).pos == p,
                Err(e) => r == Err::<u8, SmfError>(e) && final(self).pos == old(self).pos,
            },
    {
        if self.pos < self.data.len() {
            let b = self.data[self.pos];
            self.pos = self.pos + 1;
            Ok(b)
        } else {
            Err(SmfError::Truncated)
        }
    }

    fn peek(&self) -> (r: Result<u8, SmfError>)
        ensures
            self.pos < self.data@.len() ==> r == Ok::<u8, SmfError>(self.data@[self.pos as int]),
            self.pos >= self.data@.len() ==> r == Err::<u8, SmfError>(SmfError::EndOfData),
    {
        if self.pos < self.data.len() {
            Ok(self.data[self.pos])
        } else {
            Err(SmfError::EndOfData)
        }
    }

    fn be_u16(&mut self) -> (r: Result<u16, SmfError>)
        ensures
            final(self).data@ == old(self).data@,
            match be_u16_at(old(self).data@, old(self).pos as int) {
                Ok((v, p)) => r == Ok::<u16, SmfError>(v) && final(self).pos == p,
                Err(e) => r == Err::<u16, SmfError>(e),
            },
    {
        let h = self.byte()? as u16;
        let l = self.byte()? as u16;
        assert((h << 8) | l == h * 256 + l) by (bit_vector)
            requires h < 256, l < 256;
        Ok((h << 8) | l)
    }

    fn be_u32(&mut self) -> (r: Result<u32, SmfError>)
        ensures
            final(self).data@ == old(self).data@,
            match be_u32_at(old(self).data@, old(self).pos as int) {
                Ok((v, p)) => r == Ok::<u32, SmfError>(v) && final(self).pos == p,
                Err(e) => r == Err::<u32, SmfError>(e),
            },
    {
        let a = self.byte()? as u32;
        let b = self.byte()? as u32;
        let c = self.byte()? as u32;
        let d = self.byte()? as u32;
        assert((a << 24) | (b << 16) | (c << 8) | d == a * 16777216 + b * 65536 + c * 256 + d) by (bit_vector)
            requires a < 256, b < 256, c < 256, d < 256;
        Ok((a << 24) | (b << 16) | (c << 8) | d)
    }

    /// Variable-length quantity (7-bit groups, high bit = more follow).
    fn vlq(&mut self) -> (r: Result<u64, SmfError>)
        ensures
            final(self).data@ == old(self).data@,
            match vlq_at(old(self).data@, old(self).pos as int) {
                Ok((v, p)) => (r matches Ok(x) && x as nat == v) && final(self).pos == p,
                Err(e) => r == Err::<u64, SmfError>(e),
            },
    {
        let ghost d = self.data@;
        let ghost p0 = self.pos as int;
        let mut value: u64 = 0;
        let mut cnt: u32 = 0;
        loop
            invariant
                self.data@ == d,
                d == old(self).data@,
                p0 == old(self).pos as int,
                cnt <= 4,
                value < 268435456,
                cnt <= 3 ==> value < 2097152,
                cnt <= 2 ==> value < 16384,
                cnt <= 1 ==> value < 128,
                cnt == 0 ==> value == 0,
                vlq_from(d, self.pos as int, value as nat, cnt as nat) == vlq_at(d, p0),
            decreases 5 - cnt,
        {
            let ghost pos = self.pos as int;
            let b = match self.byte() {
                Ok(b) => b,
                Err(_) => {
                    return Err(SmfError::EndOfData);
                },
            };
            assert((value << 7) | ((b & 0x7f) as u64) == value * 128 + (b % 128) as u64) by (bit_vector)
                requires value < 268435456;
            assert(b & 0x80 == 0 <==> b < 128) by (bit_vector);
            value = (value << 7) | (b & 0x7f) as u64;
            cnt = cnt + 1;
            if cnt > 4 {
                return Err(SmfError::BadVlq);
            }
            if b & 0x80 == 0 {
                return Ok(value);
            }
        }
    }

    fn take(&mut self, n: usize) -> (r: Result<&'a [u8], SmfError>)
        ensures
            final(self).data@ == old(self).data@,
            match take_at(old(self).data@, old(self).pos as int, n as nat) {
                Ok((s, p)) => (r matches Ok(x) && x@ == s) && final(self).pos == p,
                Err(e) => r == Err::<&'a [u8], SmfError>(e),
            },
    {
        if self.pos > self.data.len() || n > self.data.len() - self.pos {
            return Err(SmfError::Truncated);
        }
        let s = &self.data[self.pos..self.pos + n];
        self.pos = self.pos + n;
        Ok(s)
    }

    /// Reads a SysEx body (VLQ length + that many bytes).
    fn sysex_body(&mut self) -> (r: Result<&'a [u8], SmfError>)
        ensures
            final(self).data@ == old(self).data@,
            match sysex_at(old(self).data@, old(self).pos as int) {
                Ok((b, p)) => (r matches Ok(x) && x@ == b) && final(self).pos == p,
                Err(e) => r == Err::<&'a [u8], SmfError>(e),
            },
    {
        let len = self.vlq()?;
        proof { lemma_vlq_bound(self.data@, old(self).pos as int); }
        self.take(len as usize)
    }
}

proof fn lemma_vlq_from_bound(d: Seq<u8>, pos: int, acc: nat, cnt: nat)
    requires
        cnt <= 4,
        cnt <= 3 ==> acc < 2097152,
        cnt <= 2 ==> acc < 16384,
        cnt <= 1 ==> acc < 128,
        cnt == 0 ==> acc == 0,
        acc < 268435456,
    ensures
        vlq_from(d, pos, acc, cnt) matches Ok((v, p)) ==> v < 268435456 && pos < p <= d.len(),
    decreases 5 - cnt,
{
    if cnt < 5 && 0 <= pos < d.len() {
        let b = d[pos];
        let acc2 = acc * 128 + (b % 128) as nat;
        if cnt + 1 <= 4 {
            assert(acc2 < 128 * acc + 128);
            if b >= 128 {
                lemma_vlq_from_bound(d, pos + 1, acc2, cnt + 1);
            }
        }
    }
}

/// A decoded VLQ is below 2^28 and consumes at least one byte.
proof fn lemma_vlq_bound(d: Seq<u8>, pos: int)
    ensures
        vlq_at(d, pos) matches Ok((v, p)) ==> v < 268435456 && pos < p <= d.len(),
{
    lemma_vlq_from_bound(d, pos, 0, 0);
}

/// Reads the rest of a channel message (see `channel_message`).
fn channel_message_exec(p: &mut Cursor, st: u8, d0: u8, tick: u64, running: bool) -> (r: Result<Option<SmfEvent>, SmfError>)
    requires
        is_channel_status(st),
    ensures
        final(p).data@ == old(p).data@,
        match channel_message(old(p).data@, st, d0, old(p).pos as int, tick, running) {
            Ok((ev, q)) => (r matches Ok(x) && opt_view(x) == ev) && final(p).pos == q,
            Err(e) => r == Err::<Option<SmfEvent>, SmfError>(e),
        },
{
    let ch = st & 0x0f;
    if st >= 0x80 && st <= 0x8f {
        let _vel = p.byte()?;
        Ok(Some(SmfEvent::NoteOff { tick, channel: ch, pitch: d0 }))
    } else if st >= 0x90 && st <= 0x9f {
        let vel = p.byte()?;
        if vel == 0 {
            Ok(Some(SmfEvent::NoteOff { tick, channel: ch, pitch: d0 }))
        } else {
            Ok(Some(SmfEvent::NoteOn { tick, channel: ch, pitch: d0, vel }))
        }
    } else if st >= 0xb0 && st <= 0xbf {
        let val = p.byte()?;
        Ok(Some(SmfEvent::Cc { tick, channel: ch, num: d0, val }))
    } else if st >= 0xc0 && st <= 0xcf {
        Ok(Some(SmfEvent::Program { tick, channel: ch, program: d0 }))
    } else if st >= 0xd0 && st <= 0xdf && !running {
        Ok(None)
    } else {
        let _ = p.byte()?;
        Ok(None)
    }
}

/// The exec parser state seen as a `TrackState`.
pub open spec fn exec_state(pos: usize, tick: u64, running: Option<u8>, events: Seq<EventModel>, tempo: usize, ts: usize) -> TrackState {
    TrackState { pos: pos as int, tick: tick as int, running, events, tempo: tempo as int, ts: ts as int }
}

proof fn lemma_sysex_bound(d: Seq<u8>, pos: int)
    ensures
        sysex_at(d, pos) matches Ok((_, q)) ==> pos < q <= d.len(),
{
    lemma_vlq_bound(d, pos);
}

proof fn lemma_channel_message_bound(d: Seq<u8>, st: u8, d0: u8, pos: int, tick: u64, running: bool)
    requires
        0 <= pos <= d.len(),
    ensures
        channel_message(d, st, d0, pos, tick, running) matches Ok((_, q)) ==> pos <= q <= d.len(),
{
}

/// Appends an event to a track.
fn push_event(te: &mut TrackEvents, e: SmfEvent)
    ensures
        final(te).events@ == old(te).events@.push(e),
        events_view(final(te).events@) == events_view(old(te).events@).push(e@),
{
    te.events.push(e);
    assert(events_view(te.events@) =~= events_view(old(te).events@).push(e@));
}

/// The status byte followed by a SysEx body.
fn sysex_bytes(st: u8, body: &[u8]) -> (r: Vec<u8>)
    ensures
        r@ == seq![st] + body@,
{
    let mut r: Vec<u8> = Vec::new();
    r.push(st);
    let mut i: usize = 0;
    while i < body.len()
        invariant
            0 <= i <= body@.len(),
            r@ == seq![st] + body@.take(i as int),
        decreases body@.len() - i,
    {
        r.push(body[i]);
        i = i + 1;
        assert(r@ =~= seq![st] + body@.take(i as int));
    }
    assert(body@.take(body@.len() as int) =~= body@);
    r
}

/// Reads one event whose first byte is at the cursor (see `event_step`): true to go on,
/// false at the end-of-track meta event.
fn read_event(
    p: &mut Cursor,
    tick: u64,
    running_status: &mut Option<u8>,
    te: &mut TrackEvents,
    tempo_count: &mut usize,
    ts_count: &mut usize,
) -> (r: Result<bool, SmfError>)
    requires
        old(p).pos < old(p).data@.len(),
        !(event_step(
            old(p).data@,
            exec_state(old(p).pos, tick, *old(running_status), events_view(old(te).events@), *old(tempo_count), *old(ts_count)),
        ) is Panicked),
    ensures
        final(p).data@ == old(p).data@,
        ({
            let st = event_step(
                old(p).data@,
                exec_state(old(p).pos, tick, *old(running_status), events_view(old(te).events@), *old(tempo_count), *old(ts_count)),
            );
            let now = exec_state(final(p).pos, tick, *final(running_status), events_view(final(te).events@), *final(tempo_count), *final(ts_count));
            &&& st matches TrackStep::Next(n) ==> r == Ok::<bool, SmfError>(true) && now == n
                && old(p).pos < n.pos <= old(p).data@.len()
            &&& st matches TrackStep::Done(n) ==> r == Ok::<bool, SmfError>(false) && now == n
            &&& st matches TrackStep::Failed(e) ==> r == Err::<bool, SmfError>(e)
                && final(te).events@ == old(te).events@
                && *final(tempo_count) == *old(tempo_count)
                && *final(ts_count) == *old(ts_count)
        }),
{
    let ghost d = p.data@;
    let ghost p1 = p.pos as int;
    let first = p.data[p.pos];
    if first < 0x80 {
        // running status: the previous status byte is reused; `first` is its first data byte
        let st = match *running_status {
            Some(s) => s,
            None => {
                return Err(SmfError::NotSmf);
            },
        };
        let d0 = p.byte()?;
        assert(is_channel_status(st));
        proof { lemma_channel_message_bound(d, st, d0, p1 + 1, tick, true); }
        let ev = channel_message_exec(p, st, d0, tick, true)?;
        match ev {
            Some(e) => push_event(te, e),
            None => {},
        }
        return Ok(true);
    }
    let st = p.byte()?;
    if st >= 0x80 && st <= 0xef {
        *running_status = Some(st);
        let d0 = p.byte()?;
        proof { lemma_channel_message_bound(d, st, d0, p1 + 2, tick, false); }
        let ev = channel_message_exec(p, st, d0, tick, false)?;
        match ev {
            Some(e) => push_event(te, e),
            None => {},
        }
        Ok(true)
    } else if st == 0xf0 || st == 0xf7 {
        // SysEx: kept with its status byte; it ends running status
        proof { lemma_sysex_bound(d, p1 + 1); }
        let body = p.sysex_body()?;
        let bytes = sysex_bytes(st, body);
        push_event(te, SmfEvent::SysEx { tick, bytes });
        *running_status = None;
        Ok(true)
    } else if st >= 0xf1 && st <= 0xf6 {
        // system common byte: its body is skipped; it ends running status
        proof { lemma_sysex_bound(d, p1 + 1); }
        let _ = p.sysex_body()?;
        *running_status = None;
        Ok(true)
    } else if st == 0xff {
        // meta event: running status stays as it was
        let mtype = p.byte()?;
        proof { lemma_vlq_bound(d, p.pos as int); }
        let mlen = p.vlq()?;
        let mbuf = p.take(mlen as usize)?;
        if mtype == 0x2f {
            return Ok(false);
        } else if mtype == 0x51 {
            if mbuf.len() >= 3 {
                let m0 = mbuf[0] as u32;
                let m1 = mbuf[1] as u32;
                let m2 = mbuf[2] as u32;
                assert((m0 << 16) | (m1 << 8) | m2 == m0 * 65536 + m1 * 256 + m2) by (bit_vector)
                    requires m0 < 256, m1 < 256, m2 < 256;
                let us = (m0 << 16) | (m1 << 8) | m2;
                push_event(te, SmfEvent::Tempo { tick, us_per_qn: us });
                *tempo_count = *tempo_count + 1;
            }
        } else if mtype == 0x58 {
            if mbuf.len() >= 2 {
                let k = mbuf[1];
                push_event(te, SmfEvent::TimeSig { tick, num: mbuf[0], denom: 1u8 << k });
                *ts_count = *ts_count + 1;
            }
        }
        Ok(true)
    } else {
        // undefined status byte: nothing recorded, it becomes the running status
        *running_status = Some(st);
        Ok(true)
    }
}

/// Whether the event at the cursor is one the parser cannot go through (see `event_step`):
/// running status after a status that is no channel status, a time signature whose
/// denominator power is 8 or more, or a meta counter at its limit.
fn event_panics(p: &Cursor, running_status: Option<u8>, tick: u64, events: Ghost<Seq<EventModel>>, tempo_count: usize, ts_count: usize) -> (r: bool)
    requires
        p.pos < p.data@.len(),
    ensures
        r == (event_step(p.data@, exec_state(p.pos, tick, running_status, events@, tempo_count, ts_count)) is Panicked),
{
    let first = p.data[p.pos];
    if first < 0x80 {
        match running_status {
            Some(st) => !(st >= 0x80 && st <= 0xef),
            None => false,
        }
    } else if first == 0xff {
        let mut q = Cursor { data: p.data, pos: p.pos + 1 };
        let mtype = match q.byte() {
            Ok(b) => b,
            Err(_) => return false,
        };
        proof { lemma_vlq_bound(q.data@, q.pos as int); }
        let mlen = match q.vlq() {
            Ok(v) => v,
            Err(_) => return false,
        };
        let mbuf = match q.take(mlen as usize) {
            Ok(b) => b,
            Err(_) => return false,
        };
        if mtype == 0x2f {
            false
        } else if mtype == 0x51 && mbuf.len() >= 3 {
            tempo_count == usize::MAX
        } else if mtype == 0x58 && mbuf.len() >= 2 {
            mbuf[1] >= 8 || ts_count == usize::MAX
        } else {
            false
        }
    } else {
        false
    }
}

/// Parses one MTrk chunk body (without its header) into `te.events` (absolute ticks),
/// counting tempo and time-signature meta events. `Ok(false)`: the chunk holds an event
/// the parser cannot go through (see `TrackStep::Panicked`).
fn parse_track_chunk(
    chunk: &[u8],
    ppq: u32,
    te: &mut TrackEvents,
    tempo_count: &mut usize,
    ts_count: &mut usize,
) -> (r: Result<bool, SmfError>)
    ensures
        ({
            let run = track_run(chunk@, track_start(events_view(old(te).events@), *old(tempo_count) as int, *old(ts_count) as int));
            &&& run.0 is Done ==> r == Ok::<bool, SmfError>(true)
            &&& run.0 is Panicked ==> r == Ok::<bool, SmfError>(false)
            &&& run.0 matches TrackEnd::Failed(e) ==> r == Err::<bool, SmfError>(e)
            &&& !(run.0 is Panicked) ==> {
                &&& events_view(final(te).events@) == run.1.events
                &&& *final(tempo_count) as int == run.1.tempo
                &&& *final(ts_count) as int == run.1.ts
            }
        }),
{
    reveal(track_run);
    let ghost d = chunk@;
    let ghost init = track_start(events_view(old(te).events@), *old(tempo_count) as int, *old(ts_count) as int);
    let mut p = Cursor::new(chunk);
    let mut tick: u64 = 0;
    let mut running_status: Option<u8> = None;
    let _ = ppq;
    assert(exec_state(p.pos, tick, running_status, events_view(te.events@), *tempo_count, *ts_count) == init);
    loop
        invariant_except_break
            track_run(d, exec_state(p.pos, tick, running_status, events_view(te.events@), *tempo_count, *ts_count))
                == track_run(d, init),
            p.pos <= d.len(),
        invariant
            p.data@ == d,
            d == chunk@,
            init == track_start(events_view(old(te).events@), *old(tempo_count) as int, *old(ts_count) as int),
        ensures
            track_run(d, init).0 is Done,
            track_run(d, init).1.events == events_view(te.events@),
            track_run(d, init).1.tempo == *tempo_count as int,
            track_run(d, init).1.ts == *ts_count as int,
        decreases d.len() - p.pos,
    {
        proof { reveal(track_run); }
        let ghost cur = exec_state(p.pos, tick, running_status, events_view(te.events@), *tempo_count, *ts_count);
        proof { lemma_vlq_bound(d, p.pos as int); }
        let dt = match p.vlq() {
            Ok(v) => v,
            Err(SmfError::EndOfData) => {
                break;
            },
            Err(e) => {
                return Err(e);
            },
        };
        let ghost p1 = p.pos as int;
        if dt > u64::MAX - tick {
            assert(track_step(d, cur) is Panicked);
            return Ok(false);
        }
        tick = tick + dt;
        let first = match p.peek() {
            Ok(v) => v,
            Err(SmfError::EndOfData) => {
                break;
            },
            Err(e) => {
                return Err(e);
            },
        };
        let _ = first;
        let ghost se = exec_state(p.pos, tick, running_status, events_view(te.events@), *tempo_count, *ts_count);
        assert(track_step(d, cur) == event_step(d, se));
        if event_panics(&p, running_status, tick, Ghost(events_view(te.events@)), *tempo_count, *ts_count) {
            return Ok(false);
        }
        let more = read_event(&mut p, tick, &mut running_status, te, tempo_count, ts_count)?;
        proof {
            let nx = exec_state(p.pos, tick, running_status, events_view(te.events@), *tempo_count, *ts_count);
            if more {
                assert(track_step(d, cur) == TrackStep::Next(nx));
                assert(track_run(d, cur) == track_run(d, nx));
            } else {
                assert(track_step(d, cur) == TrackStep::Done(nx));
            }
        }
        if !more {
            return Ok(true);
        }
    }
    Ok(true)
}

// ---------- file level ----------

/// `MThd`
pub open spec fn mthd_tag() -> Seq<u8> {
    seq![0x4Du8, 0x54u8, 0x68u8, 0x64u8]
}

/// `MTrk`
pub open spec fn mtrk_tag() -> Seq<u8> {
    seq![0x4Du8, 0x54u8, 0x72u8, 0x6Bu8]
}

/// Header fields and the position of the first track chunk (8 + header length).
pub struct SmfHeader {
    pub format: u16,
    pub ntracks: u16,
    pub ppq: u32,
    pub first: int,
}

/// The header: `MThd`, length >= 6, format, track count > 0, PPQN division > 0.
pub open spec fn smf_header(d: Seq<u8>) -> Result<SmfHeader, SmfError> {
    if d.len() < 14 || d.subrange(0, 4) != mthd_tag() {
        Err(SmfError::NotSmf)
    } else {
        let hlen = be_u32_at(d, 4)->Ok_0.0;
        let format = be_u16_at(d, 8)->Ok_0.0;
        let ntracks = be_u16_at(d, 10)->Ok_0.0;
        let division = be_u16_at(d, 12)->Ok_0.0;
        if hlen < 6 {
            Err(SmfError::NotSmf)
        } else if ntracks == 0 {
            Err(SmfError::NotSmf)
        } else if division >= 0x8000 {
            Err(SmfError::UnsupportedDivision)
        } else if division == 0 {
            Err(SmfError::UnsupportedDivision)
        } else {
            Ok(SmfHeader { format, ntracks, ppq: division as u32, first: 8 + hlen })
        }
    }
}

pub enum TracksEnd {
    Done(Seq<Seq<EventModel>>, int, int),
    Failed(SmfError),
    Panicked,
}

/// The chunk loop from position `pos`: every `MTrk` chunk is parsed in turn (a chunk longer
/// than the rest of the data is cut at the end). Parsing stops at the first position that
/// does not hold a full chunk header; once `ntracks` chunks are read, it goes on only
/// while another `MTrk` follows directly.
pub open spec fn tracks_run(
    d: Seq<u8>,
    pos: int,
    ntracks: nat,
    parsed: nat,
    tracks: Seq<Seq<EventModel>>,
    tempo: int,
    ts: int,
) -> TracksEnd
    decreases d.len() - pos,
{
    if pos + 8 > usize::MAX {
        TracksEnd::Panicked
    } else if pos + 8 > d.len() || d.subrange(pos, pos + 4) != mtrk_tag() {
        TracksEnd::Done(tracks, tempo, ts)
    } else {
        let tlen = be_u32_at(d, pos + 4)->Ok_0.0;
        let p2 = pos + 8;
        if p2 + tlen > usize::MAX {
            TracksEnd::Panicked
        } else {
            let end: int = if p2 + tlen <= d.len() { p2 + tlen } else { d.len() as int };
            let run = track_run(d.subrange(p2, end), track_start(Seq::empty(), tempo, ts));
            match run.0 {
                TrackEnd::Panicked => TracksEnd::Panicked,
                TrackEnd::Failed(e) => TracksEnd::Failed(e),
                TrackEnd::Done => {
                    let tracks2 = tracks.push(run.1.events);
                    let parsed2 = parsed + 1;
                    if parsed2 > usize::MAX {
                        TracksEnd::Panicked
                    } else if parsed2 >= ntracks {
                        if end < d.len() {
                            if end + 4 > d.len() {
                                TracksEnd::Done(tracks2, run.1.tempo, run.1.ts)
                            } else if d.subrange(end, end + 4) == mtrk_tag() {
                                tracks_run(d, end, ntracks, parsed2, tracks2, run.1.tempo, run.1.ts)
                            } else {
                                TracksEnd::Done(tracks2, run.1.tempo, run.1.ts)
                            }
                        } else {
                            TracksEnd::Done(tracks2, run.1.tempo, run.1.ts)
                        }
                    } else {
                        tracks_run(d, end, ntracks, parsed2, tracks2, run.1.tempo, run.1.ts)
                    }
                },
            }
        }
    }
}

pub enum SmfParse {
    Parsed { format: u16, ntracks: u16, ppq: u32, tracks: Seq<Seq<EventModel>>, tempo: int, ts: int },
    Rejected(SmfError),
    Panicked,
}

/// What `parse_smf` gives for the bytes `d`.
pub open spec fn smf_parse(d: Seq<u8>) -> SmfParse {
    match smf_header(d) {
        Err(e) => SmfParse::Rejected(e),
        Ok(h) => if h.first > usize::MAX {
            SmfParse::Panicked
        } else {
            match tracks_run(d, h.first, h.ntracks as nat, 0, Seq::empty(), 0, 0) {
                TracksEnd::Done(trs, t, s) => SmfParse::Parsed {
                    format: h.format,
                    ntracks: h.ntracks,
                    ppq: h.ppq,
                    tracks: trs,
                    tempo: t,
                    ts: s,
                },
                TracksEnd::Failed(e) => SmfParse::Rejected(e),
                TracksEnd::Panicked => SmfParse::Panicked,
            }
        },
    }
}

/// Whether the four bytes at `pos` are `tag`.
fn tag_at(data: &[u8], pos: usize, t0: u8, t1: u8, t2: u8, t3: u8) -> (r: bool)
    requires
        pos + 4 <= data@.len(),
    ensures
        r == (data@.subrange(pos as int, pos + 4) == seq![t0, t1, t2, t3]),
{
    let r = data[pos] == t0 && data[pos + 1] == t1 && data[pos + 2] == t2 && data[pos + 3] == t3;
    proof {
        let w = data@.subrange(pos as int, pos + 4);
        if r {
            assert(w =~= seq![t0, t1, t2, t3]);
        } else if w == seq![t0, t1, t2, t3] {
            assert(w[0] == t0 && w[1] == t1 && w[2] == t2 && w[3] == t3);
        }
    }
    r
}

/// Parses a Standard MIDI File; `Ok(None)` for a file the parser cannot go through
/// (see `SmfParse::Panicked`).
#[verifier::rlimit(40)]
fn parse_file(data: &[u8]) -> (r: Result<Option<Smf>, SmfError>)
    ensures
        match smf_parse(data@) {
            SmfParse::Parsed { format, ntracks, ppq, tracks, tempo, ts } => r matches Ok(Some(smf)) && {
                &&& smf.format == format
                &&& smf.ntracks == ntracks
                &&& smf.ppq == ppq
                &&& smf.tracks@.len() == tracks.len()
                &&& forall|i: int| 0 <= i < tracks.len() ==> #[trigger] events_view(smf.tracks@[i].events@) == tracks[i]
                &&& smf.meta_tempo_count == tempo
                &&& smf.meta_timesig_count == ts
            },
            SmfParse::Rejected(e) => r == Err::<Option<Smf>, SmfError>(e),
            SmfParse::Panicked => r matches Ok(None),
        },
{
    let ghost d = data@;
    let mut p = Cursor::new(data);
    if data.len() < 14 || !tag_at(data, 0, 0x4D, 0x54, 0x68, 0x64) {
        return Err(SmfError::NotSmf);
    }
    p.pos = 4;
    let hlen = p.be_u32()?;
    if hlen < 6 {
        return Err(SmfError::NotSmf);
    }
    let format = p.be_u16()?;
    let ntracks = p.be_u16()?;
    if ntracks == 0 {
        return Err(SmfError::NotSmf);
    }
    let division_raw = p.be_u16()?;
    // division: bit 15 set = SMPTE; otherwise PPQN
    assert(division_raw & 0x8000 != 0 <==> division_raw >= 0x8000) by (bit_vector);
    assert(division_raw < 0x8000 ==> division_raw & 0x7fff == division_raw) by (bit_vector);
    if division_raw & 0x8000 != 0 {
        return Err(SmfError::UnsupportedDivision);
    }
    let ppq = (division_raw & 0x7fff) as u32;
    if ppq == 0 {
        return Err(SmfError::UnsupportedDivision);
    }
    if hlen as u64 > usize::MAX as u64 - 8 {
        return Ok(None);
    }
    p.pos = 8 + hlen as usize;
    let mut tracks: Vec<TrackEvents> = Vec::new();
    let mut tempo_count: usize = 0;
    let mut ts_count: usize = 0;
    let mut parsed_tracks: usize = 0;
    let ghost first = p.pos as int;
    let ghost mut gtr: Seq<Seq<EventModel>> = Seq::empty();
    let ghost total = tracks_run(d, first, ntracks as nat, 0, Seq::empty(), 0, 0);
    assert(smf_header(d) == Ok::<SmfHeader, SmfError>(SmfHeader { format, ntracks, ppq, first }));
    loop
        invariant_except_break
            tracks_run(d, p.pos as int, ntracks as nat, parsed_tracks as nat, gtr, tempo_count as int, ts_count as int) == total,
        invariant
            p.data@ == d,
            d == data@,
            total == tracks_run(d, first, ntracks as nat, 0, Seq::empty(), 0, 0),
            smf_header(d) == Ok::<SmfHeader, SmfError>(SmfHeader { format, ntracks, ppq, first }),
            first <= usize::MAX,
            gtr.len() == tracks@.len(),
            forall|i: int| 0 <= i < gtr.len() ==> #[trigger] events_view(tracks@[i].events@) == gtr[i],
        ensures
            total == TracksEnd::Done(gtr, tempo_count as int, ts_count as int),
            gtr.len() == tracks@.len(),
            forall|i: int| 0 <= i < gtr.len() ==> #[trigger] events_view(tracks@[i].events@) == gtr[i],
        decreases d.len() - p.pos,
    {
        let ghost pos0 = p.pos as int;
        let ghost parsed0 = parsed_tracks as nat;
        let ghost gtr0 = gtr;
        let ghost t0 = tempo_count as int;
        let ghost s0 = ts_count as int;
        if p.pos > usize::MAX - 8 {
            return Ok(None);
        }
        if p.pos + 8 > data.len() {
            break;
        }
        if !tag_at(data, p.pos, 0x4D, 0x54, 0x72, 0x6B) {
            break;
        }
        p.pos = p.pos + 4;
        let tlen = p.be_u32()?;
        if tlen as usize > usize::MAX - p.pos {
            proof { assert(tlen == be_u32_at(d, pos0 + 4)->Ok_0.0); }
            return Ok(None);
        }
        let chunk = if p.pos + tlen as usize <= data.len() {
            &data[p.pos..p.pos + tlen as usize]
        } else {
            // declared length runs past the end of the file: use the remaining bytes
            &data[p.pos..data.len()]
        };
        let ghost end: int = p.pos + chunk@.len();
        p.pos = p.pos + chunk.len();
        let mut te = TrackEvents { events: Vec::new() };
        let ghost run = track_run(chunk@, track_start(Seq::empty(), t0, s0));
        proof {
            assert(chunk@ == d.subrange(pos0 + 8, end));
            assert(tlen == be_u32_at(d, pos0 + 4)->Ok_0.0);
            assert(run == track_run(d.subrange(pos0 + 8, end), track_start(Seq::empty(), t0, s0)));
            assert(events_view(te.events@) =~= Seq::<EventModel>::empty());
        }
        let res = parse_track_chunk(chunk, ppq, &mut te, &mut tempo_count, &mut ts_count);
        match res {
            Err(e) => {
                proof {
                    assert(run.0 == TrackEnd::Failed(e));
                    assert(total == TracksEnd::Failed(e));
                }
                return Err(e);
            },
            Ok(false) => {
                proof {
                    assert(run.0 is Panicked);
                    assert(total is Panicked);
                }
                return Ok(None);
            },
            Ok(true) => {},
        }
        proof {
            assert(run.0 is Done);
            gtr = gtr.push(events_view(te.events@));
        }
        tracks.push(te);
        if parsed_tracks == usize::MAX {
            return Ok(None);
        }
        parsed_tracks = parsed_tracks + 1;
        if parsed_tracks >= ntracks as usize {
            // more MTrk chunks than the header declares are read too
            // a few stray bytes after the last chunk end the file
            if p.pos < data.len() && data.len() - p.pos >= 4 {
                if tag_at(data, p.pos, 0x4D, 0x54, 0x72, 0x6B) {
                    continue;
                }
            }
            break;
        }
    }
    Ok(Some(Smf {
        format,
        ntracks,
        ppq,
        tracks,
        meta_tempo_count: tempo_count,
        meta_timesig_count: ts_count,
    }))
}

/// Parses a Standard MIDI File. Inputs the parser cannot go through (`smf_parse_completes`
/// is false for them) are excluded.
pub fn parse_smf(data: &[u8]) -> (r: Result<Smf, SmfError>)
    requires
        !(smf_parse(data@) is Panicked),
    ensures
        match smf_parse(data@) {
            SmfParse::Parsed { format, ntracks, ppq, tracks, tempo, ts } => r matches Ok(smf) && {
                &&& smf.format == format
                &&& smf.ntracks == ntracks
                &&& smf.ppq == ppq
                &&& smf.tracks@.len() == tracks.len()
                &&& forall|i: int| 0 <= i < tracks.len() ==> #[trigger] events_view(smf.tracks@[i].events@) == tracks[i]
                &&& smf.meta_tempo_count == tempo
                &&& smf.meta_timesig_count == ts
            },
            SmfParse::Rejected(e) => r == Err::<Smf, SmfError>(e),
            SmfParse::Panicked => false,
        },
{
    match parse_file(data) {
        Ok(Some(s)) => Ok(s),
        Ok(None) => Err(SmfError::NotSmf),
        Err(e) => Err(e),
    }
}

/// Whether `parse_smf` can go through `data`: false exactly for the files it excludes
/// (a tick past 2^64 - 1, running status after a status that is no channel status, a time
/// signature denominator power of 8 or more, or positions past the machine's range).
pub fn smf_parse_completes(data: &[u8]) -> (r: bool)
    ensures
        r == !(smf_parse(data@) is Panicked),
{
    match parse_file(data) {
        Ok(None) => false,
        _ => true,
    }
}

// ---------- tick order ----------

/// Ticks never decrease along the events.
pub open spec fn ticks_ordered(evs: Seq<EventModel>) -> bool {
    forall|j: int, k: int| 0 <= j <= k < evs.len() ==> model_tick(evs[j]) <= model_tick(evs[k])
}

/// No event is after tick `t`.
pub open spec fn ticks_upto(evs: Seq<EventModel>, t: int) -> bool {
    forall|j: int| 0 <= j < evs.len() ==> model_tick(#[trigger] evs[j]) <= t
}

/// One step keeps the events in tick order: the tick does not go back, and an event it
/// records is at the new tick.
proof fn lemma_track_step_order(d: Seq<u8>, s: TrackState)
    requires
        0 <= s.tick <= u64::MAX,
        ticks_ordered(s.events),
        ticks_upto(s.events, s.tick),
    ensures
        track_step(d, s) matches TrackStep::Next(n) ==> s.tick <= n.tick <= u64::MAX && ticks_ordered(n.events) && ticks_upto(n.events, n.tick),
        track_step(d, s) matches TrackStep::Done(n) ==> s.tick <= n.tick <= u64::MAX && ticks_ordered(n.events) && ticks_upto(n.events, n.tick),
{
    match vlq_at(d, s.pos) {
        Err(_) => {},
        Ok((dt, p1)) => {
            let t = s.tick + dt;
            if t <= u64::MAX && p1 < d.len() {
                let s1 = TrackState { pos: p1, tick: t, ..s };
                assert(ticks_upto(s1.events, t));
                let step = event_step(d, s1);
                lemma_event_step_tick(d, s1);
                match step {
                    TrackStep::Next(n) | TrackStep::Done(n) => {
                        if n.events != s.events {
                            let e = n.events.last();
                            assert(n.events == s.events.push(e));
                            assert forall|j: int, k: int| 0 <= j <= k < n.events.len() implies
                                model_tick(n.events[j]) <= model_tick(n.events[k]) by {
                                if k == n.events.len() - 1 && j < k {
                                    assert(n.events[j] == s.events[j]);
                                } else if k < n.events.len() - 1 {
                                    assert(n.events[j] == s.events[j] && n.events[k] == s.events[k]);
                                }
                            }
                            assert forall|j: int| 0 <= j < n.events.len() implies model_tick(#[trigger] n.events[j]) <= n.tick by {
                                if j < n.events.len() - 1 {
                                    assert(n.events[j] == s.events[j]);
                                }
                            }
                        }
                    },
                    _ => {},
                }
            }
        },
    }
}

/// The event a step records carries the step's tick.
proof fn lemma_event_step_tick(d: Seq<u8>, s: TrackState)
    requires
        0 <= s.tick <= u64::MAX,
        s.pos < d.len(),
    ensures
        event_step(d, s) matches TrackStep::Next(n) ==> n.tick == s.tick && (n.events == s.events
            || (n.events.len() == s.events.len() + 1 && n.events.drop_last() == s.events && model_tick(n.events.last()) == s.tick)),
        event_step(d, s) matches TrackStep::Done(n) ==> n.tick == s.tick && (n.events == s.events
            || (n.events.len() == s.events.len() + 1 && n.events.drop_last() == s.events && model_tick(n.events.last()) == s.tick)),
{
    let tick = s.tick as u64;
    let first = d[s.pos];
    if first < 0x80 {
        if let Some(st) = s.running {
            if is_channel_status(st) {
                if let Ok((ev, p)) = channel_message(d, st, first, s.pos + 1, tick, true) {
                    if let Some(e) = ev {
                        assert(s.events.push(e).drop_last() =~= s.events);
                    }
                }
            }
        }
    } else if is_channel_status(first) {
        if let Ok((d0, p3)) = byte_at(d, s.pos + 1) {
            if let Ok((ev, p)) = channel_message(d, first, d0, p3, tick, false) {
                if let Some(e) = ev {
                    assert(s.events.push(e).drop_last() =~= s.events);
                }
            }
        }
    } else if first == 0xF0 || first == 0xF7 {
        if let Ok((body, p)) = sysex_at(d, s.pos + 1) {
            let e = EventModel::SysEx { tick, bytes: seq![first] + body };
            assert(s.events.push(e).drop_last() =~= s.events);
        }
    } else if first == 0xFF {
        let s2 = TrackState { pos: s.pos + 1, ..s };
        match meta_step(d, s2, tick) {
            TrackStep::Next(n) => {
                if n.events != s.events {
                    assert(n.events.drop_last() =~= s.events);
                }
            },
            _ => {},
        }
    }
}

proof fn lemma_track_run_order(d: Seq<u8>, s: TrackState)
    requires
        0 <= s.tick <= u64::MAX,
        ticks_ordered(s.events),
        ticks_upto(s.events, s.tick),
    ensures
        track_run(d, s).0 is Done ==> ticks_ordered(track_run(d, s).1.events),
    decreases d.len() - s.pos,
{
    reveal(track_run);
    lemma_track_step_order(d, s);
    match track_step(d, s) {
        TrackStep::Next(n) => if s.pos < n.pos <= d.len() {
            lemma_track_run_order(d, n);
        },
        _ => {},
    }
}

proof fn lemma_tracks_run_order(d: Seq<u8>, pos: int, ntracks: nat, parsed: nat, tracks: Seq<Seq<EventModel>>, tempo: int, ts: int)
    requires
        forall|i: int| 0 <= i < tracks.len() ==> ticks_ordered(#[trigger] tracks[i]),
    ensures
        tracks_run(d, pos, ntracks, parsed, tracks, tempo, ts) matches TracksEnd::Done(trs, _, _)
            ==> forall|i: int| 0 <= i < trs.len() ==> ticks_ordered(#[trigger] trs[i]),
    decreases d.len() - pos,
{
    if pos + 8 <= usize::MAX && pos + 8 <= d.len() && d.subrange(pos, pos + 4) == mtrk_tag() {
        let tlen = be_u32_at(d, pos + 4)->Ok_0.0;
        let p2 = pos + 8;
        if p2 + tlen <= usize::MAX {
            let end: int = if p2 + tlen <= d.len() { p2 + tlen } else { d.len() as int };
            let st = track_start(Seq::empty(), tempo, ts);
            lemma_track_run_order(d.subrange(p2, end), st);
            let run = track_run(d.subrange(p2, end), st);
            if run.0 is Done {
                let tracks2 = tracks.push(run.1.events);
                assert forall|i: int| 0 <= i < tracks2.len() implies ticks_ordered(#[trigger] tracks2[i]) by {
                    if i < tracks.len() { assert(tracks2[i] == tracks[i]); }
                }
                if end > pos {
                    lemma_tracks_run_order(d, end, ntracks, parsed + 1, tracks2, run.1.tempo, run.1.ts);
                }
            }
        }
    }
}

/// Every track of a parsed file lists its events in tick order.
pub proof fn parsed_tracks_in_tick_order(d: Seq<u8>)
    ensures
        smf_parse(d) matches SmfParse::Parsed { tracks, .. }
            ==> forall|i: int| 0 <= i < tracks.len() ==> ticks_ordered(#[trigger] tracks[i]),
{
    if let Ok(h) = smf_header(d) {
        lemma_tracks_run_order(d, h.first, h.ntracks as nat, 0, Seq::empty(), 0, 0);
    }
}


/// A pitch bend (status En) carries exactly two data bytes and records nothing: with its own
/// status byte the next event starts three bytes on and En becomes the running status; under
/// running status En it starts two bytes on, with the state otherwise unchanged.
pub proof fn pitch_bend_takes_two_data_bytes(d: Seq<u8>, s: TrackState)
    requires
        0 <= s.pos,
    ensures
        s.pos + 2 < d.len() && 0xE0 <= d[s.pos] <= 0xEF ==> event_step(d, s) == TrackStep::Next(
            TrackState { pos: s.pos + 3, running: Some(d[s.pos]), ..s },
        ),
        s.pos + 1 < d.len() && d[s.pos] < 0x80 && (s.running matches Some(st) && 0xE0 <= st <= 0xEF)
            ==> event_step(d, s) == TrackStep::Next(TrackState { pos: s.pos + 2, ..s }),
{
}

} // verus!
