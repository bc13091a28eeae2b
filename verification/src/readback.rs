//! Reading the multi-part voices back from the device.
//!
//! Handshake read: for one part, request bank MSB, then bank LSB, then program, each request
//! sent only after the DT1 reply to the previous one; a batch read walks parts 1 to 32 one
//! after another. Bulk read: one dump request per part (block `08 nn 00`), the next sent when
//! the reply for the expected part arrives. The application sends the requests and feeds the
//! replies; these state machines decide what comes next.

use vstd::prelude::*;
use crate::sysex::{self, Device, dt1_reply, bulk_dump_reply, request_bytes, param_change_bytes, device_byte, clamp_part};
use crate::sysex::mp::{BANK_SELECT_MSB, BANK_SELECT_LSB, PROGRAM_NUMBER};
use crate::text::{decimal, zero_padded, push_decimal, push_padded2, push_str};
use crate::data::{VoiceBank, first_voice};
use crate::voice_pick::{bank_ok, bank_table};

verus! {

/// The text "part" followed by a number.
pub open spec fn part_label(n: nat) -> Seq<char> {
    "part"@ + decimal(n)
}

/// The request for one parameter of a part's voice.
pub open spec fn part_request(part: u8, off: u8) -> Seq<u8> {
    request_bytes(device_byte(Device::Request(1)), seq![0x08u8, clamp_part(part), off])
}

/// What the handshake read does after a reply.
#[derive(Debug, Clone, Copy, PartialEq, Eq, Structural)]
pub enum BatchStep {
    /// a single part was read
    Single,
    /// the batch goes on with this part: request its bank MSB
    Next(u8),
    /// the batch has read all 32 parts
    Finished,
}

/// Outcome of feeding a reply to the handshake read.
#[derive(Debug, Clone, Copy, PartialEq, Eq, Structural)]
pub enum ReadStep {
    /// not the reply awaited
    Ignored,
    /// request the next parameter (`offset`) of `part`
    Request { part: u8, offset: u8 },
    /// the part's voice is read (msb, lsb, pc; only msb in MSB-only mode)
    Done { part: u8, msb: u8, lsb: u8, pc: u8, batch: BatchStep },
}

/// State of the handshake read.
pub struct HandshakeRead {
    /// the DT1 reply awaited: (part, parameter offset)
    pub wait: Option<(u8, u8)>,
    /// label of the part being read ("part1".."part32")
    pub inflight: Option<String>,
    pub acc_msb: Option<u8>,
    pub acc_lsb: Option<u8>,
    pub acc_pc: Option<u8>,
    /// batch mode that reads only the bank MSB of each part
    pub msb_only: bool,
    /// the part the batch is reading, while a batch runs
    pub batch_next: Option<u8>,
    /// cursor shown while a batch runs
    pub cursor: Option<u8>,
    /// parts read so far: (msb, lsb, pc) by 0-based part
    pub parts: [Option<(u8, u8, u8)>; 32],
}

/// The handshake state as values.
pub struct ReadModel {
    pub wait: Option<(u8, u8)>,
    pub inflight: Option<Seq<char>>,
    pub acc_msb: Option<u8>,
    pub acc_lsb: Option<u8>,
    pub acc_pc: Option<u8>,
    pub msb_only: bool,
    pub batch_next: Option<u8>,
    pub cursor: Option<u8>,
    pub parts: Seq<Option<(u8, u8, u8)>>,
}

impl HandshakeRead {
    /// The state as values.
    pub open spec fn model(&self) -> ReadModel {
        ReadModel {
            wait: self.wait,
            inflight: match self.inflight { Some(t) => Some(t@), None => None },
            acc_msb: self.acc_msb,
            acc_lsb: self.acc_lsb,
            acc_pc: self.acc_pc,
            msb_only: self.msb_only,
            batch_next: self.batch_next,
            cursor: self.cursor,
            parts: self.parts@,
        }
    }
}

/// After starting the read of `part`: its label in flight, its bank MSB awaited, nothing
/// collected.
pub open spec fn started(m: ReadModel, part: u8) -> ReadModel {
    ReadModel {
        inflight: Some(part_label((part + 1) as nat)),
        wait: Some((part, BANK_SELECT_MSB)),
        acc_msb: None,
        acc_lsb: None,
        acc_pc: None,
        ..m
    }
}

/// The parameter requested after `off`: LSB after MSB, program after LSB, none after the
/// program or after MSB in MSB-only mode (0 = none).
pub open spec fn next_offset(msb_only: bool, off: u8) -> u8 {
    if msb_only && off == BANK_SELECT_MSB { 0 }
    else if off == BANK_SELECT_MSB { BANK_SELECT_LSB }
    else if off == BANK_SELECT_LSB { PROGRAM_NUMBER }
    else { 0 }
}

/// A completed part: recorded (only its MSB in MSB-only mode); then, in a batch, the next
/// part is started, or the batch ends after part 31.
pub open spec fn completed(m: ReadModel, part: u8) -> (ReadModel, ReadStep) {
    let msb: u8 = match m.acc_msb { Some(x) => x, None => 0 };
    let lsb: u8 = match m.acc_lsb { Some(x) => x, None => 0 };
    let pc: u8 = match m.acc_pc { Some(x) => x, None => 0 };
    let rec: (u8, u8, u8) = if m.msb_only { (msb, 0u8, 0u8) } else { (msb, lsb, pc) };
    let m1 = ReadModel {
        wait: None,
        inflight: None,
        parts: if part < 32 { m.parts.update(part as int, Some(rec)) } else { m.parts },
        ..m
    };
    match m.batch_next {
        Some(n) => if n < 31 {
            (started(ReadModel { batch_next: Some((n + 1) as u8), cursor: Some((n + 1) as u8), ..m1 }, (n + 1) as u8),
                ReadStep::Done { part, msb, lsb, pc, batch: BatchStep::Next((n + 1) as u8) })
        } else {
            (ReadModel { batch_next: None, cursor: None, ..m1 },
                ReadStep::Done { part, msb, lsb, pc, batch: BatchStep::Finished })
        },
        None => (m1, ReadStep::Done { part, msb, lsb, pc, batch: BatchStep::Single }),
    }
}

/// The value of parameter `off` of `part` taken: stored, then the next parameter requested
/// or the part completed. Other parameters change nothing.
pub open spec fn read_step(m: ReadModel, part: u8, off: u8, val: u8) -> (ReadModel, ReadStep) {
    if off != BANK_SELECT_MSB && off != BANK_SELECT_LSB && off != PROGRAM_NUMBER {
        (m, ReadStep::Ignored)
    } else {
        let m1 = ReadModel {
            acc_msb: if off == BANK_SELECT_MSB { Some(val) } else { m.acc_msb },
            acc_lsb: if off == BANK_SELECT_LSB { Some(val) } else { m.acc_lsb },
            acc_pc: if off == PROGRAM_NUMBER { Some(val) } else { m.acc_pc },
            ..m
        };
        let nxt = next_offset(m.msb_only, off);
        if nxt != 0 {
            (ReadModel { wait: Some((part, nxt)), ..m1 }, ReadStep::Request { part, offset: nxt })
        } else {
            completed(m1, part)
        }
    }
}

/// A received message: only the DT1 reply for the awaited part and parameter is taken.
pub open spec fn read_reply(m: ReadModel, b: Seq<u8>) -> (ReadModel, ReadStep) {
    match (m.wait, dt1_reply(b)) {
        (Some((wp, wo)), Some((p, o, v))) => if p == wp && o == wo { read_step(m, p, o, v) } else { (m, ReadStep::Ignored) },
        _ => (m, ReadStep::Ignored),
    }
}

/// No reply in time: nothing awaited; a batch skips to the next part or ends after part 31.
pub open spec fn read_timeout(m: ReadModel) -> (ReadModel, BatchStep) {
    let m1 = ReadModel { wait: None, inflight: None, ..m };
    match m.batch_next {
        Some(n) => if n < 31 {
            (started(ReadModel { batch_next: Some((n + 1) as u8), cursor: Some((n + 1) as u8), ..m1 }, (n + 1) as u8),
                BatchStep::Next((n + 1) as u8))
        } else {
            (ReadModel { batch_next: None, cursor: None, ..m1 }, BatchStep::Finished)
        },
        None => (m1, BatchStep::Single),
    }
}

fn part_text(part: u8) -> (r: String)
    requires
        part < 255,
    ensures
        r@ == part_label((part + 1) as nat),
{
    let mut s = String::new();
    push_str(&mut s, "part");
    push_decimal(&mut s, (part + 1) as u64);
    proof { reveal_strlit("part"); }
    s
}

impl HandshakeRead {
    /// Nothing awaited, nothing read.
    pub fn new() -> (r: Self)
        ensures
            r.wait is None,
            r.inflight is None,
            r.acc_msb is None && r.acc_lsb is None && r.acc_pc is None,
            !r.msb_only,
            r.batch_next is None,
            r.cursor is None,
            forall|i: int| 0 <= i < 32 ==> r.parts@[i] is None,
    {
        HandshakeRead {
            wait: None,
            inflight: None,
            acc_msb: None,
            acc_lsb: None,
            acc_pc: None,
            msb_only: false,
            batch_next: None,
            cursor: None,
            parts: [None; 32],
        }
    }

    /// Starts reading `part`: awaits its bank MSB and returns the request to send.
    pub fn start_part(&mut self, part: u8) -> (req: Vec<u8>)
        requires
            part < 255,
        ensures
            req@ == part_request(part, BANK_SELECT_MSB),
            final(self).model() == started(old(self).model(), part),
    {
        self.inflight = Some(part_text(part));
        self.wait = Some((part, BANK_SELECT_MSB));
        self.acc_msb = None;
        self.acc_lsb = None;
        self.acc_pc = None;
        sysex::read_part_voice_param(part, BANK_SELECT_MSB, Device::Request(1))
    }

    fn complete(&mut self, part: u8) -> (r: ReadStep)
        ensures
            (final(self).model(), r) == completed(old(self).model(), part),
    {
        self.wait = None;
        self.inflight = None;
        let msb = match self.acc_msb { Some(x) => x, None => 0 };
        let lsb = match self.acc_lsb { Some(x) => x, None => 0 };
        let pc = match self.acc_pc { Some(x) => x, None => 0 };
        let ghost before = self.parts@;
        if part < 32 {
            if self.msb_only {
                self.parts[part as usize] = Some((msb, 0, 0));
            } else {
                self.parts[part as usize] = Some((msb, lsb, pc));
            }
        }
        assert(self.parts@ =~= (if part < 32 { before.update(part as int, Some(if self.msb_only { (msb, 0u8, 0u8) } else { (msb, lsb, pc) })) } else { before }));
        match self.batch_next {
            Some(n) => {
                if n < 31 {
                    self.batch_next = Some(n + 1);
                    self.cursor = Some(n + 1);
                    let _req = self.start_part(n + 1);
                    ReadStep::Done { part, msb, lsb, pc, batch: BatchStep::Next(n + 1) }
                } else {
                    self.batch_next = None;
                    self.cursor = None;
                    ReadStep::Done { part, msb, lsb, pc, batch: BatchStep::Finished }
                }
            },
            None => ReadStep::Done { part, msb, lsb, pc, batch: BatchStep::Single },
        }
    }

    /// Takes the value of parameter `off` of `part`: stores it, then either asks for the next
    /// parameter (LSB after MSB, program after LSB; nothing after MSB in MSB-only mode) or
    /// completes the part, records it, and in a batch starts the next part.
    pub fn step(&mut self, part: u8, off: u8, val: u8) -> (r: ReadStep)
        ensures
            (final(self).model(), r) == read_step(old(self).model(), part, off, val),
    {
        if off == BANK_SELECT_MSB {
            self.acc_msb = Some(val);
        } else if off == BANK_SELECT_LSB {
            self.acc_lsb = Some(val);
        } else if off == PROGRAM_NUMBER {
            self.acc_pc = Some(val);
        } else {
            return ReadStep::Ignored;
        }
        let next_off: u8 = if self.msb_only && off == BANK_SELECT_MSB {
            0
        } else if off == BANK_SELECT_MSB {
            BANK_SELECT_LSB
        } else if off == BANK_SELECT_LSB {
            PROGRAM_NUMBER
        } else {
            0
        };
        if next_off != 0 {
            self.wait = Some((part, next_off));
            return ReadStep::Request { part, offset: next_off };
        }
        self.complete(part)
    }

    /// No reply came in time: the awaited read is dropped; a batch skips the part (it stays
    /// unread) and goes on with the next one, or ends after the last.
    pub fn timeout(&mut self) -> (r: BatchStep)
        ensures
            (final(self).model(), r) == read_timeout(old(self).model()),
    {
        self.wait = None;
        self.inflight = None;
        match self.batch_next {
            Some(n) => {
                if n < 31 {
                    self.batch_next = Some(n + 1);
                    self.cursor = Some(n + 1);
                    let _req = self.start_part(n + 1);
                    BatchStep::Next(n + 1)
                } else {
                    self.batch_next = None;
                    self.cursor = None;
                    BatchStep::Finished
                }
            },
            None => BatchStep::Single,
        }
    }

    /// Feeds a received message: a DT1 reply for exactly the awaited part and parameter
    /// advances the read; anything else is ignored.
    pub fn on_reply(&mut self, bytes: &[u8]) -> (r: ReadStep)
        ensures
            (final(self).model(), r) == read_reply(old(self).model(), bytes@),
    {
        match self.wait {
            Some((wp, wo)) => match sysex::PartVoiceCollector::try_dt1(bytes) {
                Some((p, o, v)) => if p == wp && o == wo {
                    self.step(p, o, v)
                } else {
                    ReadStep::Ignored
                },
                None => ReadStep::Ignored,
            },
            None => ReadStep::Ignored,
        }
    }
}

/// The DT1 reply for parameter `off` of `part` with value `val` (device 0).
pub open spec fn part_reply(part: u8, off: u8, val: u8) -> Seq<u8> {
    param_change_bytes(device_byte(Device::Param(0)), seq![0x08u8, part, off], seq![val])
}

/// Reading one part outside a batch: after the start, the replies for bank MSB, bank LSB
/// and program lead to the requests for LSB and program and then record the part's voice.
pub proof fn handshake_reads_part(m: ReadModel, part: u8, msb: u8, lsb: u8, pc: u8)
    requires
        part < 32,
        m.batch_next is None,
        !m.msb_only,
        m.parts.len() == 32,
    ensures
        ({
            let m1 = started(m, part);
            let (m2, r1) = read_reply(m1, part_reply(part, BANK_SELECT_MSB, msb));
            let (m3, r2) = read_reply(m2, part_reply(part, BANK_SELECT_LSB, lsb));
            let (m4, r3) = read_reply(m3, part_reply(part, PROGRAM_NUMBER, pc));
            &&& r1 == ReadStep::Request { part, offset: BANK_SELECT_LSB }
            &&& r2 == ReadStep::Request { part, offset: PROGRAM_NUMBER }
            &&& r3 == ReadStep::Done { part, msb, lsb, pc, batch: BatchStep::Single }
            &&& m4.parts[part as int] == Some((msb, lsb, pc))
            &&& m4.wait is None
        }),
{
    sysex::dt1_reply_of_param_change(0, part, BANK_SELECT_MSB, msb);
    sysex::dt1_reply_of_param_change(0, part, BANK_SELECT_LSB, lsb);
    sysex::dt1_reply_of_param_change(0, part, PROGRAM_NUMBER, pc);
}

/// The dump request of a part's block `08 nn 00`.
pub open spec fn block_request(part: u8) -> Seq<u8> {
    request_bytes(device_byte(Device::DumpRequest(1)), seq![0x08u8, part, 0x00u8])
}

/// Outcome of feeding a reply to the bulk read.
#[derive(Debug, Clone, Copy, PartialEq, Eq, Structural)]
pub enum BulkStep {
    /// not the block of the part awaited
    NotExpected,
    /// recorded; request the block of this part next
    Next(u8),
    /// recorded the last part; the bulk read is over
    Finished,
}

/// State of the bulk read.
pub struct BulkRead {
    /// the part whose block is awaited
    pub next: Option<u8>,
    /// parts read: (msb, lsb, pc) by 0-based part
    pub parts: [Option<(u8, u8, u8)>; 32],
}

impl BulkRead {
    /// Nothing awaited, nothing read.
    pub fn new() -> (r: Self)
        ensures
            r.next is None,
            forall|i: int| 0 <= i < 32 ==> r.parts@[i] is None,
    {
        BulkRead { next: None, parts: [None; 32] }
    }

    /// Starts a bulk read: forgets earlier results, awaits part 0, returns its request.
    pub fn start(&mut self) -> (req: Vec<u8>)
        ensures
            final(self).next == Some(0u8),
            forall|i: int| 0 <= i < 32 ==> final(self).parts@[i] is None,
            req@ == block_request(0),
    {
        self.parts = [None; 32];
        self.next = Some(0);
        sysex::dump_request(Device::DumpRequest(1), [0x08, 0, 0x00])
    }

    /// Records the block of `part_byte` if it is the awaited one, then awaits the next part,
    /// or ends after the last.
    pub fn step(&mut self, part_byte: u8, msb: u8, lsb: u8, pc: u8) -> (r: BulkStep)
        ensures
            old(self).next != Some(part_byte) ==> r is NotExpected && *final(self) == *old(self),
            old(self).next == Some(part_byte) ==> {
                &&& final(self).parts@ == (if part_byte < 32 {
                    old(self).parts@.update(part_byte as int, Some((msb, lsb, pc)))
                } else {
                    old(self).parts@
                })
                &&& if (part_byte as int + 1) % 256 < 32 {
                    r == BulkStep::Next(((part_byte as int + 1) % 256) as u8)
                        && final(self).next == Some(((part_byte as int + 1) % 256) as u8)
                } else {
                    r is Finished && final(self).next is None
                }
            },
    {
        if self.next != Some(part_byte) {
            return BulkStep::NotExpected;
        }
        if part_byte < 32 {
            self.parts[part_byte as usize] = Some((msb, lsb, pc));
        }
        let next = part_byte.wrapping_add(1);
        if next < 32 {
            self.next = Some(next);
            BulkStep::Next(next)
        } else {
            self.next = None;
            BulkStep::Finished
        }
    }

    /// No block came in time: the awaited part is skipped (it stays unread) and the next one
    /// is awaited, or the read ends after the last part.
    pub fn timeout(&mut self) -> (r: BulkStep)
        ensures
            final(self).parts == old(self).parts,
            match old(self).next {
                Some(cur) => if (cur as int + 1) % 256 < 32 {
                    r == BulkStep::Next(((cur as int + 1) % 256) as u8) && final(self).next == Some(((cur as int + 1) % 256) as u8)
                } else {
                    r is Finished && final(self).next is None
                },
                None => r is NotExpected && final(self).next is None,
            },
    {
        match self.next {
            Some(cur) => {
                let next = cur.wrapping_add(1);
                if next < 32 {
                    self.next = Some(next);
                    BulkStep::Next(next)
                } else {
                    self.next = None;
                    BulkStep::Finished
                }
            },
            None => BulkStep::NotExpected,
        }
    }

    /// The request for the block of `part` (sent after `Next(part)`).
    pub fn request(part: u8) -> (req: Vec<u8>)
        ensures
            req@ == block_request(part),
    {
        sysex::dump_request(Device::DumpRequest(1), [0x08, part, 0x00])
    }

    /// Feeds a received message: a part block while a bulk read runs goes to `step`.
    pub fn on_reply(&mut self, bytes: &[u8]) -> (r: BulkStep)
        ensures
            !(old(self).next is Some && bulk_dump_reply(bytes@) is Some) ==> r is NotExpected && *final(self) == *old(self),
            old(self).next is Some ==> match bulk_dump_reply(bytes@) {
                Some((part, msb, lsb, pc)) => if old(self).next != Some(part) {
                    r is NotExpected && *final(self) == *old(self)
                } else {
                    &&& final(self).parts@ == (if part < 32 {
                        old(self).parts@.update(part as int, Some((msb, lsb, pc)))
                    } else {
                        old(self).parts@
                    })
                    &&& if (part as int + 1) % 256 < 32 {
                        r == BulkStep::Next(((part as int + 1) % 256) as u8)
                            && final(self).next == Some(((part as int + 1) % 256) as u8)
                    } else {
                        r is Finished && final(self).next is None
                    }
                },
                None => r is NotExpected && *final(self) == *old(self),
            },
    {
        if self.next.is_none() {
            return BulkStep::NotExpected;
        }
        match sysex::PartVoiceCollector::try_bulk_dump(bytes) {
            Some((part, msb, lsb, pc)) => self.step(part, msb, lsb, pc),
            None => BulkStep::NotExpected,
        }
    }
}

/// The bank / program triple as "MM/LL/PP", each at least two digits.
pub open spec fn triple_text(msb: u8, lsb: u8, pc: u8) -> Seq<char> {
    zero_padded(msb as nat, 2) + "/"@ + zero_padded(lsb as nat, 2) + "/"@ + zero_padded(pc as nat, 2)
}

/// The recap of all 32 parts after `prefix`: " <part><MM/LL/PP>" for a part read,
/// " <part>--" otherwise (parts numbered from 1).
pub open spec fn recap_text(prefix: Seq<char>, parts: Seq<Option<(u8, u8, u8)>>, n: int) -> Seq<char>
    decreases n,
{
    if n <= 0 {
        prefix
    } else {
        recap_text(prefix, parts, n - 1) + " "@ + decimal(n as nat) + match parts[n - 1] {
            Some((m, l, p)) => triple_text(m, l, p),
            None => "--"@,
        }
    }
}

fn push_triple(s: &mut String, msb: u8, lsb: u8, pc: u8)
    ensures
        final(s)@ == old(s)@ + triple_text(msb, lsb, pc),
{
    push_padded2(s, msb);
    push_str(s, "/");
    push_padded2(s, lsb);
    push_str(s, "/");
    push_padded2(s, pc);
    assert(final(s)@ =~= old(s)@ + triple_text(msb, lsb, pc));
}

/// The recap line of the 32 parts read, after `prefix`.
pub fn parts_recap(prefix: &str, parts: &[Option<(u8, u8, u8)>; 32]) -> (r: String)
    ensures
        r@ == recap_text(prefix@, parts@, 32),
{
    let mut s = String::new();
    push_str(&mut s, prefix);
    let mut i: usize = 0;
    assert(s@ =~= recap_text(prefix@, parts@, 0));
    while i < 32
        invariant
            0 <= i <= 32,
            s@ == recap_text(prefix@, parts@, i as int),
        decreases 32 - i,
    {
        let ghost before = s@;
        push_str(&mut s, " ");
        push_decimal(&mut s, (i + 1) as u64);
        match parts[i] {
            Some((m, l, p)) => push_triple(&mut s, m, l, p),
            None => push_str(&mut s, "--"),
        }
        assert(s@ =~= recap_text(prefix@, parts@, i + 1));
        i = i + 1;
    }
    s
}

/// Name shown for a part read back: the table's voice, or its bank and program as "MM/LL/PP".
pub fn read_voice_name(bank: Option<&VoiceBank>, msb: u8, lsb: u8, pc: u8) -> (r: String)
    requires
        bank_ok(bank),
    ensures
        r@ == (if lsb <= 127 && first_voice(bank_table(bank), msb, pc, lsb) is Some {
            first_voice(bank_table(bank), msb, pc, lsb)->0.name@
        } else {
            triple_text(msb, lsb, pc)
        }),
{
    let found = match bank {
        Some(b) => match b.find(msb, pc, lsb) {
            Some(v) => Some(v.name.clone()),
            None => None,
        },
        None => None,
    };
    match found {
        Some(n) => n,
        None => {
            let mut s = String::new();
            push_triple(&mut s, msb, lsb, pc);
            s
        },
    }
}

} // verus!
