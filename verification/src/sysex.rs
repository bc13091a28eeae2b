//! XG SysEx framing for the Yamaha MU90.
//!
//! - Parameter Change (device `1n`): `F0 43 1n 4C [addr3] [data] F7`, no count, no checksum
//! - Bulk Dump (device `0n`): `F0 43 0n 4C [bb bb] [addr3] [data...] [cs] F7`
//! - Parameter Request (device `3n`): `F0 43 3n 4C [addr3] F7`
//! - Dump Request (device `2n`): `F0 43 2n 4C [addr3] F7`
//! Bulk checksum: the 7-bit two's complement of the sum of address and data bytes.

pub mod mp;
pub mod sys;

use vstd::prelude::*;
use crate::text::{decimal, push_decimal, push_str};

verus! {

/// XG device number ranges: bulk `0n`, parameter change `1n`, dump request `2n`, request `3n`.
#[derive(Debug, Clone, Copy, PartialEq, Eq, Structural)]
pub enum Device {
    /// Bulk dump device number (0n, 0-15)
    Bulk(u8),
    /// Parameter change device number (1n, 16-31)
    Param(u8),
    /// Parameter request device number (3n, 48-63)
    Request(u8),
    /// Dump request device number (2n, 32-47)
    DumpRequest(u8),
}

/// The status byte of a device number: the range's high nibble with the low nibble of `n`.
pub open spec fn device_byte(d: Device) -> u8 {
    match d {
        Device::Bulk(n) => n & 0x0F,
        Device::Param(n) => 0x10 | (n & 0x0F),
        Device::Request(n) => 0x30 | (n & 0x0F),
        Device::DumpRequest(n) => 0x20 | (n & 0x0F),
    }
}

impl Device {
    pub fn byte(self) -> (r: u8)
        ensures
            r == device_byte(self),
    {
        match self {
            Device::Bulk(n) => n & 0x0F,
            Device::Param(n) => 0x10 | (n & 0x0F),
            Device::Request(n) => 0x30 | (n & 0x0F),
            Device::DumpRequest(n) => 0x20 | (n & 0x0F),
        }
    }
}

/// `F0 43 dev 4C` followed by `addr`, `data` and `F7`.
pub open spec fn param_change_bytes(dev: u8, addr: Seq<u8>, data: Seq<u8>) -> Seq<u8> {
    seq![0xF0u8, 0x43u8, dev, 0x4Cu8] + addr + data + seq![0xF7u8]
}

/// `F0 43 dev 4C` followed by `addr` and `F7` (parameter and dump requests).
pub open spec fn request_bytes(dev: u8, addr: Seq<u8>) -> Seq<u8> {
    seq![0xF0u8, 0x43u8, dev, 0x4Cu8] + addr + seq![0xF7u8]
}

/// Sum of the bytes of a sequence.
pub open spec fn byte_sum(s: Seq<u8>) -> nat
    decreases s.len(),
{
    if s.len() == 0 {
        0
    } else {
        byte_sum(s.drop_last()) + (s.last() as nat)
    }
}

/// The running 7-bit sum never meets a byte that would carry it past 255
/// (the checksum loop adds each byte to the running sum in a `u8`).
#[verifier::opaque]
pub open spec fn checksum_fits(s: Seq<u8>) -> bool {
    forall|i: int| #![trigger s[i]] 0 <= i < s.len() ==> byte_sum(s.take(i)) % 128 + s[i] <= 255
}

/// XG bulk checksum: the value that brings the 7-bit byte sum to zero.
pub open spec fn xg_checksum(s: Seq<u8>) -> u8 {
    ((128 - byte_sum(s) % 128) % 128) as u8
}

/// The two 7-bit byte-count bytes of a bulk dump (high, low).
pub open spec fn count_hi(len: nat) -> u8 {
    ((len / 128) % 128) as u8
}

pub open spec fn count_lo(len: nat) -> u8 {
    (len % 128) as u8
}

/// `F0 43 dev 4C [bb bb] [addr] [data] [cs] F7`.
pub open spec fn bulk_dump_bytes(dev: u8, addr: Seq<u8>, data: Seq<u8>) -> Seq<u8> {
    seq![0xF0u8, 0x43u8, dev, 0x4Cu8, count_hi(data.len()), count_lo(data.len())] + addr + data
        + seq![xg_checksum(addr + data), 0xF7u8]
}

pub proof fn lemma_byte_sum_take_step(s: Seq<u8>, i: int)
    requires
        0 <= i < s.len(),
    ensures
        byte_sum(s.take(i + 1)) == byte_sum(s.take(i)) + s[i],
{
    assert(s.take(i + 1).drop_last() =~= s.take(i));
}

pub proof fn lemma_fits_at(s: Seq<u8>, i: int)
    requires
        checksum_fits(s),
        0 <= i < s.len(),
    ensures
        byte_sum(s.take(i)) % 128 + s[i] <= 255,
{
    reveal(checksum_fits);
}

/// The bulk checksum closes the 7-bit sum of address, data and checksum to zero.
pub proof fn checksum_closes_sum(s: Seq<u8>)
    ensures
        (byte_sum(s) + xg_checksum(s)) % 128 == 0,
{
    let r = byte_sum(s) % 128;
    assert(byte_sum(s) == 128 * (byte_sum(s) / 128) + r);
    if r == 0 {
        assert(xg_checksum(s) == 0);
    } else {
        assert(xg_checksum(s) == 128 - r);
        assert(byte_sum(s) + xg_checksum(s) == 128 * (byte_sum(s) / 128 + 1));
    }
}

/// Pushes every byte of `data` onto `out`.
fn push_all(out: &mut Vec<u8>, data: &[u8])
    ensures
        final(out)@ == old(out)@ + data@,
{
    let mut i: usize = 0;
    while i < data.len()
        invariant
            0 <= i <= data.len(),
            out@ == old(out)@ + data@.take(i as int),
        decreases data.len() - i,
    {
        out.push(data[i]);
        i = i + 1;
        assert(data@.take(i as int) =~= data@.take((i - 1) as int).push(data@[i - 1]));
    }
    assert(data@.take(data.len() as int) =~= data@);
}

/// One XG parameter change: `F0 43 1n 4C [addr3] [data...] F7`, without checksum.
pub fn param_change(device: Device, addr: [u8; 3], data: &[u8]) -> (r: Vec<u8>)
    ensures
        r@ == param_change_bytes(device_byte(device), addr@, data@),
{
    let mut out: Vec<u8> = Vec::new();
    out.push(0xF0);
    out.push(0x43);
    out.push(device.byte());
    out.push(0x4C);
    push_all(&mut out, addr.as_slice());
    push_all(&mut out, data);
    out.push(0xF7);
    assert(out@ =~= param_change_bytes(device_byte(device), addr@, data@));
    out
}

/// XG System On: `F0 43 10 4C 00 00 7E 00 F7`.
pub fn xg_system_on() -> (r: Vec<u8>)
    ensures
        r@ == seq![0xF0u8, 0x43u8, 0x10u8, 0x4Cu8, 0x00u8, 0x00u8, 0x7Eu8, 0x00u8, 0xF7u8],
{
    let r = param_change(Device::Param(0), [0x00, 0x00, 0x7E], &[0x00]);
    assert(device_byte(Device::Param(0)) == 0x10) by (bit_vector);
    assert(r@ =~= seq![0xF0u8, 0x43u8, 0x10u8, 0x4Cu8, 0x00u8, 0x00u8, 0x7Eu8, 0x00u8, 0xF7u8]);
    r
}

/// All Parameter Reset: `F0 43 10 4C 00 00 7F 00 F7`.
pub fn all_reset() -> (r: Vec<u8>)
    ensures
        r@ == seq![0xF0u8, 0x43u8, 0x10u8, 0x4Cu8, 0x00u8, 0x00u8, 0x7Fu8, 0x00u8, 0xF7u8],
{
    let r = param_change(Device::Param(0), [0x00, 0x00, 0x7F], &[0x00]);
    assert(device_byte(Device::Param(0)) == 0x10) by (bit_vector);
    assert(r@ =~= seq![0xF0u8, 0x43u8, 0x10u8, 0x4Cu8, 0x00u8, 0x00u8, 0x7Fu8, 0x00u8, 0xF7u8]);
    r
}

/// Adds one byte to the running 7-bit sum, the way the checksum loops do.
fn add7(sum: u8, b: u8) -> (r: u8)
    requires
        sum < 128,
        sum + b <= 255,
    ensures
        r == (sum + b) % 128,
{
    let t: u8 = sum + b;
    assert(t & 0x7F == t % 128) by (bit_vector);
    t & 0x7F
}

/// Two's complement of a 7-bit sum, masked to 7 bits.
fn negate7(sum: u8) -> (r: u8)
    requires
        sum < 128,
    ensures
        r == (128 - sum) % 128,
{
    let r = (!sum).wrapping_add(1) & 0x7F;
    assert(sum < 128 ==> ((!sum).wrapping_add(1) & 0x7F) as int == (128 - sum) % 128) by (bit_vector);
    r
}

/// Bulk checksum: `cs = (~(Σ(addr+data) & 127) + 1) & 127`.
pub fn checksum(addr: &[u8], data: &[u8]) -> (r: u8)
    requires
        checksum_fits(addr@ + data@),
    ensures
        r == xg_checksum(addr@ + data@),
{
    let ghost s = addr@ + data@;
    let mut sum: u8 = 0;
    let mut i: usize = 0;
    while i < addr.len()
        invariant
            s == addr@ + data@,
            checksum_fits(s),
            0 <= i <= addr.len(),
            sum == byte_sum(s.take(i as int)) % 128,
        decreases addr.len() - i,
    {
        assert(s[i as int] == addr@[i as int]);
        proof {
            lemma_byte_sum_take_step(s, i as int);
            lemma_fits_at(s, i as int);
        }
        sum = add7(sum, addr[i]);
        i = i + 1;
    }
    let mut j: usize = 0;
    while j < data.len()
        invariant
            s == addr@ + data@,
            checksum_fits(s),
            0 <= j <= data.len(),
            sum == byte_sum(s.take(addr.len() + j)) % 128,
        decreases data.len() - j,
    {
        let ghost k: int = addr.len() + j;
        assert(s[k] == data@[j as int]);
        proof {
            lemma_byte_sum_take_step(s, k);
            lemma_fits_at(s, k);
        }
        sum = add7(sum, data[j]);
        j = j + 1;
    }
    assert(s.take(s.len() as int) =~= s);
    negate7(sum)
}

/// Bulk Data Dump: `F0 43 0n 4C [bb bb] [addr3] [data...] [cs] F7`.
/// `bb bb` is the data length as two 7-bit bytes (its low 14 bits); `cs` is the bulk checksum.
pub fn bulk_dump(device: Device, addr: [u8; 3], data: &[u8]) -> (r: Vec<u8>)
    requires
        checksum_fits(addr@ + data@),
    ensures
        r@ == bulk_dump_bytes(device_byte(device), addr@, data@),
{
    let len = data.len();
    let byte_count = len as u16;
    let cs = checksum(addr.as_slice(), data);
    let hi = ((byte_count >> 7) & 0x7F) as u8;
    let lo = (byte_count & 0x7F) as u8;
    assert(((len as u16) >> 7) & 0x7F == ((len / 128) % 128) as u16) by (bit_vector);
    assert((len as u16) & 0x7F == (len % 128) as u16) by (bit_vector);
    let mut out: Vec<u8> = Vec::new();
    out.push(0xF0);
    out.push(0x43);
    out.push(device.byte());
    out.push(0x4C);
    out.push(hi);
    out.push(lo);
    push_all(&mut out, addr.as_slice());
    push_all(&mut out, data);
    out.push(cs);
    out.push(0xF7);
    assert(out@ =~= bulk_dump_bytes(device_byte(device), addr@, data@));
    out
}

/// Parameter Request: `F0 43 3n 4C [addr3] F7`.
pub fn param_request(device: Device, addr: [u8; 3]) -> (r: Vec<u8>)
    ensures
        r@ == request_bytes(device_byte(device), addr@),
{
    let mut out = vec![0xF0, 0x43, device.byte(), 0x4C];
    push_all(&mut out, addr.as_slice());
    out.push(0xF7);
    assert(out@ =~= request_bytes(device_byte(device), addr@));
    out
}

/// Dump Request: `F0 43 2n 4C [addr3] F7`; the device answers with one bulk dump.
pub fn dump_request(device: Device, addr: [u8; 3]) -> (r: Vec<u8>)
    ensures
        r@ == request_bytes(device_byte(device), addr@),
{
    let mut out = vec![0xF0, 0x43, device.byte(), 0x4C];
    push_all(&mut out, addr.as_slice());
    out.push(0xF7);
    assert(out@ =~= request_bytes(device_byte(device), addr@));
    out
}

/// The error text of a part number out of range.
pub open spec fn part_range_error(part: u8) -> Seq<char> {
    "part 超范围: "@ + decimal(part as nat) + " (0-31)"@
}

/// One Multi Part parameter (`08 part offset`), part 0-31 (0 is hardware Part 1).
pub fn part_param(device: Device, part: u8, offset: u8, value: u8) -> (r: Result<Vec<u8>, String>)
    ensures
        part <= 31 ==> (r matches Ok(v) && v@ == param_change_bytes(
            device_byte(device),
            seq![0x08u8, part, offset],
            seq![value],
        )),
        part > 31 ==> (r matches Err(e) && e@ == part_range_error(part)),
{
    if part > 31 {
        let mut e = String::new();
        push_str(&mut e, "part 超范围: ");
        push_decimal(&mut e, part as u64);
        push_str(&mut e, " (0-31)");
        return Err(e);
    }
    let addr = [0x08u8, part, offset];
    let r = param_change(device, addr, &[value]);
    assert(addr@ =~= seq![0x08u8, part, offset]);
    Ok(r)
}

/// One System parameter (master volume and others), `addr = [h, m, l]`.
pub fn system_param(device: Device, addr: [u8; 3], value: u8) -> (r: Vec<u8>)
    ensures
        r@ == param_change_bytes(device_byte(device), addr@, seq![value]),
{
    let r = param_change(device, addr, &[value]);
    r
}

/// The smaller of a part number and 31.
pub open spec fn clamp_part(part: u8) -> u8 {
    if part > 31 { 31 } else { part }
}

/// The three channel messages that select a voice: `Bn 00 msb`, `Bn 20 lsb`, `Cn pc`.
pub open spec fn voice_select_seq(channel: u8, msb: u8, lsb: u8, pc: u8) -> Seq<Seq<u8>> {
    seq![
        seq![0xB0u8 | (channel & 0x0F), 0x00u8, msb & 0x7F],
        seq![0xB0u8 | (channel & 0x0F), 0x20u8, lsb & 0x7F],
        seq![0xC0u8 | (channel & 0x0F), pc & 0x7F],
    ]
}

/// Voice selection as MIDI channel messages (Bank MSB, Bank LSB, Program Change), channel 0-15.
pub fn voice_select_messages(channel: u8, msb: u8, lsb: u8, pc: u8) -> (r: Vec<Vec<u8>>)
    ensures
        r@.len() == 3,
        forall|i: int| 0 <= i < 3 ==> #[trigger] r@[i]@ == voice_select_seq(channel, msb, lsb, pc)[i],
{
    let ch = channel & 0x0F;
    let r = vec![
        vec![0xB0 | ch, 0x00, msb & 0x7F],
        vec![0xB0 | ch, 0x20, lsb & 0x7F],
        vec![0xC0 | ch, pc & 0x7F],
    ];
    assert(r@[0]@ =~= voice_select_seq(channel, msb, lsb, pc)[0]);
    assert(r@[1]@ =~= voice_select_seq(channel, msb, lsb, pc)[1]);
    assert(r@[2]@ =~= voice_select_seq(channel, msb, lsb, pc)[2]);
    r
}

/// The three voice-select messages as one contiguous send buffer.
pub fn voice_select_bytes(channel: u8, msb: u8, lsb: u8, pc: u8) -> (r: Vec<u8>)
    ensures
        r@ == voice_select_seq(channel, msb, lsb, pc)[0] + voice_select_seq(channel, msb, lsb, pc)[1]
            + voice_select_seq(channel, msb, lsb, pc)[2],
{
    let msgs = voice_select_messages(channel, msb, lsb, pc);
    let mut out: Vec<u8> = Vec::new();
    push_all(&mut out, msgs[0].as_slice());
    push_all(&mut out, msgs[1].as_slice());
    push_all(&mut out, msgs[2].as_slice());
    out
}

/// Voice selection by XG Multi Part SysEx (independent of channel routing):
/// `08 part 01 msb`, `08 part 02 lsb`, `08 part 03 pc`, part clamped to 31, values masked to 7 bits.
pub fn part_voice_select_messages(part: u8, msb: u8, lsb: u8, pc: u8, device: Device) -> (r: Vec<Vec<u8>>)
    ensures
        r@.len() == 3,
        r@[0]@ == param_change_bytes(device_byte(device), seq![0x08u8, clamp_part(part), 0x01u8], seq![msb & 0x7F]),
        r@[1]@ == param_change_bytes(device_byte(device), seq![0x08u8, clamp_part(part), 0x02u8], seq![lsb & 0x7F]),
        r@[2]@ == param_change_bytes(device_byte(device), seq![0x08u8, clamp_part(part), 0x03u8], seq![pc & 0x7F]),
{
    let part = if part > 31 { 31 } else { part };
    let a0 = [0x08u8, part, mp::BANK_SELECT_MSB];
    let a1 = [0x08u8, part, mp::BANK_SELECT_LSB];
    let a2 = [0x08u8, part, mp::PROGRAM_NUMBER];
    let m0 = param_change(device, a0, &[msb & 0x7F]);
    let m1 = param_change(device, a1, &[lsb & 0x7F]);
    let m2 = param_change(device, a2, &[pc & 0x7F]);
    assert(a0@ =~= seq![0x08u8, part, 0x01u8]);
    assert(a1@ =~= seq![0x08u8, part, 0x02u8]);
    assert(a2@ =~= seq![0x08u8, part, 0x03u8]);
    let mut r: Vec<Vec<u8>> = Vec::new();
    r.push(m0);
    r.push(m1);
    r.push(m2);
    r
}

/// Reads one part parameter: an XG Parameter Request `F0 43 3n 4C 08 part off F7`
/// (part clamped to 31); the MU90 answers with one parameter change.
pub fn read_part_voice_param(part: u8, off: u8, device: Device) -> (r: Vec<u8>)
    ensures
        r@ == request_bytes(device_byte(device), seq![0x08u8, clamp_part(part), off]),
{
    let part = if part > 31 { 31 } else { part };
    let addr = [0x08u8, part, off];
    let mut out = vec![0xF0, 0x43, device.byte(), 0x4C];
    push_all(&mut out, addr.as_slice());
    out.push(0xF7);
    assert(out@ =~= request_bytes(device_byte(device), seq![0x08u8, part, off]));
    out
}

/// RQ1-style checksum over the two 7-bit count bytes and the address (kept for bulk requests).
#[allow(dead_code)]
fn checksum_for_request(addr: &[u8], byte_count: u16) -> (r: u8)
    requires
        checksum_fits(seq![((byte_count >> 7) & 0x7F) as u8, (byte_count & 0x7F) as u8] + addr@),
    ensures
        r == xg_checksum(seq![((byte_count >> 7) & 0x7F) as u8, (byte_count & 0x7F) as u8] + addr@),
{
    let ghost s = seq![((byte_count >> 7) & 0x7F) as u8, (byte_count & 0x7F) as u8] + addr@;
    let hi = ((byte_count >> 7) & 0x7F) as u8;
    let lo = (byte_count & 0x7F) as u8;
    assert((byte_count >> 7) & 0x7F < 128) by (bit_vector);
    assert(byte_count & 0x7F < 128) by (bit_vector);
    let mut sum: u8 = 0;
    proof {
        lemma_byte_sum_take_step(s, 0);
        assert(s.take(0) =~= Seq::<u8>::empty());
    }
    sum = add7(sum, hi);
    proof { lemma_byte_sum_take_step(s, 1); }
    sum = add7(sum, lo);
    let mut i: usize = 0;
    while i < addr.len()
        invariant
            s == seq![hi, lo] + addr@,
            checksum_fits(s),
            0 <= i <= addr.len(),
            sum == byte_sum(s.take(i + 2)) % 128,
        decreases addr.len() - i,
    {
        assert(s[i + 2] == addr@[i as int]);
        proof {
            lemma_byte_sum_take_step(s, i + 2);
            lemma_fits_at(s, i + 2);
        }
        sum = add7(sum, addr[i]);
        i = i + 1;
    }
    assert(s.take(s.len() as int) =~= s);
    negate7(sum)
}

/// Largest data length a single bulk dump can announce (14-bit byte count).
pub const MAX_CHUNK: usize = 16383;

/// Bytes per bulk chunk: the requested size, at most `MAX_CHUNK`.
pub open spec fn chunk_size(per_chunk: usize) -> nat {
    if per_chunk < 16383 { per_chunk as nat } else { 16383 }
}

/// Number of chunks that cover `len` bytes, `per` bytes each (`per > 0`).
pub open spec fn chunk_count(len: nat, per: nat) -> nat {
    if per == 0 { 0 } else { ((len + per - 1) / (per as int)) as nat }
}

/// The data of chunk `k`: bytes `k*per .. min((k+1)*per, len)`.
pub open spec fn chunk_data(data: Seq<u8>, k: nat, per: nat) -> Seq<u8> {
    let start: int = (k * per) as int;
    let end: int = if start + per < data.len() { start + per } else { data.len() as int };
    data.subrange(start as int, end)
}

/// The 21-bit value of a three-byte address, 7 bits per byte (high byte first).
pub open spec fn addr_value(a: Seq<u8>) -> int {
    a[0] * 16384 + a[1] * 128 + a[2]
}

/// The address of the chunk starting at data offset `off`: the base address plus `off`,
/// counted in 7-bit digits that carry into the next byte up (modulo 2^21).
pub open spec fn chunk_addr(base: Seq<u8>, off: nat) -> Seq<u8> {
    let t = (addr_value(base) + off) % 2097152;
    seq![((t / 16384) % 128) as u8, ((t / 128) % 128) as u8, (t % 128) as u8]
}

/// Every chunk's address and data pass the checksum loop (a `u8` running sum) without
/// overflow; chunk addresses are 7-bit, so this only asks something of data bytes above 128.
pub open spec fn chunks_fit(base: Seq<u8>, data: Seq<u8>, per: nat) -> bool {
    forall|k: nat| #![trigger chunk_data(data, k, per)]
        k < chunk_count(data.len(), per) ==> checksum_fits(
            chunk_addr(base, k * per) + chunk_data(data, k, per),
        )
}

/// Bytes below 128 never overflow the checksum loop.
proof fn lemma_seven_bit_fits(s: Seq<u8>)
    requires
        forall|i: int| 0 <= i < s.len() ==> #[trigger] s[i] < 128,
    ensures
        checksum_fits(s),
{
    reveal(checksum_fits);
}

/// Data of 7-bit bytes (as XG data is) can be sent in chunks of any size.
pub proof fn seven_bit_data_fits(base: Seq<u8>, data: Seq<u8>, per: nat)
    requires
        base.len() == 3,
        forall|i: int| 0 <= i < data.len() ==> #[trigger] data[i] < 128,
    ensures
        chunks_fit(base, data, per),
{
    assert forall|k: nat| k < chunk_count(data.len(), per) implies checksum_fits(
        chunk_addr(base, k * per) + #[trigger] chunk_data(data, k, per),
    ) by {
        let s = chunk_addr(base, k * per) + chunk_data(data, k, per);
        let start: int = (k * per) as int;
        let end: int = if start + per < data.len() { start + per } else { data.len() as int };
        assert(0 <= start) by (nonlinear_arith)
            requires k >= 0, per >= 0, start == k * per;
        assert(per > 0);
        let q = (data.len() + per - 1) / (per as int);
        assert(start < data.len()) by (nonlinear_arith)
            requires
                per > 0,
                k < q,
                q == (data.len() + per - 1) / (per as int),
                start == k * per;
        assert forall|i: int| 0 <= i < s.len() implies #[trigger] s[i] < 128 by {
            if i >= 3 {
                assert(s[i] == data[start + i - 3]);
            }
        }
        lemma_seven_bit_fits(s);
    }
}

proof fn lemma_chunk_count(len: nat, per: nat, n: nat)
    requires
        per > 0,
        n * per >= len,
        n == 0 || (n - 1) * per < len,
    ensures
        chunk_count(len, per) == n,
{
    if n == 0 {
        assert(len == 0) by (nonlinear_arith)
            requires n * per >= len, n == 0;
        assert((per - 1) / (per as int) == 0) by (nonlinear_arith)
            requires per > 0;
    } else {
        let q = (len + per - 1) / (per as int);
        assert(q == n) by (nonlinear_arith)
            requires
                per > 0,
                n * per >= len,
                (n - 1) * per < len,
                q == (len + per - 1) / (per as int),
                n > 0;
    }
}

/// Bulk dump split into chunks of at most `per_chunk` bytes (and at most 16383), each chunk
/// addressed at the base address advanced by the chunk's data offset, with carry between
/// the 7-bit address bytes.
pub fn bulk_dump_chunked(device: Device, base_addr: [u8; 3], data: &[u8], per_chunk: usize) -> (r: Vec<Vec<u8>>)
    requires
        per_chunk > 0 || data@.len() == 0,
        chunks_fit(base_addr@, data@, chunk_size(per_chunk)),
    ensures
        r@.len() == chunk_count(data@.len(), chunk_size(per_chunk)),
        forall|k: int| 0 <= k < r@.len() ==> #[trigger] r@[k]@ == bulk_dump_bytes(
            device_byte(device),
            chunk_addr(base_addr@, (k * chunk_size(per_chunk)) as nat),
            chunk_data(data@, k as nat, chunk_size(per_chunk)),
        ),
{
    let per: usize = if per_chunk < MAX_CHUNK { per_chunk } else { MAX_CHUNK };
    let ghost pern: nat = chunk_size(per_chunk);
    let ghost len: nat = data@.len();
    let mut out: Vec<Vec<u8>> = Vec::new();
    let mut off: usize = 0;
    if data.len() == 0 {
        proof { if per > 0 { lemma_chunk_count(0, pern, 0); } }
        return out;
    }
    while off < data.len()
        invariant
            per == pern,
            per > 0,
            len == data@.len(),
            chunks_fit(base_addr@, data@, pern),
            off <= data.len(),
            off < data.len() ==> off == out@.len() * pern,
            out@.len() * pern >= off,
            out@.len() == 0 || (out@.len() - 1) * pern < len,
            forall|k: int| 0 <= k < out@.len() ==> #[trigger] out@[k]@ == bulk_dump_bytes(
                device_byte(device),
                chunk_addr(base_addr@, (k * pern) as nat),
                chunk_data(data@, k as nat, pern),
            ),
        decreases data.len() - off,
    {
        let ghost k: nat = out@.len();
        let take: usize = if data.len() - off < per { data.len() - off } else { per };
        // base + offset in 7-bit digits, carrying upward (the address wraps at 2^21)
        let b: u64 = base_addr[0] as u64 * 16384 + base_addr[1] as u64 * 128 + base_addr[2] as u64;
        let o: u64 = (off % 2097152) as u64;
        let total: u64 = (b + o) % 2097152;
        proof {
            vstd::arithmetic::div_mod::lemma_add_mod_noop(b as int, off as int, 2097152);
            vstd::arithmetic::div_mod::lemma_add_mod_noop(b as int, o as int, 2097152);
            vstd::arithmetic::div_mod::lemma_mod_twice(off as int, 2097152);
            assert(total as int == (addr_value(base_addr@) + off) % 2097152);
        }
        let full_addr: [u8; 3] = [
            ((total / 16384) % 128) as u8,
            ((total / 128) % 128) as u8,
            (total % 128) as u8,
        ];
        assert(full_addr@ =~= chunk_addr(base_addr@, k * pern));
        let piece = &data[off..off + take];
        assert(piece@ =~= chunk_data(data@, k, pern));
        proof {
            assert(k < chunk_count(len, pern)) by {
                let q = (len + pern - 1) / (pern as int);
                assert(k < q) by (nonlinear_arith)
                    requires
                        pern > 0,
                        k * pern < len,
                        q == (len + pern - 1) / (pern as int);
            }
            assert(checksum_fits(chunk_addr(base_addr@, k * pern) + chunk_data(data@, k, pern)));
        }
        let msg = bulk_dump(device, full_addr, piece);
        out.push(msg);
        off = off + take;
        proof {
            assert((k + 1) * pern == k * pern + pern) by (nonlinear_arith);
        }
    }
    proof { lemma_chunk_count(len, pern, out@.len()); }
    out
}

/// Assembles `(part, msb, lsb, pc)` from the replies to a part voice read.
/// Accepts one bulk dump of the part block (`08 nn 00` or `08 nn 01`) or three
/// parameter-change replies (`08 nn 01/02/03`).
#[derive(Debug, Clone)]
pub struct PartVoiceCollector {
    part: Option<u8>,
    msb: Option<u8>,
    lsb: Option<u8>,
    pc: Option<u8>,
}

/// Collected state: (part, msb, lsb, pc).
pub type CollectorState = (Option<u8>, Option<u8>, Option<u8>, Option<u8>);

impl View for PartVoiceCollector {
    type V = CollectorState;

    closed spec fn view(&self) -> CollectorState {
        (self.part, self.msb, self.lsb, self.pc)
    }
}

/// Bulk dump of a Multi Part block: `F0 43 0n 4C bb bb 08 nn off [data..] cs F7`, `off` 00 or 01.
/// From offset 00 the first data byte is Element Reserve and msb/lsb/pc follow it;
/// from offset 01 the data starts with msb/lsb/pc.
pub open spec fn bulk_dump_reply(b: Seq<u8>) -> Option<(u8, u8, u8, u8)> {
    if b.len() < 12 || b[0] != 0xF0 || b[1] != 0x43 || b[3] != 0x4C || b[b.len() - 1] != 0xF7
        || (b[2] & 0xF0) != 0x00 {
        None
    } else if b[6] != 0x08 {
        None
    } else {
        let data = b.subrange(9, b.len() - 2);
        let m: int = if b[8] == 0x00 { 1 } else { 0 };
        if b[8] != 0x00 && b[8] != 0x01 {
            None
        } else if data.len() < m + 3 {
            None
        } else {
            Some((b[7], data[m], data[m + 1], data[m + 2]))
        }
    }
}

/// Parameter change reply of a Multi Part parameter: `F0 43 1n 4C 08 part off val F7`.
pub open spec fn dt1_reply(b: Seq<u8>) -> Option<(u8, u8, u8)> {
    if b.len() != 9 || b[0] != 0xF0 || b[1] != 0x43 || b[3] != 0x4C || b[8] != 0xF7
        || (b[2] & 0xF0) != 0x10 || b[4] != 0x08 {
        None
    } else {
        Some((b[5], b[6], b[7]))
    }
}

/// Whether all of msb, lsb and pc are known.
pub open spec fn voice_complete(s: CollectorState) -> bool {
    s.1 is Some && s.2 is Some && s.3 is Some
}

/// The state after feeding one message, and whether the voice is complete.
/// A bulk reply sets all four fields. A parameter-change reply for another part first
/// clears msb/lsb/pc; then offset 01/02/03 stores msb/lsb/pc, any other offset stores nothing
/// and reports false.
pub open spec fn feed_step(s: CollectorState, b: Seq<u8>) -> (CollectorState, bool) {
    match bulk_dump_reply(b) {
        Some((p, m, l, c)) => ((Some(p), Some(m), Some(l), Some(c)), true),
        None => match dt1_reply(b) {
            Some((p, off, val)) => {
                let base: CollectorState = if s.0 != Some(p) {
                    (Some(p), None, None, None)
                } else {
                    s
                };
                if off == 0x01 {
                    let n = (base.0, Some(val), base.2, base.3);
                    (n, voice_complete(n))
                } else if off == 0x02 {
                    let n = (base.0, base.1, Some(val), base.3);
                    (n, voice_complete(n))
                } else if off == 0x03 {
                    let n = (base.0, base.1, base.2, Some(val));
                    (n, voice_complete(n))
                } else {
                    (base, false)
                }
            },
            None => (s, false),
        },
    }
}

/// The collected voice once all four fields are known.
pub open spec fn collected(s: CollectorState) -> Option<(u8, u8, u8, u8)> {
    match s {
        (Some(p), Some(m), Some(l), Some(c)) => Some((p, m, l, c)),
        _ => None,
    }
}

impl Default for PartVoiceCollector {
    fn default() -> (r: Self)
        ensures
            r@ == (None::<u8>, None::<u8>, None::<u8>, None::<u8>),
    {
        PartVoiceCollector { part: None, msb: None, lsb: None, pc: None }
    }
}

impl PartVoiceCollector {
    pub fn new() -> (r: Self)
        ensures
            r@ == (None::<u8>, None::<u8>, None::<u8>, None::<u8>),
    {
        PartVoiceCollector { part: None, msb: None, lsb: None, pc: None }
    }

    /// Feeds one incoming SysEx (complete F0..F7); true once msb, lsb and pc of the part are known.
    pub fn feed(&mut self, bytes: &[u8]) -> (done: bool)
        ensures
            (final(self)@, done) == feed_step(old(self)@, bytes@),
    {
        if let Some(r) = Self::try_bulk_dump(bytes) {
            let (part, msb, lsb, pc) = r;
            self.part = Some(part);
            self.msb = Some(msb);
            self.lsb = Some(lsb);
            self.pc = Some(pc);
            return true;
        }
        if let Some((part, off, val)) = Self::try_dt1(bytes) {
            let same = match self.part {
                Some(p) => p == part,
                None => false,
            };
            if !same {
                self.part = Some(part);
                self.msb = None;
                self.lsb = None;
                self.pc = None;
            }
            if off == mp::BANK_SELECT_MSB {
                self.msb = Some(val);
            } else if off == mp::BANK_SELECT_LSB {
                self.lsb = Some(val);
            } else if off == mp::PROGRAM_NUMBER {
                self.pc = Some(val);
            } else {
                return false;
            }
            return self.msb.is_some() && self.lsb.is_some() && self.pc.is_some();
        }
        false
    }

    /// Parses a bulk dump reply of a part block: `Some((part, msb, lsb, pc))`.
    pub fn try_bulk_dump(bytes: &[u8]) -> (r: Option<(u8, u8, u8, u8)>)
        ensures
            r == bulk_dump_reply(bytes@),
    {
        if bytes.len() < 12 || bytes[0] != 0xF0 || bytes[1] != 0x43 || bytes[3] != 0x4C
            || bytes[bytes.len() - 1] != 0xF7 || (bytes[2] & 0xF0) != 0x00 {
            return None;
        }
        let addr_major = bytes[6];
        if addr_major != 0x08 {
            return None;
        }
        let part = bytes[7];
        let off = bytes[8];
        let data = &bytes[9..bytes.len() - 2];
        let msb_off: usize = if off == 0x00 {
            1
        } else if off == 0x01 {
            0
        } else {
            return None;
        };
        if data.len() < msb_off + 3 {
            return None;
        }
        Some((part, data[msb_off], data[msb_off + 1], data[msb_off + 2]))
    }

    /// Parses a parameter-change reply `F0 43 1n 4C 08 bb cc dd F7`: `Some((part, offset, value))`.
    pub fn try_dt1(bytes: &[u8]) -> (r: Option<(u8, u8, u8)>)
        ensures
            r == dt1_reply(bytes@),
    {
        if bytes.len() != 9 || bytes[0] != 0xF0 || bytes[1] != 0x43 || bytes[3] != 0x4C
            || bytes[8] != 0xF7 || (bytes[2] & 0xF0) != 0x10 || bytes[4] != 0x08 {
            return None;
        }
        Some((bytes[5], bytes[6], bytes[7]))
    }

    /// The collected (part, msb, lsb, pc), pc 0-based.
    pub fn result(&self) -> (r: Option<(u8, u8, u8, u8)>)
        ensures
            r == collected(self@),
    {
        match (self.part, self.msb, self.lsb, self.pc) {
            (Some(p), Some(m), Some(l), Some(c)) => Some((p, m, l, c)),
            _ => None,
        }
    }

    pub fn reset(&mut self)
        ensures
            final(self)@ == (None::<u8>, None::<u8>, None::<u8>, None::<u8>),
    {
        self.part = None;
        self.msb = None;
        self.lsb = None;
        self.pc = None;
    }
}

proof fn lemma_param_device_nibble(n: u8)
    ensures
        device_byte(Device::Param(n)) & 0xF0 == 0x10,
        device_byte(Device::Bulk(n)) & 0xF0 == 0x00,
{
    assert((0x10u8 | (n & 0x0F)) & 0xF0 == 0x10) by (bit_vector);
    assert((n & 0x0F) & 0xF0 == 0x00) by (bit_vector);
}

/// A Multi Part parameter change sent with a parameter-change device number is read back
/// by the reply parser as exactly its (part, offset, value).
pub proof fn dt1_reply_of_param_change(n: u8, part: u8, off: u8, val: u8)
    ensures
        dt1_reply(param_change_bytes(device_byte(Device::Param(n)), seq![0x08u8, part, off], seq![val]))
            == Some((part, off, val)),
{
    lemma_param_device_nibble(n);
    let b = param_change_bytes(device_byte(Device::Param(n)), seq![0x08u8, part, off], seq![val]);
    assert(b =~= seq![0xF0u8, 0x43u8, device_byte(Device::Param(n)), 0x4Cu8, 0x08u8, part, off, val, 0xF7u8]);
}

/// A bulk dump of a part block addressed at `08 part 01` (msb first) is read back by the
/// bulk reply parser as (part, data[0], data[1], data[2]); addressed at `08 part 00`
/// (Element Reserve first) as (part, data[1], data[2], data[3]).
pub proof fn bulk_reply_of_bulk_dump(n: u8, part: u8, data: Seq<u8>)
    ensures
        data.len() >= 3 ==> bulk_dump_reply(
            bulk_dump_bytes(device_byte(Device::Bulk(n)), seq![0x08u8, part, 0x01u8], data),
        ) == Some((part, data[0], data[1], data[2])),
        data.len() >= 4 ==> bulk_dump_reply(
            bulk_dump_bytes(device_byte(Device::Bulk(n)), seq![0x08u8, part, 0x00u8], data),
        ) == Some((part, data[1], data[2], data[3])),
{
    lemma_param_device_nibble(n);
    let b1 = bulk_dump_bytes(device_byte(Device::Bulk(n)), seq![0x08u8, part, 0x01u8], data);
    let b0 = bulk_dump_bytes(device_byte(Device::Bulk(n)), seq![0x08u8, part, 0x00u8], data);
    assert(b1.subrange(9, b1.len() - 2) =~= data);
    assert(b0.subrange(9, b0.len() - 2) =~= data);
    assert(b1[6] == 0x08 && b1[7] == part && b1[8] == 0x01);
    assert(b0[6] == 0x08 && b0[7] == part && b0[8] == 0x00);
    assert(b1[b1.len() - 1] == 0xF7);
    assert(b0[b0.len() - 1] == 0xF7);
}

/// Feeding the three parameter-change replies of one part (msb, then lsb, then pc) to a
/// collector in any state completes it on the third reply with exactly that voice; a
/// collector that held another part reports incomplete after the first two.
pub proof fn collector_assembles_dt1_replies(s: CollectorState, n: u8, part: u8, msb: u8, lsb: u8, pc: u8)
    ensures
        ({
            let m1 = param_change_bytes(device_byte(Device::Param(n)), seq![0x08u8, part, 0x01u8], seq![msb]);
            let m2 = param_change_bytes(device_byte(Device::Param(n)), seq![0x08u8, part, 0x02u8], seq![lsb]);
            let m3 = param_change_bytes(device_byte(Device::Param(n)), seq![0x08u8, part, 0x03u8], seq![pc]);
            let r1 = feed_step(s, m1);
            let r2 = feed_step(r1.0, m2);
            let r3 = feed_step(r2.0, m3);
            &&& s.0 != Some(part) ==> !r1.1 && !r2.1
            &&& r3.1
            &&& collected(r3.0) == Some((part, msb, lsb, pc))
        }),
{
    dt1_reply_of_param_change(n, part, 0x01, msb);
    dt1_reply_of_param_change(n, part, 0x02, lsb);
    dt1_reply_of_param_change(n, part, 0x03, pc);
    let m1 = param_change_bytes(device_byte(Device::Param(n)), seq![0x08u8, part, 0x01u8], seq![msb]);
    let m2 = param_change_bytes(device_byte(Device::Param(n)), seq![0x08u8, part, 0x02u8], seq![lsb]);
    let m3 = param_change_bytes(device_byte(Device::Param(n)), seq![0x08u8, part, 0x03u8], seq![pc]);
    assert(m1.len() == 9 && m2.len() == 9 && m3.len() == 9);
}

/// A bulk reply alone completes a collector in any state with the voice it carries.
pub proof fn collector_takes_bulk_reply(s: CollectorState, b: Seq<u8>)
    ensures
        bulk_dump_reply(b) is Some ==> ({
            let r = feed_step(s, b);
            r.1 && collected(r.0) == bulk_dump_reply(b)
        }),
{
}


/// The byte count of a bulk dump is the data length in two 7-bit digits (high first), for
/// data under 16384 bytes; the message is the header, count, address, data, checksum and F7.
pub proof fn bulk_dump_counts_its_data(dev: u8, addr: Seq<u8>, data: Seq<u8>)
    requires
        data.len() < 16384,
    ensures
        bulk_dump_bytes(dev, addr, data).len() == addr.len() + data.len() + 8,
        bulk_dump_bytes(dev, addr, data)[4] < 128,
        bulk_dump_bytes(dev, addr, data)[5] < 128,
        bulk_dump_bytes(dev, addr, data)[4] * 128 + bulk_dump_bytes(dev, addr, data)[5] == data.len(),
{
    let len = data.len();
    assert(len / 128 < 128) by (nonlinear_arith)
        requires len < 16384;
    assert((len / 128) * 128 + len % 128 == len) by (nonlinear_arith);
}

} // verus!
