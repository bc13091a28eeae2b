//! Analysis of a captured system dump: the captured messages (kept as hexadecimal text) are
//! read back into bytes, the Yamaha bulk dumps and parameter changes among them are reduced
//! to a table address -> last value (with the number of writes), the multi-part blocks
//! `08 nn 00` of that table give each part's voice, and the table is rendered as text.

use vstd::prelude::*;
use vstd::string::*;
use vstd::utf8::{encode_utf8, encode_utf8_valid_utf8, is_char_boundary, valid_utf8};
use crate::text::{decimal, hex2, push_decimal, push_hex2, push_str, push_char};

verus! {

// ---------- hexadecimal text ----------

/// Value of a hexadecimal digit given as an ASCII byte (either case).
pub open spec fn hex_digit(c: u8) -> Option<u8> {
    if 48 <= c && c <= 57 {
        Some((c - 48) as u8)
    } else if 65 <= c && c <= 70 {
        Some((c - 55) as u8)
    } else if 97 <= c && c <= 102 {
        Some((c - 87) as u8)
    } else {
        None
    }
}

/// A two-byte ASCII field read as a base-16 byte: two digits, or a plus sign and one digit.
pub open spec fn hex_pair(a: u8, b: u8) -> Option<u8> {
    if a == 43 {
        hex_digit(b)
    } else {
        match (hex_digit(a), hex_digit(b)) {
            (Some(x), Some(y)) => Some((16 * x + y) as u8),
            _ => None,
        }
    }
}

/// Reading the first `n` two-byte fields of the UTF-8 bytes `b` of a text as base-16 bytes,
/// field after field: `Some(Some(bytes))` when all are valid, `Some(None)` when reading stops
/// at a field that is not (two ASCII digits, or a plus sign and a digit), and `None` when a
/// field would end inside a character or past the end of the text.
pub open spec fn hex_fields(b: Seq<u8>, n: int) -> Option<Option<Seq<u8>>>
    decreases n,
{
    if n <= 0 {
        Some(Some(Seq::empty()))
    } else {
        match hex_fields(b, n - 1) {
            Some(Some(s)) => {
                let i = 2 * (n - 1);
                if !is_char_boundary(b, i + 2) {
                    None
                } else if b[i] < 128 && b[i + 1] < 128 {
                    match hex_pair(b[i], b[i + 1]) {
                        Some(x) => Some(Some(s.push(x))),
                        None => Some(None),
                    }
                } else {
                    Some(None)
                }
            },
            other => other,
        }
    }
}

fn digit_value(c: u8) -> (r: Option<u8>)
    ensures
        r == hex_digit(c),
{
    if 48 <= c && c <= 57 {
        Some(c - 48)
    } else if 65 <= c && c <= 70 {
        Some(c - 55)
    } else if 97 <= c && c <= 102 {
        Some(c - 87)
    } else {
        None
    }
}

/// Reads the first `n` two-byte fields of `text` (see `hex_fields`).
fn read_fields(text: &str, n: usize) -> (r: Option<Option<Vec<u8>>>)
    ensures
        match r {
            None => hex_fields(text.spec_bytes(), n as int) is None,
            Some(None) => hex_fields(text.spec_bytes(), n as int) == Some(None::<Seq<u8>>),
            Some(Some(v)) => hex_fields(text.spec_bytes(), n as int) == Some(Some(v@)),
        },
{
    let bytes = text.as_bytes();
    let ghost b = text.spec_bytes();
    proof { encode_utf8_valid_utf8(text@); }
    let mut out: Vec<u8> = Vec::new();
    let mut k: usize = 0;
    while k < n
        invariant
            bytes@ == b,
            b == text.spec_bytes(),
            valid_utf8(b),
            0 <= k <= n,
            hex_fields(b, k as int) == Some(Some(out@)),
        decreases n - k,
    {
        proof { lemma_hex_fields_stop(b, k as int + 1, n as int); }
        if bytes.len() < 2 || k > (bytes.len() - 2) / 2 {
            // the field would run past the end
            assert(!is_char_boundary(b, 2 * k + 2));
            return None;
        }
        let i = 2 * k;
        if !text.is_char_boundary(i + 2) {
            return None;
        }
        let a = bytes[i];
        let c = bytes[i + 1];
        if a >= 128 || c >= 128 {
            return Some(None);
        }
        let v = if a == 43 {
            digit_value(c)
        } else {
            match (digit_value(a), digit_value(c)) {
                (Some(x), Some(y)) => Some(16 * x + y),
                _ => None,
            }
        };
        match v {
            Some(x) => {
                out.push(x);
            },
            None => {
                return Some(None);
            },
        }
        k = k + 1;
    }
    Some(Some(out))
}

/// Once reading stops at field `k`, it stays stopped for more fields.
proof fn lemma_hex_fields_stop(b: Seq<u8>, k: int, n: int)
    requires
        0 < k,
    ensures
        k <= n && !(hex_fields(b, k) matches Some(Some(_))) ==> hex_fields(b, n) == hex_fields(b, k),
    decreases n - k,
{
    if k < n {
        lemma_hex_fields_stop(b, k, n - 1);
    }
}

/// Bytes as uppercase hexadecimal without separators.
pub open spec fn hex_concat(s: Seq<u8>) -> Seq<char>
    decreases s.len(),
{
    if s.len() == 0 {
        Seq::empty()
    } else {
        hex_concat(s.drop_last()) + hex2(s.last())
    }
}

fn hex_text(s: &[u8]) -> (r: String)
    ensures
        r@ == hex_concat(s@),
{
    let mut out = String::new();
    let mut i: usize = 0;
    assert(s@.take(0) =~= Seq::<u8>::empty());
    while i < s.len()
        invariant
            0 <= i <= s@.len(),
            out@ == hex_concat(s@.take(i as int)),
        decreases s@.len() - i,
    {
        push_hex2(&mut out, s[i]);
        assert(s@.take(i + 1).drop_last() =~= s@.take(i as int));
        i = i + 1;
    }
    assert(s@.take(s@.len() as int) =~= s@);
    out
}

// ---------- address table ----------

/// Address (hh mm ll, 7 bits each as sent) folded into one number.
pub open spec fn addr3(h: u8, m: u8, l: u8) -> u32 {
    ((h as u32) << 14u32) | ((m as u32) << 7u32) | (l as u32)
}

/// The address and data written by a Yamaha message: a bulk dump
/// `F0 43 0n mm bh bl a1 a2 a3 data.. cs F7` gives the `bh bl` data bytes after the address
/// (when they fit before the checksum); a parameter change `F0 43 1n mm a1 a2 a3 data.. F7`
/// gives everything between the address and F7.
pub open spec fn written(b: Seq<u8>) -> Option<(u32, Seq<u8>)> {
    if b.len() < 8 || b[0] != 0xF0 || b[1] != 0x43 {
        None
    } else if b[2] & 0xF0 == 0x00 {
        if b.len() < 10 || b[b.len() - 1] != 0xF7 {
            None
        } else {
            let bc = ((b[4] as u16) << 7u16) | (b[5] as u16);
            let end = 9 + bc;
            if end > b.len() - 2 {
                None
            } else {
                Some((addr3(b[6], b[7], b[8]), b.subrange(9, end)))
            }
        }
    } else if b[2] & 0xF0 == 0x10 && b.len() >= 9 && b[b.len() - 1] == 0xF7 {
        Some((addr3(b[4], b[5], b[6]), b.subrange(7, b.len() - 1)))
    } else {
        None
    }
}

/// The write recorded by one captured text, read as its UTF-8 bytes: none for text shorter
/// than 12 bytes or of odd length, or whose fields are not all hexadecimal.
pub open spec fn text_write(t: Seq<char>) -> Option<(u32, Seq<u8>)> {
    let b = encode_utf8(t);
    if b.len() < 12 || b.len() % 2 != 0 {
        None
    } else {
        match hex_fields(b, (b.len() / 2) as int) {
            Some(Some(bytes)) => written(bytes),
            _ => None,
        }
    }
}

/// A captured text that cannot be read: of even length at least 12 bytes, with a field
/// before the first invalid one that would end inside a character.
pub open spec fn text_stuck(t: Seq<char>) -> bool {
    let b = encode_utf8(t);
    b.len() >= 12 && b.len() % 2 == 0 && hex_fields(b, (b.len() / 2) as int) is None
}

/// Whether `analyze_sysex_capture` can read `text` (see `text_stuck`).
pub fn capture_text_readable(text: &str) -> (r: bool)
    ensures
        r == !text_stuck(text@),
{
    let n = text.as_bytes().len();
    if n < 12 || n % 2 != 0 {
        return true;
    }
    match read_fields(text, n / 2) {
        None => false,
        _ => true,
    }
}

/// Address -> (last data written, number of writes) over the captured texts.
pub open spec fn address_table(log: Seq<Seq<char>>) -> Map<u32, (Seq<u8>, nat)>
    decreases log.len(),
{
    if log.len() == 0 {
        Map::empty()
    } else {
        let m = address_table(log.drop_last());
        match text_write(log.last()) {
            Some((a, d)) => m.insert(a, (d, if m.dom().contains(a) { m[a].1 + 1 } else { 1 })),
            None => m,
        }
    }
}

/// The hexadecimal text of the capture log entries (source port, text, receive number).
pub open spec fn log_texts(log: Seq<(String, String, u32)>) -> Seq<Seq<char>> {
    log.map_values(|e: (String, String, u32)| e.1@)
}

/// Whether a table row list lists the address table: ascending addresses, each address of
/// the table once, with its last data as hexadecimal text and its write count.
pub open spec fn lists_table(rows: Seq<(u32, String, u32)>, t: Map<u32, (Seq<u8>, nat)>) -> bool {
    &&& forall|i: int, j: int| 0 <= i < j < rows.len() ==> rows[i].0 < rows[j].0
    &&& forall|a: u32| t.dom().contains(a) <==> exists|i: int| 0 <= i < rows.len() && (#[trigger] rows[i]).0 == a
    &&& forall|i: int| 0 <= i < rows.len() ==> {
        &&& (#[trigger] rows[i]).1@ == hex_concat(t[rows[i].0].0)
        &&& rows[i].2 == t[rows[i].0].1
    }
}

/// What a capture message writes, if anything.
fn message_write(b: &Vec<u8>) -> (r: Option<(u32, Vec<u8>)>)
    ensures
        match r {
            Some((a, d)) => written(b@) == Some((a, d@)),
            None => written(b@) is None,
        },
{
    let n = b.len();
    if n < 8 || b[0] != 0xF0 || b[1] != 0x43 {
        return None;
    }
    let dtype = b[2] & 0xF0;
    if dtype == 0x00 {
        if n < 10 || b[n - 1] != 0xF7 {
            return None;
        }
        let bc = ((b[4] as u16) << 7u16) | (b[5] as u16);
        let addr = ((b[6] as u32) << 14u32) | ((b[7] as u32) << 7u32) | (b[8] as u32);
        let end = 9 + bc as usize;
        if end > n - 2 {
            return None;
        }
        let d = slice_vec(b, 9, end);
        Some((addr, d))
    } else if dtype == 0x10 && n >= 9 && b[n - 1] == 0xF7 {
        let addr = ((b[4] as u32) << 14u32) | ((b[5] as u32) << 7u32) | (b[6] as u32);
        let d = slice_vec(b, 7, n - 1);
        Some((addr, d))
    } else {
        None
    }
}

fn slice_vec(b: &Vec<u8>, from: usize, to: usize) -> (r: Vec<u8>)
    requires
        from <= to <= b@.len(),
    ensures
        r@ == b@.subrange(from as int, to as int),
{
    let mut r: Vec<u8> = Vec::new();
    let mut i = from;
    while i < to
        invariant
            from <= i <= to <= b@.len(),
            r@ == b@.subrange(from as int, i as int),
        decreases to - i,
    {
        r.push(b[i]);
        assert(r@ =~= b@.subrange(from as int, i + 1));
        i = i + 1;
    }
    r
}

/// Reduces the capture log to its address table: for every captured bulk dump or parameter
/// change, the address it wrote, the last data written there and how often it was written;
/// rows ascend by address.
pub fn analyze_sysex_capture(log: &[(String, String, u32)]) -> (rows: Vec<(u32, String, u32)>)
    requires
        log@.len() <= u32::MAX,
        forall|i: int| 0 <= i < log@.len() ==> !text_stuck((#[trigger] log@[i]).1@),
    ensures
        lists_table(rows@, address_table(log_texts(log@))),
{
    // rows kept as (address, data, count), ascending by address
    let mut tab: Vec<(u32, Vec<u8>, u32)> = Vec::new();
    let ghost texts = log_texts(log@);
    let mut j: usize = 0;
    assert(texts.take(0) =~= Seq::<Seq<char>>::empty());
    while j < log.len()
        invariant
            0 <= j <= log@.len(),
            log@.len() <= u32::MAX,
            texts == log_texts(log@),
            forall|i: int, k: int| 0 <= i < k < tab@.len() ==> tab@[i].0 < tab@[k].0,
            forall|a: u32| #[trigger] address_table(texts.take(j as int)).dom().contains(a)
                <==> exists|i: int| 0 <= i < tab@.len() && (#[trigger] tab@[i]).0 == a,
            forall|i: int| 0 <= i < tab@.len() ==> {
                &&& (#[trigger] tab@[i]).1@ == address_table(texts.take(j as int))[tab@[i].0].0
                &&& tab@[i].2 == address_table(texts.take(j as int))[tab@[i].0].1
                &&& tab@[i].2 <= j
            },
        decreases log@.len() - j,
    {
        let ghost pre = texts.take(j as int);
        let ghost m = address_table(pre);
        assert(texts.take(j + 1).drop_last() =~= pre);
        assert(texts.take(j + 1).last() == log@[j as int].1@);
        let hex = log[j].1.as_str();
        let hn = hex.as_bytes().len();
        let mut w: Option<(u32, Vec<u8>)> = None;
        if hn >= 12 && hn % 2 == 0 {
            match read_fields(hex, hn / 2) {
                Some(Some(bytes)) => {
                    w = message_write(&bytes);
                },
                _ => {},
            }
        }
        assert(match w {
            Some((a, d)) => text_write(log@[j as int].1@) == Some((a, d@)),
            None => text_write(log@[j as int].1@) is None,
        });
        match w {
            Some((addr, data)) => {
                let ghost dv = data@;
                // first row whose address is not below addr
                let mut k: usize = 0;
                while k < tab.len() && tab[k].0 < addr
                    invariant
                        0 <= k <= tab@.len(),
                        forall|i: int| 0 <= i < k ==> (#[trigger] tab@[i]).0 < addr,
                    decreases tab@.len() - k,
                {
                    k = k + 1;
                }
                let ghost old_tab = tab@;
                if k < tab.len() && tab[k].0 == addr {
                    let c = tab[k].2;
                    assert(m.dom().contains(addr));
                    tab.set(k, (addr, data, c + 1));
                    proof {
                        assert forall|i: int| 0 <= i < tab@.len() && i != k implies #[trigger] tab@[i] == old_tab[i] by {}
                        assert forall|a: u32| #[trigger] address_table(texts.take(j + 1)).dom().contains(a)
                            <==> exists|i: int| 0 <= i < tab@.len() && (#[trigger] tab@[i]).0 == a by {
                            if m.dom().contains(a) {
                                let i = choose|i: int| 0 <= i < old_tab.len() && (#[trigger] old_tab[i]).0 == a;
                                assert(tab@[i].0 == a);
                            }
                            if exists|i: int| 0 <= i < tab@.len() && (#[trigger] tab@[i]).0 == a {
                                let i = choose|i: int| 0 <= i < tab@.len() && (#[trigger] tab@[i]).0 == a;
                                assert(old_tab[i].0 == a);
                            }
                        }
                        assert forall|i: int| 0 <= i < tab@.len() implies {
                            &&& (#[trigger] tab@[i]).1@ == address_table(texts.take(j + 1))[tab@[i].0].0
                            &&& tab@[i].2 == address_table(texts.take(j + 1))[tab@[i].0].1
                            &&& tab@[i].2 <= j + 1
                        } by {
                            if i != k {
                                assert(old_tab[i].0 != addr) by {
                                    if i < k { assert(old_tab[i].0 < old_tab[k as int].0); }
                                    else { assert(old_tab[k as int].0 < old_tab[i].0); }
                                }
                            }
                        }
                    }
                } else {
                    proof {
                        if m.dom().contains(addr) {
                            let i = choose|i: int| 0 <= i < old_tab.len() && (#[trigger] old_tab[i]).0 == addr;
                            if i < k {
                            } else if i > k {
                                assert(old_tab[k as int].0 < old_tab[i].0);
                            }
                        }
                    }
                    tab.insert(k, (addr, data, 1));
                    proof {
                        assert(tab@ == old_tab.insert(k as int, tab@[k as int]));
                        assert forall|i: int, l: int| 0 <= i < l < tab@.len() implies tab@[i].0 < tab@[l].0 by {
                            if l < k {
                                assert(tab@[i] == old_tab[i] && tab@[l] == old_tab[l]);
                            } else if l == k {
                                assert(tab@[i] == old_tab[i]);
                            } else if i > k {
                                assert(tab@[i] == old_tab[i - 1] && tab@[l] == old_tab[l - 1]);
                            } else if i == k {
                                assert(tab@[l] == old_tab[l - 1]);
                            } else {
                                assert(tab@[i] == old_tab[i] && tab@[l] == old_tab[l - 1]);
                                assert(old_tab[i].0 < old_tab[k as int].0 || l - 1 == k);
                            }
                        }
                        assert forall|a: u32| #[trigger] address_table(texts.take(j + 1)).dom().contains(a)
                            <==> exists|i: int| 0 <= i < tab@.len() && (#[trigger] tab@[i]).0 == a by {
                            if a == addr {
                                assert(tab@[k as int].0 == a);
                            }
                            if m.dom().contains(a) {
                                let i = choose|i: int| 0 <= i < old_tab.len() && (#[trigger] old_tab[i]).0 == a;
                                if i < k { assert(tab@[i].0 == a); } else { assert(tab@[i + 1].0 == a); }
                            }
                            if exists|i: int| 0 <= i < tab@.len() && (#[trigger] tab@[i]).0 == a {
                                let i = choose|i: int| 0 <= i < tab@.len() && (#[trigger] tab@[i]).0 == a;
                                if i < k { assert(old_tab[i].0 == a); }
                                else if i > k { assert(old_tab[i - 1].0 == a); }
                            }
                        }
                        assert forall|i: int| 0 <= i < tab@.len() implies {
                            &&& (#[trigger] tab@[i]).1@ == address_table(texts.take(j + 1))[tab@[i].0].0
                            &&& tab@[i].2 == address_table(texts.take(j + 1))[tab@[i].0].1
                            &&& tab@[i].2 <= j + 1
                        } by {
                            if i < k {
                                assert(tab@[i] == old_tab[i]);
                            } else if i > k {
                                assert(tab@[i] == old_tab[i - 1]);
                                assert(old_tab[k as int].0 <= old_tab[i - 1].0);
                            }
                        }
                    }
                }
            },
            None => {
                assert(address_table(texts.take(j + 1)) == m);
            },
        }
        j = j + 1;
    }
    assert(texts.take(log@.len() as int) =~= texts);
    // rows with the data as hexadecimal text
    let mut rows: Vec<(u32, String, u32)> = Vec::new();
    let mut i: usize = 0;
    while i < tab.len()
        invariant
            0 <= i <= tab@.len(),
            rows@.len() == i,
            forall|k: int| 0 <= k < i ==> (#[trigger] rows@[k]).0 == tab@[k].0 && rows@[k].2 == tab@[k].2
                && rows@[k].1@ == hex_concat(tab@[k].1@),
        decreases tab@.len() - i,
    {
        let t = hex_text(tab[i].1.as_slice());
        rows.push((tab[i].0, t, tab[i].2));
        i = i + 1;
    }
    proof {
        let t = address_table(texts);
        assert forall|a: u32| t.dom().contains(a) <==> exists|k: int| 0 <= k < rows@.len() && (#[trigger] rows@[k]).0 == a by {
            if t.dom().contains(a) {
                let k = choose|k: int| 0 <= k < tab@.len() && (#[trigger] tab@[k]).0 == a;
                assert(rows@[k].0 == a);
            }
            if exists|k: int| 0 <= k < rows@.len() && (#[trigger] rows@[k]).0 == a {
                let k = choose|k: int| 0 <= k < rows@.len() && (#[trigger] rows@[k]).0 == a;
                assert(tab@[k].0 == a);
            }
        }
    }
    rows
}

// ---------- part blocks ----------

/// The three 7-bit address bytes of a table address.
pub open spec fn addr_hi(a: u32) -> u32 { (a >> 14u32) & 0x7F }
pub open spec fn addr_mid(a: u32) -> u32 { (a >> 7u32) & 0x7F }
pub open spec fn addr_lo(a: u32) -> u32 { a & 0x7F }

/// A multi-part block `08 mm 00` of the table with at least 4 data bytes: (mm, data).
pub open spec fn part_block(e: (u32, String, u32)) -> Option<(u8, Seq<u8>)> {
    if addr_hi(e.0) == 0x08 && addr_lo(e.0) == 0x00 {
        let b = encode_utf8(e.1@);
        match hex_fields(b, ((b.len() + 1) / 2) as int) {
            Some(Some(d)) => if d.len() >= 4 { Some((addr_mid(e.0) as u8, d)) } else { None },
            _ => None,
        }
    } else {
        None
    }
}

/// The data of the last block `08 mm 00` among the rows.
pub open spec fn last_block(rows: Seq<(u32, String, u32)>, mm: u8) -> Option<Seq<u8>>
    decreases rows.len(),
{
    if rows.len() == 0 {
        None
    } else {
        match part_block(rows.last()) {
            Some((m, d)) => if m == mm { Some(d) } else { last_block(rows.drop_last(), mm) },
            None => last_block(rows.drop_last(), mm),
        }
    }
}

/// Number of parts below `n` that have a block.
pub open spec fn blocks_below(rows: Seq<(u32, String, u32)>, n: int) -> nat
    decreases n,
{
    if n <= 0 {
        0
    } else {
        blocks_below(rows, n - 1) + if last_block(rows, (n - 1) as u8) is Some { 1nat } else { 0nat }
    }
}

/// Whether the value text of a part-block row can be read: every two-byte field up to the
/// first invalid one ends on a character boundary inside the text (an odd-length text of
/// valid fields runs past its end).
pub open spec fn block_text_ok(e: (u32, String, u32)) -> bool {
    addr_hi(e.0) == 0x08 && addr_lo(e.0) == 0x00 ==> {
        let b = encode_utf8(e.1@);
        !(hex_fields(b, ((b.len() + 1) / 2) as int) is None)
    }
}

/// Whether `parse_dump_parts` can read the row (see `block_text_ok`).
pub fn block_text_readable(e: &(u32, String, u32)) -> (r: bool)
    ensures
        r == block_text_ok(*e),
{
    let addr = e.0;
    if (addr >> 14u32) & 0x7F == 0x08 && addr & 0x7F == 0x00 {
        let text = e.1.as_str();
        let n = text.as_bytes().len();
        match read_fields(text, n / 2 + n % 2) {
            None => false,
            _ => true,
        }
    } else {
        true
    }
}

/// Reads the voices of the multi parts from the address table's blocks `08 nn 00` (data:
/// element reserve, MSB, LSB, program): each part 0..31 with a block takes (MSB, LSB,
/// program) from its last block; other parts keep their value. Returns whether any part
/// block was found and how many parts were set.
pub fn parse_dump_parts(rows: &[(u32, String, u32)], parts: &mut [Option<(u8, u8, u8)>; 32]) -> (r: (bool, usize))
    requires
        forall|i: int| 0 <= i < rows@.len() ==> block_text_ok(#[trigger] rows@[i]),
    ensures
        r.0 == exists|i: int| 0 <= i < rows@.len() && (#[trigger] part_block(rows@[i])) is Some,
        r.1 == blocks_below(rows@, 32),
        forall|p: int| 0 <= p < 32 ==> (#[trigger] final(parts)@[p]) == match last_block(rows@, p as u8) {
            Some(d) => Some((d[1], d[2], d[3])),
            None => old(parts)@[p],
        },
{
    let mut blocks: [Option<(u8, u8, u8)>; 32] = [None; 32];
    let mut found = false;
    let mut i: usize = 0;
    assert(rows@.take(0) =~= Seq::<(u32, String, u32)>::empty());
    while i < rows.len()
        invariant
            0 <= i <= rows@.len(),
            forall|i: int| 0 <= i < rows@.len() ==> block_text_ok(#[trigger] rows@[i]),
            found == exists|k: int| 0 <= k < i && (#[trigger] part_block(rows@[k])) is Some,
            forall|p: int| 0 <= p < 32 ==> (#[trigger] blocks@[p]) == match last_block(rows@.take(i as int), p as u8) {
                Some(d) => Some((d[1], d[2], d[3])),
                None => None,
            },
        decreases rows@.len() - i,
    {
        let addr = rows[i].0;
        let hh = (addr >> 14u32) & 0x7F;
        let mm = (addr >> 7u32) & 0x7F;
        let ll = addr & 0x7F;
        let ghost pre = rows@.take(i as int);
        assert(rows@.take(i + 1).drop_last() =~= pre);
        assert(rows@.take(i + 1).last() == rows@[i as int]);
        let ghost e = rows@[i as int];
        if hh == 0x08 && ll == 0x00 {
            let text = rows[i].1.as_str();
            let tn = text.as_bytes().len();
            match read_fields(text, tn / 2 + tn % 2) {
                Some(Some(d)) => {
                    if d.len() >= 4 {
                        found = true;
                        assert(mm < 128) by (bit_vector) requires mm == (addr >> 14u32) & 0x7F || mm == (addr >> 7u32) & 0x7F;
                        if mm < 32 {
                            blocks[mm as usize] = Some((d[1], d[2], d[3]));
                        }
                        proof {
                            assert(part_block(e) == Some((mm as u8, d@)));
                        }
                    } else {
                        assert(part_block(e) is None);
                    }
                },
                _ => {
                    assert(part_block(e) is None);
                },
            }
        } else {
            assert(part_block(e) is None);
        }
        i = i + 1;
    }
    assert(rows@.take(rows@.len() as int) =~= rows@);
    let mut n: usize = 0;
    let mut p: usize = 0;
    while p < 32
        invariant
            0 <= p <= 32,
            n <= p,
            found == exists|k: int| 0 <= k < rows@.len() && (#[trigger] part_block(rows@[k])) is Some,
            n == blocks_below(rows@, p as int),
            forall|q: int| 0 <= q < 32 ==> (#[trigger] blocks@[q]) == match last_block(rows@, q as u8) {
                Some(d) => Some((d[1], d[2], d[3])),
                None => None,
            },
            forall|q: int| 0 <= q < p ==> (#[trigger] parts@[q]) == match last_block(rows@, q as u8) {
                Some(d) => Some((d[1], d[2], d[3])),
                None => old(parts)@[q],
            },
            forall|q: int| p <= q < 32 ==> (#[trigger] parts@[q]) == old(parts)@[q],
        decreases 32 - p,
    {
        if found {
            match blocks[p] {
                Some(v) => {
                    parts[p] = Some(v);
                    n = n + 1;
                },
                None => {},
            }
        } else {
            proof {
                if let Some(d) = last_block(rows@, p as u8) {
                    lemma_last_block_found(rows@, p as u8);
                }
            }
        }
        p = p + 1;
    }
    (found, n)
}

proof fn lemma_last_block_found(rows: Seq<(u32, String, u32)>, mm: u8)
    requires
        last_block(rows, mm) is Some,
    ensures
        exists|i: int| 0 <= i < rows.len() && (#[trigger] part_block(rows[i])) is Some,
    decreases rows.len(),
{
    if part_block(rows.last()) is Some {
        assert(part_block(rows[rows.len() - 1]) is Some);
    } else {
        lemma_last_block_found(rows.drop_last(), mm);
        let i = choose|i: int| 0 <= i < rows.drop_last().len() && (#[trigger] part_block(rows.drop_last()[i])) is Some;
        assert(rows[i] == rows.drop_last()[i]);
    }
}

// ---------- address table as text ----------

/// One line of the address table: "HH MM LL = value (xN)".
pub open spec fn table_line(e: (u32, String, u32)) -> Seq<char> {
    hex2(addr_hi(e.0) as u8) + " "@ + hex2(addr_mid(e.0) as u8) + " "@ + hex2(addr_lo(e.0) as u8)
        + " = "@ + e.1@ + " (x"@ + decimal(e.2 as nat) + ")\n"@
}

/// The address table as text: a header with the number of addresses, then one line each.
pub open spec fn table_text(rows: Seq<(u32, String, u32)>, n: int) -> Seq<char>
    decreases n,
{
    if n <= 0 {
        "# sysex address table ("@ + decimal(rows.len()) + " unique addrs)\n"@
    } else {
        table_text(rows, n - 1) + table_line(rows[n - 1])
    }
}

/// The address table as text for copying or export.
pub fn build_analysis_text(rows: &[(u32, String, u32)]) -> (r: String)
    ensures
        r@ == table_text(rows@, rows@.len() as int),
{
    let mut s = String::new();
    push_str(&mut s, "# sysex address table (");
    push_decimal(&mut s, rows.len() as u64);
    push_str(&mut s, " unique addrs)\n");
    assert(s@ =~= table_text(rows@, 0));
    let mut i: usize = 0;
    while i < rows.len()
        invariant
            0 <= i <= rows@.len(),
            s@ == table_text(rows@, i as int),
        decreases rows@.len() - i,
    {
        let a = rows[i].0;
        let hh = ((a >> 14u32) & 0x7F) as u8;
        let mm = ((a >> 7u32) & 0x7F) as u8;
        let ll = (a & 0x7F) as u8;
        push_hex2(&mut s, hh);
        push_str(&mut s, " ");
        push_hex2(&mut s, mm);
        push_str(&mut s, " ");
        push_hex2(&mut s, ll);
        push_str(&mut s, " = ");
        push_str(&mut s, rows[i].1.as_str());
        push_str(&mut s, " (x");
        push_decimal(&mut s, rows[i].2 as u64);
        push_str(&mut s, ")\n");
        assert(s@ =~= table_text(rows@, i + 1));
        i = i + 1;
    }
    s
}

} // verus!
