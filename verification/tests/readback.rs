use xg_editor::capture::{analyze_sysex_capture, block_text_readable, build_analysis_text, capture_text_readable, parse_dump_parts};
use xg_editor::readback::{parts_recap, read_voice_name, BatchStep, BulkRead, BulkStep, HandshakeRead, ReadStep};
use xg_editor::status::{keep_newest, push_bounded};
use xg_editor::data::{Voice, VoiceBank};
use std::collections::VecDeque;

fn dt1(part: u8, off: u8, val: u8) -> Vec<u8> {
    vec![0xF0, 0x43, 0x10, 0x4C, 0x08, part, off, val, 0xF7]
}

#[test]
fn handshake_reads_one_part() {
    let mut h = HandshakeRead::new();
    let req = h.start_part(4);
    assert_eq!(req, vec![0xF0, 0x43, 0x31, 0x4C, 0x08, 0x04, 0x01, 0xF7]);
    assert_eq!(h.inflight.as_deref(), Some("part5"));
    // a reply for another address is ignored
    assert_eq!(h.on_reply(&dt1(4, 0x02, 9)), ReadStep::Ignored);
    assert_eq!(h.on_reply(&dt1(4, 0x01, 0)), ReadStep::Request { part: 4, offset: 0x02 });
    assert_eq!(h.on_reply(&dt1(4, 0x02, 41)), ReadStep::Request { part: 4, offset: 0x03 });
    assert_eq!(
        h.on_reply(&dt1(4, 0x03, 36)),
        ReadStep::Done { part: 4, msb: 0, lsb: 41, pc: 36, batch: BatchStep::Single }
    );
    assert_eq!(h.parts[4], Some((0, 41, 36)));
    assert!(h.wait.is_none() && h.inflight.is_none());
}

#[test]
fn handshake_batch_moves_on_and_msb_only() {
    let mut h = HandshakeRead::new();
    h.msb_only = true;
    h.batch_next = Some(30);
    h.start_part(30);
    match h.on_reply(&dt1(30, 0x01, 127)) {
        ReadStep::Done { part: 30, msb: 127, batch: BatchStep::Next(31), .. } => {}
        other => panic!("unexpected {other:?}"),
    }
    assert_eq!(h.parts[30], Some((127, 0, 0)));
    assert_eq!(h.wait, Some((31, 0x01)));
    assert_eq!(h.cursor, Some(31));
    match h.on_reply(&dt1(31, 0x01, 0)) {
        ReadStep::Done { part: 31, batch: BatchStep::Finished, .. } => {}
        other => panic!("unexpected {other:?}"),
    }
    assert!(h.batch_next.is_none() && h.cursor.is_none() && h.wait.is_none());
}

#[test]
fn handshake_timeout_skips_part() {
    let mut h = HandshakeRead::new();
    h.batch_next = Some(3);
    h.start_part(3);
    assert_eq!(h.timeout(), BatchStep::Next(4));
    assert_eq!(h.wait, Some((4, 0x01)));
    assert!(h.parts[3].is_none());
    let mut single = HandshakeRead::new();
    single.start_part(0);
    assert_eq!(single.timeout(), BatchStep::Single);
    assert!(single.wait.is_none());
}

#[test]
fn bulk_read_walks_all_parts() {
    let mut b = BulkRead::new();
    assert_eq!(b.start(), vec![0xF0, 0x43, 0x21, 0x4C, 0x08, 0x00, 0x00, 0xF7]);
    // the block of part 0, starting at element reserve
    let block0 = vec![0xF0, 0x43, 0x00, 0x4C, 0x00, 0x04, 0x08, 0x00, 0x00, 0x02, 0x00, 0x29, 0x24, 0x00, 0xF7];
    assert_eq!(b.on_reply(&block0), BulkStep::Next(1));
    assert_eq!(b.parts[0], Some((0, 0x29, 0x24)));
    assert_eq!(BulkRead::request(1), vec![0xF0, 0x43, 0x21, 0x4C, 0x08, 0x01, 0x00, 0xF7]);
    // a late block of part 0 is not the one awaited
    assert_eq!(b.on_reply(&block0), BulkStep::NotExpected);
    assert_eq!(b.step(1, 1, 2, 3), BulkStep::Next(2));
    assert_eq!(b.timeout(), BulkStep::Next(3));
    b.next = Some(31);
    assert_eq!(b.step(31, 127, 0, 0), BulkStep::Finished);
    assert!(b.next.is_none());
    assert_eq!(b.timeout(), BulkStep::NotExpected);
}

#[test]
fn recap_lists_all_parts() {
    let mut parts = [None; 32];
    parts[0] = Some((0, 0, 1));
    parts[9] = Some((127, 0, 0));
    let r = parts_recap("recap:", &parts);
    assert!(r.starts_with("recap: 100/00/01 2-- 3--"));
    assert!(r.contains(" 10127/00/00 11--"));
    assert!(r.ends_with(" 32--"));
}

#[test]
fn read_voice_name_falls_back_to_numbers() {
    let bank = VoiceBank::from_direct(vec![Voice { msb: 0, prg: 0, lsb: 41, name: "Dream".into(), elc: None, lvl: None }]).unwrap();
    assert_eq!(read_voice_name(Some(&bank), 0, 41, 0), "Dream");
    assert_eq!(read_voice_name(Some(&bank), 0, 5, 7), "00/05/07");
    assert_eq!(read_voice_name(None, 127, 0, 16), "127/00/16");
}

fn entry(hex: &str, n: u32) -> (String, String, u32) {
    ("in".to_string(), hex.to_string(), n)
}

#[test]
fn analyze_sysex_capture_deposit() {
    let log = vec![
        entry("F04300490001000010016EF7", 1),
        entry("F0430049000108000100 6D F7".replace(' ', "").as_str(), 2),
        entry("F04300490001080001016CF7", 3),
    ];
    let rows = analyze_sysex_capture(&log);
    let a000010 = rows.iter().find(|(a, _, _)| *a == (0x00u32 << 14) | (0x00 << 7) | 0x10).unwrap();
    assert_eq!(a000010.1, "01");
    let a080001 = rows.iter().find(|(a, _, _)| *a == (0x08u32 << 14) | (0x00 << 7) | 0x01).unwrap();
    assert_eq!(a080001.1, "01");
    assert_eq!(a080001.2, 2);
    assert_eq!(rows.len(), 2, "two addresses");
    assert!(rows[0].0 < rows[1].0);
}

fn bulk4c(part: u8, data: &[u8]) -> String {
    let mut v = vec![0xF0, 0x43, 0x00, 0x4C];
    let bc = data.len() as u16;
    v.push(((bc >> 7) & 0x7F) as u8);
    v.push((bc & 0x7F) as u8);
    v.push(0x08);
    v.push(part);
    v.push(0x00);
    v.extend_from_slice(data);
    let sum: u16 = (0x08u16 + part as u16 + 0x00u16) + data.iter().map(|&x| x as u16).sum::<u16>() + (bc & 0x7F);
    let cs = (0x7F - (sum & 0x7F)) & 0x7F;
    v.push(cs as u8);
    v.push(0xF7);
    v.iter().map(|x| format!("{x:02X}")).collect()
}

#[test]
fn parse_dump_parts_real_mu90_blocks() {
    let log = vec![
        ("in".to_string(), bulk4c(0x00, &[2, 0, 0, 1]), 1),
        ("in".to_string(), bulk4c(0x01, &[2, 0, 0, 0x50]), 2),
        ("in".to_string(), bulk4c(0x09, &[0, 127, 0, 0]), 3),
        ("in".to_string(), bulk4c(0x19, &[0, 127, 0, 0]), 4),
    ];
    let rows = analyze_sysex_capture(&log);
    let mut parts = [None; 32];
    let (found, n) = parse_dump_parts(&rows, &mut parts);
    assert!(found);
    assert_eq!(n, 4);
    assert_eq!(parts[0], Some((0, 0, 1)));
    assert_eq!(parts[1], Some((0, 0, 0x50)));
    assert_eq!(parts[9], Some((127, 0, 0)));
    assert_eq!(parts[25], Some((127, 0, 0)));
    assert!(parts[2].is_none());
}

#[test]
fn parse_dump_parts_without_blocks_keeps_parts() {
    let rows = vec![(0x10u32, "01".to_string(), 1u32)];
    let mut parts = [Some((1u8, 2u8, 3u8)); 32];
    let (found, n) = parse_dump_parts(&rows, &mut parts);
    assert!(!found);
    assert_eq!(n, 0);
    assert_eq!(parts[0], Some((1, 2, 3)));
}

#[test]
fn analysis_text_lists_addresses() {
    let rows = vec![((0x08u32 << 14) | (0x01 << 7) | 0x02, "7F".to_string(), 3u32)];
    assert_eq!(build_analysis_text(&rows), "# sysex address table (1 unique addrs)\n08 01 02 = 7F (x3)\n");
}

#[test]
fn capture_text_reading() {
    // fields of two bytes; a plus sign and a digit is a field too
    let log = vec![entry("F043104C0000+10F02F7", 1)];
    let rows = analyze_sysex_capture(&log);
    assert_eq!(rows, vec![(0x01, "0F02".to_string(), 1)]);
    // a two-byte character on a field boundary ends reading: the entry writes nothing
    assert!(capture_text_readable("F043é000000"));
    assert!(analyze_sysex_capture(&[entry("F043é000000", 1)]).is_empty());
    // an invalid field before it ends reading first
    assert!(capture_text_readable("ZZ43€0000000"));
    // a three-byte character on a field boundary, or any character across one, cannot be read
    assert!(!capture_text_readable("F043€0000000"));
    assert!(!capture_text_readable("F04é3000000"));
    // odd or short texts are skipped before reading
    assert!(capture_text_readable("F043é0000000"));
    assert!(capture_text_readable("€"));
}

#[test]
fn part_block_text_reading() {
    let block = (0x08u32 << 14) | (0x01 << 7);
    // odd length with valid fields: the last field runs past the end
    assert!(!block_text_readable(&(block, "0200000".to_string(), 1)));
    assert!(block_text_readable(&(block, "0G00000".to_string(), 1)));
    assert!(block_text_readable(&(block, "02000000".to_string(), 1)));
    // other addresses are not read
    assert!(block_text_readable(&(0x10, "020".to_string(), 1)));
}

#[test]
fn bounded_logs() {
    let mut q: VecDeque<String> = VecDeque::new();
    for i in 0..55 {
        push_bounded(&mut q, format!("m{i}"), 50);
    }
    assert_eq!(q.len(), 50);
    assert_eq!(q.front().map(|s| s.as_str()), Some("m5"));
    assert_eq!(q.back().map(|s| s.as_str()), Some("m54"));
    let mut v: Vec<u32> = (0..10).collect();
    keep_newest(&mut v, 4);
    assert_eq!(v, vec![6, 7, 8, 9]);
    keep_newest(&mut v, 10);
    assert_eq!(v, vec![6, 7, 8, 9]);
}
