use xg_editor::sysex::{
    all_reset, bulk_dump, bulk_dump_chunked, checksum, dump_request, mp, param_change, param_request,
    part_param, part_voice_select_messages, read_part_voice_param, system_param, voice_select_bytes,
    voice_select_messages, xg_system_on, Device, PartVoiceCollector,
};
use xg_editor::sysex::Device::{Bulk, Param, Request};

#[test]
fn mu90_real_dt1_reply_feed() {
    // John 真机 (2026-08-09): status bar 收到 YAMAHA UX16 回包
    // F0 43 10 4C 08 00 01 00 F7 = part1(part0) Bank MSB=0 的 DT1 回包.
    let mut c = PartVoiceCollector::new();
    // 第 1 条: MSB
    assert!(!c.feed(&[0xF0, 0x43, 0x10, 0x4C, 0x08, 0x00, 0x01, 0x00, 0xF7]));
    assert_eq!(c.result(), None, "只凑齐 MSB 不应出结果");
    // 第 2 条: LSB
    assert!(!c.feed(&[0xF0, 0x43, 0x10, 0x4C, 0x08, 0x00, 0x02, 0x00, 0xF7]));
    assert_eq!(c.result(), None);
    // 第 3 条: PC
    assert!(c.feed(&[0xF0, 0x43, 0x10, 0x4C, 0x08, 0x00, 0x03, 0x00, 0xF7]), "三条凑齐应返回 done");
    assert_eq!(c.result(), Some((0, 0, 0, 0)), "part0 msb0 lsb0 pc0");
}

#[test]
fn mu90_real_dt1_reply_part17() {
    // part17 (0-based 16) 回包: 地址 08 10 → collector 应识别 part=16, 且 pc 0-based
    let mut c = PartVoiceCollector::new();
    assert!(!c.feed(&[0xF0, 0x43, 0x10, 0x4C, 0x08, 0x10, 0x01, 0x00, 0xF7]));
    assert!(!c.feed(&[0xF0, 0x43, 0x10, 0x4C, 0x08, 0x10, 0x02, 0x29, 0xF7])); // lsb=41
    assert!(c.feed(&[0xF0, 0x43, 0x10, 0x4C, 0x08, 0x10, 0x03, 0x24, 0xF7])); // pc=36
    assert_eq!(c.result(), Some((16, 0, 41, 36)), "part17 msb0 lsb41 pc36");
}

#[test]
fn device_bytes() {
    assert_eq!(Bulk(0).byte(), 0x00);
    assert_eq!(Bulk(3).byte(), 0x03);
    assert_eq!(Param(0).byte(), 0x10);
    assert_eq!(Param(1).byte(), 0x11);
    assert_eq!(Param(15).byte(), 0x1F);
    assert_eq!(Request(0).byte(), 0x30);
    assert_eq!(Request(7).byte(), 0x37);
}

#[test]
fn part_voice_select_multi_part() {
    // 编辑器音色选择: XG Multi-Part SysEx (port-agnostic, part 1-32 都能设)
    // part 17 (0-based 16), Dream (msb0 lsb41 pc0):
    // F0 43 10 4C 08 10 01 00 F7 / 08 10 02 29 F7 / 08 10 03 00 F7
    let msgs = part_voice_select_messages(16, 0, 41, 0, Param(0));
    assert_eq!(msgs.len(), 3);
    assert_eq!(msgs[0], vec![0xF0, 0x43, 0x10, 0x4C, 0x08, 0x10, 0x01, 0x00, 0xF7]);
    assert_eq!(msgs[1], vec![0xF0, 0x43, 0x10, 0x4C, 0x08, 0x10, 0x02, 0x29, 0xF7]);
    assert_eq!(msgs[2], vec![0xF0, 0x43, 0x10, 0x4C, 0x08, 0x10, 0x03, 0x00, 0xF7]);
    // part 1 (0-based 0)
    let msgs1 = part_voice_select_messages(0, 0, 0, 40, Param(0));
    assert_eq!(msgs1[2], vec![0xF0, 0x43, 0x10, 0x4C, 0x08, 0x00, 0x03, 40, 0xF7]);
}

#[test]
fn param_change_byte_exact() {
    // 基准向量 (手册 2.1.4.1): F0 43 10 4C + addr + data + F7, 无校验和
    let msg = param_change(Param(0), [0x00, 0x00, 0x04], &[0x7F]);
    assert_eq!(msg, vec![0xF0, 0x43, 0x10, 0x4C, 0x00, 0x00, 0x04, 0x7F, 0xF7]);
}

#[test]
fn system_on_exact() {
    let msg = xg_system_on();
    assert_eq!(msg, vec![0xF0, 0x43, 0x10, 0x4C, 0x00, 0x00, 0x7E, 0x00, 0xF7]);
    // 设备号可用非 0 变体
    let m2 = xg_system_on();
    assert_eq!(m2[2], Param(0).byte());
}

#[test]
fn all_reset_exact() {
    assert_eq!(all_reset(), vec![0xF0, 0x43, 0x10, 0x4C, 0x00, 0x00, 0x7F, 0x00, 0xF7]);
}

#[test]
fn checksum_vectors() {
    // 手册 worked example (bulk): 地址=00 00 00, 数据=[04 7f] → cs 0x7D
    assert_eq!(checksum(&[0x00, 0x00, 0x00], &[0x04, 0x7f]), 0x7D);
    // 空数据: sum=0 → cs = (~0+1)&127 = 0
    assert_eq!(checksum(&[0x00, 0x00, 0x00], &[]), 0x00);
    // 累积 >127 的进位
    {
        // 累积 >127: 0x7f*4 = 508; 508 & 0x7f = 124 (508 = 3*128 + 124)
        let s: u8 = ((0x7f + 0x7f + 0x7f + 0x7f) as i32 & 0x7f) as u8;
        assert_eq!(s, 124, "sanity: 508 & 0x7f should be 124");
        let expected: u8 = (!s).wrapping_add(1) & 0x7f;
        // (~124+1)&127 = 4 (Python 验证)
        assert_eq!(expected, 4, "sanity: checksum of 4x0x7f");
        assert_eq!(checksum(&[0x7f, 0x7f, 0x7f], &[0x7f]), expected);
    }
}

#[test]
fn bulk_dump_exact() {
    // 手册 bulk 格式: F0 43 0n 4C bb bb aa aa aa dd... dd cc F7
    let msg = bulk_dump(Bulk(0), [0x00, 0x00, 0x00], &[0x04, 0x7f]);
    assert_eq!(msg, vec![0xF0, 0x43, 0x00, 0x4C, 0x00, 0x02, 0x00, 0x00, 0x00, 0x04, 0x7F, 0x7D, 0xF7]);
}

#[test]
fn bulk_byte_count_14bit() {
    // 32767 数据 → bb bb = 高 7 位+低 7 位
    let data: Vec<u8> = vec![0u8; 100];
    let msg = bulk_dump(Bulk(1), [0x01, 0x02, 0x03], &data);
    assert_eq!(msg[4], (100 >> 7) as u8);
    assert_eq!(msg[5], (100 & 0x7F) as u8);
    // 校验和位置在数据后
    let cs_expected = checksum(&[0x01, 0x02, 0x03], &data);
    assert_eq!(msg[msg.len() - 2], cs_expected);
    assert_eq!(*msg.last().unwrap(), 0xF7);
}

#[test]
fn part_param_addr() {
    // Part 0, VOLUME(0x0B): 地址 08 00 0B
    let msg = part_param(Param(0), 0, mp::VOLUME, 100).unwrap();
    assert_eq!(msg, vec![0xF0, 0x43, 0x10, 0x4C, 0x08, 0x00, 0x0B, 100, 0xF7]);
    // Part 15, CUTOFF(0x18): 08 0F 18
    let msg = part_param(Param(0), 15, mp::CUTOFF_FREQ, 64).unwrap();
    assert_eq!(msg, vec![0xF0, 0x43, 0x10, 0x4C, 0x08, 0x0F, 0x18, 64, 0xF7]);
    // part 超范围 → Err
    assert!(part_param(Param(0), 32, mp::VOLUME, 1).is_err());
}

#[test]
fn full_voice_select_sequence() {
    // 完整 XG 音色选择 = MSB + LSB + PC 三连发 (用户实测过, 切 000 041 Violin)
    // 用 SysEx part 参数来选, 地址 08 nn 01(msb) 02(lsb) 03(prg)
    let msb = part_param(Param(0), 0, mp::BANK_SELECT_MSB, 0x00).unwrap();
    let lsb = part_param(Param(0), 0, mp::BANK_SELECT_LSB, 0x00).unwrap();
    let pc  = part_param(Param(0), 0, mp::PROGRAM_NUMBER, 40).unwrap(); // Violin (prg 40, 0-based)
    assert_eq!(msb, vec![0xF0, 0x43, 0x10, 0x4C, 0x08, 0x00, 0x01, 0x00, 0xF7]);
    assert_eq!(lsb, vec![0xF0, 0x43, 0x10, 0x4C, 0x08, 0x00, 0x02, 0x00, 0xF7]);
    assert_eq!(pc , vec![0xF0, 0x43, 0x10, 0x4C, 0x08, 0x00, 0x03, 40, 0xF7]);
}

#[test]
fn param_request_exact() {
    // F0 43 3n 4C addr3 F7
    let msg = param_request(Request(0), [0x08, 0x00, 0x0B]);
    assert_eq!(msg, vec![0xF0, 0x43, 0x30, 0x4C, 0x08, 0x00, 0x0B, 0xF7]);
}

#[test]
fn read_part_voice_param_requests() {
    // 读 part3 (0-based 2) 音色 → 每条一个地址的 XG PARAMETER REQUEST (3n)
    // 2026-08-09 John WedMIDI 实测: device 号 1 (0x31) 三条全回; 之前 0 (0x30) 常不回/只回1条
    // part3 → F0 43 31 4C 08 02 01 F7 (MSB)
    let m = read_part_voice_param(2, mp::BANK_SELECT_MSB, Request(1));
    assert_eq!(m, vec![0xF0, 0x43, 0x31, 0x4C, 0x08, 0x02, 0x01, 0xF7]);
    // LSB 地址
    let l = read_part_voice_param(2, mp::BANK_SELECT_LSB, Request(1));
    assert_eq!(l, vec![0xF0, 0x43, 0x31, 0x4C, 0x08, 0x02, 0x02, 0xF7]);
    // PC 地址
    let p = read_part_voice_param(2, mp::PROGRAM_NUMBER, Request(1));
    assert_eq!(p, vec![0xF0, 0x43, 0x31, 0x4C, 0x08, 0x02, 0x03, 0xF7]);
    // part1 (0-based 0): addr 08 00 01
    let m1 = read_part_voice_param(0, mp::BANK_SELECT_MSB, Request(1));
    assert_eq!(m1, vec![0xF0, 0x43, 0x31, 0x4C, 0x08, 0x00, 0x01, 0xF7]);
}

#[test]
fn collector_parses_part_block_bulk_dump() {
    // MU90 对 DUMP REQUEST (08 00 00) 的 bulk 回包: part 区块一条到齐
    // F0 43 0n 4C [bb bb] 08 00 00 [msb lsb pc ...18B] [cs] F7
    // part1: msb=0 lsb=0 pc=0 (GrandPno)
    let mut block = vec![0u8; 18]; // part 参数区 18 字节 (08 00 00 + 多字节)
    block[8] = 0x40; // 演示非零 (不影响前 3 字节)
    let mut reply = vec![0xF0, 0x43, 0x00, 0x4C, 0x00, 18];
    reply.extend_from_slice(&[0x08, 0x00, 0x00]);
    reply.extend_from_slice(&block);
    reply.push(0x74); // cs (占位, collector 不校验)
    reply.push(0xF7);
    let mut c = PartVoiceCollector::new();
    assert!(c.feed(&reply), "part 区块 bulk 一条应解析出结果");
    assert_eq!(c.result(), Some((0, 0, 0, 0)));
}

#[test]
fn collector_prefers_bulk_over_dt1() {
    // 同一 collector: bulk dump 一条到齐; DT1 逐条也兼容
    // part5 (0-based 4) bulk 回包, 起始 08 04 01 (Bank MSB): msb=0 lsb=41(Dream) pc=0x24
    // F0 43 00 4C 00 03 08 04 01 [00 29 24 00] cs F7 (request 08 04 01 → 回块从 msb 起)
    let bulk = vec![0xF0, 0x43, 0x00, 0x4C, 0x00, 0x03, 0x08, 0x04, 0x01, 0x00, 0x29, 0x24, 0x00, 0x00, 0xF7];
    let mut c = PartVoiceCollector::new();
    assert!(c.feed(&bulk), "bulk (off=01) 应解析出结果");
    assert_eq!(c.result(), Some((4, 0, 0x29, 0x24)));
    // part16 (0-based 15) pc=0x0F
    let bulk16 = vec![0xF0, 0x43, 0x00, 0x4C, 0x00, 0x03, 0x08, 0x0F, 0x01, 0x00, 0x00, 0x0F, 0x00, 0xF7];
    let mut c2 = PartVoiceCollector::new();
    assert!(c2.feed(&bulk16), "bulk16 (off=01) 应解析出结果");
    assert_eq!(c2.result(), Some((15, 0, 0, 0x0F)));
    let _ = (c, c2);
}

#[test]
fn part_voice_collector_assembles_dt1() {
    // 模拟 MU90 对 part 5 读请求的 3 条 DT1 回包: 先 msb=0, 再 lsb=41(Dream), 再 pc=0
    let mut c = PartVoiceCollector::new();
    let msb = vec![0xF0, 0x43, 0x10, 0x4C, 0x08, 0x05, 0x01, 0x00, 0xF7];
    let lsb = vec![0xF0, 0x43, 0x10, 0x4C, 0x08, 0x05, 0x02, 0x29, 0xF7];
    let pc  = vec![0xF0, 0x43, 0x10, 0x4C, 0x08, 0x05, 0x03, 0x00, 0xF7];
    assert!(!c.feed(&msb));
    assert!(!c.feed(&lsb));
    assert!(c.feed(&pc), "第三条凑齐 → 返回 true");
    assert_eq!(c.result(), Some((5, 0, 41, 0)), "part5 = Dream(lsb41) pc0");
    // 乱序喂: 重发 msb, pc 已齐 → 仍 true (msb 更新)
    let msb2 = vec![0xF0, 0x43, 0x10, 0x4C, 0x08, 0x05, 0x01, 0x40, 0xF7];
    assert!(c.feed(&msb2));
    assert_eq!(c.result().unwrap().1, 0x40);
}

#[test]
fn part_voice_collector_rejects_noise() {
    // 非 DT1 / 非 0x08 区 / 长度不对 → false 不污染
    let mut c = PartVoiceCollector::new();
    assert!(!c.feed(&[0xF0, 0x43, 0x40, 0x4C, 0x08, 0x00, 0x01, 0x00, 0xF7])); // 0x40 非 1n
    assert!(!c.feed(&[0xF0, 0x43, 0x10, 0x4C, 0x00, 0x00, 0x00, 0x7E, 0x00, 0xF7])); // addr 00 区
    assert!(!c.feed(&[0xF0, 0x43, 0x10, 0x4C, 0x08, 0x00, 0x01])); // 截断
    assert_eq!(c.result(), None);
}

#[test]
fn bulk_chunk_split() {
    // 大数据拆段, 每段地址累加正确
    let data: Vec<u8> = (0..100u8).collect();
    let chunks = bulk_dump_chunked(Bulk(0), [0x30, 0x0D, 0x00], &data, 50);
    assert_eq!(chunks.len(), 2);
    // 第一段地址 = 30 0D 00
    assert_eq!(&chunks[0][6..9], &[0x30, 0x0D, 0x00]);
    // 第二段地址低字节 +50
    assert_eq!(&chunks[1][6..9], &[0x30, 0x0D, 0x32]); // 0x00+50=0x32
}

#[test]
fn voice_select_sequence() {
    // GrandPno = msb0 lsb0 pc0, ch0 → B0 00 00 | B0 20 00 | C0 00
    // DreamPno = msb0 lsb41 pc0
    let msgs = voice_select_messages(0, 0, 41, 0);
    assert_eq!(msgs.len(), 3);
    assert_eq!(msgs[0], vec![0xB0, 0x00, 0x00]);
    assert_eq!(msgs[1], vec![0xB0, 0x20, 41]);
    assert_eq!(msgs[2], vec![0xC0, 0x00]);
    // 拼连续字节
    let flat = voice_select_bytes(0, 0, 41, 0);
    assert_eq!(flat, vec![0xB0, 0x00, 0x00, 0xB0, 0x20, 41, 0xC0, 0x00]);
    // channel 编码: ch15 → BF / CF
    let msgs15 = voice_select_messages(15, 0x7F, 0x7F, 0x7F);
    assert_eq!(msgs15[0][0], 0xBF);
    assert_eq!(msgs15[2][0], 0xCF);
    // 值都掩到 7bit
    assert!(msgs15.iter().all(|m| m[1..].iter().all(|&b| b < 0x80)));
}

#[test]
fn dump_request_exact() {
    let msg = dump_request(Device::DumpRequest(1), [0x08, 0x02, 0x00]);
    assert_eq!(msg, vec![0xF0, 0x43, 0x21, 0x4C, 0x08, 0x02, 0x00, 0xF7]);
}

#[test]
fn part_param_out_of_range_message() {
    let e = part_param(Param(0), 40, mp::VOLUME, 1).unwrap_err();
    assert_eq!(e, "part 超范围: 40 (0-31)");
}

#[test]
fn system_param_exact() {
    let msg = system_param(Param(0), [0x00, 0x00, 0x04], 0x7F);
    assert_eq!(msg, vec![0xF0, 0x43, 0x10, 0x4C, 0x00, 0x00, 0x04, 0x7F, 0xF7]);
}

#[test]
fn checksum_closes_the_sum() {
    // law: address + data + checksum is 0 modulo 128
    let addr = [0x08u8, 0x03, 0x11];
    let data = [0x10u8, 0x7F, 0x22, 0x05];
    let cs = checksum(&addr, &data);
    let total: u32 = addr.iter().chain(data.iter()).map(|&b| b as u32).sum::<u32>() + cs as u32;
    assert_eq!(total % 128, 0);
}

#[test]
fn dt1_reply_of_param_change_roundtrip() {
    // law: a parameter change to 08 nn off is read back as (nn, off, value)
    let msg = param_change(Param(0), [0x08, 0x07, 0x02], &[0x29]);
    assert_eq!(PartVoiceCollector::try_dt1(&msg), Some((7, 2, 0x29)));
}

#[test]
fn bulk_reply_of_bulk_dump_roundtrip() {
    // law: a part block dump from the bank select MSB is read back as (part, msb, lsb, pc)
    let msg = bulk_dump(Bulk(0), [0x08, 0x05, 0x01], &[0x00, 0x29, 0x24, 0x00]);
    assert_eq!(PartVoiceCollector::try_bulk_dump(&msg), Some((5, 0, 0x29, 0x24)));
}

#[test]
fn collector_reset_forgets() {
    let mut c = PartVoiceCollector::new();
    assert!(!c.feed(&[0xF0, 0x43, 0x10, 0x4C, 0x08, 0x00, 0x01, 0x00, 0xF7]));
    c.reset();
    assert_eq!(c.result(), None);
}

#[test]
fn bulk_chunk_empty_data() {
    let chunks = bulk_dump_chunked(Bulk(0), [0x00, 0x00, 0x00], &[], 16);
    assert!(chunks.is_empty());
}

#[test]
fn bulk_chunk_address_carries_between_7bit_bytes() {
    // base 00 00 7F, one byte per chunk: the second chunk starts at 00 01 00
    let chunks = bulk_dump_chunked(Bulk(0), [0x00, 0x00, 0x7F], &[0x00, 0x00], 1);
    assert_eq!(chunks.len(), 2);
    assert_eq!(&chunks[0][6..9], &[0x00, 0x00, 0x7F]);
    assert_eq!(&chunks[1][6..9], &[0x00, 0x01, 0x00]);
    // carry through both lower bytes: 7F 7F 7F + 1 wraps to 00 00 00
    let chunks = bulk_dump_chunked(Bulk(0), [0x7F, 0x7F, 0x7F], &[0x01, 0x02], 1);
    assert_eq!(&chunks[1][6..9], &[0x00, 0x00, 0x00]);
    // 200 bytes from 30 0D 70, 100 per chunk: 0x70 + 100 = 0xD4 → 30 0E 54
    let data: Vec<u8> = (0..200u32).map(|x| (x % 128) as u8).collect();
    let chunks = bulk_dump_chunked(Bulk(0), [0x30, 0x0D, 0x70], &data, 100);
    assert_eq!(chunks.len(), 2);
    assert_eq!(&chunks[1][6..9], &[0x30, 0x0E, 0x54]);
    // the checksum of each chunk closes its 7-bit sum
    for c in &chunks {
        let body = &c[6..c.len() - 1];
        let s: u32 = body.iter().map(|&b| b as u32).sum();
        assert_eq!(s % 128, 0);
    }
}
