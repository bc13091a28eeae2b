//! Multi Part parameter offsets (the low address byte of `08 nn off`).

use vstd::prelude::*;

verus! {

pub const ELEMENT_RESERVE: u8 = 0x00;
pub const BANK_SELECT_MSB: u8 = 0x01;
pub const BANK_SELECT_LSB: u8 = 0x02;
pub const PROGRAM_NUMBER: u8 = 0x03;
pub const RCV_CHANNEL: u8 = 0x04;
pub const MONO_POLY: u8 = 0x05;
pub const PART_MODE: u8 = 0x07;
pub const NOTE_SHIFT: u8 = 0x08;
pub const DETUNE: u8 = 0x09;
pub const VOLUME: u8 = 0x0B;
pub const VELOCITY_SENSE_DEPTH: u8 = 0x0C;
pub const VELOCITY_SENSE_OFFSET: u8 = 0x0D;
pub const PAN: u8 = 0x0E;
pub const NOTE_LIMIT_LOW: u8 = 0x0F;
pub const NOTE_LIMIT_HIGH: u8 = 0x10;
pub const DRY_LEVEL: u8 = 0x11;
pub const CHORUS_SEND: u8 = 0x12;
pub const REVERB_SEND: u8 = 0x13;
pub const VARIATION_SEND: u8 = 0x14;
pub const VIBRATO_RATE: u8 = 0x15;
pub const VIBRATO_DEPTH: u8 = 0x16;
pub const VIBRATO_DELAY: u8 = 0x17;
pub const CUTOFF_FREQ: u8 = 0x18;
pub const RESONANCE: u8 = 0x19;
pub const EG_ATTACK_TIME: u8 = 0x1A;
pub const EG_DECAY_TIME: u8 = 0x1B;
pub const EG_RELEASE_TIME: u8 = 0x1C;
pub const MW_PITCH_CTRL: u8 = 0x1D;
pub const BEND_PITCH_CTRL: u8 = 0x23;
pub const RCV_PITCH_BEND: u8 = 0x30;
pub const RCV_CH_AFTER_TOUCH: u8 = 0x31;
pub const RCV_PROGRAM_CHANGE: u8 = 0x32;
pub const RCV_CONTROL_CHANGE: u8 = 0x33;

} // verus!
