//! Indices of the eight per-part mix parameters, and the global system effect types.
//!
//! An MU90 multi part holds a voice and eight mix parameters; parts 1-16 listen on port A
//! channels 1-16 and parts 17-32 on port B. Reverb, chorus and variation types are global
//! system effects; a part only holds its send levels.

use vstd::prelude::*;
use crate::sysex::{device_byte, param_change_bytes, part_param, Device};
use crate::sysex::mp;

verus! {

/// The eight mix parameters, in the order of the LCD labels VOL EXP BRT PAN REV CHO VAR KEY.
#[derive(Debug, Clone, Copy, PartialEq, Eq, Structural)]
pub enum P {
    /// VOL
    Volume,
    /// EXP (expression)
    Exp,
    /// BRT
    Bright,
    /// PAN
    Pan,
    /// REV (send)
    Reverb,
    /// CHO (send)
    Chorus,
    /// VAR (send)
    Variation,
    /// KEY
    Key,
}

/// Number of mix parameters of a part.
pub const N_PARAMS: usize = 8;

impl P {
    /// Position of the parameter in a part's parameter array.
    pub fn index(self) -> (r: usize)
        ensures
            r < N_PARAMS,
            r == (match self {
                P::Volume => 0usize,
                P::Exp => 1usize,
                P::Bright => 2usize,
                P::Pan => 3usize,
                P::Reverb => 4usize,
                P::Chorus => 5usize,
                P::Variation => 6usize,
                P::Key => 7usize,
            }),
    {
        match self {
            P::Volume => 0,
            P::Exp => 1,
            P::Bright => 2,
            P::Pan => 3,
            P::Reverb => 4,
            P::Chorus => 5,
            P::Variation => 6,
            P::Key => 7,
        }
    }
}

/// Global system effect types (effect bank, not per part).
#[derive(Clone, Debug, PartialEq)]
pub struct SystemFx {
    /// reverb type
    pub rev_type: String,
    /// chorus type
    pub cho_type: String,
    /// variation type
    pub var_type: String,
}

impl Default for SystemFx {
    /// Hall reverb, Chorus1 chorus, variation off.
    fn default() -> (r: Self)
        ensures
            r.rev_type@ == "Hall"@,
            r.cho_type@ == "Chorus1"@,
            r.var_type@ == "off"@,
    {
        SystemFx {
            rev_type: "Hall".to_owned(),
            cho_type: "Chorus1".to_owned(),
            var_type: "off".to_owned(),
        }
    }
}


/// Multi Part parameter offsets of the panel sliders, in slider order: Volume, Exp (dry
/// level), Bright (EG attack), Pan, Reverb, Chorus, Variation, Key (note shift), Cutoff,
/// Resonance.
pub open spec fn slider_offsets() -> Seq<u8> {
    seq![
        mp::VOLUME, mp::DRY_LEVEL, mp::EG_ATTACK_TIME, mp::PAN, mp::REVERB_SEND,
        mp::CHORUS_SEND, mp::VARIATION_SEND, mp::NOTE_SHIFT, mp::CUTOFF_FREQ, mp::RESONANCE,
    ]
}

/// The parameter offset sent for each panel slider.
pub fn param_offsets() -> (r: Vec<u8>)
    ensures
        r@ == slider_offsets(),
{
    let r = vec![
        mp::VOLUME,
        mp::DRY_LEVEL,
        mp::EG_ATTACK_TIME,
        mp::PAN,
        mp::REVERB_SEND,
        mp::CHORUS_SEND,
        mp::VARIATION_SEND,
        mp::NOTE_SHIFT,
        mp::CUTOFF_FREQ,
        mp::RESONANCE,
    ];
    assert(r@ =~= slider_offsets());
    r
}

/// `v` held to the data byte range 0..=127.
pub open spec fn clamp7(v: int) -> u8 {
    if v < 0 {
        0
    } else if v > 127 {
        127
    } else {
        v as u8
    }
}

/// The data byte of a slider value: a slider whose range starts below zero is shifted so
/// that its minimum becomes 0 (Pan -64..63 sends 0..127); then the value is clamped to 0..=127.
pub open spec fn slider_data(value: int, min: int) -> u8 {
    if min < 0 {
        clamp7(value - min)
    } else {
        clamp7(value)
    }
}

/// Data byte for a slider at `value` whose range starts at `min`.
pub fn slider_byte(value: i32, min: i32) -> (r: u8)
    ensures
        r == slider_data(value as int, min as int),
{
    let v: i64 = if min < 0 {
        value as i64 - min as i64
    } else {
        value as i64
    };
    if v < 0 {
        0
    } else if v > 127 {
        127
    } else {
        v as u8
    }
}

/// The parameter change a slider sends for part index `part` (0-31): the slider's offset
/// and data byte, device number 0. An index past 31 gives an empty message.
pub fn slider_message(part: u8, offset: u8, value: i32, min: i32) -> (r: Vec<u8>)
    ensures
        part <= 31 ==> r@ == param_change_bytes(
            device_byte(Device::Param(0)),
            seq![0x08u8, part, offset],
            seq![slider_data(value as int, min as int)],
        ),
        part > 31 ==> r@.len() == 0,
{
    let byte = slider_byte(value, min);
    match part_param(Device::Param(0), part, offset, byte) {
        Ok(v) => v,
        Err(_) => Vec::new(),
    }
}

} // verus!
