//! Mute / Solo toggle kinds of the channel rows: the letter drawn on the button and the
//! colour it takes when active.

use vstd::prelude::*;

verus! {

/// Mute / Solo button kind.
#[derive(Clone, Copy, PartialEq, Eq, Debug, Structural)]
pub enum MSKind {
    /// Mute (active colour red)
    Mute,
    /// Solo (active colour amber)
    Solo,
}

impl MSKind {
    /// The letter on the button: "M" or "S".
    pub fn glyph(&self) -> (r: &'static str)
        ensures
            r@ == (match *self {
                MSKind::Mute => "M"@,
                MSKind::Solo => "S"@,
            }),
    {
        match self {
            MSKind::Mute => "M",
            MSKind::Solo => "S",
        }
    }

    /// Background colour (red, green, blue) of an active button: red for Mute, amber for Solo.
    pub fn active_rgb(&self) -> (r: (u8, u8, u8))
        ensures
            r == (match *self {
                MSKind::Mute => (0xe0u8, 0x35u8, 0x35u8),
                MSKind::Solo => (0xffu8, 0xb0u8, 0x30u8),
            }),
    {
        match self {
            MSKind::Mute => (0xe0, 0x35, 0x35),
            MSKind::Solo => (0xff, 0xb0, 0x30),
        }
    }
}

} // verus!
