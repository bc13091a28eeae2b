//! Transport buttons of the top bar: the glyph of each kind and its colour by state.

use vstd::prelude::*;

verus! {

/// Transport button kind.
#[derive(Clone, Copy, Debug, PartialEq, Eq, Structural)]
pub enum Transport {
    /// play (shows Pause while playing)
    Play,
    /// pause (while playing)
    Pause,
    /// stop
    Stop,
    /// record (armed state only, no recording)
    Record,
}

/// Glyph colour (red, green, blue): active Play / Pause / Stop are green, an armed Record is
/// red, anything inactive is light grey.
pub open spec fn transport_rgb(kind: Transport, active: bool) -> (u8, u8, u8) {
    if !active {
        (0xe8u8, 0xe8u8, 0xe8u8)
    } else {
        match kind {
            Transport::Record => (0xffu8, 0x3bu8, 0x30u8),
            _ => (0x5au8, 0xd0u8, 0x7au8),
        }
    }
}

impl Transport {
    /// The glyph drawn on the button (U+25B6 play, U+23F8 pause, U+23F9 stop, U+23FA record).
    pub fn glyph(&self) -> (r: &'static str)
        ensures
            r@ == (match *self {
                Transport::Play => "\u{25B6}"@,
                Transport::Pause => "\u{23F8}"@,
                Transport::Stop => "\u{23F9}"@,
                Transport::Record => "\u{23FA}"@,
            }),
    {
        match self {
            Transport::Play => "\u{25B6}",
            Transport::Pause => "\u{23F8}",
            Transport::Stop => "\u{23F9}",
            Transport::Record => "\u{23FA}",
        }
    }

    /// Glyph colour for the button's state (`active`: playing, or armed for Record).
    pub fn glyph_rgb(&self, active: bool) -> (r: (u8, u8, u8))
        ensures
            r == transport_rgb(*self, active),
    {
        match self {
            Transport::Play | Transport::Pause | Transport::Stop => {
                if active {
                    (0x5a, 0xd0, 0x7a)
                } else {
                    (0xe8, 0xe8, 0xe8)
                }
            },
            Transport::Record => {
                if active {
                    (0xff, 0x3b, 0x30)
                } else {
                    (0xe8, 0xe8, 0xe8)
                }
            },
        }
    }
}

} // verus!
