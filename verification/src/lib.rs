//! XG editor core library: XG SysEx framing, SMF parsing, MIDI topology and voice tables.

pub mod device;
pub mod data;
pub mod text;
pub mod order;
pub mod pattern;
pub mod describe;
pub mod ms_button;
pub mod transport;
pub mod play_view;
pub mod part;
pub mod playback;
pub mod piano_roll;
pub mod voice_pick;
pub mod readback;
pub mod capture;
pub mod status;
pub mod tempo;
pub mod sysex;
pub mod smf;
pub mod midi_topology;

use vstd::prelude::*;

verus! {

} // verus!
