//! System block addresses.

use vstd::prelude::*;

verus! {

pub const MASTER_TUNE: [u8; 3] = [0x00, 0x00, 0x00];
pub const MASTER_VOLUME: [u8; 3] = [0x00, 0x00, 0x04];
pub const MASTER_ATT: [u8; 3] = [0x00, 0x00, 0x05];
pub const TRANSPOSE: [u8; 3] = [0x00, 0x00, 0x06];
pub const XG_SYSTEM_ON: [u8; 3] = [0x00, 0x00, 0x7E];
pub const ALL_RESET: [u8; 3] = [0x00, 0x00, 0x7F];

} // verus!
