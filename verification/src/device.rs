//! Target hardware devices and the bank-select MSB areas each one implements.

use vstd::prelude::*;

verus! {

/// Target hardware. The quick-pick voice menu is filtered by the MSB areas the device owns.
#[derive(Debug, Clone, Copy, PartialEq, Eq, Structural)]
pub enum Device {
    /// Yamaha MU90 (XG Level 1)
    Mu90,
}

/// The MSB areas of a device, as a set of byte values.
pub open spec fn supported_msb_seq(d: Device) -> Seq<u8> {
    match d {
        Device::Mu90 => seq![0u8, 64u8, 126u8, 127u8],
    }
}

impl Device {
    /// The bank-select MSB areas the device supports, ascending.
    pub fn supported_msbs(&self) -> (r: &'static [u8])
        ensures
            r@ == supported_msb_seq(*self),
    {
        match self {
            Device::Mu90 => {
                let a: &'static [u8; 4] = &[0, 64, 126, 127];
                let s: &'static [u8] = a.as_slice();
                s
            }
        }
    }

    /// Whether the device supports the given MSB area.
    pub fn supports_msb(&self, msb: u8) -> (r: bool)
        ensures
            r == supported_msb_seq(*self).contains(msb),
    {
        let s = self.supported_msbs();
        let mut i: usize = 0;
        while i < s.len()
            invariant
                s@ == supported_msb_seq(*self),
                0 <= i <= s.len(),
                forall|j: int| 0 <= j < i ==> s@[j] != msb,
            decreases s.len() - i,
        {
            if s[i] == msb {
                return true;
            }
            i = i + 1;
        }
        false
    }
}

} // verus!
