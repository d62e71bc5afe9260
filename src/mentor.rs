use vstd::prelude::*;

verus! {

/// The address of the Mentor device that holds the total number of writes; the addresses below
/// it are the device's registers.
pub const TOTAL_WRITES_ADDR: u8 = 5;

/// Whether `addr` is a register of the Mentor device that may be read or written.
pub fn is_valid(addr: u8) -> (r: bool)
    ensures
        r == (addr < TOTAL_WRITES_ADDR),
{
    addr < TOTAL_WRITES_ADDR
}

} // verus!
