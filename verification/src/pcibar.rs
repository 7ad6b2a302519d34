//! What the registers of a PCI device say of where the device sits.

use vstd::prelude::*;

verus! {

/// The kind of a base address register that names I/O ports.
pub const BAR_TYPE_IO: u8 = 1;

/// The first I/O port that the base address register `bar` names.
pub open spec fn spec_io_base(bar: u32) -> u16 {
    (bar & 0xfffc) as u16
}

/// The first I/O port that the base address register `bar` names: the
/// register without its two flag bits, cut to the 16 bits of a port
/// number. `None` where the register names memory, not ports.
pub fn io_base(bar: u32) -> (r: Option<u16>)
    ensures
        r is Some <==> bar & 1 == BAR_TYPE_IO,
        r matches Some(port) ==> port == spec_io_base(bar) && port & 3 == 0,
{
    if bar & 1 != 1 {
        return None;
    }
    let low: u32 = bar & 0xfffc;
    assert(low <= 0xfffc && (low as u16) & 3 == 0) by (bit_vector)
        requires
            low == bar & 0xfffc,
    ;
    Some(low as u16)
}

/// The interrupt line in the interrupt register `reg` of a device: its low
/// byte.
pub fn interrupt_line(reg: u16) -> (line: u8)
    ensures
        line == reg % 256,
{
    (reg % 256) as u8
}

/// The interrupt pin in the interrupt register `reg` of a device. The pin
/// field is meant, which is the high byte of the register: to mask the
/// register with `0xff00` and cut it to 8 bits, without a shift, gives 0
/// for every register.
pub fn interrupt_pin(reg: u16) -> (pin: u8)
    ensures
        pin == reg / 256,
{
    (reg / 256) as u8
}

} // verus!
