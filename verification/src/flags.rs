//! Colour and detachment flags of a managed cell, packed into one byte.

use vstd::prelude::*;

verus! {

/// The marking colour of a managed cell.
#[derive(Clone, Copy, PartialEq, Eq, Debug, Structural)]
pub enum GcColor {
    /// Unmarked and not pending: freed by the next sweep that visits it.
    White,
    /// Rooted while white; waits in the gray queue and is traced only if
    /// still rooted when it is reached.
    LightGray,
    /// Reached by tracing; waits in the gray queue and is always traced.
    DarkGray,
    /// Traced; every handle it holds points to a dark-gray or black cell.
    Black,
}

/// The two colour bits of a flag byte, as a colour.
pub open spec fn color_of_bits(bits: u8) -> GcColor {
    let low = bits & 0x3;
    if low == 0x0 {
        GcColor::White
    } else if low == 0x1 {
        GcColor::LightGray
    } else if low == 0x2 {
        GcColor::DarkGray
    } else {
        GcColor::Black
    }
}

/// The two-bit code of a colour.
pub open spec fn bits_of_color(color: GcColor) -> u8 {
    match color {
        GcColor::White => 0x0,
        GcColor::LightGray => 0x1,
        GcColor::DarkGray => 0x2,
        GcColor::Black => 0x3,
    }
}

/// The flag byte of a cell: bits 0 and 1 hold the colour, bit 2 the
/// detached mark, the rest is reserved and stays zero.
pub struct GcFlags(u8);

impl GcFlags {
    /// The raw flag byte.
    pub closed spec fn bits(&self) -> u8 {
        self.0
    }

    /// The colour that the flag byte encodes.
    pub open spec fn spec_color(&self) -> GcColor {
        color_of_bits(self.bits())
    }

    /// Whether the detached bit is set.
    pub open spec fn spec_detached(&self) -> bool {
        self.bits() & 0x4 != 0
    }

    /// Only the three defined bits are in use.
    pub open spec fn wf(&self) -> bool {
        self.bits() & 0xf8 == 0
    }

    /// Fresh flags: white, not detached.
    pub fn new() -> (flags: GcFlags)
        ensures
            flags.bits() == 0,
            flags.spec_color() == GcColor::White,
            !flags.spec_detached(),
            flags.wf(),
    {
        assert(0u8 & 0x3 == 0 && 0u8 & 0x4 == 0 && 0u8 & 0xf8 == 0) by (bit_vector);
        GcFlags(0)
    }

    /// The current colour.
    pub fn color(&self) -> (color: GcColor)
        ensures
            color == self.spec_color(),
    {
        let bits: u8 = self.0;
        let low: u8 = bits & 0x3;
        assert(low == 0 || low == 1 || low == 2 || low == 3) by (bit_vector)
            requires
                low == bits & 0x3,
        ;
        if low == 0x0 {
            GcColor::White
        } else if low == 0x1 {
            GcColor::LightGray
        } else if low == 0x2 {
            GcColor::DarkGray
        } else {
            GcColor::Black
        }
    }

    /// Replaces the colour and leaves the detached bit as it was.
    pub fn set_color(&mut self, color: GcColor)
        ensures
            final(self).spec_color() == color,
            final(self).spec_detached() == old(self).spec_detached(),
            final(self).bits() == (old(self).bits() & !0x3u8) | bits_of_color(color),
            old(self).wf() ==> final(self).wf(),
    {
        let code: u8 = match color {
            GcColor::White => 0x0,
            GcColor::LightGray => 0x1,
            GcColor::DarkGray => 0x2,
            GcColor::Black => 0x3,
        };
        let before: u8 = self.0;
        let after: u8 = (before & !0x3u8) | code;
        assert(after & 0x3 == code && (after & 0x4 != 0) == (before & 0x4 != 0) && (before & 0xf8
            == 0 ==> after & 0xf8 == 0)) by (bit_vector)
            requires
                after == (before & !0x3u8) | code,
                code <= 3,
        ;
        self.0 = after;
    }

    /// Whether the cell outlived its context and now belongs to its rooted
    /// handles.
    pub fn is_detached(&self) -> (detached: bool)
        ensures
            detached == self.spec_detached(),
    {
        self.0 & 0x4 != 0x0
    }

    /// Sets or clears the detached bit and leaves the colour as it was.
    pub fn set_detached(&mut self, detached: bool)
        ensures
            final(self).spec_detached() == detached,
            final(self).spec_color() == old(self).spec_color(),
            final(self).bits() == (old(self).bits() & !0x4u8) | (if detached {
                0x4u8
            } else {
                0x0u8
            }),
            old(self).wf() ==> final(self).wf(),
    {
        let mark: u8 = if detached {
            0x4
        } else {
            0x0
        };
        let before: u8 = self.0;
        let after: u8 = (before & !0x4u8) | mark;
        assert((after & 0x4 != 0) == (mark == 4) && after & 0x3 == before & 0x3 && (before & 0xf8
            == 0 ==> after & 0xf8 == 0)) by (bit_vector)
            requires
                after == (before & !0x4u8) | mark,
                mark == 0 || mark == 4,
        ;
        self.0 = after;
    }
}

} // verus!
