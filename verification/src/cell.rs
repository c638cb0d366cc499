//! The packed per-cell representation: one byte holding both the life state
//! and the live-neighbor count.

use vstd::prelude::*;

verus! {

/// One automaton cell, packed into a single byte.
///
/// Bit 0 is the life state (1 = alive), bits 1..=4 hold the count of live
/// neighbors, and bits 5..=7 are reserved and kept at zero.
#[derive(Clone, Copy, Debug, PartialEq, Eq, Structural)]
pub struct Cell(pub u8);

impl Cell {
    /// The life state stored in bit 0.
    pub open spec fn spec_alive(self) -> bool {
        self.0 & 1 == 1
    }

    /// The neighbor count stored in bits 1..=4.
    pub open spec fn spec_count(self) -> u8 {
        (self.0 >> 1) & 0xf
    }

    /// The reserved bits 5..=7 are zero.
    pub open spec fn wf(self) -> bool {
        self.0 & 0xe0 == 0
    }

    /// A live cell with no recorded neighbors.
    pub fn alive() -> (c: Cell)
        ensures
            c.spec_alive(),
            c.spec_count() == 0,
            c.wf(),
    {
        proof {
            assert(1u8 & 1 == 1 && (1u8 >> 1) & 0xf == 0 && 1u8 & 0xe0 == 0) by (bit_vector);
        }
        Cell(1)
    }

    /// A dead cell with no recorded neighbors.
    pub fn dead() -> (c: Cell)
        ensures
            !c.spec_alive(),
            c.spec_count() == 0,
            c.wf(),
    {
        proof {
            assert(0u8 & 1 == 0 && (0u8 >> 1) & 0xf == 0 && 0u8 & 0xe0 == 0) by (bit_vector);
        }
        Cell(0)
    }

    /// Reads the life state from bit 0.
    pub fn is_alive(&self) -> (b: bool)
        ensures
            b == self.spec_alive(),
    {
        (self.0 & 1) == 1
    }

    /// Writes the life state into bit 0, preserving all other bits.
    pub fn set_state(&mut self, state: bool)
        ensures
            final(self).spec_alive() == state,
            final(self).spec_count() == old(self).spec_count(),
            old(self).wf() ==> final(self).wf(),
    {
        let b: u8 = if state { 1 } else { 0 };
        let v: u8 = (self.0 & !1) | b;
        proof {
            let x: u8 = self.0;
            assert(((x & !1) | b) & 1 == b
                && ((((x & !1) | b) >> 1) & 0xf) == ((x >> 1) & 0xf)
                && (((x & !1) | b) & 0xe0) == (x & 0xe0)) by (bit_vector)
                requires b == 0 || b == 1;
        }
        self.0 = v;
    }

    /// Writes the neighbor count into bits 1..=4, preserving the state bit
    /// and the reserved bits. The count must fit the 4-bit field.
    pub fn set_count(&mut self, count: u8)
        requires
            count <= 15,
        ensures
            final(self).spec_count() == count,
            final(self).spec_alive() == old(self).spec_alive(),
            old(self).wf() ==> final(self).wf(),
    {
        let v: u8 = (self.0 & !0b11110) | (count << 1);
        proof {
            let x: u8 = self.0;
            assert(((((x & !0b11110) | (count << 1)) >> 1) & 0xf) == count
                && (((x & !0b11110) | (count << 1)) & 1) == (x & 1)
                && (((x & !0b11110) | (count << 1)) & 0xe0) == (x & 0xe0)) by (bit_vector)
                requires count <= 15;
        }
        self.0 = v;
    }

    /// Reads the neighbor count from bits 1..=4.
    pub fn get_count(&self) -> (n: u8)
        ensures
            n == self.spec_count(),
            n <= 15,
    {
        proof {
            let x: u8 = self.0;
            assert((x >> 1) & 0xf <= 15) by (bit_vector);
        }
        (self.0 >> 1) & 0xf
    }

    /// Raises the neighbor count by one.
    pub fn inc_count(&mut self)
        requires
            old(self).spec_count() < 15,
        ensures
            final(self).spec_count() == old(self).spec_count() + 1,
            final(self).spec_alive() == old(self).spec_alive(),
            old(self).wf() ==> final(self).wf(),
    {
        let c = self.get_count();
        self.set_count(c + 1);
    }

    /// Lowers the neighbor count by one.
    pub fn dec_count(&mut self)
        requires
            old(self).spec_count() > 0,
        ensures
            final(self).spec_count() == old(self).spec_count() - 1,
            final(self).spec_alive() == old(self).spec_alive(),
            old(self).wf() ==> final(self).wf(),
    {
        let c = self.get_count();
        self.set_count(c - 1);
    }

    /// The raw packed byte.
    pub fn to_u8(&self) -> (v: u8)
        ensures
            v == self.0,
    {
        self.0
    }

    /// A well-formed cell is the zero byte exactly when it is dead with no
    /// live neighbors; this backs the fast-path skip test in the step loop.
    pub proof fn lemma_byte_zero(self)
        requires
            self.wf(),
        ensures
            (self.0 == 0) <==> (!self.spec_alive() && self.spec_count() == 0),
    {
        let x: u8 = self.0;
        assert((x == 0) == (!(x & 1 == 1) && (x >> 1) & 0xf == 0)) by (bit_vector)
            requires x & 0xe0 == 0;
    }

    /// Two well-formed cells with the same state and count are the same byte.
    pub proof fn lemma_ext(self, other: Cell)
        requires
            self.wf(),
            other.wf(),
            self.spec_alive() == other.spec_alive(),
            self.spec_count() == other.spec_count(),
        ensures
            self == other,
    {
        let x: u8 = self.0;
        let y: u8 = other.0;
        assert(x == y) by (bit_vector)
            requires
                x & 0xe0 == 0,
                y & 0xe0 == 0,
                (x & 1 == 1) == (y & 1 == 1),
                (x >> 1) & 0xf == (y >> 1) & 0xf;
    }

}

impl core::convert::From<u8> for Cell {
    /// Wraps a raw packed byte.
    fn from(v: u8) -> (c: Cell) {
        Cell(v)
    }
}

impl vstd::std_specs::convert::FromSpecImpl<u8> for Cell {
    open spec fn obeys_from_spec() -> bool {
        true
    }

    open spec fn from_spec(v: u8) -> Cell {
        Cell(v)
    }
}

} // verus!
