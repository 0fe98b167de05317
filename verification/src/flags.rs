//! Entry flags: a 32-bit bitfield stored as a plain integer with named
//! accessors over explicit masks.
//!
//! Layout: bits 0-15 are reserved; bit 16 marks an external payload; bit 17
//! an internal one; bits 18-19 are reserved; bit 20 marks zlib compression;
//! bit 21 lz4 compression (both set means encrypted, by convention); bits
//! 22-31 are reserved.

use vstd::prelude::*;

verus! {

pub const EXTERNAL_MASK: u32 = 0x0001_0000;

pub const INTERNAL_MASK: u32 = 0x0002_0000;

pub const ZLIB_MASK: u32 = 0x0010_0000;

pub const LZ4_MASK: u32 = 0x0020_0000;

/// The raw 32-bit flag word of a container entry.
#[derive(Debug, Clone, Copy, PartialEq, Eq, Structural)]
pub struct RdbFlags(pub u32);

pub open spec fn spec_bit_set(v: u32, mask: u32) -> bool {
    v & mask != 0
}

pub open spec fn spec_with_bit(v: u32, mask: u32, on: bool) -> u32 {
    if on {
        v | mask
    } else {
        v & !mask
    }
}

impl RdbFlags {
    /// Flags with every bit clear.
    pub fn new() -> (r: RdbFlags)
        ensures
            r.0 == 0,
    {
        RdbFlags(0)
    }

    pub fn external(&self) -> (r: bool)
        ensures
            r == spec_bit_set(self.0, EXTERNAL_MASK),
    {
        self.0 & EXTERNAL_MASK != 0
    }

    pub fn internal(&self) -> (r: bool)
        ensures
            r == spec_bit_set(self.0, INTERNAL_MASK),
    {
        self.0 & INTERNAL_MASK != 0
    }

    pub fn zlib_compressed(&self) -> (r: bool)
        ensures
            r == spec_bit_set(self.0, ZLIB_MASK),
    {
        self.0 & ZLIB_MASK != 0
    }

    pub fn lz4_compressed(&self) -> (r: bool)
        ensures
            r == spec_bit_set(self.0, LZ4_MASK),
    {
        self.0 & LZ4_MASK != 0
    }

    pub fn set_external(&mut self, on: bool)
        ensures
            final(self).0 == spec_with_bit(old(self).0, EXTERNAL_MASK, on),
    {
        if on {
            self.0 = self.0 | EXTERNAL_MASK;
        } else {
            self.0 = self.0 & !EXTERNAL_MASK;
        }
    }

    pub fn set_internal(&mut self, on: bool)
        ensures
            final(self).0 == spec_with_bit(old(self).0, INTERNAL_MASK, on),
    {
        if on {
            self.0 = self.0 | INTERNAL_MASK;
        } else {
            self.0 = self.0 & !INTERNAL_MASK;
        }
    }

    pub fn set_zlib_compressed(&mut self, on: bool)
        ensures
            final(self).0 == spec_with_bit(old(self).0, ZLIB_MASK, on),
    {
        if on {
            self.0 = self.0 | ZLIB_MASK;
        } else {
            self.0 = self.0 & !ZLIB_MASK;
        }
    }

    pub fn set_lz4_compressed(&mut self, on: bool)
        ensures
            final(self).0 == spec_with_bit(old(self).0, LZ4_MASK, on),
    {
        if on {
            self.0 = self.0 | LZ4_MASK;
        } else {
            self.0 = self.0 & !LZ4_MASK;
        }
    }
}

} // verus!
