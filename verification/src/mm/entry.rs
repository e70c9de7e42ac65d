//! Page table entries: a physical page number and eight flag bits in a word.
use crate::mm::address::{PhysPageNum, PPN_SPAN};
use vstd::prelude::*;

verus! {

/// The entry is valid.
pub const PTE_V: u8 = 1;

/// The page may be read.
pub const PTE_R: u8 = 2;

/// The page may be written.
pub const PTE_W: u8 = 4;

/// The page may be executed.
pub const PTE_X: u8 = 8;

/// The page is accessible in user mode.
pub const PTE_U: u8 = 16;

/// The mapping is global.
pub const PTE_G: u8 = 32;

/// The page was accessed.
pub const PTE_A: u8 = 64;

/// The page was written.
pub const PTE_D: u8 = 128;

/// A set of page table entry flags.
#[derive(Clone, Copy, Debug, PartialEq, Eq, Structural)]
pub struct PTEFlags {
    pub bits: u8,
}

/// A page table entry.
#[derive(Clone, Copy, Debug, PartialEq, Eq, Structural)]
pub struct PageTableEntry {
    /// Bits of the entry: flags in bits 7 to 0, the page number in bits 53 to 10.
    pub bits: u64,
}

/// The word of an entry with this page number and these flags.
pub open spec fn pte_word(ppn: u64, flags: u8) -> u64 {
    (ppn << 10) | (flags as u64)
}

/// The page number in an entry.
pub open spec fn pte_ppn(bits: u64) -> u64 {
    (bits / 1024u64) % PPN_SPAN
}

/// The flags in an entry.
pub open spec fn pte_flags(bits: u64) -> u8 {
    (bits % 256u64) as u8
}

/// Does the entry have flag number `k`, counted from 0 to 7?
pub open spec fn pte_flag(bits: u64, k: int) -> bool {
    if k == 0 {
        bits % 2 == 1
    } else if k == 1 {
        (bits / 2) % 2 == 1
    } else if k == 2 {
        (bits / 4) % 2 == 1
    } else if k == 3 {
        (bits / 8) % 2 == 1
    } else if k == 4 {
        (bits / 16) % 2 == 1
    } else if k == 5 {
        (bits / 32) % 2 == 1
    } else if k == 6 {
        (bits / 64) % 2 == 1
    } else {
        k == 7 && (bits / 128) % 2 == 1
    }
}

/// Is the entry valid?
pub open spec fn pte_valid(bits: u64) -> bool {
    pte_flag(bits, 0)
}

/// Page number and flags are read back from an entry.
pub proof fn lemma_pte_word(ppn: u64, flags: u8)
    requires
        ppn < PPN_SPAN,
    ensures
        pte_word(ppn, flags) == ppn * 1024 + flags,
        pte_ppn(pte_word(ppn, flags)) == ppn,
        pte_flags(pte_word(ppn, flags)) == flags,
        pte_valid(pte_word(ppn, flags)) == (flags % 2 == 1),
{
    let f = flags as u64;
    let w = pte_word(ppn, flags);
    assert(w == ppn * 1024 + f && (w / 1024) % 0x1000_0000_0000u64 == ppn && w % 256 == f && w % 2
        == f % 2) by (bit_vector)
        requires
            w == (ppn << 10) | f,
            ppn < 0x1000_0000_0000u64,
            f < 256,
    ;
}

/// Adding the valid flag to a set of flags makes the entry valid.
pub proof fn lemma_flags_valid(flags: u8)
    ensures
        (flags | PTE_V) % 2 == 1,
{
    assert((flags | 1u8) % 2 == 1) by (bit_vector);
}

impl PTEFlags {
    /// The flags with these bits; every bit stands for a flag.
    pub fn from_bits(bits: u8) -> (r: Option<PTEFlags>)
        ensures
            r == Some(PTEFlags { bits }),
    {
        Some(PTEFlags { bits })
    }

    /// No flags.
    pub fn empty() -> (r: PTEFlags)
        ensures
            r.bits == 0,
    {
        PTEFlags { bits: 0 }
    }

    /// The flags in either set.
    pub fn union(self, other: PTEFlags) -> (r: PTEFlags)
        ensures
            r.bits == self.bits | other.bits,
    {
        PTEFlags { bits: self.bits | other.bits }
    }

    /// The flags in both sets.
    pub fn intersection(self, other: PTEFlags) -> (r: PTEFlags)
        ensures
            r.bits == self.bits & other.bits,
    {
        PTEFlags { bits: self.bits & other.bits }
    }
}

impl PageTableEntry {
    /// Create a new page table entry.
    pub fn new(ppn: PhysPageNum, flags: PTEFlags) -> (r: PageTableEntry)
        ensures
            r.bits == pte_word(ppn.0, flags.bits),
    {
        PageTableEntry { bits: ppn.0 << 10 | flags.bits as u64 }
    }

    /// Create an empty page table entry.
    pub fn empty() -> (r: PageTableEntry)
        ensures
            r.bits == 0,
    {
        PageTableEntry { bits: 0 }
    }

    /// Get the physical page number from the page table entry.
    pub fn ppn(&self) -> (r: PhysPageNum)
        ensures
            r.0 == pte_ppn(self.bits),
    {
        let b = self.bits;
        assert((b >> 10) & 0xfff_ffff_ffffu64 == (b / 1024) % 0x1000_0000_0000u64) by (bit_vector);
        PhysPageNum((b >> 10) & 0xfff_ffff_ffff)
    }

    /// Get the flags from the page table entry.
    pub fn flags(&self) -> (r: PTEFlags)
        ensures
            r.bits == pte_flags(self.bits),
    {
        PTEFlags { bits: (self.bits % 256) as u8 }
    }

    /// Does the entry have one of these flags?
    fn has(&self, flag: u8) -> (r: bool)
        ensures
            r == (self.bits & (flag as u64) != 0),
    {
        let b = self.bits;
        assert((((b % 256) as u8) & flag != 0) == (b & (flag as u64) != 0)) by (bit_vector);
        self.flags().intersection(PTEFlags { bits: flag }).bits != 0
    }

    /// Is the entry valid?
    pub fn is_valid(&self) -> (r: bool)
        ensures
            r == pte_valid(self.bits),
    {
        let b = self.bits;
        assert((b & 1u64 != 0) == (b % 2 == 1)) by (bit_vector);
        self.has(PTE_V)
    }

    /// Is the page accessible to users?
    pub fn is_user_accessible(&self) -> (r: bool)
        ensures
            r == pte_flag(self.bits, 4),
    {
        let b = self.bits;
        assert((b & 16u64 != 0) == ((b / 16) % 2 == 1)) by (bit_vector);
        self.has(PTE_U)
    }

    /// Is the page readable?
    pub fn readable(&self) -> (r: bool)
        ensures
            r == pte_flag(self.bits, 1),
    {
        let b = self.bits;
        assert((b & 2u64 != 0) == ((b / 2) % 2 == 1)) by (bit_vector);
        self.has(PTE_R)
    }

    /// Is the page writable?
    pub fn writable(&self) -> (r: bool)
        ensures
            r == pte_flag(self.bits, 2),
    {
        let b = self.bits;
        assert((b & 4u64 != 0) == ((b / 4) % 2 == 1)) by (bit_vector);
        self.has(PTE_W)
    }

    /// Is the page executable?
    pub fn executable(&self) -> (r: bool)
        ensures
            r == pte_flag(self.bits, 3),
    {
        let b = self.bits;
        assert((b & 8u64 != 0) == ((b / 8) % 2 == 1)) by (bit_vector);
        self.has(PTE_X)
    }
}

/// Flag number `k` of an entry is bit `k` of its word, whatever the other bits are.
pub proof fn law_flags_are_bits(bits: u64)
    ensures
        pte_valid(bits) == (bits & 0x01 != 0),
        pte_flag(bits, 0) == (bits & 0x01 != 0),
        pte_flag(bits, 1) == (bits & 0x02 != 0),
        pte_flag(bits, 2) == (bits & 0x04 != 0),
        pte_flag(bits, 3) == (bits & 0x08 != 0),
        pte_flag(bits, 4) == (bits & 0x10 != 0),
        pte_flag(bits, 5) == (bits & 0x20 != 0),
        pte_flag(bits, 6) == (bits & 0x40 != 0),
        pte_flag(bits, 7) == (bits & 0x80 != 0),
        pte_flags(bits) == bits & 0xff,
        pte_ppn(bits) == (bits >> 10) & 0xfff_ffff_ffff,
{
    assert((bits % 2 == 1) == (bits & 0x01 != 0) && ((bits / 2) % 2 == 1) == (bits & 0x02 != 0) && (
    (bits / 4) % 2 == 1) == (bits & 0x04 != 0) && ((bits / 8) % 2 == 1) == (bits & 0x08 != 0) && ((
    bits / 16) % 2 == 1) == (bits & 0x10 != 0) && ((bits / 32) % 2 == 1) == (bits & 0x20 != 0) && ((
    bits / 64) % 2 == 1) == (bits & 0x40 != 0) && ((bits / 128) % 2 == 1) == (bits & 0x80 != 0)
        && bits % 256 == bits & 0xff && (bits / 1024) % 0x1000_0000_0000u64 == (bits >> 10)
        & 0xfff_ffff_ffff && bits % 256 < 256) by (bit_vector);
}

/// What is put into an entry is what is found in it: the page number and each of the
/// flags.
pub proof fn law_entry_holds_page_and_flags(ppn: u64, flags: u8)
    requires
        ppn < 0x1000_0000_0000,
    ensures
        pte_ppn(pte_word(ppn, flags)) == ppn,
        pte_flags(pte_word(ppn, flags)) == flags,
        pte_valid(pte_word(ppn, flags)) == (flags & 0x01 != 0),
        pte_flag(pte_word(ppn, flags), 1) == (flags & 0x02 != 0),
        pte_flag(pte_word(ppn, flags), 2) == (flags & 0x04 != 0),
        pte_flag(pte_word(ppn, flags), 3) == (flags & 0x08 != 0),
        pte_flag(pte_word(ppn, flags), 4) == (flags & 0x10 != 0),
        pte_flag(pte_word(ppn, flags), 5) == (flags & 0x20 != 0),
        pte_flag(pte_word(ppn, flags), 6) == (flags & 0x40 != 0),
        pte_flag(pte_word(ppn, flags), 7) == (flags & 0x80 != 0),
{
    lemma_pte_word(ppn, flags);
    let w = pte_word(ppn, flags);
    law_flags_are_bits(w);
    assert((w & 0x01 != 0) == (flags & 0x01 != 0) && (w & 0x02 != 0) == (flags & 0x02 != 0) && (w
        & 0x04 != 0) == (flags & 0x04 != 0) && (w & 0x08 != 0) == (flags & 0x08 != 0) && (w & 0x10
        != 0) == (flags & 0x10 != 0) && (w & 0x20 != 0) == (flags & 0x20 != 0) && (w & 0x40 != 0)
        == (flags & 0x40 != 0) && (w & 0x80 != 0) == (flags & 0x80 != 0)) by (bit_vector)
        requires
            w & 0xff == flags as u64,
    ;
}

/// The word of an entry has the flags in its lowest 8 bits, nothing in the next two, and
/// the page number, as far as there is room for it, in the bits above.
pub proof fn law_fields_of_an_entry(ppn: u64, flags: u8)
    ensures
        pte_word(ppn, flags) & 0x3ff == flags as u64,
        pte_word(ppn, flags) >> 10 == ppn & 0x3f_ffff_ffff_ffff,
{
    let f = flags as u64;
    assert(((ppn << 10) | f) & 0x3ff == f && ((ppn << 10) | f) >> 10 == ppn & 0x3f_ffff_ffff_ffff)
        by (bit_vector)
        requires
            f < 256,
    ;
}

/// Each named flag is one bit of its own.
pub proof fn law_flag_names()
    ensures
        PTE_V == 0x01,
        PTE_R == 0x02,
        PTE_W == 0x04,
        PTE_X == 0x08,
        PTE_U == 0x10,
        PTE_G == 0x20,
        PTE_A == 0x40,
        PTE_D == 0x80,
{
}

} // verus!
