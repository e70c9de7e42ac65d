//! Sv39 addresses and page numbers.
//!
//! A virtual address has 39 significant bits: a 27-bit page number, read as
//! three table indexes of 9 bits, and a 12-bit offset. A physical page number
//! has 44 bits.
use vstd::prelude::*;

verus! {

/// Bytes in a page.
pub const PAGE_SIZE: u64 = 4096;

/// Number of distinct virtual addresses: 2 to the power 39.
pub const VA_SPAN: u64 = 0x80_0000_0000;

/// First address of the upper half of the 39-bit space: 2 to the power 38.
pub const VA_HALF: u64 = 0x40_0000_0000;

/// Number of virtual pages: 2 to the power 27.
pub const VPN_SPAN: u64 = 0x800_0000;

/// Number of physical pages: 2 to the power 44.
pub const PPN_SPAN: u64 = 0x1000_0000_0000;

/// Entries in one table.
pub const TABLE_ENTRIES: u64 = 512;

/// A physical address.
#[derive(Clone, Copy, Debug, PartialEq, Eq, Structural)]
pub struct PhysAddr(pub u64);

/// A physical page number.
#[derive(Clone, Copy, Debug, PartialEq, Eq, Structural)]
pub struct PhysPageNum(pub u64);

/// A virtual address.
#[derive(Clone, Copy, Debug, PartialEq, Eq, Structural)]
pub struct VirtAddr(pub u64);

/// A virtual page number.
#[derive(Clone, Copy, Debug, PartialEq, Eq, Structural)]
pub struct VirtPageNum(pub u64);

/// The word that a 39-bit address stands for: bits 63 to 39 repeat bit 38.
pub open spec fn sign_extended(va: int) -> int {
    if va >= VA_HALF {
        va + (0x1_0000_0000_0000_0000int - VA_SPAN)
    } else {
        va
    }
}

/// The first page that starts at or after the address `va`.
pub open spec fn page_ceil(va: u64) -> int {
    (va + (PAGE_SIZE - 1)) / (PAGE_SIZE as int)
}

/// The index that page number `vpn` selects in a table at `level`, level 0
/// being the root.
pub open spec fn vpn_index(vpn: u64, level: int) -> u64 {
    if level == 0 {
        (vpn / 0x4_0000u64) % TABLE_ENTRIES
    } else if level == 1 {
        (vpn / 512u64) % TABLE_ENTRIES
    } else {
        vpn % TABLE_ENTRIES
    }
}

impl PhysPageNum {
    /// The page number in the low 44 bits of a word.
    pub fn from_word(v: u64) -> (r: PhysPageNum)
        ensures
            r.0 == v % PPN_SPAN,
    {
        PhysPageNum(v % PPN_SPAN)
    }

    /// Address of the first byte of the page.
    pub fn addr(self) -> (r: PhysAddr)
        requires
            self.0 < PPN_SPAN,
        ensures
            r.0 == self.0 * PAGE_SIZE,
    {
        PhysAddr(self.0 * PAGE_SIZE)
    }
}

impl VirtAddr {
    /// The address in the low 39 bits of a word.
    pub fn from_word(v: u64) -> (r: VirtAddr)
        ensures
            r.0 == v % VA_SPAN,
    {
        VirtAddr(v % VA_SPAN)
    }

    /// The address as a word, sign-extended from bit 38.
    pub fn to_word(self) -> (r: u64)
        requires
            self.0 < VA_SPAN,
        ensures
            r == sign_extended(self.0 as int),
    {
        if self.0 >= VA_HALF {
            self.0 + (u64::MAX - VA_SPAN + 1)
        } else {
            self.0
        }
    }

    /// The page that the address lies in.
    pub fn floor(self) -> (r: VirtPageNum)
        ensures
            r.0 == self.0 / PAGE_SIZE,
    {
        VirtPageNum(self.0 / PAGE_SIZE)
    }

    /// The first page that starts at or after the address.
    pub fn ceil(self) -> (r: VirtPageNum)
        ensures
            r.0 == page_ceil(self.0),
    {
        if self.0 == 0 {
            VirtPageNum(0)
        } else {
            VirtPageNum((self.0 - 1) / PAGE_SIZE + 1)
        }
    }

    /// Position of the address in its page.
    pub fn page_offset(self) -> (r: u64)
        ensures
            r == self.0 % PAGE_SIZE,
    {
        self.0 % PAGE_SIZE
    }

    /// Is this the first address of a page?
    pub fn aligned(self) -> (r: bool)
        ensures
            r == (self.0 % PAGE_SIZE == 0),
    {
        self.page_offset() == 0
    }

    /// The smaller of two addresses.
    pub fn min(self, other: VirtAddr) -> (r: VirtAddr)
        ensures
            r.0 == if self.0 <= other.0 { self.0 } else { other.0 },
    {
        if self.0 <= other.0 {
            self
        } else {
            other
        }
    }
}

impl VirtPageNum {
    /// Address of the first byte of the page.
    pub fn addr(self) -> (r: VirtAddr)
        requires
            self.0 <= VPN_SPAN,
        ensures
            r.0 == self.0 * PAGE_SIZE,
    {
        VirtAddr(self.0 * PAGE_SIZE)
    }

    /// Moves on to the next page.
    pub fn step(&mut self)
        requires
            old(self).0 < u64::MAX,
        ensures
            final(self).0 == old(self).0 + 1,
    {
        self.0 = self.0 + 1;
    }

    /// The table indexes of the page, root first.
    pub fn indexes(self) -> (r: [usize; 3])
        ensures
            forall|k: int| 0 <= k < 3 ==> r@[k] == #[trigger] vpn_index(self.0, k),
    {
        let i0 = (self.0 / 0x4_0000) % TABLE_ENTRIES;
        let i1 = (self.0 / 512) % TABLE_ENTRIES;
        let i2 = self.0 % TABLE_ENTRIES;
        [i0 as usize, i1 as usize, i2 as usize]
    }
}

/// A page number below 2 to the power 27 is determined by its three indexes.
pub proof fn lemma_indexes_determine_page(a: u64, b: u64)
    requires
        a < VPN_SPAN,
        b < VPN_SPAN,
        vpn_index(a, 0) == vpn_index(b, 0),
        vpn_index(a, 1) == vpn_index(b, 1),
        vpn_index(a, 2) == vpn_index(b, 2),
    ensures
        a == b,
{
    assert(a == (a / 0x4_0000) * 0x4_0000 + ((a / 512) % 512) * 512 + a % 512);
    assert(b == (b / 0x4_0000) * 0x4_0000 + ((b / 512) % 512) * 512 + b % 512);
}

/// Sign extension keeps the low 39 bits and makes all bits from 38 on alike: the word is
/// one of the lowest or one of the highest 2 to the power 38 words.
#[verifier::spinoff_prover]
pub proof fn law_sign_extension(va: u64)
    requires
        va < 0x80_0000_0000,
    ensures
        0 <= sign_extended(va as int) <= u64::MAX,
        sign_extended(va as int) % 0x80_0000_0000 == va,
        sign_extended(va as int) < 0x40_0000_0000 || sign_extended(va as int)
            >= 0x1_0000_0000_0000_0000 - 0x40_0000_0000,
{
    if va >= VA_HALF {
        assert((va + (0x1_0000_0000_0000_0000int - VA_SPAN)) % 0x80_0000_0000 == va);
    }
}

/// Rounding up gives the first page that begins at or after the address: it does not
/// begin before, and the page before it does.
#[verifier::spinoff_prover]
pub proof fn law_rounding_up(va: u64)
    ensures
        page_ceil(va) * 4096 >= va,
        (page_ceil(va) - 1) * 4096 < va,
{
}

/// The three indexes of a page are the lowest three digits of its number, to the base 512:
/// each is below 512, and together they give the lowest 27 bits of the number back.
#[verifier::spinoff_prover]
pub proof fn law_indexes_are_digits(vpn: u64)
    ensures
        vpn_index(vpn, 0) < 512,
        vpn_index(vpn, 1) < 512,
        vpn_index(vpn, 2) < 512,
        vpn_index(vpn, 0) * 262144 + vpn_index(vpn, 1) * 512 + vpn_index(vpn, 2) == vpn
            % 0x800_0000,
{
    assert(((vpn / 262144) % 512) * 262144 + ((vpn / 512) % 512) * 512 + vpn % 512 == vpn
        % 0x800_0000) by (bit_vector);
}

/// How the sizes fit together: 39-bit addresses are pages of 4096 bytes, whose numbers are
/// three digits to the base 512, and physical page numbers have 44 bits.
pub proof fn law_sizes_fit_together()
    ensures
        PAGE_SIZE == 4096,
        TABLE_ENTRIES == 512,
        VPN_SPAN == TABLE_ENTRIES * TABLE_ENTRIES * TABLE_ENTRIES,
        VA_SPAN == VPN_SPAN * PAGE_SIZE,
        VA_SPAN == 2 * VA_HALF,
        PPN_SPAN == 1u64 << 44,
{
    assert(1u64 << 44 == 0x1000_0000_0000) by (bit_vector);
}

} // verus!
