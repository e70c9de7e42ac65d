//! Page tables: finding, creating, setting and clearing entries.
use crate::mm::address::{
    vpn_index, PhysAddr, PhysPageNum, VirtAddr, VirtPageNum, PAGE_SIZE, PPN_SPAN,
};
use crate::mm::entry::{pte_ppn, pte_word, PTEFlags, PageTableEntry, PTE_V};
use crate::mm::memory::{lemma_put_pte, lemma_take_frame, FrameTracker, PhysMemory};
use crate::mm::walk::{
    can_map, child_available, leaf_table, lookup, map_entry, mapping, missing_tables, new_child,
    path2, path2_table, path_available, path_backed, path_frames, set_entry, with_child,
};
use vstd::prelude::*;

verus! {

/// The mode field of a token: Sv39 translation is on.
pub const TOKEN_MODE: u64 = 0x8000_0000_0000_0000;

/// The page number of the root that a token names.
pub open spec fn token_root(token: u64) -> u64 {
    token % PPN_SPAN
}

/// Place of an entry: a table and an index in it.
#[derive(Clone, Copy, Debug, PartialEq, Eq, Structural)]
pub struct EntrySlot {
    pub table: PhysPageNum,
    pub index: usize,
}

/// A page table: its root and the frames it owns.
pub struct PageTable {
    root_ppn: PhysPageNum,
    frames: Vec<FrameTracker>,
}

impl PageTable {
    /// Page number of the root table.
    pub closed spec fn root(self) -> u64 {
        self.root_ppn.0
    }

    /// The frames that the page table owns, in the order in which it got them.
    pub closed spec fn owned(self) -> Seq<u64> {
        self.frames@.map_values(|f: FrameTracker| f.ppn.0)
    }

    /// Create a new page table.
    pub fn new(mem: &mut PhysMemory) -> (r: PageTable)
        requires
            old(mem)@.wf(),
            old(mem)@.free.len() > 0,
        ensures
            final(mem)@.wf(),
            final(mem)@ == old(mem)@.take_frame(),
            r.root() == old(mem)@.free.last(),
            r.owned() == seq![old(mem)@.free.last()],
    {
        let frame = mem.frame_alloc().unwrap();
        let root_ppn = frame.ppn;
        let mut frames: Vec<FrameTracker> = Vec::new();
        frames.push(frame);
        let r = PageTable { root_ppn, frames };
        assert(r.owned() =~= seq![old(mem)@.free.last()]);
        r
    }

    /// A page table that owns nothing, for looking up what the table with this
    /// token maps.
    pub fn from_token(satp: u64) -> (r: PageTable)
        ensures
            r.root() == token_root(satp),
            r.owned() == Seq::<u64>::empty(),
    {
        let r = PageTable { root_ppn: PhysPageNum::from_word(satp), frames: Vec::new() };
        assert(r.owned() =~= Seq::<u64>::empty());
        r
    }

    /// Makes entry `idx` of `table` point to a table, a new one if need be, and
    /// returns that table.
    fn child_create(
        &mut self,
        mem: &mut PhysMemory,
        table: PhysPageNum,
        idx: usize,
    ) -> (r: PhysPageNum)
        requires
            old(mem)@.wf(),
            child_available(old(mem)@, table.0, idx as u64),
            idx < 512,
        ensures
            final(mem)@.wf(),
            final(mem)@ == with_child(old(mem)@, table.0, idx as u64),
            r.0 == pte_ppn(final(mem)@.pte(table.0, idx as u64)),
            final(self).root() == old(self).root(),
            final(self).owned() == old(self).owned() + new_child(
                old(mem)@,
                table.0,
                idx as u64,
            ),
    {
        let mut pte = PageTableEntry { bits: mem.read_pte(table, idx) };
        if !pte.is_valid() {
            let frame = mem.frame_alloc().unwrap();
            pte = PageTableEntry::new(frame.ppn, PTEFlags { bits: PTE_V });
            mem.write_pte(table, idx, pte.bits);
            self.frames.push(frame);
            proof {
                lemma_take_frame(old(mem)@);
                lemma_put_pte(
                    old(mem)@.take_frame(),
                    table.0,
                    idx as u64,
                    pte.bits,
                );
            }
        }
        assert(self.owned() =~= old(self).owned() + new_child(
            old(mem)@,
            table.0,
            idx as u64,
        ));
        pte.ppn()
    }

    /// Find the entry for a page, creating the tables that are missing.
    fn find_pte_create(&mut self, mem: &mut PhysMemory, vpn: VirtPageNum) -> (r: Option<EntrySlot>)
        requires
            old(mem)@.wf(),
            path_available(old(mem)@, old(self).root(), vpn.0),
        ensures
            final(mem)@.wf(),
            final(mem)@ == path2(old(mem)@, old(self).root(), vpn.0),
            r is Some,
            r->0.table.0 == path2_table(old(mem)@, old(self).root(), vpn.0),
            r->0.index == vpn_index(vpn.0, 2),
            final(self).root() == old(self).root(),
            final(self).owned() == old(self).owned() + path_frames(
                old(mem)@,
                old(self).root(),
                vpn.0,
            ),
    {
        let idxs = vpn.indexes();
        assert(idxs@[0] == vpn_index(vpn.0, 0) && idxs@[1] == vpn_index(vpn.0, 1) && idxs@[2]
            == vpn_index(vpn.0, 2));
        let root = self.root_ppn;
        let table1 = self.child_create(mem, root, idxs[0]);
        let table2 = self.child_create(mem, table1, idxs[1]);
        assert(self.owned() =~= old(self).owned() + path_frames(
            old(mem)@,
            old(self).root(),
            vpn.0,
        ));
        Some(EntrySlot { table: table2, index: idxs[2] })
    }

    /// Find the entry for a page.
    fn find_pte(&self, mem: &PhysMemory, vpn: VirtPageNum) -> (r: Option<EntrySlot>)
        requires
            mem@.wf(),
            path_backed(mem@, self.root(), vpn.0),
        ensures
            match leaf_table(mem@, self.root(), vpn.0) {
                Some(t) => r is Some && r->0.table.0 == t && r->0.index == vpn_index(vpn.0, 2),
                None => r is None,
            },
    {
        let idxs = vpn.indexes();
        assert(idxs@[0] == vpn_index(vpn.0, 0) && idxs@[1] == vpn_index(vpn.0, 1) && idxs@[2]
            == vpn_index(vpn.0, 2));
        let mut ppn = self.root_ppn;
        let pte = PageTableEntry { bits: mem.read_pte(ppn, idxs[0]) };
        if !pte.is_valid() {
            return None;
        }
        ppn = pte.ppn();
        let pte = PageTableEntry { bits: mem.read_pte(ppn, idxs[1]) };
        if !pte.is_valid() {
            return None;
        }
        ppn = pte.ppn();
        Some(EntrySlot { table: ppn, index: idxs[2] })
    }

    /// Number of tables that are missing on the way to a page.
    pub fn missing_tables(&self, mem: &PhysMemory, vpn: VirtPageNum) -> (r: usize)
        requires
            mem@.wf(),
            path_backed(mem@, self.root(), vpn.0),
        ensures
            r == missing_tables(mem@, self.root(), vpn.0),
    {
        let idxs = vpn.indexes();
        assert(idxs@[0] == vpn_index(vpn.0, 0));
        let pte = PageTableEntry { bits: mem.read_pte(self.root_ppn, idxs[0]) };
        if !pte.is_valid() {
            2
        } else if self.find_pte(mem, vpn).is_none() {
            1
        } else {
            0
        }
    }

    /// Set the map between a virtual page and a physical page. The page must not
    /// be mapped, and there must be free frames for the tables that are missing.
    pub fn map(&mut self, mem: &mut PhysMemory, vpn: VirtPageNum, ppn: PhysPageNum, flags: PTEFlags)
        requires
            old(mem)@.wf(),
            can_map(old(mem)@, old(self).root(), vpn.0),
        ensures
            final(mem)@.wf(),
            final(mem)@ == map_entry(
                old(mem)@,
                old(self).root(),
                vpn.0,
                pte_word(ppn.0, flags.bits | PTE_V),
            ),
            final(self).root() == old(self).root(),
            final(self).owned() == old(self).owned() + path_frames(
                old(mem)@,
                old(self).root(),
                vpn.0,
            ),
    {
        let slot = self.find_pte_create(mem, vpn).unwrap();
        let pte = PageTableEntry::new(ppn, flags.union(PTEFlags { bits: PTE_V }));
        mem.write_pte(slot.table, slot.index, pte.bits);
    }

    /// Remove the map of a virtual page. The page must be mapped.
    pub fn unmap(&mut self, mem: &mut PhysMemory, vpn: VirtPageNum)
        requires
            old(mem)@.wf(),
            path_backed(old(mem)@, old(self).root(), vpn.0),
            mapping(old(mem)@, old(self).root(), vpn.0) is Some,
        ensures
            final(mem)@.wf(),
            final(mem)@ == set_entry(old(mem)@, old(self).root(), vpn.0, 0),
            *final(self) == *old(self),
    {
        let slot = self.find_pte(mem, vpn).unwrap();
        mem.write_pte(slot.table, slot.index, PageTableEntry::empty().bits);
    }

    /// Get the page table entry of a virtual page.
    pub fn translate(&self, mem: &PhysMemory, vpn: VirtPageNum) -> (r: Option<PageTableEntry>)
        requires
            mem@.wf(),
            path_backed(mem@, self.root(), vpn.0),
        ensures
            match lookup(mem@, self.root(), vpn.0) {
                Some(bits) => r == Some(PageTableEntry { bits }),
                None => r is None,
            },
    {
        match self.find_pte(mem, vpn) {
            Some(slot) => Some(PageTableEntry { bits: mem.read_pte(slot.table, slot.index) }),
            None => None,
        }
    }

    /// Get the physical address of a virtual address.
    pub fn translate_va(&self, mem: &PhysMemory, va: VirtAddr) -> (r: Option<PhysAddr>)
        requires
            mem@.wf(),
            path_backed(mem@, self.root(), va.0 / PAGE_SIZE),
        ensures
            match lookup(mem@, self.root(), va.0 / PAGE_SIZE) {
                Some(bits) => r is Some && (r->0).0 == pte_ppn(bits) * PAGE_SIZE
                    + va.0 % PAGE_SIZE,
                None => r is None,
            },
    {
        match self.find_pte(mem, va.floor()) {
            Some(slot) => {
                let pte = PageTableEntry { bits: mem.read_pte(slot.table, slot.index) };
                let aligned_pa = pte.ppn().addr();
                let offset = va.page_offset();
                Some(PhysAddr(aligned_pa.0 + offset))
            },
            None => None,
        }
    }

    /// Get the token of the page table: the mode and the root.
    pub fn token(&self) -> (r: u64)
        ensures
            r == TOKEN_MODE | self.root(),
    {
        assert((8u64 << 60) == TOKEN_MODE) by (bit_vector);
        8u64 << 60 | self.root_ppn.0
    }

    /// Is a page mapped?
    pub fn check_mapped_one(&self, mem: &PhysMemory, vpn: VirtPageNum) -> (r: bool)
        requires
            mem@.wf(),
            path_backed(mem@, self.root(), vpn.0),
        ensures
            r == (mapping(mem@, self.root(), vpn.0) is Some),
    {
        if let Some(pte) = self.translate(mem, vpn) {
            pte.is_valid()
        } else {
            false
        }
    }
}

/// The root of a page table is recovered from its token.
pub proof fn law_token_names_root(root: u64)
    requires
        root < PPN_SPAN,
    ensures
        token_root(TOKEN_MODE | root) == root,
{
    assert((0x8000_0000_0000_0000u64 | root) % 0x1000_0000_0000u64 == root) by (bit_vector)
        requires
            root < 0x1000_0000_0000u64,
    ;
}

/// A token has the mode of three-level tables in its highest 4 bits and the number of the
/// root in its lowest 44 bits, and only the latter is read from one.
pub proof fn law_token_fields(token: u64, root: u64)
    requires
        root < 0x1000_0000_0000,
    ensures
        token_root(token) == token & 0xfff_ffff_ffff,
        (TOKEN_MODE | root) >> 60 == 8,
        (TOKEN_MODE | root) & 0xfff_ffff_ffff_ffff == root,
{
    assert(token % 0x1000_0000_0000u64 == token & 0xfff_ffff_ffff && (0x8000_0000_0000_0000u64
        | root) >> 60 == 8 && (0x8000_0000_0000_0000u64 | root) & 0xfff_ffff_ffff_ffff == root)
        by (bit_vector)
        requires
            root < 0x1000_0000_0000u64,
    ;
}

} // verus!
