//! Tasks: what the kernel keeps of a process, and its heap.
use crate::mm::address::{page_ceil, VirtAddr, PAGE_SIZE, VA_SPAN};
use crate::mm::memory::{MemView, PhysMemory};
use crate::mm::memory_set::{
    area_at, area_at_from, can_append, run_given_up, run_placed, AreaView, MemorySet,
};
use crate::mm::pages::{mapped_alike, placed_frames, release_pages, unmapped};
use vstd::prelude::*;

verus! {

/// The registers of a task that is in the kernel.
#[derive(Clone, Copy, Debug)]
pub struct TrapContext {
    pub x: [u64; 32],
}

/// What a task knows of a child: its number, whether it has exited, and the code
/// that it exited with.
#[derive(Clone, Copy, Debug, PartialEq, Eq, Structural)]
pub struct Child {
    pub pid: usize,
    pub zombie: bool,
    pub exit_code: i32,
}

/// What the kernel keeps of a task. The heap reaches from `heap_bottom` to
/// `program_brk`.
pub struct TaskControlBlock {
    pub pid: usize,
    pub memory_set: MemorySet,
    pub trap_cx: TrapContext,
    pub children: Vec<Child>,
    pub heap_bottom: u64,
    pub program_brk: u64,
}

/// The first area that starts at page `start`, if there is one, ends at page `end`.
pub open spec fn ends_at(areas: Seq<AreaView>, start: u64, end: int) -> bool {
    let k = area_at(areas, start);
    k < areas.len() ==> areas[k].end == end
}

impl TaskControlBlock {
    /// Page that the heap starts in.
    pub open spec fn heap_page(&self) -> u64 {
        self.heap_bottom / PAGE_SIZE
    }

    /// The area of the heap, if it is there, reaches to the end of the heap.
    pub open spec fn heap_wf(&self) -> bool {
        &&& self.heap_bottom <= self.program_brk <= VA_SPAN
        &&& ends_at(self.memory_set.areas(), self.heap_page(), page_ceil(self.program_brk))
    }

    /// Does the area of the heap, if it is there, reach to the end of the heap?
    pub fn check_heap(&self) -> (r: bool)
        ensures
            r == self.heap_wf(),
    {
        if self.heap_bottom > self.program_brk || self.program_brk > VA_SPAN {
            return false;
        }
        match self.memory_set.area_end(VirtAddr(self.heap_bottom).floor()) {
            Some(end) => end.0 == VirtAddr(self.program_brk).ceil().0,
            None => true,
        }
    }

    /// Everything but the address space is the same.
    pub open spec fn same_but_memory(&self, other: TaskControlBlock) -> bool {
        &&& self.pid == other.pid
        &&& self.trap_cx == other.trap_cx
        &&& self.children == other.children
        &&& self.heap_bottom == other.heap_bottom
        &&& self.program_brk == other.program_brk
        &&& self.memory_set.root() == other.memory_set.root()
    }

    /// Can the end of the heap be moved by `size` bytes? It must stay above the
    /// bottom and in the address space, there must be an area for it, and there
    /// must be memory for what it grows by.
    pub open spec fn can_change_brk(&self, m: MemView, size: int) -> bool {
        let areas = self.memory_set.areas();
        let end = self.program_brk + size;
        &&& self.heap_bottom <= end <= VA_SPAN
        &&& area_at(areas, self.heap_page()) < areas.len()
        &&& size >= 0 ==> can_append(
            m,
            self.memory_set.root(),
            areas,
            self.heap_page(),
            page_ceil(end as u64) as u64,
        )
    }

    /// Memory is `n`, the areas are `areas` and the tables take up the frames `tables`
    /// after the end of the heap was moved by `size` bytes: pages that it grew by are
    /// mapped to fresh frames, pages that it lost are unmapped.
    pub open spec fn brk_changed(
        &self,
        m: MemView,
        n: MemView,
        areas: Seq<AreaView>,
        tables: Seq<u64>,
        size: int,
    ) -> bool {
        let root = self.memory_set.root();
        let before = self.memory_set.areas();
        let k = area_at(before, self.heap_page());
        let a = before[k];
        let end = page_ceil((self.program_brk + size) as u64) as u64;
        if size >= 0 {
            let more = (end - a.end) as nat;
            &&& run_placed(
                m,
                n,
                root,
                a.end,
                more,
                a.flags,
                self.memory_set.table_frames(),
                tables,
            )
            &&& areas == before.update(
                k,
                AreaView {
                    end,
                    frames: a.frames + placed_frames(m, root, a.end, more, a.flags),
                    ..a
                },
            )
        } else {
            &&& n == release_pages(m, root, end, (a.end - end) as nat)
            &&& tables == self.memory_set.table_frames()
            &&& areas == before.update(
                k,
                AreaView { end, frames: a.frames.take(end - a.start), ..a },
            )
        }
    }

    /// Memory is `n` and the tables take up the frames `tables` after it was found that
    /// the end of the heap cannot be moved by `size` bytes: nothing has changed, unless
    /// pages were mapped and given back because there was not memory enough.
    pub open spec fn brk_refused(
        &self,
        m: MemView,
        n: MemView,
        tables: Seq<u64>,
        size: int,
    ) -> bool {
        let root = self.memory_set.root();
        let areas = self.memory_set.areas();
        let k = area_at(areas, self.heap_page());
        let a = areas[k];
        let brk = self.program_brk + size;
        let end = page_ceil(brk as u64) as u64;
        &&& mapped_alike(m, n, root, 0, 0)
        &&& if self.heap_bottom <= brk <= VA_SPAN && size >= 0 && k < areas.len() && unmapped(
            m,
            root,
            a.end as int,
            end as int,
        ) {
            run_given_up(
                m,
                n,
                root,
                a.end,
                (end - a.end) as nat,
                a.flags,
                self.memory_set.table_frames(),
                tables,
            )
        } else {
            n == m && tables == self.memory_set.table_frames()
        }
    }

    /// Moves the end of the heap by `size` bytes, and returns where it was. Nothing
    /// happens where that cannot be done.
    pub fn change_program_brk(&mut self, mem: &mut PhysMemory, size: i32) -> (r: Option<u64>)
        requires
            old(self).memory_set.inv(old(mem)@),
            old(self).heap_wf(),
        ensures
            final(self).memory_set.inv(final(mem)@),
            final(self).heap_wf(),
            r is Some == old(self).can_change_brk(old(mem)@, size as int),
            r is None ==> {
                &&& final(self).same_but_memory(*old(self))
                &&& final(self).memory_set.areas() == old(self).memory_set.areas()
                &&& old(self).brk_refused(
                    old(mem)@,
                    final(mem)@,
                    final(self).memory_set.table_frames(),
                    size as int,
                )
            },
            r matches Some(brk) ==> {
                &&& brk == old(self).program_brk
                &&& final(self).program_brk == old(self).program_brk + size
                &&& final(self).same_but_memory(
                    (TaskControlBlock { program_brk: final(self).program_brk, ..*old(self) }),
                )
                &&& old(self).brk_changed(
                    old(mem)@,
                    final(mem)@,
                    final(self).memory_set.areas(),
                    final(self).memory_set.table_frames(),
                    size as int,
                )
            },
    {
        let old_break = self.program_brk;
        let new_brk: i64 = self.program_brk as i64 + size as i64;
        if new_brk < self.heap_bottom as i64 || new_brk > VA_SPAN as i64 {
            return None;
        }
        let start = VirtAddr(self.heap_bottom).floor();
        let end = VirtAddr(new_brk as u64).ceil();
        proof {
            lemma_area_at(self.memory_set.areas(), self.heap_page(), 0);
        }
        let result = if size < 0 {
            self.memory_set.shrink_to(mem, start, end)
        } else {
            self.memory_set.append_to(mem, start, end)
        };
        if result {
            self.program_brk = new_brk as u64;
            proof {
                let areas = old(self).memory_set.areas();
                let k = area_at(areas, old(self).heap_page());
                let b = self.memory_set.areas()[k];
                assert(b.start == areas[k].start);
                lemma_area_at_update(areas, old(self).heap_page(), b, 0);
                assert(self.memory_set.areas() == areas.update(k, b));
            }
            Some(old_break)
        } else {
            None
        }
    }
}

/// Where the search for an area ends.
pub proof fn lemma_area_at(areas: Seq<AreaView>, start: u64, k: int)
    requires
        0 <= k <= areas.len(),
    ensures
        ({
            let l = area_at_from(areas, start, k);
            &&& k <= l <= areas.len()
            &&& l < areas.len() ==> areas[l].start == start
        }),
    decreases areas.len() - k,
{
    if k < areas.len() && areas[k].start != start {
        lemma_area_at(areas, start, k + 1);
    }
}

/// An area that was found is found again once its end has moved.
pub proof fn lemma_area_at_update(areas: Seq<AreaView>, start: u64, b: AreaView, k: int)
    requires
        0 <= k <= area_at_from(areas, start, k) < areas.len(),
        b.start == start,
    ensures
        ({
            let l = area_at_from(areas, start, k);
            area_at_from(areas.update(l, b), start, k) == l
        }),
    decreases areas.len() - k,
{
    if areas[k].start != start {
        lemma_area_at(areas, start, k + 1);
        lemma_area_at_update(areas, start, b, k + 1);
    }
}

} // verus!
