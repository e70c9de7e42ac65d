//! What moving the end of the heap does.
use crate::mm::address::page_ceil;
use crate::mm::entry::{lemma_pte_word, pte_ppn, pte_word, PTE_V};
use crate::mm::memory::MemView;
use crate::mm::memory_set::AreaView;
use crate::mm::page_laws::{
    law_area_can_be_extended, law_area_is_found_by_its_start, law_given_up_run_changes_no_page,
    law_giving_up_loses_no_frame, law_mapped_run, law_unmapped_run,
};
use crate::mm::pages::{held, lemma_table_in_use, pages_fit, unmapped};
use crate::mm::walk::{is_table, mapping};
use crate::task::TaskControlBlock;
use vstd::prelude::*;

verus! {

/// Where two tasks differ in their memory alone, all else about them is the same.
pub proof fn law_tasks_differ_in_memory_alone(a: TaskControlBlock, b: TaskControlBlock)
    ensures
        a.same_but_memory(b) == (a.pid == b.pid && a.trap_cx == b.trap_cx && a.children
            == b.children && a.heap_bottom == b.heap_bottom && a.program_brk == b.program_brk
            && a.memory_set.root() == b.memory_set.root()),
{
}

/// The heap of a task begins at its bottom and reaches up to its end: the area that starts
/// at the page of the bottom has the pages up to the one that holds the last byte.
#[verifier::spinoff_prover]
pub proof fn law_heap_area_reaches_the_break(task: TaskControlBlock, k: int)
    requires
        0 <= k <= task.memory_set.areas().len(),
        k < task.memory_set.areas().len() ==> task.memory_set.areas()[k].start
            == task.heap_bottom / 4096,
        forall|j: int|
            0 <= j < k ==> (#[trigger] task.memory_set.areas()[j]).start != task.heap_bottom / 4096,
    ensures
        task.heap_wf() == {
            let end = task.memory_set.areas()[k].end;
            &&& task.heap_bottom <= task.program_brk <= 0x80_0000_0000
            &&& k < task.memory_set.areas().len() ==> (end - 1) * 4096 < task.program_brk <= end
                * 4096
        },
{
    law_area_is_found_by_its_start(task.memory_set.areas(), task.heap_bottom / 4096, k);
}

/// The end of the heap can be moved exactly where the new end lies neither below the
/// bottom nor beyond the 39-bit addresses, there is a heap area, and, to grow, no page up to
/// the new end is mapped and the frames suffice.
#[verifier::spinoff_prover]
pub proof fn law_break_can_move(task: TaskControlBlock, m: MemView, size: int, k: int, end: u64)
    requires
        0 <= k <= task.memory_set.areas().len(),
        k < task.memory_set.areas().len() ==> task.memory_set.areas()[k].start
            == task.heap_bottom / 4096,
        forall|j: int|
            0 <= j < k ==> (#[trigger] task.memory_set.areas()[j]).start != task.heap_bottom / 4096,
        task.heap_bottom <= task.program_brk + size <= 0x80_0000_0000 ==> (end - 1) * 4096
            < task.program_brk + size <= end * 4096,
    ensures
        task.can_change_brk(m, size) == {
            let a = task.memory_set.areas()[k];
            let root = task.memory_set.root();
            &&& task.heap_bottom <= task.program_brk + size <= 0x80_0000_0000
            &&& k < task.memory_set.areas().len()
            &&& size >= 0 ==> {
                &&& forall|v: u64| a.end <= v < end ==> #[trigger] mapping(m, root, v) is None
                &&& pages_fit(m, root, a.end, (end - a.end) as nat, a.flags)
            }
        },
{
    let areas = task.memory_set.areas();
    law_area_is_found_by_its_start(areas, task.heap_bottom / 4096, k);
    law_area_can_be_extended(
        m,
        task.memory_set.root(),
        areas,
        task.heap_bottom / 4096,
        end,
        k,
    );
    if task.heap_bottom <= task.program_brk + size <= 0x80_0000_0000 {
        assert(page_ceil((task.program_brk + size) as u64) == end);
    }
}

/// The heap follows its end. After the end was moved, the pages from the bottom up to the
/// new end are mapped and those beyond, up to the old end, are not; every page that was and
/// is in the heap, and every page outside, is mapped as before, and the frames that stay in
/// use keep their bytes. Pages that are new hold nothing but 0, and the frames of pages that
/// are gone are free.
#[verifier::spinoff_prover]
pub proof fn law_heap_follows_its_end(
    task: TaskControlBlock,
    m: MemView,
    n: MemView,
    areas: Seq<AreaView>,
    tables: Seq<u64>,
    size: int,
    k: int,
    end: u64,
    v: u64,
    t: u64,
    i: int,
)
    requires
        task.memory_set.inv(m),
        task.heap_wf(),
        task.can_change_brk(m, size),
        task.brk_changed(m, n, areas, tables, size),
        0 <= k < task.memory_set.areas().len(),
        task.memory_set.areas()[k].start == task.heap_bottom / 4096,
        forall|j: int|
            0 <= j < k ==> (#[trigger] task.memory_set.areas()[j]).start != task.heap_bottom / 4096,
        (end - 1) * 4096 < task.program_brk + size <= end * 4096,
        v < 0x800_0000,
        0 <= i < 4096,
    ensures
        ({
            let root = task.memory_set.root();
            let a = task.memory_set.areas()[k];
            let first = task.heap_bottom / 4096;
            &&& first <= v < end ==> mapping(n, root, v) is Some
            &&& end <= v < a.end ==> mapping(n, root, v) is None
            &&& v < a.end && v < end || v >= a.end && v >= end || v < first ==> mapping(n, root, v)
                == mapping(m, root, v)
            &&& a.end <= v < end ==> {
                let e = mapping(n, root, v)->0;
                &&& e & 0xff == (a.flags | 1) as u64
                &&& m.free.contains(pte_ppn(e))
                &&& n.bytes[pte_ppn(e) * 4096 + i - m.base * 4096] == 0
            }
            &&& end <= v < a.end ==> n.free.contains(pte_ppn(mapping(m, root, v)->0))
            &&& m.backed(t) && !m.free.contains(t) && !is_table(m, root, t) && (a.end <= end
                || !n.free.contains(t)) ==> n.bytes[t * 4096 + i - m.base * 4096] == m.bytes[t
                * 4096 + i - m.base * 4096]
            &&& areas.len() == task.memory_set.areas().len()
            &&& forall|j: int|
                0 <= j < areas.len() && j != k ==> #[trigger] areas[j]
                    == task.memory_set.areas()[j]
            &&& areas[k].start == a.start
            &&& areas[k].end == end
            &&& areas[k].flags == a.flags
        }),
{
    let before = task.memory_set.areas();
    let root = task.memory_set.root();
    let first = task.heap_bottom / 4096;
    law_area_is_found_by_its_start(before, first, k);
    let a = before[k];
    assert(a.wf(m, root));
    assert(page_ceil((task.program_brk + size) as u64) == end);
    assert(page_ceil(task.program_brk) == a.end);
    if first <= v < a.end {
        assert((a.start + (v - a.start)) as u64 == v);
        assert(mapping(m, root, (a.start + (v - a.start)) as u64) == Some(
            pte_word(a.frames[v - a.start], a.flags | PTE_V),
        ));
    }
    if size >= 0 {
        let more = (end - a.end) as nat;
        law_mapped_run(m, root, a.end, more, a.flags, v, v, t, i);
    } else {
        let gone = a.frames.skip(end - a.start);
        assert forall|j: int| 0 <= j < gone.len() implies mapping(m, root, (end + j) as u64)
            == Some(
            pte_word(#[trigger] gone[j], a.flags | PTE_V),
        ) && held(m, root, gone[j]) by {
            let l = j + (end - a.start);
            assert(gone[j] == a.frames[l]);
            assert(mapping(m, root, (a.start + l) as u64) == Some(
                pte_word(a.frames[l], a.flags | PTE_V),
            ));
            assert(held(m, root, a.frames[l]));
        }
        assert forall|x: int, y: int| 0 <= x < gone.len() && 0 <= y < gone.len() && x
            != y implies gone[x] != gone[y] by {
            assert(a.frames[x + (end - a.start)] != a.frames[y + (end - a.start)]);
        }
        law_unmapped_run(m, root, end, gone, a.flags, v, t, i);
        assert(n.free == m.free + gone);
        if end <= v < a.end {
            let f = gone[v - end];
            assert(held(m, root, gone[v - end]));
            lemma_pte_word(f, a.flags | PTE_V);
            assert(n.free[m.free.len() + (v - end)] == f);
        }
        if gone.contains(t) {
            let x = choose|x: int| 0 <= x < gone.len() && gone[x] == t;
            assert(n.free[m.free.len() + x] == t);
        }
    }
}

/// Where the end of the heap cannot be moved, every page is mapped as before, a frame that
/// was in use and is no table keeps its bytes, and what was free is free or serves as a
/// table. Nothing at all changes where the heap was to shrink, where the new end lies
/// outside, or where a page on the way is mapped.
#[verifier::spinoff_prover]
pub proof fn law_refused_break_changes_no_page(
    task: TaskControlBlock,
    m: MemView,
    n: MemView,
    tables: Seq<u64>,
    size: int,
    k: int,
    end: u64,
    v: u64,
    w: u64,
    t: u64,
    i: int,
)
    requires
        task.memory_set.inv(m),
        task.heap_wf(),
        task.brk_refused(m, n, tables, size),
        0 <= k <= task.memory_set.areas().len(),
        k < task.memory_set.areas().len() ==> task.memory_set.areas()[k].start
            == task.heap_bottom / 4096,
        forall|j: int|
            0 <= j < k ==> (#[trigger] task.memory_set.areas()[j]).start != task.heap_bottom / 4096,
        task.heap_bottom <= task.program_brk + size <= 0x80_0000_0000 ==> (end - 1) * 4096
            < task.program_brk + size <= end * 4096,
        v < 0x800_0000,
        0 <= i < 4096,
    ensures
        ({
            let root = task.memory_set.root();
            let a = task.memory_set.areas()[k];
            &&& mapping(n, root, v) == mapping(m, root, v)
            &&& m.backed(t) && !m.free.contains(t) && !is_table(m, root, t) ==> n.bytes[t * 4096 + i
                - m.base * 4096] == m.bytes[t * 4096 + i - m.base * 4096]
            &&& m.free.contains(t) == (n.free.contains(t) || is_table(n, root, t) && !is_table(
                m,
                root,
                t,
            ))
            &&& is_table(n, root, t) == tables.contains(t)
            &&& size < 0 || task.program_brk + size > 0x80_0000_0000 || k
                == task.memory_set.areas().len() || a.end <= w < end && mapping(m, root, w) is Some
                ==> n == m && tables == task.memory_set.table_frames()
        }),
{
    let root = task.memory_set.root();
    let areas = task.memory_set.areas();
    law_area_is_found_by_its_start(areas, task.heap_bottom / 4096, k);
    let before = task.memory_set.table_frames();
    let brk = task.program_brk + size;
    assert(is_table(m, root, t) == before.contains(t));
    if is_table(m, root, t) {
        lemma_table_in_use(m, root, t);
    }
    if task.heap_bottom <= brk <= 0x80_0000_0000 && size >= 0 && k < areas.len() {
        let a = areas[k];
        assert(a.wf(m, root));
        assert(page_ceil(brk as u64) == end);
        assert(page_ceil(task.program_brk) == a.end);
        assert(a.end <= end <= 0x800_0000);
        if unmapped(m, root, a.end as int, end as int) {
            let more = (end - a.end) as nat;
            law_given_up_run_changes_no_page(
                m,
                n,
                root,
                a.end,
                more,
                a.flags,
                before,
                tables,
                v,
                t,
                i,
            );
            law_giving_up_loses_no_frame(m, n, root, a.end, more, a.flags, before, tables, t);
        }
    }
}

} // verus!
