//! Process management system calls.
//!
//! Each call works on the task that makes it. Switching to another task, and
//! loading a program, is up to the caller: where that has to happen, the result says
//! so.
use crate::mm::address::{page_ceil, VirtAddr, PAGE_SIZE, VA_SPAN};
use crate::mm::entry::{PTEFlags, PTE_U};
use crate::mm::memory::{MemView, PhysMemory};
use crate::mm::memory_set::{
    area_of, law_giving_up_leads_back, run_given_up, run_placed, AreaView,
};
use crate::mm::page_table::law_token_names_root;
use crate::mm::pages::{
    mapped_alike, pages_fit, placed_frames, release_pages, unmapped,
};
use crate::mm::user::{
    self, can_walk, frames_backed, gather, granted, scatter, segments_of, spans, string_at,
    translated, translated_refmut, translated_str, user_byte,
};
use crate::mm::walk::path_backed;
use crate::task::{Child, TaskControlBlock};
use std::collections::VecDeque;
use vstd::bytes::{u32_to_le_bytes, u64_to_le_bytes};
use vstd::prelude::*;

verus! {

/// A time in seconds and microseconds.
#[derive(Clone, Copy, Debug, PartialEq, Eq, Structural)]
pub struct TimeVal {
    pub sec: u64,
    pub usec: u64,
}

/// How the processor is to be given up.
#[derive(Clone, Copy, Debug, PartialEq, Eq, Structural)]
pub enum Switch {
    /// The task goes to the end of the queue of ready tasks.
    Suspend,
    /// The task exits with this code, and does not run again.
    Exit(i32),
}

/// A program that can be run.
pub struct App {
    pub name: String,
    pub data: Vec<u8>,
}

/// The task exits with an exit code.
pub fn sys_exit(exit_code: i32) -> (r: Switch)
    ensures
        r == Switch::Exit(exit_code),
{
    Switch::Exit(exit_code)
}

/// The task gives up the processor for other tasks. The call returns the number once
/// the task runs again.
pub fn sys_yield() -> (r: (Switch, isize))
    ensures
        r == (Switch::Suspend, 0isize),
{
    (Switch::Suspend, 0)
}

/// The number of the task.
pub fn sys_getpid(task: &TaskControlBlock) -> (r: isize)
    ensures
        r == task.pid as isize,
{
    task.pid as isize
}

/// Lets a child, which was made as a copy of the task, run: it will see the call
/// return 0, and it goes to the end of the queue of ready tasks. The task itself sees
/// the number of the child.
pub fn sys_fork(
    task: &mut TaskControlBlock,
    child: &mut TaskControlBlock,
    ready: &mut VecDeque<usize>,
) -> (r: isize)
    ensures
        r == old(child).pid as isize,
        final(child).trap_cx.x@ == old(child).trap_cx.x@.update(10, 0),
        final(child).pid == old(child).pid,
        final(child).memory_set == old(child).memory_set,
        final(child).children == old(child).children,
        final(child).heap_bottom == old(child).heap_bottom,
        final(child).program_brk == old(child).program_brk,
        final(task).children@ == old(task).children@.push(
            Child { pid: old(child).pid, zombie: false, exit_code: 0 },
        ),
        final(task).same_but_memory(
            (TaskControlBlock { children: final(task).children, ..*old(task) }),
        ),
        final(task).memory_set == old(task).memory_set,
        final(ready)@ == old(ready)@.push(old(child).pid),
{
    let new_pid = child.pid;
    task.children.push(Child { pid: new_pid, zombie: false, exit_code: 0 });
    child.trap_cx.x[10] = 0;
    ready.push_back(new_pid);
    new_pid as isize
}

/// Position of the first program with this name, from program `i` on; the number of
/// programs where there is none.
pub open spec fn app_from(apps: Seq<App>, name: Seq<char>, i: int) -> int
    decreases apps.len() - i,
{
    if i >= apps.len() || apps[i].name@ == name {
        i
    } else {
        app_from(apps, name, i + 1)
    }
}

/// The first program with this name.
pub open spec fn app_named(apps: Seq<App>, name: Seq<char>) -> Option<int> {
    if app_from(apps, name, 0) < apps.len() {
        Some(app_from(apps, name, 0))
    } else {
        None
    }
}

/// The text of `n` characters at the word `ptr`.
pub open spec fn text_at(m: MemView, root: u64, ptr: u64, n: nat) -> Seq<char> {
    Seq::new(n, |k: int| user_byte(m, root, (ptr + k) as u64) as char)
}

/// The first program with this name.
fn get_app_by_name(apps: &Vec<App>, name: &String) -> (r: Option<usize>)
    ensures
        match r {
            Some(i) => app_named(apps@, name@) == Some(i as int),
            None => app_named(apps@, name@) is None,
        },
{
    let mut i: usize = 0;
    while i < apps.len()
        invariant
            i <= apps@.len(),
            app_from(apps@, name@, 0) == app_from(apps@, name@, i as int),
        decreases apps@.len() - i,
    {
        if apps[i].name == *name {
            return Some(i);
        }
        i = i + 1;
    }
    None
}

/// Replaces the program of the task by the one whose name is at `path`: 0 and the
/// program to load, or -1 where there is none with this name.
pub fn sys_exec(mem: &PhysMemory, task: &TaskControlBlock, apps: &Vec<App>, path: u64) -> (r: (
    isize,
    Option<usize>,
))
    requires
        mem@.wf(),
        mem@.backed(task.memory_set.root()),
        exists|n: nat| string_at(mem@, task.memory_set.root(), path, n),
    ensures
        r.0 == (if r.1 is Some { 0int } else { -1 }),
        forall|n: nat| #[trigger]
            string_at(mem@, task.memory_set.root(), path, n) ==> {
                let name = text_at(mem@, task.memory_set.root(), path, n);
                match r.1 {
                    Some(i) => app_named(apps@, name) == Some(i as int),
                    None => app_named(apps@, name) is None,
                }
            },
{
    proof {
        law_token_names_root(task.memory_set.root());
    }
    let token = task.memory_set.token();
    let path = translated_str(mem, token, path);
    match get_app_by_name(apps, &path) {
        Some(i) => (0, Some(i)),
        None => (-1, None),
    }
}

/// Does a child answer to `pid`? Every child does to -1.
pub open spec fn answers(pid: isize, c: Child) -> bool {
    pid == -1 || pid as usize == c.pid
}

/// Position of the first child from child `i` on that answers to `pid` and has
/// exited; the number of children where there is none.
pub open spec fn exited_from(children: Seq<Child>, pid: isize, i: int) -> int
    decreases children.len() - i,
{
    if i >= children.len() || children[i].zombie && answers(pid, children[i]) {
        i
    } else {
        exited_from(children, pid, i + 1)
    }
}

/// Position of the first child that answers to `pid` and has exited.
pub open spec fn exited(children: Seq<Child>, pid: isize) -> int {
    exited_from(children, pid, 0)
}

/// Does a child answer to `pid`?
pub open spec fn has_child(children: Seq<Child>, pid: isize) -> bool {
    exists|i: int| 0 <= i < children.len() && answers(pid, #[trigger] children[i])
}

/// Can a number of 4 bytes be written at the word `ptr`? Its page must have an
/// entry, and the bytes must lie in memory from the translated address on.
pub open spec fn can_store(m: MemView, root: u64, ptr: u64) -> bool {
    &&& path_backed(m, root, ptr % VA_SPAN / PAGE_SIZE)
    &&& translated(m, root, ptr) matches Some(pa) && m.base * PAGE_SIZE <= pa && pa + 4 <= m.base
        * PAGE_SIZE + m.bytes.len()
}

/// Memory after a number was written at the word `ptr`, lowest byte first.
pub open spec fn store_i32(m: MemView, root: u64, ptr: u64, n: i32) -> MemView {
    m.put(
        translated(m, root, ptr)->0 - m.base * PAGE_SIZE,
        vstd::bytes::spec_u32_to_le_bytes(n as u32),
    )
}

/// The first child that has exited and answers to `pid`, or else their number.
pub(crate) fn find_exited(children: &Vec<Child>, pid: isize) -> (k: usize)
    ensures
        k == exited(children@, pid),
        k <= children@.len(),
{
    let mut k: usize = 0;
    while k < children.len() && !(children[k].zombie && (pid == -1 || pid as usize
        == children[k].pid))
        invariant
            k <= children@.len(),
            exited(children@, pid) == exited_from(children@, pid, k as int),
        decreases children@.len() - k,
    {
        k = k + 1;
    }
    k
}

/// Looks for a child that has exited: if no child answers to `pid`, the result is
/// -1; else, if none of those has exited, it is -2; else the first of them is
/// removed, its exit code is written to `exit_code_ptr`, and the result is its
/// number.
pub fn sys_waitpid(
    mem: &mut PhysMemory,
    task: &mut TaskControlBlock,
    pid: isize,
    exit_code_ptr: u64,
) -> (r: isize)
    requires
        old(mem)@.wf(),
        old(mem)@.backed(old(task).memory_set.root()),
        exited(old(task).children@, pid) < old(task).children@.len() ==> can_store(
            old(mem)@,
            old(task).memory_set.root(),
            exit_code_ptr,
        ),
    ensures
        final(mem)@.wf(),
        final(task).memory_set == old(task).memory_set,
        final(task).same_but_memory(
            (TaskControlBlock { children: final(task).children, ..*old(task) }),
        ),
        ({
            let children = old(task).children@;
            let k = exited(children, pid);
            if !has_child(children, pid) {
                r == -1 && final(task).children@ == children && final(mem)@ == old(mem)@
            } else if k >= children.len() {
                r == -2 && final(task).children@ == children && final(mem)@ == old(mem)@
            } else {
                &&& r == children[k].pid as isize
                &&& final(task).children@ == children.remove(k)
                &&& final(mem)@ == store_i32(
                    old(mem)@,
                    old(task).memory_set.root(),
                    exit_code_ptr,
                    children[k].exit_code,
                )
            }
        }),
{
    let ghost children = task.children@;
    let mut found = false;
    let mut i: usize = 0;
    while i < task.children.len() && !found
        invariant
            *task == *old(task),
            children == task.children@,
            i <= children.len(),
            found ==> has_child(children, pid),
            !found ==> forall|j: int| 0 <= j < i ==> !answers(pid, #[trigger] children[j]),
        decreases children.len() - i,
    {
        if pid == -1 || pid as usize == task.children[i].pid {
            assert(answers(pid, children[i as int]));
            found = true;
        }
        i = i + 1;
    }
    if !found {
        proof {
            lemma_exited(children, pid, 0);
        }
        return -1;
    }
    let k = find_exited(&task.children, pid);
    if k >= task.children.len() {
        return -2;
    }
    let child = task.children.remove(k);
    proof {
        law_token_names_root(task.memory_set.root());
    }
    let pa = translated_refmut(mem, task.memory_set.token(), exit_code_ptr);
    let bytes = u32_to_le_bytes(child.exit_code as u32);
    mem.write_at(pa, bytes.as_slice());
    child.pid as isize
}

/// Where the search for an exited child ends.
pub proof fn lemma_exited(children: Seq<Child>, pid: isize, i: int)
    requires
        0 <= i <= children.len(),
    ensures
        ({
            let k = exited_from(children, pid, i);
            &&& i <= k <= children.len()
            &&& k < children.len() ==> children[k].zombie && answers(pid, children[k])
            &&& forall|j: int|
                i <= j < k ==> !((#[trigger] children[j]).zombie && answers(pid, children[j]))
        }),
    decreases children.len() - i,
{
    if i < children.len() && !(children[i].zombie && answers(pid, children[i])) {
        lemma_exited(children, pid, i + 1);
    }
}

/// Can it be decided whether the task may write, or read, the `len` bytes at `ptr`?
/// The tables that have to be looked at must lie in memory, and the walk must come to
/// the end or to a page without access; where access is granted, the frames must lie
/// in memory too.
pub open spec fn can_reach(m: MemView, root: u64, ptr: u64, len: u64, flag: int) -> bool {
    let end = (ptr + len) as u64;
    &&& ptr + len <= u64::MAX
    &&& can_walk(m, root, ptr, end, flag)
    &&& granted(m, root, ptr, end, flag) ==> frames_backed(m, root, spans(ptr, end))
}

/// Memory `n` came from `m` by copying `src` to the `len` bytes at `dst`, with this
/// result.
pub open spec fn copied_out(
    m: MemView,
    n: MemView,
    root: u64,
    src: Seq<u8>,
    dst: u64,
    len: u64,
    r: bool,
) -> bool {
    let end = (dst + len) as u64;
    if granted(m, root, dst, end, 2) {
        (n, r) == scatter(m, segments_of(m, root, spans(dst, end)), src, 0)
    } else {
        !r && n == m
    }
}

/// Copies kernel data to the `dst_len` bytes at the address `dst` of the task.
pub fn pa_copyto_uva(
    mem: &mut PhysMemory,
    task: &TaskControlBlock,
    src: &[u8],
    dst: u64,
    dst_len: u64,
) -> (r: bool)
    requires
        old(mem)@.wf(),
        old(mem)@.backed(task.memory_set.root()),
        can_reach(old(mem)@, task.memory_set.root(), dst, dst_len, 2),
    ensures
        final(mem)@.wf(),
        copied_out(old(mem)@, final(mem)@, task.memory_set.root(), src@, dst, dst_len, r),
{
    proof {
        law_token_names_root(task.memory_set.root());
    }
    user::pa_copyto_uva(mem, task.memory_set.token(), src, dst, dst_len)
}

/// Copies the `src_len` bytes at the address `src` of the task to a kernel buffer.
pub fn uva_copyto_pa(
    mem: &PhysMemory,
    task: &TaskControlBlock,
    src: u64,
    src_len: u64,
    dst: &mut Vec<u8>,
) -> (r: bool)
    requires
        mem@.wf(),
        mem@.backed(task.memory_set.root()),
        can_reach(mem@, task.memory_set.root(), src, src_len, 1),
    ensures
        ({
            let root = task.memory_set.root();
            let end = (src + src_len) as u64;
            if granted(mem@, root, src, end, 1) {
                (final(dst)@, r) == gather(
                    mem@,
                    segments_of(mem@, root, spans(src, end)),
                    old(dst)@,
                    0,
                )
            } else {
                !r && final(dst)@ == old(dst)@
            }
        }),
{
    proof {
        law_token_names_root(task.memory_set.root());
    }
    user::uva_copyto_pa(mem, task.memory_set.token(), src, src_len, dst)
}

/// A number of microseconds as a time.
pub open spec fn time_of(us: u64) -> TimeVal {
    TimeVal { sec: us / 1_000_000u64, usec: us % 1_000_000u64 }
}

/// The bytes of a time: the seconds and the microseconds, lowest byte first.
pub open spec fn time_bytes(t: TimeVal) -> Seq<u8> {
    vstd::bytes::spec_u64_to_le_bytes(t.sec) + vstd::bytes::spec_u64_to_le_bytes(t.usec)
}

/// Writes the time `us`, in microseconds, to the address `ts` of the task: 0, or -1
/// where the task may not write there.
pub fn sys_get_time(mem: &mut PhysMemory, task: &TaskControlBlock, us: u64, ts: u64) -> (r: isize)
    requires
        old(mem)@.wf(),
        old(mem)@.backed(task.memory_set.root()),
        can_reach(old(mem)@, task.memory_set.root(), ts, 16, 2),
    ensures
        final(mem)@.wf(),
        r == 0 || r == -1,
        copied_out(
            old(mem)@,
            final(mem)@,
            task.memory_set.root(),
            time_bytes(time_of(us)),
            ts,
            16,
            r == 0,
        ),
{
    let tv = TimeVal { sec: us / 1_000_000, usec: us % 1_000_000 };
    let mut bytes = u64_to_le_bytes(tv.sec);
    let mut usec = u64_to_le_bytes(tv.usec);
    bytes.append(&mut usec);
    assert(bytes@ =~= time_bytes(time_of(us)));
    if pa_copyto_uva(mem, task, bytes.as_slice(), ts, 16) {
        0
    } else {
        -1
    }
}

/// The page that a word lies in.
pub open spec fn page_of(word: u64) -> u64 {
    word % VA_SPAN / PAGE_SIZE
}

/// The first page that starts at or after a word.
pub open spec fn page_after(word: int) -> u64 {
    page_ceil(word as u64 % VA_SPAN) as u64
}

/// A protection allows something, and has no bits but those for reading, writing and
/// executing.
pub open spec fn prot_ok(prot: u64) -> bool {
    1 <= prot <= 7
}

/// The flags that pages with a protection are mapped with: those of the protection,
/// and that a user may access them.
pub open spec fn prot_flags(prot: u64) -> u8 {
    (prot * 2 + 16) as u8
}

/// Can memory be mapped: is the start that of a page, is the protection one, is none
/// of the pages mapped, and is there memory enough?
pub open spec fn can_mmap(m: MemView, root: u64, start: u64, len: u64, prot: u64) -> bool {
    let lo = page_of(start);
    let hi = page_after(start + len);
    &&& start % PAGE_SIZE == 0
    &&& prot_ok(prot)
    &&& unmapped(m, root, lo as int, hi as int)
    &&& pages_fit(m, root, lo, (hi - lo) as nat, prot_flags(prot))
}

/// Maps the `len` bytes from `start` on to fresh memory with a protection: 0, or -1
/// where that cannot be done. Then every page is mapped as before.
pub fn sys_mmap(
    mem: &mut PhysMemory,
    task: &mut TaskControlBlock,
    start: u64,
    len: u64,
    prot: u64,
) -> (r: isize)
    requires
        old(task).memory_set.inv(old(mem)@),
        start % PAGE_SIZE == 0 && prot_ok(prot) ==> {
            &&& start + len <= u64::MAX
            &&& page_of(start) <= page_after(start + len)
        },
    ensures
        final(task).memory_set.inv(final(mem)@),
        final(task).same_but_memory(*old(task)),
        r == 0 || r == -1,
        r == 0 <==> can_mmap(old(mem)@, old(task).memory_set.root(), start, len, prot),
        ({
            let m = old(mem)@;
            let root = old(task).memory_set.root();
            let areas = old(task).memory_set.areas();
            let lo = page_of(start);
            let hi = page_after(start + len);
            let n = (hi - lo) as nat;
            let flags = prot_flags(prot);
            let before = old(task).memory_set.table_frames();
            let after = final(task).memory_set.table_frames();
            &&& r == 0 ==> {
                &&& run_placed(m, final(mem)@, root, lo, n, flags, before, after)
                &&& final(task).memory_set.areas() == areas.push(
                    AreaView {
                        start: lo,
                        end: hi,
                        flags,
                        frames: placed_frames(m, root, lo, n, flags),
                    },
                )
            }
            &&& r == -1 ==> {
                &&& final(task).memory_set.areas() == areas
                &&& mapped_alike(m, final(mem)@, root, 0, 0)
                &&& if start % PAGE_SIZE == 0 && prot_ok(prot) && unmapped(
                    m,
                    root,
                    lo as int,
                    hi as int,
                ) {
                    run_given_up(m, final(mem)@, root, lo, n, flags, before, after)
                } else {
                    final(mem)@ == m && after == before
                }
            }
        }),
{
    let start_va = VirtAddr::from_word(start);
    if !start_va.aligned() {
        return -1;
    }
    proof {
        lemma_prot(prot);
    }
    if prot & !0x7u64 != 0 || prot & 0x7u64 == 0 {
        return -1;
    }
    let start_vpn = start_va.floor();
    let end_va = VirtAddr::from_word(start + len);
    let end_vpn = end_va.ceil();
    if !task.memory_set.all_unmapped(mem, start_vpn, end_vpn) {
        return -1;
    }
    let flags = PTEFlags { bits: (prot << 1u64) as u8 | PTE_U };
    let ghost m = mem@;
    if task.memory_set.mmap(mem, start_vpn, end_vpn, flags) {
        0
    } else {
        proof {
            law_giving_up_leads_back(
                m,
                mem@,
                task.memory_set.root(),
                start_vpn.0,
                (end_vpn.0 - start_vpn.0) as nat,
                flags.bits,
                old(task).memory_set.table_frames(),
                task.memory_set.table_frames(),
            );
        }
        -1
    }
}

/// What the bits of a protection say.
proof fn lemma_prot(prot: u64)
    ensures
        (prot & !0x7u64 != 0 || prot & 0x7u64 == 0) == !prot_ok(prot),
        prot_ok(prot) ==> (prot << 1u64) as u8 | PTE_U == prot_flags(prot),
{
    assert((prot & !0x7u64 != 0 || prot & 0x7u64 == 0) == !(1 <= prot && prot <= 7))
        by (bit_vector);
    if prot_ok(prot) {
        assert((prot << 1u64) as u8 | 16u8 == (prot * 2 + 16) as u8) by (bit_vector)
            requires
                1 <= prot && prot <= 7,
        ;
    }
}

/// Unmaps the `len` bytes from `start` on: 0, or -1 where `start` is not that of a
/// page, or where these are not exactly the pages of an area that was mapped.
pub fn sys_munmap(mem: &mut PhysMemory, task: &mut TaskControlBlock, start: u64, len: u64) -> (r:
    isize)
    requires
        old(task).memory_set.inv(old(mem)@),
        start % PAGE_SIZE == 0 ==> start + len <= u64::MAX,
    ensures
        final(task).memory_set.inv(final(mem)@),
        final(task).same_but_memory(*old(task)),
        final(task).memory_set.table_frames() == old(task).memory_set.table_frames(),
        r == 0 || r == -1,
        r == 0 <==> start % PAGE_SIZE == 0 && area_of(
            old(task).memory_set.areas(),
            page_of(start),
            page_after(start + len),
        ) < old(task).memory_set.areas().len(),
        r == 0 ==> {
            let areas = old(task).memory_set.areas();
            let lo = page_of(start);
            let hi = page_after(start + len);
            &&& final(mem)@ == release_pages(
                old(mem)@,
                old(task).memory_set.root(),
                lo,
                (hi - lo) as nat,
            )
            &&& final(task).memory_set.areas() == areas.remove(area_of(areas, lo, hi))
        },
        r == -1 ==> {
            &&& final(mem)@ == old(mem)@
            &&& final(task).memory_set.areas() == old(task).memory_set.areas()
        },
{
    let start_va = VirtAddr::from_word(start);
    if !start_va.aligned() {
        return -1;
    }
    let end_va = VirtAddr::from_word(start + len);
    if task.memory_set.munmap(mem, start_va.floor(), end_va.ceil()) {
        0
    } else {
        -1
    }
}

/// Moves the end of the heap by `size` bytes: the old end, or -1 where that cannot be
/// done.
pub fn sys_sbrk(mem: &mut PhysMemory, task: &mut TaskControlBlock, size: i32) -> (r: i64)
    requires
        old(task).memory_set.inv(old(mem)@),
        old(task).heap_wf(),
    ensures
        final(task).memory_set.inv(final(mem)@),
        final(task).heap_wf(),
        final(task).same_but_memory(
            (TaskControlBlock { program_brk: final(task).program_brk, ..*old(task) }),
        ),
        if old(task).can_change_brk(old(mem)@, size as int) {
            &&& r == old(task).program_brk
            &&& final(task).program_brk == old(task).program_brk + size
            &&& old(task).brk_changed(
                old(mem)@,
                final(mem)@,
                final(task).memory_set.areas(),
                final(task).memory_set.table_frames(),
                size as int,
            )
        } else {
            &&& r == -1
            &&& final(task).program_brk == old(task).program_brk
            &&& final(task).memory_set.areas() == old(task).memory_set.areas()
            &&& old(task).brk_refused(
                old(mem)@,
                final(mem)@,
                final(task).memory_set.table_frames(),
                size as int,
            )
        },
{
    match task.change_program_brk(mem, size) {
        Some(old_brk) => old_brk as i64,
        None => -1,
    }
}

/// Starting a program as a child is not offered.
pub fn sys_spawn(_path: u64) -> (r: isize)
    ensures
        r == -1,
{
    -1
}

/// Setting the priority of a task is not offered.
pub fn sys_set_priority(_prio: isize) -> (r: isize)
    ensures
        r == -1,
{
    -1
}

} // verus!
