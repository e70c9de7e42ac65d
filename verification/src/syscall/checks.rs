//! Finding out whether what a task hands to a system call can be read and written.
use crate::mm::address::{VirtAddr, PAGE_SIZE, VA_SPAN};
use crate::mm::entry::pte_ppn;
use crate::mm::memory::PhysMemory;
use crate::mm::page_table::{law_token_names_root, PageTable};
use crate::mm::user::{
    byte_readable, check_walk, frames_backed, granted, read_user_byte, segments_of, spans,
    string_at, translated_ua2read, translated_ua2write, user_byte,
};
use crate::mm::walk::{lemma_path_backed, lookup, path_backed};
use crate::syscall::process::{
    can_reach, can_store, exited, find_exited, page_after, page_of, prot_ok,
};
use crate::task::TaskControlBlock;
use vstd::prelude::*;

verus! {

/// Can it be decided whether the task may write, or else read, the `len` bytes at
/// `ptr`?
pub fn check_reach(mem: &PhysMemory, task: &TaskControlBlock, ptr: u64, len: u64, write: bool) -> (r:
    bool)
    requires
        task.memory_set.inv(mem@),
    ensures
        r == can_reach(
            mem@,
            task.memory_set.root(),
            ptr,
            len,
            if write {
                2
            } else {
                1
            },
        ),
{
    if len > u64::MAX - ptr {
        return false;
    }
    let ghost root = task.memory_set.root();
    let ghost sp = spans(ptr, (ptr + len) as u64);
    let ghost flag: int = if write {
        2
    } else {
        1
    };
    proof {
        law_token_names_root(root);
        assert forall|v: u64| #[trigger] path_backed(mem@, root, v) by {
            lemma_path_backed(mem@, root, v);
        }
    }
    let token = task.memory_set.token();
    if !check_walk(mem, token, ptr, ptr + len, write) {
        return false;
    }
    let segments = if write {
        translated_ua2write(mem, token, ptr, len)
    } else {
        translated_ua2read(mem, token, ptr, len)
    };
    match segments {
        None => true,
        Some(segs) => {
            let mut i: usize = 0;
            while i < segs.len()
                invariant
                    mem@.wf(),
                    i <= segs@.len(),
                    segs@ == segments_of(mem@, root, sp),
                    granted(mem@, root, ptr, (ptr + len) as u64, flag),
                    ptr + len <= u64::MAX,
                    root == task.memory_set.root(),
                    sp == spans(ptr, (ptr + len) as u64),
                    flag == if write {
                        2int
                    } else {
                        1
                    },
                    forall|j: int|
                        0 <= j < i ==> mem@.backed(
                            pte_ppn(lookup(mem@, root, (#[trigger] sp[j]).vpn)->0),
                        ),
                decreases segs@.len() - i,
            {
                assert(segs@[i as int].ppn.0 == pte_ppn(lookup(mem@, root, sp[i as int].vpn)->0));
                if !mem.is_backed(segs[i].ppn) {
                    assert(!frames_backed(mem@, root, sp));
                    return false;
                }
                i = i + 1;
            }
            assert(frames_backed(mem@, root, sp));
            true
        },
    }
}

/// Is there a string at the word `ptr`?
pub fn check_string(mem: &PhysMemory, task: &TaskControlBlock, ptr: u64) -> (r: bool)
    requires
        task.memory_set.inv(mem@),
    ensures
        r == exists|n: nat| string_at(mem@, task.memory_set.root(), ptr, n),
{
    let ghost root = task.memory_set.root();
    proof {
        law_token_names_root(root);
    }
    let page_table = PageTable::from_token(task.memory_set.token());
    let mut va = ptr;
    let ghost mut i: nat = 0;
    loop
        invariant
            task.memory_set.inv(mem@),
            root == task.memory_set.root(),
            page_table.root() == root,
            va == ptr + i,
            forall|k: nat| k < i ==> byte_readable(mem@, root, #[trigger] ((ptr + k) as u64)),
            forall|k: nat| k < i ==> user_byte(mem@, root, #[trigger] ((ptr + k) as u64)) != 0,
        decreases u64::MAX - va,
    {
        proof {
            lemma_path_backed(mem@, root, va % VA_SPAN / PAGE_SIZE);
        }
        let readable = match page_table.translate(mem, VirtAddr::from_word(va).floor()) {
            Some(pte) => mem.is_backed(pte.ppn()),
            None => false,
        };
        if !readable {
            assert forall|n: nat| !string_at(mem@, root, ptr, n) by {
                if string_at(mem@, root, ptr, n) {
                    if n < i {
                        assert(user_byte(mem@, root, (ptr + n) as u64) != 0);
                    } else {
                        assert(byte_readable(mem@, root, (ptr + i) as u64));
                    }
                }
            }
            return false;
        }
        if read_user_byte(&page_table, mem, va) == 0 {
            assert(string_at(mem@, root, ptr, i));
            return true;
        }
        if va == u64::MAX {
            assert forall|n: nat| !string_at(mem@, root, ptr, n) by {
                if string_at(mem@, root, ptr, n) {
                    assert(n <= i);
                    if n < i {
                        assert(user_byte(mem@, root, (ptr + n) as u64) != 0);
                    }
                }
            }
            return false;
        }
        va = va + 1;
        proof {
            i = i + 1;
        }
    }
}

/// Can a number of 4 bytes be written at the word `ptr`?
pub fn check_store(mem: &PhysMemory, task: &TaskControlBlock, ptr: u64) -> (r: bool)
    requires
        task.memory_set.inv(mem@),
    ensures
        r == can_store(mem@, task.memory_set.root(), ptr),
{
    let ghost root = task.memory_set.root();
    proof {
        law_token_names_root(root);
        lemma_path_backed(mem@, root, ptr % VA_SPAN / PAGE_SIZE);
    }
    let page_table = PageTable::from_token(task.memory_set.token());
    let va = VirtAddr::from_word(ptr);
    assert(va.0 % PAGE_SIZE == ptr % PAGE_SIZE);
    match page_table.translate_va(mem, va) {
        Some(pa) => mem.holds(pa, 4),
        None => false,
    }
}

/// Can the exit code of a child be handed over, where one that answers to `pid` has
/// exited?
pub fn check_wait(mem: &PhysMemory, task: &TaskControlBlock, pid: isize, ptr: u64) -> (r: bool)
    requires
        task.memory_set.inv(mem@),
    ensures
        r == (exited(task.children@, pid) < task.children@.len() ==> can_store(
            mem@,
            task.memory_set.root(),
            ptr,
        )),
{
    find_exited(&task.children, pid) >= task.children.len() || check_store(mem, task, ptr)
}

/// Are the start and the protection refused, or else do the `len` bytes from `start`
/// on end in the address space, and not before they begin?
pub fn check_mmap(start: u64, len: u64, prot: u64) -> (r: bool)
    ensures
        r == (start % PAGE_SIZE == 0 && prot_ok(prot) ==> {
            &&& start + len <= u64::MAX
            &&& page_of(start) <= page_after(start + len)
        }),
{
    if start % PAGE_SIZE != 0 || prot == 0 || prot > 7 {
        return true;
    }
    len <= u64::MAX - start && VirtAddr::from_word(start).floor().0 <= VirtAddr::from_word(
        start + len,
    ).ceil().0
}

/// Is the start refused, or else do the `len` bytes from `start` on end in the
/// address space?
pub fn check_munmap(start: u64, len: u64) -> (r: bool)
    ensures
        r == (start % PAGE_SIZE == 0 ==> start + len <= u64::MAX),
{
    start % PAGE_SIZE != 0 || len <= u64::MAX - start
}

} // verus!
