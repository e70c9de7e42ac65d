//! Process management system calls.
use rcore::mm::address::VirtPageNum;
use rcore::mm::entry::{PTEFlags, PTE_R, PTE_U, PTE_W};
use rcore::mm::memory::PhysMemory;
use rcore::mm::memory_set::MemorySet;
use rcore::syscall::checks::{
    check_mmap, check_munmap, check_reach, check_store, check_string, check_wait,
};
use rcore::syscall::process::{
    pa_copyto_uva, sys_exec, sys_exit, sys_fork, sys_get_time, sys_getpid, sys_mmap, sys_munmap,
    sys_sbrk, sys_set_priority, sys_spawn, sys_waitpid, sys_yield, uva_copyto_pa, App, Switch,
};
use rcore::task::{Child, TaskControlBlock, TrapContext};
use std::collections::VecDeque;

/// A task with page 1 mapped, and an empty heap at page 16.
fn task(mem: &mut PhysMemory, pid: usize) -> TaskControlBlock {
    let mut memory_set = MemorySet::new_bare(mem);
    let rw = PTEFlags { bits: PTE_R | PTE_W | PTE_U };
    assert!(memory_set.mmap(mem, VirtPageNum(1), VirtPageNum(2), rw));
    assert!(memory_set.mmap(mem, VirtPageNum(16), VirtPageNum(16), rw));
    TaskControlBlock {
        pid,
        memory_set,
        trap_cx: TrapContext { x: [3; 32] },
        children: vec![],
        heap_bottom: 0x10000,
        program_brk: 0x10000,
    }
}

fn child(pid: usize, zombie: bool, exit_code: i32) -> Child {
    Child { pid, zombie, exit_code }
}

/// The bytes at an address of a task.
fn read(mem: &PhysMemory, task: &TaskControlBlock, ptr: u64, len: usize) -> Vec<u8> {
    let mut v = vec![0u8; len];
    assert!(uva_copyto_pa(mem, task, ptr, len as u64, &mut v));
    v
}

#[test]
fn exit_and_yield_give_up_the_processor() {
    assert_eq!(sys_exit(-7), Switch::Exit(-7));
    assert_eq!(sys_yield(), (Switch::Suspend, 0));
}

#[test]
fn fork_returns_twice() {
    let mut mem = PhysMemory::new(0x80000, 32);
    let mut parent = task(&mut mem, 4);
    let mut copy = task(&mut mem, 9);
    let mut ready = VecDeque::new();
    ready.push_back(2);
    assert_eq!(sys_getpid(&parent), 4);
    assert_eq!(sys_fork(&mut parent, &mut copy, &mut ready), 9);
    assert_eq!(copy.trap_cx.x[10], 0);
    assert_eq!(copy.trap_cx.x[9], 3);
    assert_eq!(parent.trap_cx.x[10], 3);
    assert_eq!(ready, vec![2, 9]);
    assert_eq!(parent.children, vec![child(9, false, 0)]);
    // The child has not exited yet.
    assert_eq!(sys_waitpid(&mut mem, &mut parent, 9, 0x1000), -2);
}

#[test]
fn exec_finds_the_program() {
    let mut mem = PhysMemory::new(0x80000, 16);
    let t = task(&mut mem, 1);
    assert!(pa_copyto_uva(&mut mem, &t, b"shell\0", 0x1100, 6));
    assert!(pa_copyto_uva(&mut mem, &t, b"none\0", 0x1200, 5));
    let apps = vec![
        App { name: "init".to_string(), data: vec![1] },
        App { name: "shell".to_string(), data: vec![2] },
    ];
    assert_eq!(sys_exec(&mem, &t, &apps, 0x1100), (0, Some(1)));
    assert_eq!(sys_exec(&mem, &t, &apps, 0x1200), (-1, None));
}

#[test]
fn wait_without_a_matching_child() {
    let mut mem = PhysMemory::new(0x80000, 16);
    let mut t = task(&mut mem, 1);
    assert_eq!(sys_waitpid(&mut mem, &mut t, -1, 0), -1);
    t.children = vec![child(5, true, 0)];
    assert_eq!(sys_waitpid(&mut mem, &mut t, 6, 0), -1);
    assert_eq!(sys_waitpid(&mut mem, &mut t, -5, 0), -1);
    assert_eq!(t.children.len(), 1);
}

#[test]
fn wait_for_running_children() {
    let mut mem = PhysMemory::new(0x80000, 16);
    let mut t = task(&mut mem, 1);
    t.children = vec![child(5, false, 0), child(6, true, 3)];
    assert_eq!(sys_waitpid(&mut mem, &mut t, 5, 0x1000), -2);
    t.children.pop();
    assert_eq!(sys_waitpid(&mut mem, &mut t, -1, 0x1000), -2);
}

#[test]
fn wait_removes_the_first_exited_child() {
    let mut mem = PhysMemory::new(0x80000, 16);
    let mut t = task(&mut mem, 1);
    t.children = vec![child(5, false, 0), child(6, true, -2), child(7, true, 300)];
    assert_eq!(sys_waitpid(&mut mem, &mut t, -1, 0x1010), 6);
    assert_eq!(read(&mem, &t, 0x1010, 4), (-2i32).to_le_bytes());
    assert_eq!(t.children, vec![child(5, false, 0), child(7, true, 300)]);
    assert_eq!(sys_waitpid(&mut mem, &mut t, 7, 0x1010), 7);
    assert_eq!(read(&mem, &t, 0x1010, 4), vec![44, 1, 0, 0]);
    assert_eq!(sys_waitpid(&mut mem, &mut t, 7, 0x1010), -1);
}

#[test]
fn time_is_written_in_two_words() {
    let mut mem = PhysMemory::new(0x80000, 16);
    let t = task(&mut mem, 1);
    assert_eq!(sys_get_time(&mut mem, &t, 3_000_042, 0x1020), 0);
    let bytes = read(&mem, &t, 0x1020, 16);
    assert_eq!(bytes[..8], 3u64.to_le_bytes());
    assert_eq!(bytes[8..], 42u64.to_le_bytes());
    // Page 2 is not mapped.
    assert_eq!(sys_get_time(&mut mem, &t, 1, 0x1ff8), -1);
    assert_eq!(sys_get_time(&mut mem, &t, 1, 0x2000), -1);
    // The page of this word is not mapped, and its end is never reached.
    assert_eq!(sys_get_time(&mut mem, &t, 1, 0x1000_0000_0000_0000), -1);
    assert!(!pa_copyto_uva(&mut mem, &t, &[1], 0x1000_0000_0000_0000, 1));
    let mut v = vec![0u8; 1];
    assert!(!uva_copyto_pa(&mem, &t, 0x1000_0000_0000_0000, 1, &mut v));
}

#[test]
fn time_may_cross_pages() {
    let mut mem = PhysMemory::new(0x80000, 16);
    let mut t = task(&mut mem, 1);
    assert_eq!(sys_mmap(&mut mem, &mut t, 0x2000, 1, 3), 0);
    assert_eq!(sys_get_time(&mut mem, &t, 5_000_006, 0x1ffc), 0);
    let bytes = read(&mem, &t, 0x1ffc, 16);
    assert_eq!(bytes[0], 5);
    assert_eq!(bytes[8], 6);
}

#[test]
fn mmap_then_munmap() {
    let mut mem = PhysMemory::new(0x80000, 16);
    let mut t = task(&mut mem, 1);
    let free = mem.free_frames();
    assert_eq!(sys_mmap(&mut mem, &mut t, 0x4000, 0x1001, 3), 0);
    assert_eq!(mem.free_frames(), free - 2);
    assert_eq!(read(&mem, &t, 0x5ff0, 16), vec![0u8; 16]);
    assert!(pa_copyto_uva(&mut mem, &t, &[1, 2], 0x4fff, 2));
    assert_eq!(sys_munmap(&mut mem, &mut t, 0x4000, 0x1001), 0);
    assert_eq!(mem.free_frames(), free);
    let mut v = vec![0u8; 1];
    assert!(!uva_copyto_pa(&mem, &t, 0x4fff, 1, &mut v));
    assert_eq!(sys_munmap(&mut mem, &mut t, 0x4000, 0x1001), -1);
    assert_eq!(sys_mmap(&mut mem, &mut t, 0x4000, 0x1001, 3), 0);
}

#[test]
fn mmap_checks_its_arguments() {
    let mut mem = PhysMemory::new(0x80000, 16);
    let mut t = task(&mut mem, 1);
    assert_eq!(sys_mmap(&mut mem, &mut t, 0x4001, 0x1000, 3), -1);
    assert_eq!(sys_mmap(&mut mem, &mut t, 0x4000, 0x1000, 0), -1);
    assert_eq!(sys_mmap(&mut mem, &mut t, 0x4000, 0x1000, 8), -1);
    assert_eq!(sys_mmap(&mut mem, &mut t, 0x4000, 0x1000, 0xb), -1);
    // A start or a protection that is refused is refused whatever the length.
    assert_eq!(sys_mmap(&mut mem, &mut t, 1, u64::MAX, 3), -1);
    assert_eq!(sys_mmap(&mut mem, &mut t, 0x4000, u64::MAX, 0), -1);
    // Page 1 is mapped.
    assert_eq!(sys_mmap(&mut mem, &mut t, 0, 0x1001, 1), -1);
    // There is not that much memory.
    let free = mem.free_frames();
    assert_eq!(sys_mmap(&mut mem, &mut t, 0x4000, 0x20000, 1), -1);
    assert_eq!(mem.free_frames(), free);
    assert_eq!(sys_mmap(&mut mem, &mut t, 0x4000, 0, 1), 0);
}

#[test]
fn mapped_pages_are_taken() {
    let mut mem = PhysMemory::new(0x80000, 16);
    let mut t = task(&mut mem, 1);
    assert_eq!(sys_mmap(&mut mem, &mut t, 0x4000, 0x2000, 3), 0);
    assert_eq!(sys_mmap(&mut mem, &mut t, 0x5000, 0x2000, 3), -1);
    assert_eq!(sys_mmap(&mut mem, &mut t, 0x3000, 0x1001, 3), -1);
    assert_eq!(sys_mmap(&mut mem, &mut t, 0x3000, 0x1000, 3), 0);
}

#[test]
fn address_spaces_are_apart() {
    let mut mem = PhysMemory::new(0x80000, 32);
    let mut a = task(&mut mem, 1);
    let mut b = task(&mut mem, 2);
    assert!(pa_copyto_uva(&mut mem, &a, &[1, 2, 3], 0x1000, 3));
    assert!(pa_copyto_uva(&mut mem, &b, &[4, 5, 6], 0x1000, 3));
    assert_eq!(sys_mmap(&mut mem, &mut a, 0x4000, 0x2000, 3), 0);
    assert_eq!(read(&mem, &b, 0x1000, 3), vec![4, 5, 6]);
    assert_eq!(sys_mmap(&mut mem, &mut b, 0x4000, 0x2000, 3), 0);
    assert_eq!(sys_munmap(&mut mem, &mut a, 0x4000, 0x2000), 0);
    assert_eq!(read(&mem, &a, 0x1000, 3), vec![1, 2, 3]);
    assert_eq!(read(&mem, &b, 0x1000, 3), vec![4, 5, 6]);
    assert_eq!(read(&mem, &b, 0x5ff0, 16), vec![0u8; 16]);
}

#[test]
fn protection_decides_access() {
    let mut mem = PhysMemory::new(0x80000, 16);
    let mut t = task(&mut mem, 1);
    assert_eq!(sys_mmap(&mut mem, &mut t, 0x4000, 0x1000, 1), 0);
    assert_eq!(sys_mmap(&mut mem, &mut t, 0x5000, 0x1000, 2), 0);
    assert_eq!(read(&mem, &t, 0x4000, 1), vec![0]);
    assert!(!pa_copyto_uva(&mut mem, &t, &[1], 0x4000, 1));
    assert!(pa_copyto_uva(&mut mem, &t, &[1], 0x5000, 1));
    let mut v = vec![0u8; 1];
    assert!(!uva_copyto_pa(&mem, &t, 0x5000, 1, &mut v));
}

#[test]
fn munmap_takes_whole_areas() {
    let mut mem = PhysMemory::new(0x80000, 16);
    let mut t = task(&mut mem, 1);
    assert_eq!(sys_mmap(&mut mem, &mut t, 0x4000, 0x2000, 3), 0);
    assert_eq!(sys_munmap(&mut mem, &mut t, 0x4001, 0x2000), -1);
    assert_eq!(sys_munmap(&mut mem, &mut t, 1, u64::MAX), -1);
    assert_eq!(sys_munmap(&mut mem, &mut t, 0x4000, 0x1000), -1);
    assert_eq!(sys_munmap(&mut mem, &mut t, 0x4000, 0x3000), -1);
    assert_eq!(sys_munmap(&mut mem, &mut t, 0x8000, 0x1000), -1);
    assert_eq!(sys_munmap(&mut mem, &mut t, 0x4000, 0x1001), 0);
}

#[test]
fn heap_grows_and_shrinks() {
    let mut mem = PhysMemory::new(0x80000, 16);
    let mut t = task(&mut mem, 1);
    let free = mem.free_frames();
    assert_eq!(sys_sbrk(&mut mem, &mut t, 0), 0x10000);
    assert_eq!(sys_sbrk(&mut mem, &mut t, 0x1001), 0x10000);
    assert_eq!(t.program_brk, 0x11001);
    assert_eq!(mem.free_frames(), free - 2);
    assert!(pa_copyto_uva(&mut mem, &t, &[1], 0x11000, 1));
    assert_eq!(sys_sbrk(&mut mem, &mut t, -1), 0x11001);
    assert_eq!(mem.free_frames(), free - 1);
    assert_eq!(sys_sbrk(&mut mem, &mut t, -0x1001), -1);
    assert_eq!(t.program_brk, 0x11000);
    assert_eq!(sys_sbrk(&mut mem, &mut t, -0x1000), 0x11000);
    assert_eq!(mem.free_frames(), free);
    // There is not that much memory.
    assert_eq!(sys_sbrk(&mut mem, &mut t, 0x40000), -1);
    assert_eq!(t.program_brk, 0x10000);
    assert_eq!(mem.free_frames(), free);
}

#[test]
fn heap_stops_at_other_areas() {
    let mut mem = PhysMemory::new(0x80000, 16);
    let mut t = task(&mut mem, 1);
    assert_eq!(sys_mmap(&mut mem, &mut t, 0x11000, 0x1000, 3), 0);
    assert_eq!(sys_sbrk(&mut mem, &mut t, 0x1000), 0x10000);
    assert_eq!(sys_sbrk(&mut mem, &mut t, 1), -1);
}

#[test]
fn arguments_can_be_checked() {
    let mut mem = PhysMemory::new(0x80000, 16);
    let t = task(&mut mem, 1);
    assert!(pa_copyto_uva(&mut mem, &t, b"name\0", 0x1100, 5));
    assert!(check_string(&mem, &t, 0x1100));
    assert!(pa_copyto_uva(&mut mem, &t, &[1u8; 16], 0x1ff0, 16));
    // No 0 before page 2, which has an entry that points nowhere.
    assert!(!check_string(&mem, &t, 0x1ff8));
    assert!(!check_string(&mem, &t, 512 * 4096));
    assert!(check_reach(&mem, &t, 0x1ff8, 16, true));
    assert!(check_reach(&mem, &t, 0x1ff8, 0, false));
    assert!(!check_reach(&mem, &t, u64::MAX, 2, true));
    assert!(!check_reach(&mem, &t, 0x1000, 1 << 40, false));
    assert!(check_store(&mem, &t, 0x1ffc));
    assert!(!check_store(&mem, &t, 0x2000));
    assert!(!check_store(&mem, &t, 512 * 4096));
    assert!(check_reach(&mem, &t, 0x1000_0000_0000_0000, 16, true));
    assert!(check_mmap(1, u64::MAX, 3));
    assert!(check_mmap(0x4000, u64::MAX, 0));
    assert!(check_mmap(0x4000, u64::MAX, 8));
    assert!(!check_mmap(0x4000, u64::MAX, 3));
    assert!(check_mmap(0x4000, 0x1000, 7));
    // The bytes end at the 39-bit address 0, before they begin.
    assert!(!check_mmap(0x4000, (1 << 39) - 0x4000, 3));
    assert!(check_munmap(1, u64::MAX));
    assert!(check_munmap(0x4000, u64::MAX - 0x4000));
    assert!(!check_munmap(0x4000, u64::MAX - 0x3fff));
}

#[test]
fn waiting_can_be_checked() {
    let mut mem = PhysMemory::new(0x80000, 16);
    let mut t = task(&mut mem, 1);
    assert!(check_wait(&mem, &t, -1, 0x2000));
    t.children = vec![child(2, false, 0), child(3, true, 7)];
    assert!(check_wait(&mem, &t, 2, 0x2000));
    assert!(!check_wait(&mem, &t, 3, 0x2000));
    assert!(!check_wait(&mem, &t, -1, 0x2000));
    assert!(check_wait(&mem, &t, -1, 0x1ffc));
}

#[test]
fn heap_can_be_checked() {
    let mut mem = PhysMemory::new(0x80000, 16);
    let mut t = task(&mut mem, 1);
    assert!(t.check_heap());
    t.program_brk = 0x10001;
    assert!(!t.check_heap());
    t.program_brk = 0xffff;
    assert!(!t.check_heap());
    t.heap_bottom = 0x5000;
    assert!(t.check_heap());
    assert_eq!(sys_sbrk(&mut mem, &mut t, 1), -1);
}

#[test]
fn calls_that_are_not_offered() {
    assert_eq!(sys_spawn(0x1000), -1);
    assert_eq!(sys_set_priority(5), -1);
}
