//! What each single system call gives for its arguments.
use crate::mm::access_laws::{
    law_copy_out_writes_each_byte, law_every_byte_needs_a_frame, law_every_byte_needs_access,
    law_ranges_can_be_walked, law_three_bits_decide_access,
};
use crate::mm::entry::{lemma_pte_word, pte_ppn, pte_word, PTE_V};
use crate::mm::memory::MemView;
use crate::mm::memory_set::{area_of, space_wf, AreaView};
use crate::mm::page_laws::{
    law_every_area_is_found, law_mapped_run, law_other_areas_are_not_found, law_unmapped_run,
};
use crate::mm::pages::{held, pages_fit, place_pages, release_pages, unmapped};
use crate::mm::user::{
    granted, scatter, segments_of, spans, translated, user_byte, user_may,
};
use crate::mm::walk::{is_table, lemma_path_backed, lookup, mapping, path_backed, tree_wf};
use crate::syscall::process::{
    answers, app_from, app_named, can_mmap, can_reach, can_store, copied_out, exited, has_child,
    lemma_exited, page_after, page_of, prot_flags, prot_ok, store_i32, text_at, time_bytes, time_of,
    App,
};
use crate::task::Child;
use vstd::prelude::*;

verus! {

/// A word lies in the page that its low 39 bits name, and the first page after a word is
/// the first that does not begin before its low 39 bits.
#[verifier::spinoff_prover]
pub proof fn law_pages_of_words(w: u64)
    ensures
        page_of(w) * 4096 <= w % 0x80_0000_0000 < page_of(w) * 4096 + 4096,
        page_after(w as int) * 4096 - 4096 < w % 0x80_0000_0000 <= page_after(w as int) * 4096,
{
}

/// The pages of a range are those that hold one of its bytes.
#[verifier::spinoff_prover]
pub proof fn law_range_has_the_pages_of_its_bytes(start: u64, len: u64, v: u64)
    requires
        start % 4096 == 0,
        start + len < 0x80_0000_0000,
    ensures
        page_of(start) <= page_after(start + len),
        (page_of(start) <= v < page_after(start + len)) == (exists|va: u64|
            start <= va < start + len && #[trigger] (va / 4096) == v),
{
    if page_of(start) <= v < page_after(start + len) {
        let va = (v * 4096) as u64;
        assert(va / 4096 == v);
        assert(start <= va < start + len);
    }
    if exists|va: u64| start <= va < start + len && #[trigger] (va / 4096) == v {
        let va = choose|va: u64| start <= va < start + len && #[trigger] (va / 4096) == v;
        assert(start / 4096 <= va / 4096);
    }
}

/// Unmapping succeeds exactly where the start is that of a page and some area, wherever it
/// stands, has exactly the pages of the range.
#[verifier::spinoff_prover]
pub proof fn law_munmap_succeeds_on_any_area(areas: Seq<AreaView>, start: u64, len: u64)
    requires
        start + len <= u64::MAX,
    ensures
        (area_of(areas, page_of(start), page_after(start + len)) < areas.len()) == (exists|j: int|
            0 <= j < areas.len() && (#[trigger] areas[j]).start == start % 0x80_0000_0000 / 4096
                && areas[j].end == ((start + len) % 0x80_0000_0000 + 4095) / 4096),
{
    let lo = page_of(start);
    let hi = page_after(start + len);
    assert(lo == start % 0x80_0000_0000 / 4096);
    assert(hi == ((start + len) % 0x80_0000_0000 + 4095) / 4096);
    if exists|j: int|
        0 <= j < areas.len() && (#[trigger] areas[j]).start == lo && areas[j].end == hi {
        let j = choose|j: int|
            0 <= j < areas.len() && (#[trigger] areas[j]).start == lo && areas[j].end == hi;
        law_every_area_is_found(areas, lo, hi, j);
    } else {
        assert forall|j: int| 0 <= j < areas.len() implies !((#[trigger] areas[j]).start == lo
            && areas[j].end == hi) by {}
        law_other_areas_are_not_found(areas, lo, hi);
    }
}

/// Memory can be mapped exactly where the start is that of a page, the protection has at
/// least one of the bits 0 to 2 and no other, no page of the range is mapped, and the
/// frames suffice.
#[verifier::spinoff_prover]
pub proof fn law_mmap_conditions(m: MemView, root: u64, start: u64, len: u64, prot: u64)
    requires
        start + len <= u64::MAX,
    ensures
        can_mmap(m, root, start, len, prot) == {
            let lo = start % 0x80_0000_0000 / 4096;
            let hi = ((start + len) % 0x80_0000_0000 + 4095) / 4096;
            &&& start % 4096 == 0
            &&& prot & !7u64 == 0
            &&& prot & 7 != 0
            &&& forall|v: u64| lo <= v < hi ==> #[trigger] mapping(m, root, v) is None
            &&& pages_fit(m, root, lo, (hi - lo) as nat, (prot * 2 + 16) as u8)
        },
{
    assert((1 <= prot && prot <= 7) == (prot & !7u64 == 0 && prot & 7 != 0)) by (bit_vector);
    let lo = page_of(start);
    let hi = page_after(start + len);
    assert(lo == start % 0x80_0000_0000 / 4096);
    assert(hi == ((start + len) % 0x80_0000_0000 + 4095) / 4096);
    assert(prot_ok(prot) == (prot & !7u64 == 0 && prot & 7 != 0));
    assert(prot_flags(prot) == (prot * 2 + 16) as u8);
    assert(unmapped(m, root, lo as int, hi as int) == (forall|v: u64|
        lo <= v < hi ==> #[trigger] mapping(m, root, v) is None));
}

/// After memory was mapped with a protection, a user may read each page of the range
/// where bit 0 of the protection is set and write it where bit 1 is set, and the page can
/// be executed where bit 2 is set; every page outside the range is mapped as before.
#[verifier::spinoff_prover]
pub proof fn law_protection_decides_access(
    m: MemView,
    root: u64,
    areas: Seq<AreaView>,
    start: u64,
    len: u64,
    prot: u64,
    v: u64,
)
    requires
        space_wf(m, root, areas),
        start + len <= u64::MAX,
        can_mmap(m, root, start, len, prot),
        v < 0x800_0000,
        start % 0x80_0000_0000 / 4096 <= ((start + len) % 0x80_0000_0000 + 4095) / 4096,
    ensures
        ({
            let lo = start % 0x80_0000_0000 / 4096;
            let hi = ((start + len) % 0x80_0000_0000 + 4095) / 4096;
            let n = place_pages(m, root, lo, (hi - lo) as nat, prot_flags(prot));
            let inside = lo <= v < hi;
            &&& inside ==> {
                &&& mapping(n, root, v) is Some
                &&& user_may(n, root, v, 1) == (prot & 1 != 0)
                &&& user_may(n, root, v, 2) == (prot & 2 != 0)
                &&& ((mapping(n, root, v)->0) & 8 != 0) == (prot & 4 != 0)
                &&& (mapping(n, root, v)->0) & 0xe0 == 0
            }
            &&& !inside ==> mapping(n, root, v) == mapping(m, root, v)
            &&& !inside ==> user_may(n, root, v, 1) == user_may(m, root, v, 1)
            &&& !inside ==> user_may(n, root, v, 2) == user_may(m, root, v, 2)
        }),
{
    let lo = page_of(start);
    let hi = page_after(start + len);
    assert(lo == start % 0x80_0000_0000 / 4096);
    assert(hi == ((start + len) % 0x80_0000_0000 + 4095) / 4096);
    let k = (hi - lo) as nat;
    let flags = prot_flags(prot);
    let n = place_pages(m, root, lo, k, flags);
    law_mapped_run(m, root, lo, k, flags, v, v, 0, 0);
    law_three_bits_decide_access(n, root, v);
    law_three_bits_decide_access(m, root, v);
    if lo <= v < hi {
        let e = mapping(n, root, v)->0;
        let f = (flags | 1) as u64;
        let p = prot as u8;
        assert((flags | 1u8) == p * 2 + 17) by (bit_vector)
            requires
                flags == p * 2 + 16,
                p <= 7,
        ;
        assert((e & 0x13 == 0x13) == (prot & 1 != 0) && (e & 0x15 == 0x15) == (prot & 2 != 0) && (e
            & 8 != 0) == (prot & 4 != 0) && e & 0xe0 == 0) by (bit_vector)
            requires
                e & 0xff == f,
                f == prot * 2 + 17,
                prot <= 7,
        ;
        assert(lookup(n, root, v) == Some(e));
    } else {
        lemma_access_by_mapping(m, n, root, v);
    }
}

/// Pages that are mapped alike can be accessed alike.
proof fn lemma_access_by_mapping(m: MemView, n: MemView, root: u64, v: u64)
    requires
        mapping(n, root, v) == mapping(m, root, v),
    ensures
        user_may(n, root, v, 1) == user_may(m, root, v, 1),
        user_may(n, root, v, 2) == user_may(m, root, v, 2),
{
    law_three_bits_decide_access(n, root, v);
    law_three_bits_decide_access(m, root, v);
}

/// Waiting for any child, by the number -1, looks at all of them, whatever their numbers
/// and exit codes: there is one unless there are no children, and one has exited unless
/// all still run.
pub proof fn law_any_child_answers(children: Seq<Child>)
    ensures
        has_child(children, -1 as isize) == (children.len() > 0),
        (exited(children, -1 as isize) < children.len()) == (exists|i: int|
            0 <= i < children.len() && (#[trigger] children[i]).zombie),
{
    lemma_exited(children, -1 as isize, 0);
    let k = exited(children, -1 as isize);
    if children.len() > 0 {
        assert(answers(-1 as isize, children[0]));
    }
    if exists|i: int| 0 <= i < children.len() && (#[trigger] children[i]).zombie {
        let i = choose|i: int| 0 <= i < children.len() && (#[trigger] children[i]).zombie;
        assert(i < k ==> !(children[i].zombie && answers(-1 as isize, children[i])));
    }
}

/// Waiting for the child with a number looks at the children with that number and at no
/// others: there is one where a child has the number, and one has exited where a child
/// with the number has.
pub proof fn law_child_answers_to_its_number(children: Seq<Child>, pid: isize)
    requires
        pid != -1,
    ensures
        has_child(children, pid) == (exists|i: int|
            0 <= i < children.len() && (#[trigger] children[i]).pid == pid as usize),
        (exited(children, pid) < children.len()) == (exists|i: int|
            0 <= i < children.len() && (#[trigger] children[i]).pid == pid as usize
                && children[i].zombie),
{
    lemma_exited(children, pid, 0);
    let k = exited(children, pid);
    assert(forall|i: int|
        0 <= i < children.len() ==> answers(pid, #[trigger] children[i]) == (children[i].pid
            == pid as usize));
    if exists|i: int|
        0 <= i < children.len() && (#[trigger] children[i]).pid == pid as usize
            && children[i].zombie {
        let i = choose|i: int|
            0 <= i < children.len() && (#[trigger] children[i]).pid == pid as usize
                && children[i].zombie;
        assert(i < k ==> !(children[i].zombie && answers(pid, children[i])));
    }
}

/// The child that is handed over is the first one that has exited and has the number that
/// is waited for, or any number where that is -1.
pub proof fn law_first_exited_child_is_taken(children: Seq<Child>, pid: isize, k: int)
    requires
        0 <= k < children.len(),
        children[k].zombie,
        pid == -1 || children[k].pid == pid as usize,
        forall|j: int|
            0 <= j < k ==> !((#[trigger] children[j]).zombie && (pid == -1 || children[j].pid
                == pid as usize)),
    ensures
        exited(children, pid) == k,
        has_child(children, pid),
{
    lemma_exited(children, pid, 0);
    let r = exited(children, pid);
    assert(answers(pid, children[k]));
    if r < k {
        assert(!(children[r].zombie && (pid == -1 || children[r].pid == pid as usize)));
    }
    if k < r {
        assert(!(children[k].zombie && answers(pid, children[k])));
    }
}

/// The exit code is found, as a little-endian number of 4 bytes, where the address is
/// translated to, and no other byte of memory changes.
#[verifier::spinoff_prover]
pub proof fn law_exit_code_is_stored(m: MemView, root: u64, ptr: u64, code: i32)
    requires
        translated(m, root, ptr) is Some,
        m.base * 4096 <= translated(m, root, ptr)->0,
        translated(m, root, ptr)->0 + 4 <= m.base * 4096 + m.bytes.len(),
    ensures
        ({
            let n = store_i32(m, root, ptr, code);
            let at = translated(m, root, ptr)->0 - m.base * 4096;
            &&& vstd::bytes::spec_u32_from_le_bytes(n.bytes.subrange(at, at + 4)) as i32 == code
            &&& forall|x: int|
                0 <= x < m.bytes.len() && !(at <= x < at + 4) ==> #[trigger] n.bytes[x]
                    == m.bytes[x]
            &&& n.bytes.len() == m.bytes.len()
            &&& n.base == m.base
            &&& n.free == m.free
        }),
{
    vstd::bytes::lemma_auto_spec_u32_to_from_le_bytes();
    let at = translated(m, root, ptr)->0 - m.base * 4096;
    let d = vstd::bytes::spec_u32_to_le_bytes(code as u32);
    let n = store_i32(m, root, ptr, code);
    assert(n.bytes.subrange(at, at + 4) =~= d);
    assert(((code as u32) as i32) == code) by (bit_vector);
}

/// A number can be stored at an address where the address is translated to 4 bytes of
/// memory, through tables that lie in memory.
pub proof fn law_store_needs_memory(m: MemView, root: u64, ptr: u64)
    requires
        path_backed(m, root, ptr % 0x80_0000_0000 / 4096),
    ensures
        can_store(m, root, ptr) == (translated(m, root, ptr) is Some && m.base * 4096 <= translated(
            m,
            root,
            ptr,
        )->0 && translated(m, root, ptr)->0 + 4 <= m.base * 4096 + m.bytes.len()),
{
}

/// Where the search for a program from place `i` on ends.
proof fn lemma_app_search(apps: Seq<App>, name: Seq<char>, i: int)
    requires
        0 <= i <= apps.len(),
    ensures
        ({
            let r = app_from(apps, name, i);
            &&& i <= r <= apps.len()
            &&& r < apps.len() ==> apps[r].name@ == name
            &&& forall|j: int| i <= j < r ==> (#[trigger] apps[j]).name@ != name
        }),
    decreases apps.len() - i,
{
    if i < apps.len() && apps[i].name@ != name {
        lemma_app_search(apps, name, i + 1);
    }
}

/// The program to run is the first one with the name, wherever it stands; there is none
/// where no program has the name.
pub proof fn law_program_is_found_by_name(apps: Seq<App>, name: Seq<char>, k: int)
    requires
        0 <= k <= apps.len(),
        k < apps.len() ==> apps[k].name@ == name,
        forall|j: int| 0 <= j < k ==> (#[trigger] apps[j]).name@ != name,
    ensures
        app_named(apps, name) == if k < apps.len() {
            Some(k)
        } else {
            None
        },
{
    lemma_app_search(apps, name, 0);
    let r = app_from(apps, name, 0);
    if r < k {
        assert(apps[r].name@ != name);
    }
    if k < r {
        assert(apps[k].name@ != name);
    }
}

/// The text at an address has one character for each byte, in order.
pub proof fn law_text_is_the_bytes(m: MemView, root: u64, ptr: u64, n: nat, k: int)
    requires
        0 <= k < n,
    ensures
        text_at(m, root, ptr, n).len() == n,
        text_at(m, root, ptr, n)[k] == user_byte(m, root, (ptr + k) as u64) as char,
{
}

/// What is written for a time is read as the time: the first 8 bytes, times a million, and
/// the last 8 bytes add up to the microseconds, and the last 8 bytes are below a million.
#[verifier::spinoff_prover]
pub proof fn law_time_is_decoded(us: u64)
    ensures
        ({
            let b = time_bytes(time_of(us));
            let sec = vstd::bytes::spec_u64_from_le_bytes(b.take(8));
            let usec = vstd::bytes::spec_u64_from_le_bytes(b.skip(8));
            &&& b.len() == 16
            &&& sec * 1_000_000 + usec == us
            &&& usec < 1_000_000
        }),
{
    vstd::bytes::lemma_auto_spec_u64_to_from_le_bytes();
    let t = time_of(us);
    let b = time_bytes(t);
    assert(b.take(8) =~= vstd::bytes::spec_u64_to_le_bytes(t.sec));
    assert(b.skip(8) =~= vstd::bytes::spec_u64_to_le_bytes(t.usec));
}

/// Copying data out fails, and changes nothing, where access is not granted; where it is,
/// it succeeds if there is as much data as was asked for, and the data goes to the stretches
/// of the range.
pub proof fn law_copy_out_needs_access(
    m: MemView,
    n: MemView,
    root: u64,
    src: Seq<u8>,
    dst: u64,
    len: u64,
    r: bool,
)
    requires
        m.wf(),
        copied_out(m, n, root, src, dst, len, r),
        dst + len <= 0x40_0000_0000 || dst >= 0x1_0000_0000_0000_0000 - 0x40_0000_0000,
        dst + len <= u64::MAX,
        forall|va: u64|
            dst <= va < dst + len ==> {
                &&& #[trigger] translated(m, root, va) is Some
                &&& m.base * 4096 <= translated(m, root, va)->0 < m.base * 4096 + m.bytes.len()
            },
    ensures
        r == (granted(m, root, dst, (dst + len) as u64, 2) && len <= src.len()),
        !granted(m, root, dst, (dst + len) as u64, 2) ==> n == m,
        granted(m, root, dst, (dst + len) as u64, 2) ==> n == scatter(
            m,
            segments_of(m, root, spans(dst, (dst + len) as u64)),
            src,
            0,
        ).0,
{
    law_copy_out_writes_each_byte(m, root, dst, (dst + len) as u64, src);
}

/// After the time was written to a range that a user may write, the 16 bytes there are the
/// seconds and the microseconds of that time, and no other byte of memory changed. The
/// bytes must not lie in one another's places.
#[verifier::spinoff_prover]
pub proof fn law_time_reaches_the_task(
    m: MemView,
    n: MemView,
    root: u64,
    us: u64,
    ts: u64,
    r: bool,
    b: Seq<u8>,
    x: int,
)
    requires
        m.wf(),
        copied_out(m, n, root, time_bytes(time_of(us)), ts, 16, r),
        ts + 16 <= 0x40_0000_0000 || ts >= 0x1_0000_0000_0000_0000 - 0x40_0000_0000,
        ts + 16 <= u64::MAX,
        forall|va: u64|
            ts <= va < ts + 16 ==> {
                &&& #[trigger] translated(m, root, va) is Some
                &&& m.base * 4096 <= translated(m, root, va)->0 < m.base * 4096 + m.bytes.len()
            },
        forall|va: u64, w: u64|
            ts <= va < w < ts + 16 ==> (#[trigger] translated(m, root, va))->0 != (
            #[trigger] translated(m, root, w))->0,
        b.len() == 16,
        forall|j: int|
            0 <= j < 16 ==> #[trigger] b[j] == n.bytes[translated(m, root, (ts + j) as u64)->0
                - m.base * 4096],
        0 <= x < m.bytes.len(),
        forall|va: u64|
            ts <= va < ts + 16 ==> (#[trigger] translated(m, root, va))->0 - m.base * 4096 != x,
    ensures
        r == granted(m, root, ts, (ts + 16) as u64, 2),
        n.bytes[x] == m.bytes[x],
        r ==> {
            let sec = vstd::bytes::spec_u64_from_le_bytes(b.take(8));
            let usec = vstd::bytes::spec_u64_from_le_bytes(b.skip(8));
            sec * 1_000_000 + usec == us && usec < 1_000_000
        },
{
    let d = time_bytes(time_of(us));
    law_time_is_decoded(us);
    law_copy_out_needs_access(m, n, root, d, ts, 16, r);
    law_copy_out_writes_each_byte(m, root, ts, (ts + 16) as u64, d);
    if r {
        assert forall|j: int| 0 <= j < 16 implies b[j] == d[j] by {
            let va = (ts + j) as u64;
            assert forall|w: u64| va < w < ts + 16 implies #[trigger] translated(m, root, w)->0
                != translated(m, root, va)->0 by {}
            assert(translated(m, root, va) is Some);
        }
        assert(b =~= d);
    }
}

/// For every range of addresses in one half of the 39-bit space it can be decided whether
/// the task may access it, as long as the pages that it may access lie in frames of memory.
pub proof fn law_reach_is_decided(m: MemView, root: u64, ptr: u64, len: u64, flag: int)
    requires
        tree_wf(m, root),
        ptr + len <= u64::MAX,
        ptr + len <= 0x40_0000_0000 || ptr >= 0x1_0000_0000_0000_0000 - 0x40_0000_0000,
        forall|va: u64|
            ptr <= va < ptr + len && user_may(m, root, va % 0x80_0000_0000 / 4096, flag)
                ==> m.backed(pte_ppn((#[trigger] lookup(m, root, va % 0x80_0000_0000 / 4096))->0)),
    ensures
        can_reach(m, root, ptr, len, flag),
{
    let end = (ptr + len) as u64;
    assert forall|va: u64| ptr <= va < end implies #[trigger] path_backed(
        m,
        root,
        va % 0x80_0000_0000 / 4096,
    ) by {
        lemma_path_backed(m, root, va % 0x80_0000_0000 / 4096);
    }
    law_ranges_can_be_walked(m, root, ptr, end, flag);
    law_every_byte_needs_access(m, root, ptr, end, flag);
    law_every_byte_needs_a_frame(m, root, ptr, end);
    if granted(m, root, ptr, end, flag) {
        assert forall|va: u64| ptr <= va < end implies m.backed(
            pte_ppn((#[trigger] lookup(m, root, va % 0x80_0000_0000 / 4096))->0),
        ) by {
            assert(user_may(m, root, va % 0x80_0000_0000 / 4096, flag));
        }
    }
}

/// Unmapping an area, wherever it stands: none of its pages is mapped any more, every other
/// page is mapped as before, its frames are free in addition to those that were, and every
/// other frame that is no table keeps its bytes.
#[verifier::spinoff_prover]
pub proof fn law_munmap_frees_the_area(
    m: MemView,
    root: u64,
    areas: Seq<AreaView>,
    k: int,
    v: u64,
    t: u64,
    i: int,
)
    requires
        space_wf(m, root, areas),
        0 <= k < areas.len(),
        v < 0x800_0000,
        0 <= i < 4096,
    ensures
        ({
            let a = areas[k];
            let o = release_pages(m, root, a.start, (a.end - a.start) as nat);
            &&& a.start <= v < a.end ==> mapping(o, root, v) is None
            &&& a.start <= v < a.end ==> o.free.contains(pte_ppn(mapping(m, root, v)->0))
            &&& !(a.start <= v < a.end) ==> mapping(o, root, v) == mapping(m, root, v)
            &&& o.free == m.free + a.frames
            &&& m.backed(t) && !m.free.contains(t) && !is_table(m, root, t) && !o.free.contains(t)
                ==> o.bytes[t * 4096 + i - m.base * 4096] == m.bytes[t * 4096 + i - m.base * 4096]
        }),
{
    let a = areas[k];
    assert(a.wf(m, root));
    law_unmapped_run(m, root, a.start, a.frames, a.flags, v, t, i);
    let o = release_pages(m, root, a.start, (a.end - a.start) as nat);
    if a.start <= v < a.end {
        let j = v - a.start;
        assert((a.start + j) as u64 == v);
        assert(mapping(m, root, (a.start + j) as u64) == Some(
            pte_word(a.frames[j], a.flags | PTE_V),
        ));
        assert(held(m, root, a.frames[j]));
        lemma_pte_word(a.frames[j], a.flags | PTE_V);
        assert(o.free[m.free.len() + j] == a.frames[j]);
    }
    if a.frames.contains(t) {
        let x = choose|x: int| 0 <= x < a.frames.len() && a.frames[x] == t;
        assert(o.free[m.free.len() + x] == t);
    }
}

} // verus!
