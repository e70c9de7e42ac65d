//! What holds of sequences of system calls.
use crate::bytes::zeros;
use crate::mm::address::{PPN_SPAN, VPN_SPAN};
use crate::mm::entry::{lemma_pte_word, pte_flag, pte_ppn, pte_word, PTE_V};
use crate::mm::memory::MemView;
use crate::mm::memory_set::{
    area_at, area_at_from, area_from, area_of, lemma_areas_disjoint, outside, space_wf, AreaView,
};
use crate::mm::pages::{
    held, lemma_place_pages, lemma_release_pages, lemma_table_in_use, mapped_alike, place_pages,
    placed_frames, release_pages, use_kept,
};
use crate::mm::user::{gather, granted, lemma_spans_bounds, segments_of, spans, user_may};
use crate::mm::user_laws::{
    all_apart, canonical, law_user_copy_round_trip, lemma_scatter_keeps_tables,
};
use crate::mm::walk::{
    is_table, lemma_path_backed, lemma_same_tables, lookup, mapping, path_backed, tree_wf,
};
use crate::syscall::process::{
    answers, can_mmap, can_reach, copied_out, exited, has_child, lemma_exited, page_after, page_of,
    prot_flags, prot_ok, time_bytes, time_of,
};
use crate::task::{ends_at, lemma_area_at, lemma_area_at_update, Child, TaskControlBlock};
use vstd::prelude::*;

verus! {

/// The area that mapping memory adds.
pub open spec fn mmap_area(m: MemView, root: u64, start: u64, len: u64, prot: u64) -> AreaView {
    let lo = page_of(start);
    let hi = page_after(start + len);
    AreaView {
        start: lo,
        end: hi,
        flags: prot_flags(prot),
        frames: placed_frames(m, root, lo, (hi - lo) as nat, prot_flags(prot)),
    }
}

/// Memory after it was mapped.
pub open spec fn mmapped(m: MemView, root: u64, start: u64, len: u64, prot: u64) -> MemView {
    let lo = page_of(start);
    place_pages(m, root, lo, (page_after(start + len) - lo) as nat, prot_flags(prot))
}

proof fn lemma_page_bounds(start: u64, len: u64)
    requires
        start + len <= u64::MAX,
    ensures
        page_of(start) < VPN_SPAN,
        page_after(start + len) <= VPN_SPAN,
{
}

/// Where the search for an area with these pages ends.
proof fn lemma_area_from(areas: Seq<AreaView>, lo: u64, hi: u64, k: int)
    requires
        0 <= k <= areas.len(),
    ensures
        k <= area_from(areas, lo, hi, k) <= areas.len(),
        area_from(areas, lo, hi, k) < areas.len() ==> {
            let a = areas[area_from(areas, lo, hi, k)];
            a.start == lo && a.end == hi
        },
    decreases areas.len() - k,
{
    if k < areas.len() && !(areas[k].start == lo && areas[k].end == hi) {
        lemma_area_from(areas, lo, hi, k + 1);
    }
}

proof fn lemma_area_pushed(areas: Seq<AreaView>, a: AreaView, k: int)
    requires
        0 <= k <= areas.len(),
        area_from(areas, a.start, a.end, k) == areas.len(),
    ensures
        area_from(areas.push(a), a.start, a.end, k) == areas.len(),
    decreases areas.len() - k,
{
    if k < areas.len() {
        lemma_area_from(areas, a.start, a.end, k + 1);
        lemma_area_pushed(areas, a, k + 1);
    }
}

/// The pages of a fresh mapping are mapped to frames that are zero and in no other
/// use; a user may access them, and may read, write or execute them as bits 0, 1 and
/// 2 of the protection say.
pub proof fn law_mmap_gives_fresh_pages(
    m: MemView,
    root: u64,
    areas: Seq<AreaView>,
    start: u64,
    len: u64,
    prot: u64,
    v: u64,
)
    requires
        space_wf(m, root, areas),
        start + len <= u64::MAX,
        can_mmap(m, root, start, len, prot),
        page_of(start) <= v < page_after(start + len),
    ensures
        ({
            let n = mmapped(m, root, start, len, prot);
            let e = mapping(n, root, v)->0;
            &&& mapping(n, root, v) is Some
            &&& pte_flag(e, 4)
            &&& pte_flag(e, 1) == (prot % 2 == 1)
            &&& pte_flag(e, 2) == (prot / 2 % 2 == 1)
            &&& pte_flag(e, 3) == (prot / 4 % 2 == 1)
            &&& m.free.contains(pte_ppn(e))
            &&& held(n, root, pte_ppn(e))
            &&& n.frame(pte_ppn(e)) == zeros(4096)
        }),
{
    lemma_page_bounds(start, len);
    let lo = page_of(start);
    let n = (page_after(start + len) - lo) as nat;
    let flags = prot_flags(prot);
    let frames = placed_frames(m, root, lo, n, flags);
    lemma_place_pages(m, root, lo, n, flags);
    let i = v - lo;
    let f = frames[i];
    assert(m.free.contains(f));
    let o = mmapped(m, root, start, len, prot);
    assert(held(o, root, f));
    lemma_pte_word(f, flags | PTE_V);
    lemma_prot_word(prot, f);
    assert((lo + i) as u64 == v);
}

proof fn lemma_prot_word(prot: u64, f: u64)
    requires
        prot_ok(prot),
        f < PPN_SPAN,
    ensures
        ({
            let e = pte_word(f, prot_flags(prot) | PTE_V);
            &&& pte_flag(e, 4)
            &&& pte_flag(e, 1) == (prot % 2 == 1)
            &&& pte_flag(e, 2) == (prot / 2 % 2 == 1)
            &&& pte_flag(e, 3) == (prot / 4 % 2 == 1)
        }),
{
    let flags = prot_flags(prot) | PTE_V;
    lemma_pte_word(f, flags);
    assert(flags == prot * 2 + 17) by {
        let b = prot_flags(prot);
        let p = prot as u8;
        assert((b | 1u8) == p * 2 + 17) by (bit_vector)
            requires
                b == p * 2 + 16,
                p <= 7,
        ;
    }
    let e = pte_word(f, flags);
    assert((e / 16) % 2 == 1 && ((e / 2) % 2 == 1) == (prot % 2 == 1) && ((e / 4) % 2 == 1) == (
    (prot / 2) % 2 == 1) && ((e / 8) % 2 == 1) == ((prot / 4) % 2 == 1)) by (bit_vector)
        requires
            e == f * 1024 + prot * 2 + 17,
            f < 0x1000_0000_0000u64,
            prot <= 7,
    ;
}

/// Pages that were mapped are taken: mapping any range with one of them is refused.
pub proof fn law_mmap_refuses_overlap(
    m: MemView,
    root: u64,
    areas: Seq<AreaView>,
    start: u64,
    len: u64,
    prot: u64,
    start2: u64,
    len2: u64,
    prot2: u64,
    v: u64,
)
    requires
        space_wf(m, root, areas),
        start + len <= u64::MAX,
        can_mmap(m, root, start, len, prot),
        page_of(start) <= v < page_after(start + len),
        page_of(start2) <= v < page_after(start2 + len2),
    ensures
        !can_mmap(mmapped(m, root, start, len, prot), root, start2, len2, prot2),
{
    law_mmap_gives_fresh_pages(m, root, areas, start, len, prot, v);
}

/// Unmapping what was mapped leads back: the area that was added is the one that is
/// found and removed, every page is mapped as before, the frames that were in use
/// are as they were, and those that the area had are free again. Where the range has
/// no pages, this takes that no area with the same empty range was there.
pub proof fn law_munmap_undoes_mmap(
    m: MemView,
    root: u64,
    areas: Seq<AreaView>,
    start: u64,
    len: u64,
    prot: u64,
)
    requires
        space_wf(m, root, areas),
        start + len <= u64::MAX,
        page_of(start) <= page_after(start + len),
        can_mmap(m, root, start, len, prot),
        page_of(start) == page_after(start + len) ==> area_of(
            areas,
            page_of(start),
            page_after(start + len),
        ) == areas.len(),
    ensures
        ({
            let lo = page_of(start);
            let hi = page_after(start + len);
            let a = mmap_area(m, root, start, len, prot);
            let o = release_pages(mmapped(m, root, start, len, prot), root, lo, (hi - lo) as nat);
            &&& area_of(areas.push(a), lo, hi) == areas.len()
            &&& areas.push(a).remove(areas.len() as int) == areas
            &&& mapped_alike(m, o, root, 0, 0)
            &&& use_kept(m, o, root)
            &&& forall|i: int| 0 <= i < a.frames.len() ==> o.free.contains(#[trigger] a.frames[i])
        }),
{
    lemma_page_bounds(start, len);
    let lo = page_of(start);
    let hi = page_after(start + len);
    let n = (hi - lo) as nat;
    let flags = prot_flags(prot);
    let a = mmap_area(m, root, start, len, prot);
    let frames = a.frames;
    let p = mmapped(m, root, start, len, prot);
    let o = release_pages(p, root, lo, n);
    lemma_place_pages(m, root, lo, n, flags);
    lemma_release_pages(p, root, lo, frames, flags, n);
    assert(frames.take(n as int) =~= frames);
    lemma_area_from(areas, lo, hi, 0);
    let k = area_of(areas, lo, hi);
    if lo < hi && k < areas.len() {
        assert(areas[k].wf(m, root));
        assert(mapping(m, root, (areas[k].start + 0) as u64) == Some(
            pte_word(areas[k].frames[0], areas[k].flags | PTE_V),
        ));
        assert(mapping(m, root, lo) is None);
    }
    lemma_area_pushed(areas, a, 0);
    assert(areas.push(a).remove(areas.len() as int) =~= areas);
    assert forall|v: u64| v < VPN_SPAN implies #[trigger] mapping(o, root, v) == mapping(
        m,
        root,
        v,
    ) by {
        if !(lo <= v < hi) {
            assert(mapping(o, root, v) == mapping(p, root, v));
            assert(mapping(p, root, v) == mapping(m, root, v));
        }
    }
    assert forall|t: u64| #[trigger] held(m, root, t) implies held(o, root, t) && o.frame(t)
        == m.frame(t) by {
        if frames.contains(t) {
            let x = choose|x: int| 0 <= x < frames.len() && frames[x] == t;
            assert(m.free.contains(frames[x]));
        }
        assert(held(p, root, t));
        assert(p.frame(t) == m.frame(t));
    }
    assert forall|i: int| 0 <= i < frames.len() implies o.free.contains(#[trigger] frames[i]) by {
        assert(o.free[p.free.len() + i] == frames[i]);
    }
}

/// Unmapping pages a second time is refused: no other area has the same pages.
pub proof fn law_munmap_only_once(m: MemView, root: u64, areas: Seq<AreaView>, lo: u64, hi: u64)
    requires
        space_wf(m, root, areas),
        lo < hi,
        area_of(areas, lo, hi) < areas.len(),
    ensures
        ({
            let rest = areas.remove(area_of(areas, lo, hi));
            area_of(rest, lo, hi) == rest.len()
        }),
{
    let k = area_of(areas, lo, hi);
    let rest = areas.remove(k);
    lemma_area_from(areas, lo, hi, 0);
    lemma_area_from(rest, lo, hi, 0);
    let l = area_of(rest, lo, hi);
    if l < rest.len() {
        let l0 = if l < k {
            l
        } else {
            l + 1
        };
        assert(rest[l] == areas[l0]);
        lemma_areas_disjoint(m, root, areas, k, l0);
        assert(outside(areas[l0], lo as int, hi as int));
    }
}

/// Two address spaces share nothing: the tables and the frames of the second are in
/// use, and are neither tables nor frames of the first.
pub open spec fn spaces_apart(
    m: MemView,
    root: u64,
    areas: Seq<AreaView>,
    root2: u64,
    areas2: Seq<AreaView>,
) -> bool {
    &&& forall|t: u64| #[trigger]
        is_table(m, root2, t) ==> held(m, root, t) && forall|k: int|
            0 <= k < areas.len() ==> !(#[trigger] areas[k]).frames.contains(t)
    &&& forall|l: int, i: int|
        0 <= l < areas2.len() && 0 <= i < areas2[l].frames.len() ==> held(
            m,
            root,
            #[trigger] areas2[l].frames[i],
        ) && forall|k: int|
            0 <= k < areas.len() ==> !(#[trigger] areas[k]).frames.contains(
                areas2[l].frames[i],
            )
}

/// In an address space whose tables keep their bytes, and none of whose tables and
/// frames becomes free, every page is mapped as before.
proof fn lemma_other_space(m: MemView, o: MemView, root: u64, areas: Seq<AreaView>)
    requires
        space_wf(m, root, areas),
        o.wf(),
        o.base == m.base,
        o.bytes.len() == m.bytes.len(),
        forall|t: u64| #[trigger]
            is_table(m, root, t) ==> o.frame(t) == m.frame(t) && !o.free.contains(t),
        forall|l: int, i: int|
            0 <= l < areas.len() && 0 <= i < areas[l].frames.len() ==> !o.free.contains(
                #[trigger] areas[l].frames[i],
            ),
    ensures
        space_wf(o, root, areas),
        forall|t: u64| #[trigger] is_table(o, root, t) == is_table(m, root, t),
        forall|v: u64| #[trigger] mapping(o, root, v) == mapping(m, root, v),
{
    assert forall|t: u64, k: u64| is_table(m, root, t) && k < 512 implies #[trigger] o.pte(t, k)
        == m.pte(t, k) by {
        lemma_table_in_use(m, root, t);
        let at = m.offset(t) + k * 8;
        assert(o.frame(t) == m.frame(t));
        assert(o.bytes.subrange(at, at + 8) =~= o.frame(t).subrange(k * 8, k * 8 + 8));
        assert(m.bytes.subrange(at, at + 8) =~= m.frame(t).subrange(k * 8, k * 8 + 8));
    }
    lemma_same_tables(m, o, root);
    assert forall|l: int| 0 <= l < areas.len() implies (#[trigger] areas[l]).wf(o, root) by {
        let a = areas[l];
        assert(a.wf(m, root));
        assert forall|i: int| 0 <= i < a.frames.len() implies held(
            o,
            root,
            #[trigger] a.frames[i],
        ) && mapping(o, root, (a.start + i) as u64) == Some(
            pte_word(a.frames[i], a.flags | PTE_V),
        ) by {
            assert(held(m, root, a.frames[i]));
            assert(!o.free.contains(areas[l].frames[i]));
            assert(mapping(o, root, (a.start + i) as u64) == mapping(
                m,
                root,
                (a.start + i) as u64,
            ));
        }
    }
}

/// Mapping memory in one address space leaves another as it is: every page of it is
/// mapped as before, to the same bytes.
pub proof fn law_mmap_leaves_other_spaces(
    m: MemView,
    root: u64,
    areas: Seq<AreaView>,
    root2: u64,
    areas2: Seq<AreaView>,
    start: u64,
    len: u64,
    prot: u64,
)
    requires
        space_wf(m, root, areas),
        space_wf(m, root2, areas2),
        spaces_apart(m, root, areas, root2, areas2),
        start + len <= u64::MAX,
        page_of(start) <= page_after(start + len),
        can_mmap(m, root, start, len, prot),
    ensures
        ({
            let o = mmapped(m, root, start, len, prot);
            &&& space_wf(o, root2, areas2)
            &&& forall|t: u64| #[trigger] is_table(o, root2, t) == is_table(m, root2, t)
            &&& forall|v: u64| #[trigger] mapping(o, root2, v) == mapping(m, root2, v)
            &&& forall|l: int, i: int|
                0 <= l < areas2.len() && 0 <= i < areas2[l].frames.len() ==> o.frame(
                    #[trigger] areas2[l].frames[i],
                ) == m.frame(areas2[l].frames[i])
        }),
{
    lemma_page_bounds(start, len);
    let lo = page_of(start);
    let n = (page_after(start + len) - lo) as nat;
    lemma_place_pages(m, root, lo, n, prot_flags(prot));
    let o = mmapped(m, root, start, len, prot);
    assert forall|t: u64| #[trigger] is_table(m, root2, t) implies o.frame(t) == m.frame(t)
        && !o.free.contains(t) by {
        assert(held(m, root, t));
        assert(held(o, root, t));
    }
    assert forall|l: int, i: int|
        0 <= l < areas2.len() && 0 <= i < areas2[l].frames.len() implies !o.free.contains(
        #[trigger] areas2[l].frames[i],
    ) && o.frame(areas2[l].frames[i]) == m.frame(areas2[l].frames[i]) by {
        assert(held(m, root, areas2[l].frames[i]));
        assert(held(o, root, areas2[l].frames[i]));
    }
    lemma_other_space(m, o, root2, areas2);
}

/// Unmapping memory in one address space leaves another as it is: every page of it is
/// mapped as before, to the same bytes.
pub proof fn law_munmap_leaves_other_spaces(
    m: MemView,
    root: u64,
    areas: Seq<AreaView>,
    root2: u64,
    areas2: Seq<AreaView>,
    lo: u64,
    hi: u64,
)
    requires
        space_wf(m, root, areas),
        space_wf(m, root2, areas2),
        spaces_apart(m, root, areas, root2, areas2),
        area_of(areas, lo, hi) < areas.len(),
    ensures
        ({
            let o = release_pages(m, root, lo, (hi - lo) as nat);
            &&& space_wf(o, root2, areas2)
            &&& forall|t: u64| #[trigger] is_table(o, root2, t) == is_table(m, root2, t)
            &&& forall|v: u64| #[trigger] mapping(o, root2, v) == mapping(m, root2, v)
            &&& forall|l: int, i: int|
                0 <= l < areas2.len() && 0 <= i < areas2[l].frames.len() ==> o.frame(
                    #[trigger] areas2[l].frames[i],
                ) == m.frame(areas2[l].frames[i])
        }),
{
    let k = area_of(areas, lo, hi);
    lemma_area_from(areas, lo, hi, 0);
    let a = areas[k];
    assert(a.wf(m, root));
    let n = (hi - lo) as nat;
    lemma_release_pages(m, root, lo, a.frames, a.flags, n);
    assert(a.frames.take(n as int) =~= a.frames);
    let o = release_pages(m, root, lo, n);
    assert forall|t: u64| #[trigger] is_table(m, root2, t) implies o.frame(t) == m.frame(t)
        && !o.free.contains(t) by {
        assert(held(m, root, t));
        assert(!areas[k].frames.contains(t));
        assert(held(o, root, t));
    }
    assert forall|l: int, i: int|
        0 <= l < areas2.len() && 0 <= i < areas2[l].frames.len() implies !o.free.contains(
        #[trigger] areas2[l].frames[i],
    ) && o.frame(areas2[l].frames[i]) == m.frame(areas2[l].frames[i]) by {
        assert(held(m, root, areas2[l].frames[i]));
        assert(!areas[k].frames.contains(areas2[l].frames[i]));
        assert(held(o, root, areas2[l].frames[i]));
    }
    lemma_other_space(m, o, root2, areas2);
}

/// Copying data out to a task changes no table and no mapping, as long as the pages
/// that a user may write are mapped to frames that hold no table: the address space
/// stays as it should be.
pub proof fn law_copy_out_keeps_space(
    m: MemView,
    n: MemView,
    root: u64,
    areas: Seq<AreaView>,
    src: Seq<u8>,
    dst: u64,
    len: u64,
    r: bool,
)
    requires
        space_wf(m, root, areas),
        can_reach(m, root, dst, len, 2),
        copied_out(m, n, root, src, dst, len, r),
        forall|v: u64|
            v < VPN_SPAN && #[trigger] user_may(m, root, v, 2) ==> !is_table(
                m,
                root,
                pte_ppn(lookup(m, root, v)->0),
            ),
    ensures
        space_wf(n, root, areas),
        forall|t: u64| #[trigger] is_table(n, root, t) == is_table(m, root, t),
        forall|v: u64| #[trigger] mapping(n, root, v) == mapping(m, root, v),
{
    let sp = spans(dst, (dst + len) as u64);
    if granted(m, root, dst, (dst + len) as u64, 2) {
        let segs = segments_of(m, root, sp);
        lemma_spans_bounds(dst, (dst + len) as u64);
        assert forall|i: int| 0 <= i < segs.len() implies (#[trigger] segs[i]).in_memory(m)
            && !is_table(m, root, segs[i].ppn.0) by {
            assert(user_may(m, root, sp[i].vpn, 2));
            assert(m.backed(pte_ppn(lookup(m, root, sp[i].vpn)->0)));
        }
        lemma_scatter_keeps_tables(m, root, segs, src);
        assert forall|t: u64| #[trigger] is_table(m, root, t) implies m.backed(t)
            && !n.free.contains(t) by {
            lemma_table_in_use(m, root, t);
        }
        assert(n.wf()) by {
            assert forall|i: int| 0 <= i < n.free.len() implies n.backed(#[trigger] n.free[i]) by {
                assert(m.backed(m.free[i]));
            }
        }
        lemma_same_tables(m, n, root);
        assert forall|k: int| 0 <= k < areas.len() implies (#[trigger] areas[k]).wf(n, root) by {
            let a = areas[k];
            assert(a.wf(m, root));
            assert forall|i: int| 0 <= i < a.frames.len() implies held(
                n,
                root,
                #[trigger] a.frames[i],
            ) && mapping(n, root, (a.start + i) as u64) == Some(
                pte_word(a.frames[i], a.flags | PTE_V),
            ) by {
                assert(held(m, root, a.frames[i]));
                assert(mapping(n, root, (a.start + i) as u64) == mapping(
                    m,
                    root,
                    (a.start + i) as u64,
                ));
            }
        }
    }
}

proof fn lemma_area_at_pushed(areas: Seq<AreaView>, a: AreaView, start: u64, k: int)
    requires
        0 <= k <= areas.len(),
    ensures
        area_at_from(areas, start, k) < areas.len() ==> area_at_from(areas.push(a), start, k)
            == area_at_from(areas, start, k),
        area_at_from(areas, start, k) == areas.len() && a.start != start ==> area_at_from(
            areas.push(a),
            start,
            k,
        ) == areas.len() + 1,
    decreases areas.len() - k,
{
    lemma_area_at(areas, start, k);
    if k < areas.len() && areas[k].start != start {
        lemma_area_at_pushed(areas, a, start, k + 1);
    } else if k == areas.len() && a.start != start {
        assert(area_at_from(areas.push(a), start, k + 1) == k + 1);
    }
}

proof fn lemma_area_at_removed(areas: Seq<AreaView>, j: int, start: u64, k: int)
    requires
        0 <= k <= areas.len(),
        0 <= j < areas.len(),
        area_at(areas, start) != j,
        area_at(areas, start) == area_at_from(areas, start, k),
    ensures
        ({
            let rest = areas.remove(j);
            let l = area_at_from(rest, start, if k <= j { k } else { k - 1 });
            if area_at(areas, start) < areas.len() {
                l < rest.len() && rest[l] == areas[area_at(areas, start)]
            } else {
                l == rest.len()
            }
        }),
    decreases areas.len() - k,
{
    let rest = areas.remove(j);
    lemma_area_at(areas, start, k);
    if k < areas.len() && areas[k].start != start {
        lemma_area_at_removed(areas, j, start, k + 1);
    }
}

/// Mapping memory leaves the area of the heap where it was. Only where there is none
/// may the new area take its place.
pub proof fn law_mmap_keeps_heap(areas: Seq<AreaView>, a: AreaView, page: u64, end: int)
    requires
        ends_at(areas, page, end),
        area_at(areas, page) < areas.len() || a.start != page,
    ensures
        ends_at(areas.push(a), page, end),
{
    lemma_area_at(areas, page, 0);
    lemma_area_at_pushed(areas, a, page, 0);
}

/// Unmapping an area other than that of the heap leaves the area of the heap as it
/// was.
pub proof fn law_munmap_keeps_heap(areas: Seq<AreaView>, lo: u64, hi: u64, page: u64, end: int)
    requires
        ends_at(areas, page, end),
        area_of(areas, lo, hi) < areas.len(),
        area_of(areas, lo, hi) != area_at(areas, page),
    ensures
        ends_at(areas.remove(area_of(areas, lo, hi)), page, end),
{
    lemma_area_from(areas, lo, hi, 0);
    lemma_area_at_removed(areas, area_of(areas, lo, hi), page, 0);
}

/// Shrinking the heap by as much as it grew leads back: the areas are those that were
/// there, every page is mapped as before, and the frames that were in use are as they
/// were.
pub proof fn law_shrinking_undoes_growing(
    task: TaskControlBlock,
    grown: TaskControlBlock,
    m: MemView,
    n: MemView,
    o: MemView,
    areas: Seq<AreaView>,
    tables: Seq<u64>,
    size: int,
)
    requires
        task.memory_set.inv(m),
        task.heap_wf(),
        size >= 0,
        task.can_change_brk(m, size),
        task.brk_changed(
            m,
            n,
            grown.memory_set.areas(),
            grown.memory_set.table_frames(),
            size,
        ),
        grown.memory_set.root() == task.memory_set.root(),
        grown.heap_bottom == task.heap_bottom,
        grown.program_brk == task.program_brk + size,
        grown.brk_changed(n, o, areas, tables, -size),
    ensures
        areas == task.memory_set.areas(),
        mapped_alike(m, o, task.memory_set.root(), 0, 0),
        use_kept(m, o, task.memory_set.root()),
{
    let root = task.memory_set.root();
    let before = task.memory_set.areas();
    let between = grown.memory_set.areas();
    let k = area_at(before, task.heap_page());
    lemma_area_at(before, task.heap_page(), 0);
    let a = before[k];
    let b = between[k];
    assert(a.wf(m, root));
    lemma_area_at_update(before, task.heap_page(), b, 0);
    assert(area_at(between, grown.heap_page()) == k);
    let more = (b.end - a.end) as nat;
    let frames = placed_frames(m, root, a.end, more, a.flags);
    lemma_place_pages(m, root, a.end, more, a.flags);
    lemma_release_pages(n, root, a.end, frames, a.flags, more);
    assert(frames.take(more as int) =~= frames);
    assert(b.frames.take(a.end - a.start) =~= a.frames);
    assert(b.frames =~= a.frames + frames);
    assert(areas =~= before);
    assert forall|v: u64| v < VPN_SPAN implies #[trigger] mapping(o, root, v) == mapping(
        m,
        root,
        v,
    ) by {
        if !(a.end <= v < b.end) {
            assert(mapping(n, root, v) == mapping(m, root, v));
            if size > 0 {
                assert(mapping(o, root, v) == mapping(n, root, v));
            }
        }
    }
    assert forall|t: u64| #[trigger] held(m, root, t) implies held(o, root, t) && o.frame(t)
        == m.frame(t) by {
        if frames.contains(t) {
            let x = choose|x: int| 0 <= x < frames.len() && frames[x] == t;
            assert(m.free.contains(frames[x]));
        }
        assert(held(n, root, t));
        assert(n.frame(t) == m.frame(t));
    }
}

/// A child is waited for once: where the numbers of the children differ, waiting for
/// the child that was removed finds none, and every other child is found as before.
pub proof fn law_wait_only_once(children: Seq<Child>, pid: isize, other: isize)
    requires
        exited(children, pid) < children.len(),
        forall|i: int, j: int|
            0 <= i < j < children.len() ==> (#[trigger] children[i]).pid != (
            #[trigger] children[j]).pid,
        other != -1,
    ensures
        ({
            let k = exited(children, pid);
            let rest = children.remove(k);
            &&& other as usize == children[k].pid ==> !has_child(rest, other)
            &&& other as usize != children[k].pid ==> has_child(rest, other) == has_child(
                children,
                other,
            )
        }),
{
    let k = exited(children, pid);
    let rest = children.remove(k);
    lemma_exited(children, pid, 0);
    if has_child(rest, other) {
        let i = choose|i: int| 0 <= i < rest.len() && answers(other, #[trigger] rest[i]);
        let i0 = if i < k {
            i
        } else {
            i + 1
        };
        assert(rest[i] == children[i0]);
        assert(children[i0].pid != children[k].pid) by {
            if i0 < k {
                assert(children[i0].pid != children[k].pid);
            } else {
                assert(children[k].pid != children[i0].pid);
            }
        }
        assert(answers(other, children[i0]));
    }
    if other as usize != children[k].pid && has_child(children, other) {
        let i = choose|i: int| 0 <= i < children.len() && answers(other, #[trigger] children[i]);
        let i1 = if i < k {
            i
        } else {
            i - 1
        };
        assert(rest[i1] == children[i]);
        assert(answers(other, rest[i1]));
    }
}

/// A child that was just made is there to be waited for, but has not exited: waiting
/// for it gives -2, where no other child has its number.
pub proof fn law_wait_for_new_child(children: Seq<Child>, pid: usize)
    requires
        pid <= isize::MAX,
        forall|i: int| 0 <= i < children.len() ==> (#[trigger] children[i]).pid != pid,
    ensures
        ({
            let after = children.push(Child { pid, zombie: false, exit_code: 0 });
            &&& has_child(after, pid as isize)
            &&& exited(after, pid as isize) == after.len()
        }),
{
    let after = children.push(Child { pid, zombie: false, exit_code: 0 });
    assert(answers(pid as isize, after[children.len() as int]));
    lemma_exited(after, pid as isize, 0);
    let k = exited(after, pid as isize);
    if k < after.len() {
        assert(k != children.len());
        assert(children[k].pid != pid);
    }
}

/// A time that was written to a task is read back from there, also where it lies
/// across two pages: reading the 16 bytes gives the seconds and the microseconds. The
/// pages must lie in different frames, none of which holds a table.
pub proof fn law_time_is_read_back(
    m: MemView,
    n: MemView,
    root: u64,
    us: u64,
    ts: u64,
    buf: Seq<u8>,
)
    requires
        tree_wf(m, root),
        canonical(ts, (ts + 16) as u64),
        can_reach(m, root, ts, 16, 2),
        copied_out(m, n, root, time_bytes(time_of(us)), ts, 16, true),
        granted(m, root, ts, (ts + 16) as u64, 1),
        all_apart(segments_of(m, root, spans(ts, (ts + 16) as u64))),
        forall|i: int|
            0 <= i < spans(ts, (ts + 16) as u64).len() ==> !is_table(
                m,
                root,
                (#[trigger] segments_of(m, root, spans(ts, (ts + 16) as u64))[i]).ppn.0,
            ),
        buf.len() == 16,
    ensures
        ({
            let sp = spans(ts, (ts + 16) as u64);
            &&& granted(n, root, ts, (ts + 16) as u64, 1)
            &&& gather(n, segments_of(n, root, sp), buf, 0) == (time_bytes(time_of(us)), true)
        }),
{
    let sp = spans(ts, (ts + 16) as u64);
    vstd::bytes::lemma_auto_spec_u64_to_from_le_bytes();
    assert(time_bytes(time_of(us)).len() == 16);
    assert forall|i: int| 0 <= i < sp.len() implies path_backed(m, root, (#[trigger] sp[i]).vpn) by {
        lemma_path_backed(m, root, sp[i].vpn);
    }
    if granted(m, root, ts, (ts + 16) as u64, 2) {
        law_user_copy_round_trip(m, root, ts, (ts + 16) as u64, time_bytes(time_of(us)), buf);
    }
}

/// The parts of a time add up to it, and the microseconds are fewer than a second.
pub proof fn law_time_adds_up(us: u64)
    ensures
        time_of(us).sec * 1_000_000 + time_of(us).usec == us,
        time_of(us).usec < 1_000_000,
{
}

} // verus!
