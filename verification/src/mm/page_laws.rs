//! What mapping and unmapping runs of pages does to pages and frames.
use crate::mm::address::vpn_index;
use crate::mm::entry::{lemma_pte_word, pte_ppn, pte_word, PTE_V};
use crate::mm::memory::{lemma_take_frame, MemView};
use crate::mm::memory_set::{
    area_at, area_at_from, area_from, area_of, can_append, gave_up, law_giving_up_leads_back,
    owns_tables, run_given_up, run_placed, AreaView, MemorySet,
};
use crate::mm::pages::{
    can_place, held, lemma_can_place, lemma_place_pages, lemma_release_pages, lemma_table_in_use,
    page_tables, pages_fit, place_page, place_pages, placed_frames, placed_tables, release_pages,
    mapped_alike, run_held, run_mapped, unmapped, use_kept,
};
use crate::mm::walk::{
    is_table, leaf_table, lemma_same_tables, lemma_with_child, lookup, mapping, missing_tables,
    path1, path1_table, table1, tree_wf,
};
use vstd::prelude::*;

verus! {

/// The frames that mapping a page takes are the last ones that are free: one for the
/// page, and one for each table that is missing.
#[verifier::spinoff_prover]
proof fn lemma_place_takes(m: MemView, root: u64, vpn: u64, flags: u8)
    requires
        tree_wf(m, root),
        can_place(m, root, vpn),
    ensures
        ({
            let n = page_tables(m, root, vpn).len();
            &&& n == missing_tables(m, root, vpn)
            &&& m.free.len() >= 1 + n
            &&& place_page(m, root, vpn, flags).free == m.free.take(m.free.len() - 1 - n)
            &&& forall|j: int|
                0 <= j < n ==> #[trigger] page_tables(m, root, vpn)[j] == m.free[m.free.len() - 2
                    - j]
        }),
{
    reveal(page_tables);
    reveal(can_place);
    reveal(place_page);
    let m1 = m.take_frame();
    lemma_take_frame(m);
    lemma_can_place(m, root, vpn);
    let a = vpn_index(vpn, 0);
    let b = vpn_index(vpn, 1);
    assert(m.free[m.free.len() - 1] == m.free.last());
    assert(m.free.contains(m.free.last()));
    assert forall|t: u64| #[trigger] m1.free.contains(t) implies m.free.contains(t) by {
        let x = choose|x: int| 0 <= x < m1.free.len() && m1.free[x] == t;
        assert(m.free[x] == t);
    }
    assert forall|t: u64| #[trigger] is_table(m, root, t) implies t != m.free.last() && m.backed(t)
        && !m1.free.contains(t) by {
        lemma_table_in_use(m, root, t);
    }
    assert(is_table(m, root, root));
    assert(m1.pte(root, a) == m.pte(root, a));
    lemma_same_tables(m, m1, root);
    if table1(m, root, a) is Some {
        let t = table1(m, root, a)->0;
        assert(is_table(m, root, t));
        assert(m1.pte(t, b) == m.pte(t, b));
    }
    lemma_with_child(m1, root, a);
    let p1 = path1(m1, root, vpn);
    let t1 = path1_table(m1, root, vpn);
    if table1(m1, root, a) is None {
        assert(p1.pte(t1, b) == 0);
    }
    assert(place_page(m, root, vpn, flags).free =~= m.free.take(
        m.free.len() - 1 - page_tables(m, root, vpn).len(),
    ));
}

/// A run of pages can be mapped as long as the frames last: each page needs one frame, and
/// one more for each table on the way to it that is missing by then.
#[verifier::spinoff_prover]
pub proof fn law_pages_fit_while_frames_last(
    m: MemView,
    root: u64,
    start: u64,
    n: nat,
    flags: u8,
)
    requires
        tree_wf(m, root),
        start + n < 0x800_0000,
    ensures
        pages_fit(m, root, start, 0, flags),
        pages_fit(m, root, start, n + 1, flags) == {
            let p = place_pages(m, root, start, n, flags);
            let v = (start + n) as u64;
            let e1 = p.pte(root, (v / 262144) as u64);
            let needed: int = if e1 % 2 == 0 {
                3
            } else if lookup(p, root, v) is None {
                2
            } else {
                1
            };
            pages_fit(m, root, start, n, flags) && p.free.len() >= needed
        },
{
    let p = place_pages(m, root, start, n, flags);
    let v = (start + n) as u64;
    if pages_fit(m, root, start, n, flags) {
        lemma_place_pages(m, root, start, n, flags);
        lemma_can_place(p, root, v);
        assert(vpn_index(v, 0) == v / 262144);
        assert(leaf_table(p, root, v) is None == lookup(p, root, v) is None);
        if can_place(p, root, v) {
            assert forall|i: nat| i < n + 1 implies can_place(
                #[trigger] place_pages(m, root, start, i, flags),
                root,
                (start + i) as u64,
            ) by {}
        }
    }
    if pages_fit(m, root, start, n + 1, flags) {
        assert forall|i: nat| i < n implies can_place(
            #[trigger] place_pages(m, root, start, i, flags),
            root,
            (start + i) as u64,
        ) by {}
        assert(can_place(place_pages(m, root, start, n, flags), root, (start + n) as u64));
    }
}

/// The frames that mapping a run of pages takes: no frame is lost, and none is taken that
/// serves neither as a page of the run nor as a table.
pub proof fn law_mapping_takes_what_it_needs(
    m: MemView,
    root: u64,
    start: u64,
    n: nat,
    flags: u8,
)
    requires
        tree_wf(m, root),
        start + n <= 0x800_0000,
        pages_fit(m, root, start, n, flags),
    ensures
        ({
            let o = place_pages(m, root, start, n, flags);
            let frames = placed_frames(m, root, start, n, flags);
            let tables = placed_tables(m, root, start, n, flags);
            &&& frames.len() == n
            &&& o.free.len() + n + tables.len() == m.free.len()
            &&& forall|t: u64| #[trigger]
                m.free.contains(t) == (o.free.contains(t) || frames.contains(t) || tables.contains(
                    t,
                ))
            &&& forall|t: u64| #[trigger]
                is_table(o, root, t) == (is_table(m, root, t) || tables.contains(t))
        }),
    decreases n,
{
    lemma_place_pages(m, root, start, n, flags);
    if n > 0 {
        let k = (n - 1) as nat;
        assert forall|i: nat| i < k implies can_place(
            #[trigger] place_pages(m, root, start, i, flags),
            root,
            (start + i) as u64,
        ) by {}
        law_mapping_takes_what_it_needs(m, root, start, k, flags);
        lemma_place_pages(m, root, start, k, flags);
        let p = place_pages(m, root, start, k, flags);
        let o = place_pages(m, root, start, n, flags);
        let v = (start + k) as u64;
        assert(can_place(place_pages(m, root, start, k, flags), root, v));
        lemma_place_takes(p, root, v, flags);
        let f0 = placed_frames(m, root, start, k, flags);
        let f1 = placed_frames(m, root, start, n, flags);
        let t0 = placed_tables(m, root, start, k, flags);
        let t1 = placed_tables(m, root, start, n, flags);
        let pt = page_tables(p, root, v);
        assert(f1 =~= f0.push(p.free.last()));
        assert(t1 == t0 + pt);
        let l = p.free.len() - 1 - pt.len();
        assert(o.free == p.free.take(l));
        assert forall|t: u64| #[trigger]
            m.free.contains(t) == (o.free.contains(t) || f1.contains(t) || t1.contains(t)) by {
            if m.free.contains(t) {
                if p.free.contains(t) {
                    let x = choose|x: int| 0 <= x < p.free.len() && p.free[x] == t;
                    if x < l {
                        assert(o.free[x] == t);
                    } else if x == p.free.len() - 1 {
                        assert(f1[k as int] == t);
                    } else {
                        let j = p.free.len() - 2 - x;
                        assert(pt[j] == t);
                        assert(t1[t0.len() + j] == t);
                    }
                } else if f0.contains(t) {
                    let x = choose|x: int| 0 <= x < f0.len() && f0[x] == t;
                    assert(f1[x] == t);
                } else {
                    let x = choose|x: int| 0 <= x < t0.len() && t0[x] == t;
                    assert(t1[x] == t);
                }
            }
            if o.free.contains(t) {
                let x = choose|x: int| 0 <= x < o.free.len() && o.free[x] == t;
                assert(p.free[x] == t);
                assert(p.free.contains(t));
            }
            if f1.contains(t) {
                let x = choose|x: int| 0 <= x < f1.len() && f1[x] == t;
                if x < k {
                    assert(f0[x] == t);
                    assert(f0.contains(t));
                } else {
                    assert(p.free[p.free.len() - 1] == t);
                    assert(p.free.contains(t));
                }
            }
            if t1.contains(t) {
                let x = choose|x: int| 0 <= x < t1.len() && t1[x] == t;
                if x < t0.len() {
                    assert(t0[x] == t);
                    assert(t0.contains(t));
                } else {
                    assert(pt[x - t0.len()] == t);
                    assert(p.free.contains(t));
                }
            }
        }
    } else {
        assert(placed_frames(m, root, start, 0, flags) =~= Seq::empty());
    }
}

/// Mapping a run of pages: each page of the run gets a frame of its own that was free,
/// holds nothing but 0, and has the flags that were asked for; every other page is mapped
/// as before, and a frame that was in use and is no table keeps its bytes.
#[verifier::spinoff_prover]
pub proof fn law_mapped_run(
    m: MemView,
    root: u64,
    start: u64,
    n: nat,
    flags: u8,
    v: u64,
    w: u64,
    t: u64,
    i: int,
)
    requires
        tree_wf(m, root),
        start + n <= 0x800_0000,
        pages_fit(m, root, start, n, flags),
        v < 0x800_0000,
        w < 0x800_0000,
        0 <= i < 4096,
    ensures
        ({
            let o = place_pages(m, root, start, n, flags);
            let inside = start <= v < start + n;
            let e = mapping(o, root, v)->0;
            let f = pte_ppn(e);
            &&& inside ==> {
                &&& mapping(o, root, v) is Some
                &&& e & 0xff == (flags | 1) as u64
                &&& f == placed_frames(m, root, start, n, flags)[v - start]
                &&& m.free.contains(f)
                &&& !o.free.contains(f)
                &&& o.backed(f)
                &&& o.bytes[f * 4096 + i - m.base * 4096] == 0
                &&& start <= w < start + n && w != v ==> pte_ppn(mapping(o, root, w)->0) != f
            }
            &&& !inside ==> mapping(o, root, v) == mapping(m, root, v)
            &&& m.backed(t) && !m.free.contains(t) && !is_table(m, root, t) ==> {
                &&& o.bytes[t * 4096 + i - m.base * 4096] == m.bytes[t * 4096 + i - m.base * 4096]
                &&& !o.free.contains(t)
                &&& !is_table(o, root, t)
            }
            &&& o.base == m.base
            &&& o.bytes.len() == m.bytes.len()
        }),
{
    let o = place_pages(m, root, start, n, flags);
    let frames = placed_frames(m, root, start, n, flags);
    lemma_place_pages(m, root, start, n, flags);
    if start <= v < start + n {
        let j = v - start;
        let f = frames[j];
        assert((start + j) as u64 == v);
        assert(mapping(o, root, (start + j) as u64) == Some(pte_word(frames[j], flags | PTE_V)));
        assert(m.free.contains(f));
        assert(held(o, root, f));
        lemma_pte_word(f, flags | PTE_V);
        let e = mapping(o, root, v)->0;
        assert(e & 0xff == e % 256) by (bit_vector);
        assert(o.frame(f)[i] == 0u8);
        assert(o.frame(f)[i] == o.bytes[o.offset(f) + i]);
        if start <= w < start + n && w != v {
            let l = w - start;
            assert((start + l) as u64 == w);
            assert(mapping(o, root, (start + l) as u64) == Some(
                pte_word(frames[l], flags | PTE_V),
            ));
            assert(held(o, root, frames[l]));
            lemma_pte_word(frames[l], flags | PTE_V);
            assert(frames[l] != frames[j]);
        }
    }
    if m.backed(t) && !m.free.contains(t) && !is_table(m, root, t) {
        assert(held(m, root, t));
        assert(held(o, root, t));
        assert(o.frame(t) == m.frame(t));
        assert(o.frame(t)[i] == o.bytes[o.offset(t) + i]);
        assert(m.frame(t)[i] == m.bytes[m.offset(t) + i]);
    }
}

/// Unmapping a run of pages: none of them is mapped any more, every other page is mapped
/// as before, the frames of the run are free again, in addition to those that were, and
/// every other frame that is no table keeps its bytes.
#[verifier::spinoff_prover]
pub proof fn law_unmapped_run(
    m: MemView,
    root: u64,
    start: u64,
    frames: Seq<u64>,
    flags: u8,
    v: u64,
    t: u64,
    i: int,
)
    requires
        tree_wf(m, root),
        start + frames.len() <= 0x800_0000,
        run_mapped(m, root, start, frames, flags),
        run_held(m, root, frames),
        v < 0x800_0000,
        0 <= i < 4096,
    ensures
        ({
            let o = release_pages(m, root, start, frames.len());
            let inside = start <= v < start + frames.len();
            &&& inside ==> mapping(o, root, v) is None
            &&& !inside ==> mapping(o, root, v) == mapping(m, root, v)
            &&& o.free == m.free + frames
            &&& m.backed(t) && !m.free.contains(t) && !is_table(m, root, t) && !frames.contains(
                t,
            ) ==> o.bytes[t * 4096 + i - m.base * 4096] == m.bytes[t * 4096 + i - m.base * 4096]
            &&& is_table(o, root, t) == is_table(m, root, t)
            &&& o.base == m.base
            &&& o.bytes.len() == m.bytes.len()
        }),
{
    let n = frames.len();
    let o = release_pages(m, root, start, n);
    lemma_release_pages(m, root, start, frames, flags, n);
    assert(frames.take(n as int) =~= frames);
    if m.backed(t) && !m.free.contains(t) && !is_table(m, root, t) && !frames.contains(t) {
        assert(held(m, root, t));
        assert(o.frame(t) == m.frame(t));
        assert(o.frame(t)[i] == o.bytes[o.offset(t) + i]);
        assert(m.frame(t)[i] == m.bytes[m.offset(t) + i]);
    }
    if start <= v < start + n {
        assert(mapping(o, root, v) is None);
    }
}

/// Where mapping a run is given up for want of frames, no frame is lost: what was free is
/// free again or serves as a table now.
pub proof fn law_giving_up_loses_no_frame(
    m: MemView,
    o: MemView,
    root: u64,
    start: u64,
    n: nat,
    flags: u8,
    before: Seq<u64>,
    after: Seq<u64>,
    t: u64,
)
    requires
        tree_wf(m, root),
        start + n <= 0x800_0000,
        run_given_up(m, o, root, start, n, flags, before, after),
    ensures
        m.free.contains(t) == (o.free.contains(t) || is_table(o, root, t) && !is_table(m, root, t)),
{
    let k = choose|k: nat| #[trigger]
        gave_up(m, o, root, start, n, flags, k) && after == before + placed_tables(
            m,
            root,
            start,
            k,
            flags,
        );
    let p = place_pages(m, root, start, k, flags);
    let frames = placed_frames(m, root, start, k, flags);
    lemma_place_pages(m, root, start, k, flags);
    law_mapping_takes_what_it_needs(m, root, start, k, flags);
    lemma_release_pages(p, root, start, frames, flags, k);
    assert(frames.take(k as int) =~= frames);
    if o.free.contains(t) {
        let x = choose|x: int| 0 <= x < o.free.len() && o.free[x] == t;
        if x < p.free.len() {
            assert(p.free[x] == t);
        } else {
            assert(frames[x - p.free.len()] == t);
        }
    }
    if p.free.contains(t) {
        let x = choose|x: int| 0 <= x < p.free.len() && p.free[x] == t;
        assert(o.free[x] == t);
    }
    if frames.contains(t) {
        let x = choose|x: int| 0 <= x < frames.len() && frames[x] == t;
        assert(o.free[p.free.len() + x] == t);
    }
    if m.free.contains(t) && is_table(m, root, t) {
        lemma_table_in_use(m, root, t);
    }
    assert(is_table(o, root, t) == is_table(p, root, t));
}

/// Where a run of pages was mapped, each of its pages is mapped to a frame that was free,
/// every other page is mapped as before, a frame that was in use and is no table keeps its
/// bytes, and the tables that are new are owned with those that were.
#[verifier::spinoff_prover]
pub proof fn law_placed_run(
    m: MemView,
    o: MemView,
    root: u64,
    start: u64,
    n: nat,
    flags: u8,
    before: Seq<u64>,
    after: Seq<u64>,
    v: u64,
    t: u64,
    i: int,
)
    requires
        tree_wf(m, root),
        start + n <= 0x800_0000,
        run_placed(m, o, root, start, n, flags, before, after),
        forall|u: u64| #[trigger] is_table(m, root, u) == before.contains(u),
        v < 0x800_0000,
        0 <= i < 4096,
    ensures
        start <= v < start + n ==> {
            &&& mapping(o, root, v) is Some
            &&& mapping(o, root, v)->0 & 0xff == (flags | 1) as u64
            &&& m.free.contains(pte_ppn(mapping(o, root, v)->0))
            &&& !o.free.contains(pte_ppn(mapping(o, root, v)->0))
            &&& o.bytes[pte_ppn(mapping(o, root, v)->0) * 4096 + i - m.base * 4096] == 0
        },
        !(start <= v < start + n) ==> mapping(o, root, v) == mapping(m, root, v),
        m.backed(t) && !m.free.contains(t) && !is_table(m, root, t) ==> o.bytes[t * 4096 + i - m.base
            * 4096] == m.bytes[t * 4096 + i - m.base * 4096],
        is_table(o, root, t) == after.contains(t),
        is_table(m, root, t) ==> is_table(o, root, t),
        o.base == m.base,
        o.bytes.len() == m.bytes.len(),
{
    law_mapped_run(m, root, start, n, flags, v, v, t, i);
    law_mapping_takes_what_it_needs(m, root, start, n, flags);
    let new = placed_tables(m, root, start, n, flags);
    if after.contains(t) {
        let x = choose|x: int| 0 <= x < after.len() && after[x] == t;
        if x < before.len() {
            assert(before[x] == t);
        } else {
            assert(new[x - before.len()] == t);
        }
    }
    if before.contains(t) {
        let x = choose|x: int| 0 <= x < before.len() && before[x] == t;
        assert(after[x] == t);
    }
    if new.contains(t) {
        let x = choose|x: int| 0 <= x < new.len() && new[x] == t;
        assert(after[before.len() + x] == t);
    }
}

/// What it means that pages are mapped alike and that frames in use are kept: a page
/// outside the run leads where it did, and a frame that was in use and is no table is
/// still in use and keeps its bytes.
pub proof fn law_what_is_kept(
    m: MemView,
    n: MemView,
    root: u64,
    start: int,
    end: int,
    v: u64,
    t: u64,
    i: int,
)
    requires
        mapped_alike(m, n, root, start, end),
        use_kept(m, n, root),
        n.base == m.base,
        n.bytes.len() == m.bytes.len(),
        v < 0x800_0000,
        !(start <= v < end),
        m.backed(t),
        !m.free.contains(t),
        !is_table(m, root, t),
        0 <= i < 4096,
    ensures
        mapping(n, root, v) == mapping(m, root, v),
        !n.free.contains(t),
        !is_table(n, root, t),
        n.bytes[t * 4096 + i - m.base * 4096] == m.bytes[t * 4096 + i - m.base * 4096],
{
    assert(held(m, root, t));
    assert(held(n, root, t));
    assert(n.frame(t) == m.frame(t));
    assert(n.frame(t)[i] == n.bytes[n.offset(t) + i]);
    assert(m.frame(t)[i] == m.bytes[m.offset(t) + i]);
}

/// Where mapping a run is given up, the frames did not suffice, every page is mapped as
/// before, and a frame that was in use and is no table keeps its bytes.
pub proof fn law_given_up_run_changes_no_page(
    m: MemView,
    o: MemView,
    root: u64,
    start: u64,
    n: nat,
    flags: u8,
    before: Seq<u64>,
    after: Seq<u64>,
    v: u64,
    t: u64,
    i: int,
)
    requires
        tree_wf(m, root),
        start + n <= 0x800_0000,
        forall|w: u64| start <= w < start + n ==> #[trigger] mapping(m, root, w) is None,
        run_given_up(m, o, root, start, n, flags, before, after),
        forall|u: u64| #[trigger] is_table(m, root, u) == before.contains(u),
        v < 0x800_0000,
        0 <= i < 4096,
    ensures
        !pages_fit(m, root, start, n, flags),
        mapping(o, root, v) == mapping(m, root, v),
        m.backed(t) && !m.free.contains(t) && !is_table(m, root, t) ==> o.bytes[t * 4096 + i - m.base
            * 4096] == m.bytes[t * 4096 + i - m.base * 4096],
        is_table(o, root, t) == after.contains(t),
{
    assert(unmapped(m, root, start as int, start + n));
    law_giving_up_leads_back(m, o, root, start, n, flags, before, after);
    assert(owns_tables(m, root, before));
    assert(is_table(o, root, t) == after.contains(t));
    if m.backed(t) && !m.free.contains(t) && !is_table(m, root, t) {
        if v < 0x800_0000 {
            law_what_is_kept(m, o, root, 0, 0, v, t, i);
        }
    }
}

/// Where the search for an area from place `k` on ends.
proof fn lemma_area_search(areas: Seq<AreaView>, lo: u64, hi: u64, k: int)
    requires
        0 <= k <= areas.len(),
    ensures
        ({
            let r = area_from(areas, lo, hi, k);
            &&& k <= r <= areas.len()
            &&& r < areas.len() ==> areas[r].start == lo && areas[r].end == hi
            &&& forall|j: int|
                k <= j < r ==> !((#[trigger] areas[j]).start == lo && areas[j].end == hi)
        }),
    decreases areas.len() - k,
{
    if k < areas.len() && !(areas[k].start == lo && areas[k].end == hi) {
        lemma_area_search(areas, lo, hi, k + 1);
    }
}

/// The search for an area is complete: every area with these pages is found, wherever it
/// stands among the others, unless one before it has the same pages.
pub proof fn law_every_area_is_found(areas: Seq<AreaView>, lo: u64, hi: u64, k: int)
    requires
        0 <= k < areas.len(),
        areas[k].start == lo,
        areas[k].end == hi,
    ensures
        0 <= area_of(areas, lo, hi) <= k,
        areas[area_of(areas, lo, hi)].start == lo,
        areas[area_of(areas, lo, hi)].end == hi,
        (forall|j: int|
            0 <= j < k ==> !((#[trigger] areas[j]).start == lo && areas[j].end == hi)) ==> area_of(
            areas,
            lo,
            hi,
        ) == k,
{
    lemma_area_search(areas, lo, hi, 0);
    let r = area_of(areas, lo, hi);
    if r > k {
        assert(!(areas[k].start == lo && areas[k].end == hi));
    }
}

/// Only an area with exactly these pages is found.
pub proof fn law_other_areas_are_not_found(areas: Seq<AreaView>, lo: u64, hi: u64)
    requires
        forall|j: int|
            0 <= j < areas.len() ==> !((#[trigger] areas[j]).start == lo && areas[j].end == hi),
    ensures
        area_of(areas, lo, hi) == areas.len(),
{
    lemma_area_search(areas, lo, hi, 0);
}

/// An area that was mapped is still found after any other areas were mapped.
pub proof fn law_mapped_area_stays_found(
    areas: Seq<AreaView>,
    a: AreaView,
    more: Seq<AreaView>,
)
    ensures
        ({
            let all = areas.push(a) + more;
            let k = area_of(all, a.start, a.end);
            &&& 0 <= k <= areas.len()
            &&& all[k].start == a.start
            &&& all[k].end == a.end
        }),
{
    let all = areas.push(a) + more;
    assert(all[areas.len() as int] == a);
    law_every_area_is_found(all, a.start, a.end, areas.len() as int);
}

/// An area that was mapped is still found after another one was unmapped or has moved its
/// end.
pub proof fn law_area_is_found_beside_changes(
    areas: Seq<AreaView>,
    k: int,
    j: int,
    b: AreaView,
)
    requires
        0 <= k < areas.len(),
        0 <= j < areas.len(),
        j != k,
    ensures
        ({
            let rest = areas.remove(j);
            let r = area_of(rest, areas[k].start, areas[k].end);
            &&& 0 <= r < rest.len()
            &&& rest[r].start == areas[k].start
            &&& rest[r].end == areas[k].end
        }),
        ({
            let moved = areas.update(j, b);
            let r = area_of(moved, areas[k].start, areas[k].end);
            &&& 0 <= r < moved.len()
            &&& moved[r].start == areas[k].start
            &&& moved[r].end == areas[k].end
        }),
{
    let rest = areas.remove(j);
    let l = if j < k {
        k - 1
    } else {
        k
    };
    assert(rest[l] == areas[k]);
    law_every_area_is_found(rest, areas[k].start, areas[k].end, l);
    law_every_area_is_found(areas.update(j, b), areas[k].start, areas[k].end, k);
}

/// Where the search for an area that starts at a page ends.
proof fn lemma_start_search(areas: Seq<AreaView>, start: u64, k: int)
    requires
        0 <= k <= areas.len(),
    ensures
        ({
            let r = area_at_from(areas, start, k);
            &&& k <= r <= areas.len()
            &&& r < areas.len() ==> areas[r].start == start
            &&& forall|j: int| k <= j < r ==> (#[trigger] areas[j]).start != start
        }),
    decreases areas.len() - k,
{
    if k < areas.len() && areas[k].start != start {
        lemma_start_search(areas, start, k + 1);
    }
}

/// The area that starts at a page is the first one that does, wherever it stands; where
/// none does, none is found.
pub proof fn law_area_is_found_by_its_start(areas: Seq<AreaView>, start: u64, k: int)
    requires
        0 <= k <= areas.len(),
        k < areas.len() ==> areas[k].start == start,
        forall|j: int| 0 <= j < k ==> (#[trigger] areas[j]).start != start,
    ensures
        area_at(areas, start) == k,
{
    lemma_start_search(areas, start, 0);
    let r = area_at(areas, start);
    if r < k {
        assert(areas[r].start != start);
    }
    if k < r {
        assert(areas[k].start != start);
    }
}

/// In an address space, page number `i` of an area is mapped to frame number `i` of the
/// area, with the flags of the area; that frame is in memory, is not free, is no table, and
/// is the frame of no other page of any area. The tables that the space owns are those that
/// its pages are looked up in.
#[verifier::spinoff_prover]
pub proof fn law_areas_are_mapped(
    s: MemorySet,
    m: MemView,
    k: int,
    i: int,
    l: int,
    j: int,
    t: u64,
)
    requires
        s.inv(m),
        0 <= k < s.areas().len(),
        0 <= i < s.areas()[k].frames.len(),
        0 <= l < s.areas().len(),
        0 <= j < s.areas()[l].frames.len(),
        (k, i) != (l, j),
    ensures
        ({
            let a = s.areas()[k];
            let f = a.frames[i];
            let e = mapping(m, s.root(), (a.start + i) as u64)->0;
            &&& a.frames.len() == a.end - a.start
            &&& a.end <= 0x800_0000
            &&& mapping(m, s.root(), (a.start + i) as u64) is Some
            &&& pte_ppn(e) == f
            &&& e & 0xff == (a.flags | 1) as u64
            &&& m.backed(f)
            &&& !m.free.contains(f)
            &&& !is_table(m, s.root(), f)
            &&& s.areas()[l].frames[j] != f
        }),
        is_table(m, s.root(), t) == s.table_frames().contains(t),
{
    let a = s.areas()[k];
    let f = a.frames[i];
    let root = s.root();
    assert(a.wf(m, root));
    assert(s.areas()[l].wf(m, root));
    assert(mapping(m, root, (a.start + i) as u64) == Some(pte_word(a.frames[i], a.flags | PTE_V)));
    assert(held(m, root, a.frames[i]));
    lemma_pte_word(f, a.flags | PTE_V);
    let e = pte_word(f, a.flags | PTE_V);
    assert(e & 0xff == e % 256) by (bit_vector);
    if k == l {
        assert(a.frames[i] != a.frames[j]);
    } else {
        assert(s.areas()[k].frames[i] != s.areas()[l].frames[j]);
    }
}

/// An area can be extended exactly where it is the first one that starts at the page, no
/// page up to the new end is mapped, and the frames suffice.
pub proof fn law_area_can_be_extended(
    m: MemView,
    root: u64,
    areas: Seq<AreaView>,
    start: u64,
    new_end: u64,
    k: int,
)
    requires
        0 <= k <= areas.len(),
        k < areas.len() ==> areas[k].start == start,
        forall|j: int| 0 <= j < k ==> (#[trigger] areas[j]).start != start,
    ensures
        can_append(m, root, areas, start, new_end) == {
            let a = areas[k];
            &&& k < areas.len()
            &&& forall|v: u64| a.end <= v < new_end ==> #[trigger] mapping(m, root, v) is None
            &&& pages_fit(m, root, a.end, (new_end - a.end) as nat, a.flags)
        },
{
    law_area_is_found_by_its_start(areas, start, k);
    if k < areas.len() {
        assert(unmapped(m, root, areas[k].end as int, new_end as int) == (forall|v: u64|
            areas[k].end <= v < new_end ==> #[trigger] mapping(m, root, v) is None));
    }
}

} // verus!
