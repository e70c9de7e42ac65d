//! Runs of pages: mapping them to fresh frames, and giving the frames back.
use crate::bytes::zeros;
use crate::mm::address::{vpn_index, PPN_SPAN, VPN_SPAN};
use crate::mm::entry::{lemma_pte_word, pte_ppn, pte_word, PTE_V};
use crate::mm::memory::{lemma_take_frame, MemView};
use crate::mm::walk::{
    is_table, law_map_sets_one_page, law_unmap_clears_one_page, lemma_map_only,
    lemma_path_available, lemma_same_tables, lemma_set_only, lemma_tables_added, map_entry,
    mapping, missing_tables, path_available, path_frames, set_entry, table1, tables_added, tree_wf,
};
use vstd::prelude::*;

verus! {

/// A frame that is in use and is none of the tables under `root`.
pub open spec fn held(m: MemView, root: u64, t: u64) -> bool {
    m.backed(t) && !m.free.contains(t) && !is_table(m, root, t)
}

/// Is there a frame for page `vpn`, and are there frames for its tables?
#[verifier::opaque]
pub open spec fn can_place(m: MemView, root: u64, vpn: u64) -> bool {
    m.free.len() > 0 && path_available(m.take_frame(), root, vpn)
}

/// Memory after page `vpn` was mapped to a fresh frame.
#[verifier::opaque]
pub open spec fn place_page(m: MemView, root: u64, vpn: u64, flags: u8) -> MemView {
    map_entry(m.take_frame(), root, vpn, pte_word(m.free.last(), flags | PTE_V))
}

/// The frames that are taken for the tables that page `vpn` is missing, when it is
/// mapped to a fresh frame.
#[verifier::opaque]
pub open spec fn page_tables(m: MemView, root: u64, vpn: u64) -> Seq<u64> {
    path_frames(m.take_frame(), root, vpn)
}

/// Memory after page `vpn` was unmapped and its frame was given back.
#[verifier::opaque]
pub open spec fn release_page(m: MemView, root: u64, vpn: u64) -> MemView {
    let n = set_entry(m, root, vpn, 0);
    MemView { free: n.free.push(pte_ppn(mapping(m, root, vpn)->0)), ..n }
}

/// Mapping a page to a fresh frame: the frame was free and is zero, every other
/// page is mapped as it was, and no frame in use changes.
pub proof fn lemma_place_page(m: MemView, root: u64, vpn: u64, flags: u8)
    requires
        tree_wf(m, root),
        can_place(m, root, vpn),
        vpn < VPN_SPAN,
    ensures
        ({
            let n = place_page(m, root, vpn, flags);
            let f = m.free.last();
            &&& tree_wf(m.take_frame(), root)
            &&& forall|v: u64| #[trigger] mapping(m.take_frame(), root, v) == mapping(m, root, v)
            &&& tree_wf(n, root)
            &&& f < PPN_SPAN
            &&& mapping(n, root, vpn) == Some(pte_word(f, flags | PTE_V))
            &&& forall|v: u64|
                v < VPN_SPAN && v != vpn ==> #[trigger] mapping(n, root, v) == mapping(m, root, v)
            &&& m.free.contains(f)
            &&& held(n, root, f)
            &&& n.frame(f) == zeros(4096)
            &&& forall|t: u64| #[trigger] n.free.contains(t) ==> m.free.contains(t)
            &&& forall|t: u64| #[trigger] held(m, root, t) ==> held(n, root, t)
            &&& forall|t: u64|
                held(m, root, t) ==> #[trigger] n.frame(t) == m.frame(t)
            &&& n.base == m.base
            &&& n.bytes.len() == m.bytes.len()
            &&& tables_added(m, n, root, page_tables(m, root, vpn))
        }),
{
    reveal(page_tables);
    reveal(can_place);
    reveal(place_page);
    let f = m.free.last();
    let m1 = m.take_frame();
    let bits = pte_word(f, flags | PTE_V);
    let n = place_page(m, root, vpn, flags);
    lemma_take_frame(m);
    assert(m.free[m.free.len() - 1] == f);
    assert(m.free.contains(f));
    assert forall|t: u64| #[trigger] m1.free.contains(t) implies m.free.contains(t) by {
        let x = choose|x: int| 0 <= x < m1.free.len() && m1.free[x] == t;
        assert(m.free[x] == t);
    }
    assert forall|t: u64| #[trigger] is_table(m, root, t) implies t != f && m.backed(t)
        && !m1.free.contains(t) by {
        lemma_table_in_use(m, root, t);
    }
    lemma_same_tables(m, m1, root);
    law_map_sets_one_page(m1, root, vpn, f, flags);
    lemma_map_only(m1, root, vpn, bits);
    assert forall|v: u64| v < VPN_SPAN && v != vpn implies #[trigger] mapping(n, root, v)
        == mapping(m, root, v) by {
        assert(mapping(m1, root, v) == mapping(m, root, v));
    }
    assert(!is_table(m1, root, f));
    assert(m1.frame(f) == zeros(4096));
    assert(n.frame(f) == m1.frame(f));
    assert forall|t: u64| #[trigger] held(m, root, t) implies held(n, root, t) && n.frame(t)
        == m.frame(t) by {
        assert(t != f);
        assert(!is_table(m1, root, t));
        assert(!m1.free.contains(t));
        assert(m1.frame(t) == m.frame(t));
        assert(n.frame(t) == m1.frame(t));
    }
    assert forall|t: u64| held(m, root, t) implies #[trigger] n.frame(t) == m.frame(t) by {}
}

/// A page can be mapped to a fresh frame where there is a free frame for it and for
/// each of its tables that is missing.
pub proof fn lemma_can_place(m: MemView, root: u64, vpn: u64)
    requires
        tree_wf(m, root),
    ensures
        can_place(m, root, vpn) == (m.free.len() >= 1 + missing_tables(m, root, vpn)),
{
    reveal(can_place);
    if m.free.len() > 0 {
        let m1 = m.take_frame();
        lemma_take_frame(m);
        assert forall|t: u64| #[trigger] m1.free.contains(t) implies m.free.contains(t) by {
            let x = choose|x: int| 0 <= x < m1.free.len() && m1.free[x] == t;
            assert(m.free[x] == t);
        }
        assert(m.free[m.free.len() - 1] == m.free.last());
        assert forall|t: u64| #[trigger] is_table(m, root, t) implies t != m.free.last() && m.backed(t)
            && !m1.free.contains(t) by {
            lemma_table_in_use(m, root, t);
        }
        lemma_same_tables(m, m1, root);
        lemma_path_available(m1, root, vpn);
        assert(m1.pte(root, vpn_index(vpn, 0)) == m.pte(root, vpn_index(vpn, 0))) by {
            assert(is_table(m, root, root));
        }
        if table1(m, root, vpn_index(vpn, 0)) is Some {
            let t = table1(m, root, vpn_index(vpn, 0))->0;
            assert(is_table(m, root, t));
            assert(m1.pte(t, vpn_index(vpn, 1)) == m.pte(t, vpn_index(vpn, 1)));
        }
    }
}

/// A table lies in memory and is not free.
pub proof fn lemma_table_in_use(m: MemView, root: u64, t: u64)
    requires
        tree_wf(m, root),
        is_table(m, root, t),
    ensures
        m.backed(t),
        !m.free.contains(t),
{
}

/// Unmapping a page and giving its frame back: every other page is mapped as it
/// was, and no other frame in use changes.
pub proof fn lemma_release_page(m: MemView, root: u64, vpn: u64)
    requires
        tree_wf(m, root),
        vpn < VPN_SPAN,
        mapping(m, root, vpn) is Some,
        held(m, root, pte_ppn(mapping(m, root, vpn)->0)),
    ensures
        ({
            let n = release_page(m, root, vpn);
            let f = pte_ppn(mapping(m, root, vpn)->0);
            &&& tree_wf(set_entry(m, root, vpn, 0), root)
            &&& set_entry(m, root, vpn, 0).free == m.free
            &&& tree_wf(n, root)
            &&& mapping(n, root, vpn) is None
            &&& forall|v: u64|
                v < VPN_SPAN && v != vpn ==> #[trigger] mapping(n, root, v) == mapping(m, root, v)
            &&& n.free == m.free.push(f)
            &&& forall|t: u64| #[trigger] held(m, root, t) && t != f ==> held(n, root, t)
            &&& forall|t: u64|
                held(m, root, t) ==> #[trigger] n.frame(t) == m.frame(t)
            &&& n.base == m.base
            &&& n.bytes.len() == m.bytes.len()
            &&& forall|t: u64| #[trigger] is_table(n, root, t) == is_table(m, root, t)
        }),
{
    reveal(release_page);
    let f = pte_ppn(mapping(m, root, vpn)->0);
    let m1 = set_entry(m, root, vpn, 0);
    let n = release_page(m, root, vpn);
    law_unmap_clears_one_page(m, root, vpn);
    lemma_set_only(m, root, vpn, 0);
    assert(n.wf()) by {
        assert forall|i: int| 0 <= i < n.free.len() implies n.backed(#[trigger] n.free[i]) by {
            if i < m.free.len() {
                assert(n.free[i] == m1.free[i]);
            }
        }
        assert forall|i: int, j: int| 0 <= i < n.free.len() && 0 <= j < n.free.len() && i
            != j implies n.free[i] != n.free[j] by {
            if i < m.free.len() {
                assert(m.free.contains(m.free[i]));
            }
            if j < m.free.len() {
                assert(m.free.contains(m.free[j]));
            }
        }
    }
    assert forall|t: u64| #[trigger] n.free.contains(t) implies m.free.contains(t) || t == f by {
        let x = choose|x: int| 0 <= x < n.free.len() && n.free[x] == t;
        if x < m.free.len() {
            assert(m.free[x] == t);
        }
    }
    assert forall|t: u64| #[trigger] is_table(m1, root, t) implies !n.free.contains(t) by {
        assert(is_table(m, root, t));
        lemma_table_in_use(m, root, t);
    }
    assert forall|t: u64, k: u64| is_table(m1, root, t) && k < 512 implies #[trigger] n.pte(t, k)
        == m1.pte(t, k) by {}
    lemma_same_tables(m1, n, root);
    assert forall|v: u64| v < VPN_SPAN && v != vpn implies #[trigger] mapping(n, root, v)
        == mapping(m, root, v) by {
        assert(mapping(n, root, v) == mapping(m1, root, v));
    }
    assert(mapping(n, root, vpn) == mapping(m1, root, vpn));
    assert forall|t: u64| #[trigger] held(m, root, t) && t != f implies held(n, root, t) by {
        assert(!is_table(m1, root, t));
    }
    assert forall|t: u64| held(m, root, t) implies #[trigger] n.frame(t) == m.frame(t) by {
        assert(m1.frame(t) == m.frame(t));
        assert(n.frame(t) == m1.frame(t));
    }
}

/// Memory after `n` pages from `start` on were mapped to fresh frames.
pub open spec fn place_pages(m: MemView, root: u64, start: u64, n: nat, flags: u8) -> MemView
    decreases n,
{
    if n == 0 {
        m
    } else {
        place_page(
            place_pages(m, root, start, (n - 1) as nat, flags),
            root,
            (start + n - 1) as u64,
            flags,
        )
    }
}

/// The frames that `n` pages from `start` on are mapped to.
pub open spec fn placed_frames(m: MemView, root: u64, start: u64, n: nat, flags: u8) -> Seq<u64> {
    Seq::new(n, |i: int| place_pages(m, root, start, i as nat, flags).free.last())
}

/// The frames that are taken for the tables that `n` pages from `start` on are missing.
pub open spec fn placed_tables(m: MemView, root: u64, start: u64, n: nat, flags: u8) -> Seq<u64>
    decreases n,
{
    if n == 0 {
        Seq::empty()
    } else {
        placed_tables(m, root, start, (n - 1) as nat, flags) + page_tables(
            place_pages(m, root, start, (n - 1) as nat, flags),
            root,
            (start + n - 1) as u64,
        )
    }
}

/// Are there frames for `n` pages from `start` on, and for their tables?
pub open spec fn pages_fit(m: MemView, root: u64, start: u64, n: nat, flags: u8) -> bool {
    forall|i: nat|
        i < n ==> can_place(
            #[trigger] place_pages(m, root, start, i, flags),
            root,
            (start + i) as u64,
        )
}

/// Memory after `n` pages from `start` on were unmapped and their frames were given
/// back.
pub open spec fn release_pages(m: MemView, root: u64, start: u64, n: nat) -> MemView
    decreases n,
{
    if n == 0 {
        m
    } else {
        release_page(
            release_pages(m, root, start, (n - 1) as nat),
            root,
            (start + n - 1) as u64,
        )
    }
}

/// The pages from `start` on are mapped to these frames.
pub open spec fn run_mapped(
    m: MemView,
    root: u64,
    start: u64,
    frames: Seq<u64>,
    flags: u8,
) -> bool {
    forall|i: int|
        0 <= i < frames.len() ==> mapping(m, root, (start + i) as u64) == Some(
            pte_word(#[trigger] frames[i], flags | PTE_V),
        )
}

/// The frames are in use, none of them twice.
pub open spec fn run_held(m: MemView, root: u64, frames: Seq<u64>) -> bool {
    &&& forall|i: int| 0 <= i < frames.len() ==> held(m, root, #[trigger] frames[i])
    &&& frames.no_duplicates()
}

/// None of the pages from `start` up to `end` is mapped.
pub open spec fn unmapped(m: MemView, root: u64, start: int, end: int) -> bool {
    forall|v: u64| start <= v < end ==> #[trigger] mapping(m, root, v) is None
}

/// Every page outside `start` up to `end` is mapped in `n` as in `m`.
pub open spec fn mapped_alike(m: MemView, n: MemView, root: u64, start: int, end: int) -> bool {
    forall|v: u64|
        v < VPN_SPAN && !(start <= v < end) ==> #[trigger] mapping(n, root, v) == mapping(
            m,
            root,
            v,
        )
}

/// Frames that are in use in `m` are so in `n`, with the same bytes.
pub open spec fn use_kept(m: MemView, n: MemView, root: u64) -> bool {
    &&& forall|t: u64| #[trigger] held(m, root, t) ==> held(n, root, t)
    &&& forall|t: u64| held(m, root, t) ==> #[trigger] n.frame(t) == m.frame(t)
}

/// Mapping a run of pages to fresh frames: the frames were free, are zero and
/// differ, every page outside the run is mapped as it was, and no frame in use
/// changes.
pub proof fn lemma_place_pages(m: MemView, root: u64, start: u64, n: nat, flags: u8)
    requires
        tree_wf(m, root),
        start + n <= VPN_SPAN,
        pages_fit(m, root, start, n, flags),
    ensures
        ({
            let o = place_pages(m, root, start, n, flags);
            let frames = placed_frames(m, root, start, n, flags);
            &&& tree_wf(o, root)
            &&& run_mapped(o, root, start, frames, flags)
            &&& run_held(o, root, frames)
            &&& mapped_alike(m, o, root, start as int, start + n)
            &&& use_kept(m, o, root)
            &&& forall|i: int| 0 <= i < n ==> m.free.contains(#[trigger] frames[i])
            &&& forall|i: int| 0 <= i < n ==> o.frame(#[trigger] frames[i]) == zeros(4096)
            &&& forall|t: u64| #[trigger] o.free.contains(t) ==> m.free.contains(t)
            &&& o.base == m.base
            &&& o.bytes.len() == m.bytes.len()
            &&& tables_added(m, o, root, placed_tables(m, root, start, n, flags))
        }),
    decreases n,
{
    if n > 0 {
        let k = (n - 1) as nat;
        let p = place_pages(m, root, start, k, flags);
        let o = place_pages(m, root, start, n, flags);
        let before = placed_frames(m, root, start, k, flags);
        let frames = placed_frames(m, root, start, n, flags);
        assert forall|i: nat| i < k implies can_place(
            #[trigger] place_pages(m, root, start, i, flags),
            root,
            (start + i) as u64,
        ) by {}
        lemma_place_pages(m, root, start, k, flags);
        let vpn = (start + k) as u64;
        assert(can_place(place_pages(m, root, start, k, flags), root, vpn));
        lemma_place_page(p, root, vpn, flags);
        lemma_tables_added(
            m,
            p,
            o,
            root,
            placed_tables(m, root, start, k, flags),
            page_tables(p, root, vpn),
        );
        assert(forall|i: int| 0 <= i < k ==> frames[i] == before[i]);
        let f = p.free.last();
        assert(frames[k as int] == f);
        assert forall|i: int| 0 <= i < frames.len() implies mapping(o, root, (start + i) as u64)
            == Some(pte_word(#[trigger] frames[i], flags | PTE_V)) by {
            if i < k {
                assert(mapping(p, root, (start + i) as u64) == Some(
                    pte_word(before[i], flags | PTE_V),
                ));
                assert(mapping(o, root, (start + i) as u64) == mapping(
                    p,
                    root,
                    (start + i) as u64,
                ));
            }
        }
        assert forall|i: int| 0 <= i < frames.len() implies held(o, root, #[trigger] frames[i])
            && m.free.contains(frames[i]) && o.frame(frames[i]) == zeros(4096) by {
            if i < k {
                assert(held(p, root, before[i]));
                assert(p.frame(before[i]) == zeros(4096));
                assert(o.frame(before[i]) == p.frame(before[i]));
                assert(m.free.contains(before[i]));
            } else {
                assert(p.free.contains(f));
            }
        }
        assert forall|i: int, j: int| 0 <= i < frames.len() && 0 <= j < frames.len() && i
            != j implies frames[i] != frames[j] by {
            if i < k && j < k {
                assert(before[i] != before[j]);
            } else if i < k {
                assert(held(p, root, before[i]));
            } else {
                assert(held(p, root, before[j]));
            }
        }
        assert forall|v: u64| v < VPN_SPAN && !(start <= v < start + n) implies #[trigger] mapping(
            o,
            root,
            v,
        ) == mapping(m, root, v) by {
            assert(mapping(p, root, v) == mapping(m, root, v));
        }
        assert forall|t: u64| held(m, root, t) implies #[trigger] o.frame(t) == m.frame(t) by {
            assert(held(p, root, t));
            assert(p.frame(t) == m.frame(t));
        }
        assert forall|t: u64| #[trigger] o.free.contains(t) implies m.free.contains(t) by {
            assert(p.free.contains(t));
        }
    }
}

/// Unmapping the first `n` pages of a run and giving their frames back: the other
/// pages are mapped as they were, and no other frame in use changes.
pub proof fn lemma_release_pages(
    m: MemView,
    root: u64,
    start: u64,
    frames: Seq<u64>,
    flags: u8,
    n: nat,
)
    requires
        tree_wf(m, root),
        start + frames.len() <= VPN_SPAN,
        run_mapped(m, root, start, frames, flags),
        run_held(m, root, frames),
        n <= frames.len(),
    ensures
        ({
            let o = release_pages(m, root, start, n);
            &&& tree_wf(o, root)
            &&& unmapped(o, root, start as int, start + n)
            &&& mapped_alike(m, o, root, start as int, start + n)
            &&& o.free == m.free + frames.take(n as int)
            &&& forall|t: u64| #[trigger]
                held(m, root, t) && !frames.take(n as int).contains(t) ==> held(o, root, t)
            &&& forall|t: u64|
                held(m, root, t) && !frames.take(n as int).contains(t) ==> #[trigger] o.frame(t)
                    == m.frame(t)
            &&& o.base == m.base
            &&& o.bytes.len() == m.bytes.len()
            &&& forall|t: u64| #[trigger] is_table(o, root, t) == is_table(m, root, t)
        }),
    decreases n,
{
    if n == 0 {
        assert(m.free + frames.take(0) =~= m.free);
    } else {
        let k = (n - 1) as nat;
        let p = release_pages(m, root, start, k);
        let o = release_pages(m, root, start, n);
        lemma_release_pages(m, root, start, frames, flags, k);
        let vpn = (start + k) as u64;
        let f = frames[k as int];
        assert(held(m, root, f));
        assert(!frames.take(k as int).contains(f)) by {
            if frames.take(k as int).contains(f) {
                let x = choose|x: int|
                    0 <= x < frames.take(k as int).len() && frames.take(k as int)[x] == f;
                assert(frames[x] == frames[k as int]);
            }
        }
        assert(held(p, root, f));
        assert(mapping(p, root, vpn) == mapping(m, root, vpn));
        assert(mapping(m, root, vpn) == Some(pte_word(frames[k as int], flags | PTE_V)));
        assert(f < PPN_SPAN);
        lemma_pte_word(f, flags | PTE_V);
        lemma_release_page(p, root, vpn);
        assert(frames.take(n as int) =~= frames.take(k as int).push(f));
        assert(o.free =~= m.free + frames.take(n as int));
        assert forall|t: u64| #[trigger]
            held(m, root, t) && !frames.take(n as int).contains(t) implies held(o, root, t)
            && o.frame(t) == m.frame(t) by {
            assert(!frames.take(k as int).contains(t)) by {
                if frames.take(k as int).contains(t) {
                    let x = choose|x: int|
                        0 <= x < frames.take(k as int).len() && frames.take(k as int)[x] == t;
                    assert(frames.take(n as int)[x] == t);
                }
            }
            assert(frames.take(n as int)[k as int] == f);
            assert(held(p, root, t));
        }
        assert forall|v: u64| v < VPN_SPAN && !(start <= v < start + n) implies #[trigger] mapping(
            o,
            root,
            v,
        ) == mapping(m, root, v) by {
            assert(mapping(p, root, v) == mapping(m, root, v));
        }
        assert forall|v: u64| start <= v < start + n implies #[trigger] mapping(o, root, v) is None by {
            if v != vpn {
                assert(mapping(p, root, v) is None);
            }
        }
        assert forall|t: u64|
            held(m, root, t) && !frames.take(n as int).contains(t) implies #[trigger] o.frame(t)
            == m.frame(t) by {}
    }
}

} // verus!
