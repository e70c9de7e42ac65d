//! Address spaces: a page table and the areas that it maps.
use crate::mm::address::{VirtPageNum, VPN_SPAN};
use crate::mm::entry::{lemma_pte_word, pte_word, PTEFlags, PTE_V};
use crate::mm::memory::{lemma_take_frame, FrameTracker, MemView, PhysMemory};
use crate::mm::page_table::{law_token_names_root, PageTable, TOKEN_MODE};
use crate::mm::pages::{
    can_place, held, lemma_can_place, lemma_place_page, lemma_place_pages, lemma_release_page,
    lemma_release_pages, mapped_alike, page_tables, pages_fit, place_page, place_pages,
    placed_frames, placed_tables, release_page, release_pages, run_held, run_mapped, unmapped,
    use_kept,
};
use crate::mm::user::check_not_mapped;
use crate::mm::walk::{
    is_table, law_new_table_maps_nothing, lemma_can_map, lemma_path_backed, mapping, path_backed,
    table1, tables_added, tree_wf,
};
use vstd::prelude::*;

verus! {

/// The page numbers of frames.
pub open spec fn ppns(frames: Seq<FrameTracker>) -> Seq<u64> {
    frames.map_values(|f: FrameTracker| f.ppn.0)
}

/// Unmaps the pages of a run and gives their frames back.
fn release_run(
    page_table: &mut PageTable,
    mem: &mut PhysMemory,
    start: VirtPageNum,
    frames: &Vec<FrameTracker>,
    flags: PTEFlags,
)
    requires
        tree_wf(old(mem)@, old(page_table).root()),
        start.0 + frames@.len() <= VPN_SPAN,
        run_mapped(old(mem)@, old(page_table).root(), start.0, ppns(frames@), flags.bits),
        run_held(old(mem)@, old(page_table).root(), ppns(frames@)),
    ensures
        *final(page_table) == *old(page_table),
        final(mem)@ == release_pages(
            old(mem)@,
            old(page_table).root(),
            start.0,
            frames@.len(),
        ),
{
    let ghost m = mem@;
    let ghost root = page_table.root();
    let n = frames.len();
    let mut i: usize = 0;
    while i < n
        invariant
            i <= n,
            n == frames@.len(),
            start.0 + n <= VPN_SPAN,
            root == page_table.root(),
            *page_table == *old(page_table),
            tree_wf(m, root),
            run_mapped(m, root, start.0, ppns(frames@), flags.bits),
            run_held(m, root, ppns(frames@)),
            mem@ == release_pages(m, root, start.0, i as nat),
        decreases n - i,
    {
        let vpn = VirtPageNum(start.0 + i as u64);
        let ghost f = ppns(frames@)[i as int];
        proof {
            lemma_release_pages(m, root, start.0, ppns(frames@), flags.bits, i as nat);
            assert(held(m, root, f));
            assert(!ppns(frames@).take(i as int).contains(f)) by {
                if ppns(frames@).take(i as int).contains(f) {
                    let x = choose|x: int|
                        0 <= x < i && ppns(frames@).take(i as int)[x] == f;
                    assert(ppns(frames@)[x] == ppns(frames@)[i as int]);
                }
            }
            assert(held(mem@, root, f));
            assert(mapping(mem@, root, vpn.0) == mapping(m, root, vpn.0));
            lemma_pte_word(f, flags.bits | PTE_V);
            lemma_path_backed(mem@, root, vpn.0);
            lemma_release_page(mem@, root, vpn.0);
            reveal(release_page);
        }
        page_table.unmap(mem, vpn);
        mem.frame_dealloc(FrameTracker { ppn: frames[i].ppn });
        i = i + 1;
    }
}

/// Memory after a run of `n` pages was begun and given up at page `k`, for which
/// there was no frame.
pub open spec fn gave_up(
    m: MemView,
    o: MemView,
    root: u64,
    start: u64,
    n: nat,
    flags: u8,
    k: nat,
) -> bool {
    &&& k < n
    &&& pages_fit(m, root, start, k, flags)
    &&& !can_place(place_pages(m, root, start, k, flags), root, (start + k) as u64)
    &&& o == release_pages(place_pages(m, root, start, k, flags), root, start, k)
}

/// Memory is `o` and the tables take up the frames `after` once a run of `n` pages was
/// mapped to fresh frames, where memory was `m` and the tables took up `before`.
pub open spec fn run_placed(
    m: MemView,
    o: MemView,
    root: u64,
    start: u64,
    n: nat,
    flags: u8,
    before: Seq<u64>,
    after: Seq<u64>,
) -> bool {
    &&& pages_fit(m, root, start, n, flags)
    &&& o == place_pages(m, root, start, n, flags)
    &&& after == before + placed_tables(m, root, start, n, flags)
}

/// Memory is `o` and the tables take up the frames `after` once a run of `n` pages was
/// begun and given up, where memory was `m` and the tables took up `before`. Tables that
/// were put in place stay.
pub open spec fn run_given_up(
    m: MemView,
    o: MemView,
    root: u64,
    start: u64,
    n: nat,
    flags: u8,
    before: Seq<u64>,
    after: Seq<u64>,
) -> bool {
    exists|k: nat| #[trigger]
        gave_up(m, o, root, start, n, flags, k) && after == before + placed_tables(
            m,
            root,
            start,
            k,
            flags,
        )
}

/// The frames are those that hold the tables under `root`.
pub open spec fn owns_tables(m: MemView, root: u64, frames: Seq<u64>) -> bool {
    forall|t: u64| #[trigger] is_table(m, root, t) == frames.contains(t)
}

/// The frames that hold the tables, once more of them were taken.
proof fn lemma_owns_more(m: MemView, o: MemView, root: u64, before: Seq<u64>, new: Seq<u64>)
    requires
        owns_tables(m, root, before),
        tables_added(m, o, root, new),
    ensures
        owns_tables(o, root, before + new),
{
    assert forall|t: u64| #[trigger] is_table(o, root, t) == (before + new).contains(t) by {
        assert(is_table(m, root, t) == before.contains(t));
        if before.contains(t) {
            let x = choose|x: int| 0 <= x < before.len() && before[x] == t;
            assert((before + new)[x] == t);
        }
        if new.contains(t) {
            let x = choose|x: int| 0 <= x < new.len() && new[x] == t;
            assert((before + new)[before.len() + x] == t);
        }
        if (before + new).contains(t) {
            let x = choose|x: int| 0 <= x < (before + new).len() && (before + new)[x] == t;
            if x < before.len() {
                assert(before[x] == t);
            } else {
                assert(new[x - before.len()] == t);
            }
        }
    }
}

/// A run that was given up leaves every page mapped as it was, and the frames in
/// use as they were. The address space owns its tables as before.
pub proof fn law_giving_up_leads_back(
    m: MemView,
    o: MemView,
    root: u64,
    start: u64,
    n: nat,
    flags: u8,
    before: Seq<u64>,
    after: Seq<u64>,
)
    requires
        tree_wf(m, root),
        start + n <= VPN_SPAN,
        unmapped(m, root, start as int, start + n),
        run_given_up(m, o, root, start, n, flags, before, after),
    ensures
        !pages_fit(m, root, start, n, flags),
        tree_wf(o, root),
        mapped_alike(m, o, root, 0, 0),
        use_kept(m, o, root),
        o.base == m.base,
        o.bytes.len() == m.bytes.len(),
        owns_tables(m, root, before) ==> owns_tables(o, root, after),
{
    let k = choose|k: nat| #[trigger]
        gave_up(m, o, root, start, n, flags, k) && after == before + placed_tables(
            m,
            root,
            start,
            k,
            flags,
        );
    let p = place_pages(m, root, start, k, flags);
    let frames = placed_frames(m, root, start, k, flags);
    lemma_place_pages(m, root, start, k, flags);
    lemma_release_pages(p, root, start, frames, flags, k);
    assert(frames.take(k as int) =~= frames);
    if owns_tables(m, root, before) {
        lemma_owns_more(m, p, root, before, placed_tables(m, root, start, k, flags));
    }
    assert forall|v: u64| v < VPN_SPAN implies #[trigger] mapping(o, root, v) == mapping(
        m,
        root,
        v,
    ) by {
        if !(start <= v < start + k) {
            assert(mapping(o, root, v) == mapping(p, root, v));
            assert(mapping(p, root, v) == mapping(m, root, v));
        }
    }
    assert forall|t: u64| #[trigger] held(m, root, t) implies held(o, root, t) && o.frame(t)
        == m.frame(t) by {
        if frames.contains(t) {
            let x = choose|x: int| 0 <= x < frames.len() && frames[x] == t;
            assert(m.free.contains(frames[x]));
        }
        assert(held(p, root, t));
        assert(p.frame(t) == m.frame(t));
    }
}

/// Maps a page to a fresh frame, where there are frames for it and its tables.
fn place_one(
    page_table: &mut PageTable,
    mem: &mut PhysMemory,
    vpn: VirtPageNum,
    flags: PTEFlags,
) -> (r: Option<FrameTracker>)
    requires
        tree_wf(old(mem)@, old(page_table).root()),
        vpn.0 < VPN_SPAN,
        mapping(old(mem)@, old(page_table).root(), vpn.0) is None,
    ensures
        final(page_table).root() == old(page_table).root(),
        r is Some == can_place(old(mem)@, old(page_table).root(), vpn.0),
        r is None ==> final(mem)@ == old(mem)@ && final(page_table).owned() == old(
            page_table,
        ).owned(),
        r matches Some(frame) ==> {
            &&& final(page_table).owned() == old(page_table).owned() + page_tables(
                old(mem)@,
                old(page_table).root(),
                vpn.0,
            )
            &&& frame.ppn.0 == old(mem)@.free.last()
            &&& final(mem)@ == place_page(
                old(mem)@,
                old(page_table).root(),
                vpn.0,
                flags.bits,
            )
        },
{
    let ghost m = mem@;
    let ghost root = page_table.root();
    proof {
        lemma_can_place(m, root, vpn.0);
        lemma_path_backed(m, root, vpn.0);
    }
    if mem.free_frames() <= page_table.missing_tables(mem, vpn) {
        return None;
    }
    proof {
        reveal(can_place);
        reveal(place_page);
        reveal(page_tables);
        lemma_place_page(m, root, vpn.0, flags.bits);
        assert(mapping(m.take_frame(), root, vpn.0) == mapping(m, root, vpn.0));
    }
    let frame = mem.frame_alloc().unwrap();
    proof {
        lemma_can_map(mem@, root, vpn.0);
    }
    page_table.map(mem, vpn, frame.ppn, flags);
    Some(frame)
}

/// Maps the pages from `start` up to `end` to fresh frames. Where memory runs
/// out, nothing stays mapped.
fn place_run(
    page_table: &mut PageTable,
    mem: &mut PhysMemory,
    start: VirtPageNum,
    end: VirtPageNum,
    flags: PTEFlags,
) -> (r: Option<Vec<FrameTracker>>)
    requires
        tree_wf(old(mem)@, old(page_table).root()),
        start.0 <= end.0 <= VPN_SPAN,
        unmapped(old(mem)@, old(page_table).root(), start.0 as int, end.0 as int),
    ensures
        final(page_table).root() == old(page_table).root(),
        ({
            let m = old(mem)@;
            let root = old(page_table).root();
            let n = (end.0 - start.0) as nat;
            let before = old(page_table).owned();
            let after = final(page_table).owned();
            match r {
                Some(frames) => {
                    &&& run_placed(m, final(mem)@, root, start.0, n, flags.bits, before, after)
                    &&& ppns(frames@) == placed_frames(m, root, start.0, n, flags.bits)
                },
                None => run_given_up(
                    m,
                    final(mem)@,
                    root,
                    start.0,
                    n,
                    flags.bits,
                    before,
                    after,
                ),
            }
        }),
{
    let ghost m = mem@;
    let ghost root = page_table.root();
    let ghost owned = page_table.owned();
    let ghost n = (end.0 - start.0) as nat;
    let mut frames: Vec<FrameTracker> = Vec::new();
    let mut vpn = start;
    let ghost mut i: nat = 0;
    assert(ppns(frames@) =~= placed_frames(m, root, start.0, 0, flags.bits));
    assert(owned + placed_tables(m, root, start.0, 0, flags.bits) =~= owned);
    while vpn.0 < end.0
        invariant
            start.0 <= end.0 <= VPN_SPAN,
            n == end.0 - start.0,
            root == page_table.root(),
            root == old(page_table).root(),
            m == old(mem)@,
            tree_wf(m, root),
            unmapped(m, root, start.0 as int, end.0 as int),
            i <= n,
            vpn.0 == start.0 + i,
            pages_fit(m, root, start.0, i, flags.bits),
            mem@ == place_pages(m, root, start.0, i, flags.bits),
            ppns(frames@) == placed_frames(m, root, start.0, i, flags.bits),
            owned == old(page_table).owned(),
            page_table.owned() == owned + placed_tables(m, root, start.0, i, flags.bits),
        decreases n - i,
    {
        proof {
            lemma_place_pages(m, root, start.0, i, flags.bits);
            assert(ppns(frames@).len() == i);
            assert(mapping(mem@, root, vpn.0) == mapping(m, root, vpn.0));
        }
        match place_one(page_table, mem, vpn, flags) {
            None => {
                release_run(page_table, mem, start, &frames, flags);
                assert(gave_up(
                    m,
                    mem@,
                    root,
                    start.0,
                    (end.0 - start.0) as nat,
                    flags.bits,
                    i,
                ));
                return None;
            },
            Some(frame) => {
                let ghost before = frames@;
                let ghost f = frame.ppn.0;
                frames.push(frame);
                vpn.step();
                proof {
                    assert(ppns(frames@) =~= ppns(before).push(f));
                    assert(placed_frames(m, root, start.0, i + 1, flags.bits) =~= placed_frames(
                        m,
                        root,
                        start.0,
                        i,
                        flags.bits,
                    ).push(f));
                    assert forall|j: nat| j < i + 1 implies can_place(
                        #[trigger] place_pages(m, root, start.0, j, flags.bits),
                        root,
                        (start.0 + j) as u64,
                    ) by {}
                    assert(page_table.owned() =~= owned + placed_tables(
                        m,
                        root,
                        start.0,
                        i + 1,
                        flags.bits,
                    ));
                    i = i + 1;
                    assert(ppns(frames@) =~= placed_frames(m, root, start.0, i, flags.bits));
                }
            },
        }
    }
    Some(frames)
}

/// What there is to know of an area: its pages, the flags that they are mapped
/// with, and the frames that they are mapped to.
#[verifier::ext_equal]
pub struct AreaView {
    pub start: u64,
    pub end: u64,
    pub flags: u8,
    pub frames: Seq<u64>,
}

impl AreaView {
    /// The pages are mapped to frames that are in use.
    pub open spec fn wf(self, m: MemView, root: u64) -> bool {
        &&& self.start <= self.end <= VPN_SPAN
        &&& self.frames.len() == self.end - self.start
        &&& run_mapped(m, root, self.start, self.frames, self.flags)
        &&& run_held(m, root, self.frames)
    }
}

/// No frame belongs to two areas.
pub open spec fn areas_apart(areas: Seq<AreaView>) -> bool {
    forall|k: int, i: int, l: int, j: int|
        0 <= k < areas.len() && 0 <= i < areas[k].frames.len() && 0 <= l < areas.len() && 0 <= j
            < areas[l].frames.len() && k != l ==> (#[trigger] areas[k].frames[i]) != (
        #[trigger] areas[l].frames[j])
}

/// An address space as it should be: the tables form a tree, and every area is
/// mapped to frames of its own.
pub open spec fn space_wf(m: MemView, root: u64, areas: Seq<AreaView>) -> bool {
    &&& tree_wf(m, root)
    &&& forall|k: int| 0 <= k < areas.len() ==> (#[trigger] areas[k]).wf(m, root)
    &&& areas_apart(areas)
}

/// Position of the first area with these pages, from area `k` on; the number of
/// areas where there is none.
pub open spec fn area_from(areas: Seq<AreaView>, start: u64, end: u64, k: int) -> int
    decreases areas.len() - k,
{
    if k >= areas.len() || areas[k].start == start && areas[k].end == end {
        k
    } else {
        area_from(areas, start, end, k + 1)
    }
}

/// Position of the first area with these pages.
pub open spec fn area_of(areas: Seq<AreaView>, start: u64, end: u64) -> int {
    area_from(areas, start, end, 0)
}

/// Position of the first area that starts at a page, from area `k` on; the number
/// of areas where there is none.
pub open spec fn area_at_from(areas: Seq<AreaView>, start: u64, k: int) -> int
    decreases areas.len() - k,
{
    if k >= areas.len() || areas[k].start == start {
        k
    } else {
        area_at_from(areas, start, k + 1)
    }
}

/// Position of the first area that starts at a page.
pub open spec fn area_at(areas: Seq<AreaView>, start: u64) -> int {
    area_at_from(areas, start, 0)
}

/// The area has no page from `lo` up to `hi`.
pub open spec fn outside(a: AreaView, lo: int, hi: int) -> bool {
    a.start >= a.end || lo >= hi || a.end <= lo || hi <= a.start
}

/// A change outside an area, which keeps the frames in use, keeps the area.
proof fn lemma_area_kept(m: MemView, o: MemView, root: u64, a: AreaView, lo: int, hi: int)
    requires
        a.wf(m, root),
        mapped_alike(m, o, root, lo, hi),
        outside(a, lo, hi),
        forall|i: int| 0 <= i < a.frames.len() ==> held(o, root, #[trigger] a.frames[i]),
    ensures
        a.wf(o, root),
{
    assert forall|i: int| 0 <= i < a.frames.len() implies mapping(o, root, (a.start + i) as u64)
        == Some(pte_word(#[trigger] a.frames[i], a.flags | PTE_V)) by {
        assert(held(o, root, a.frames[i]));
        assert(mapping(o, root, (a.start + i) as u64) == mapping(m, root, (a.start + i) as u64));
    }
}

/// Areas and a run of pages that is not mapped have no page in common.
proof fn lemma_areas_outside(m: MemView, root: u64, a: AreaView, lo: int, hi: int)
    requires
        a.wf(m, root),
        unmapped(m, root, lo, hi),
    ensures
        outside(a, lo, hi),
{
    if !outside(a, lo, hi) {
        let v = if a.start < lo {
            lo
        } else {
            a.start as int
        };
        let i = v - a.start;
        assert(held(m, root, a.frames[i]));
        assert(mapping(m, root, (a.start + i) as u64) is Some);
    }
}

/// Two areas of an address space have no page in common.
pub proof fn lemma_areas_disjoint(m: MemView, root: u64, areas: Seq<AreaView>, k: int, l: int)
    requires
        space_wf(m, root, areas),
        0 <= k < areas.len(),
        0 <= l < areas.len(),
        k != l,
    ensures
        outside(areas[l], areas[k].start as int, areas[k].end as int),
{
    let a = areas[k];
    let b = areas[l];
    assert(a.wf(m, root) && b.wf(m, root));
    if !outside(b, a.start as int, a.end as int) {
        let v = if b.start < a.start {
            a.start
        } else {
            b.start
        };
        let i = v - a.start;
        let j = v - b.start;
        assert(held(m, root, a.frames[i]) && held(m, root, b.frames[j]));
        assert((a.start + i) as u64 == v && (b.start + j) as u64 == v);
        assert(mapping(m, root, v) == Some(pte_word(a.frames[i], a.flags | PTE_V)));
        assert(mapping(m, root, v) == Some(pte_word(b.frames[j], b.flags | PTE_V)));
        lemma_pte_word(a.frames[i], a.flags | PTE_V);
        lemma_pte_word(b.frames[j], b.flags | PTE_V);
        assert(areas[k].frames[i] != areas[l].frames[j]);
    }
}

/// Giving the frames of one area back keeps every other area.
proof fn lemma_area_survives(
    m: MemView,
    o: MemView,
    root: u64,
    areas: Seq<AreaView>,
    k: int,
    l: int,
)
    requires
        space_wf(m, root, areas),
        0 <= k < areas.len(),
        0 <= l < areas.len(),
        k != l,
        mapped_alike(m, o, root, areas[k].start as int, areas[k].end as int),
        forall|t: u64| #[trigger]
            held(m, root, t) && !areas[k].frames.contains(t) ==> held(o, root, t),
    ensures
        areas[l].wf(o, root),
{
    let b = areas[l];
    assert(b.wf(m, root));
    lemma_areas_disjoint(m, root, areas, k, l);
    assert forall|i: int| 0 <= i < b.frames.len() implies held(o, root, #[trigger] b.frames[i]) by {
        assert(held(m, root, b.frames[i]));
        if areas[k].frames.contains(b.frames[i]) {
            let x = choose|x: int|
                0 <= x < areas[k].frames.len() && areas[k].frames[x] == b.frames[i];
            assert(areas[k].frames[x] != areas[l].frames[i]);
        }
    }
    lemma_area_kept(m, o, root, b, areas[k].start as int, areas[k].end as int);
}

/// Can the area that starts at page `start` be extended up to page `new_end`?
pub open spec fn can_append(
    m: MemView,
    root: u64,
    areas: Seq<AreaView>,
    start: u64,
    new_end: u64,
) -> bool {
    let k = area_at(areas, start);
    let a = areas[k];
    &&& k < areas.len()
    &&& unmapped(m, root, a.end as int, new_end as int)
    &&& pages_fit(m, root, a.end, (new_end - a.end) as nat, a.flags)
}

/// Extending an area by fresh frames keeps the address space as it should be.
proof fn lemma_extended(
    m: MemView,
    o: MemView,
    root: u64,
    areas: Seq<AreaView>,
    k: int,
    fresh: Seq<u64>,
    new_end: u64,
)
    requires
        space_wf(m, root, areas),
        0 <= k < areas.len(),
        areas[k].end <= new_end <= VPN_SPAN,
        fresh.len() == new_end - areas[k].end,
        unmapped(m, root, areas[k].end as int, new_end as int),
        tree_wf(o, root),
        run_mapped(o, root, areas[k].end, fresh, areas[k].flags),
        run_held(o, root, fresh),
        mapped_alike(m, o, root, areas[k].end as int, new_end as int),
        use_kept(m, o, root),
        forall|i: int| 0 <= i < fresh.len() ==> m.free.contains(#[trigger] fresh[i]),
    ensures
        space_wf(
            o,
            root,
            areas.update(
                k,
                AreaView { end: new_end, frames: areas[k].frames + fresh, ..areas[k] },
            ),
        ),
{
    let a = areas[k];
    let b = AreaView { end: new_end, frames: a.frames + fresh, ..a };
    let all = areas.update(k, b);
    assert(a.wf(m, root));
    let lo = a.end as int;
    let hi = new_end as int;
    assert forall|l: int| 0 <= l < areas.len() implies (#[trigger] areas[l]).wf(o, root) by {
        lemma_areas_outside(m, root, areas[l], lo, hi);
        lemma_area_kept(m, o, root, areas[l], lo, hi);
    }
    let h = a.frames.len();
    assert(a.wf(o, root));
    assert forall|i: int| 0 <= i < b.frames.len() implies mapping(o, root, (b.start + i) as u64)
        == Some(pte_word(#[trigger] b.frames[i], b.flags | PTE_V)) && held(
        o,
        root,
        b.frames[i],
    ) by {
        if i < h {
            assert(b.frames[i] == a.frames[i]);
        } else {
            assert(b.frames[i] == fresh[i - h]);
            assert(b.start + i == a.end + (i - h));
        }
    }
    assert forall|i: int, j: int| 0 <= i < b.frames.len() && 0 <= j < b.frames.len() && i
        != j implies b.frames[i] != b.frames[j] by {
        if i < h && j >= h {
            assert(held(m, root, a.frames[i]));
            assert(m.free.contains(fresh[j - h]));
        } else if i >= h && j < h {
            assert(held(m, root, a.frames[j]));
            assert(m.free.contains(fresh[i - h]));
        }
    }
    assert(b.wf(o, root));
    assert forall|p: int, i: int, q: int, j: int|
        0 <= p < all.len() && 0 <= i < all[p].frames.len() && 0 <= q < all.len() && 0 <= j
            < all[q].frames.len() && p != q implies (#[trigger] all[p].frames[i]) != (
    #[trigger] all[q].frames[j]) by {
        if p == k && i >= h {
            assert(areas[q].wf(m, root));
            assert(held(m, root, areas[q].frames[j]));
            assert(m.free.contains(fresh[i - h]));
        } else if q == k && j >= h {
            assert(areas[p].wf(m, root));
            assert(held(m, root, areas[p].frames[i]));
            assert(m.free.contains(fresh[j - h]));
        } else {
            assert(areas[p].frames[i] != areas[q].frames[j]);
        }
    }
}

/// Cutting an area and giving the frames of the pages cut off back keeps the
/// address space as it should be.
proof fn lemma_shrunk(
    m: MemView,
    o: MemView,
    root: u64,
    areas: Seq<AreaView>,
    k: int,
    new_end: u64,
)
    requires
        space_wf(m, root, areas),
        0 <= k < areas.len(),
        areas[k].start <= new_end <= areas[k].end,
        tree_wf(o, root),
        mapped_alike(m, o, root, new_end as int, areas[k].end as int),
        forall|t: u64| #[trigger]
            held(m, root, t) && !areas[k].frames.skip(new_end - areas[k].start).contains(t) ==> held(
                o,
                root,
                t,
            ),
    ensures
        space_wf(
            o,
            root,
            areas.update(
                k,
                AreaView {
                    end: new_end,
                    frames: areas[k].frames.take(new_end - areas[k].start),
                    ..areas[k]
                },
            ),
        ),
{
    let a = areas[k];
    let h = new_end - a.start;
    let cut = a.frames.skip(h);
    let b = AreaView { end: new_end, frames: a.frames.take(h), ..a };
    let all = areas.update(k, b);
    assert(a.wf(m, root));
    assert forall|l: int| 0 <= l < areas.len() && l != k implies (#[trigger] areas[l]).wf(
        o,
        root,
    ) by {
        let c = areas[l];
        assert(c.wf(m, root));
        lemma_areas_disjoint(m, root, areas, k, l);
        assert forall|i: int| 0 <= i < c.frames.len() implies held(
            o,
            root,
            #[trigger] c.frames[i],
        ) by {
            assert(held(m, root, c.frames[i]));
            if cut.contains(c.frames[i]) {
                let x = choose|x: int| 0 <= x < cut.len() && cut[x] == c.frames[i];
                assert(areas[k].frames[x + h] != areas[l].frames[i]);
            }
        }
        lemma_area_kept(m, o, root, c, new_end as int, a.end as int);
    }
    assert forall|i: int| 0 <= i < b.frames.len() implies held(o, root, #[trigger] b.frames[i])
        && mapping(o, root, (b.start + i) as u64) == Some(
        pte_word(b.frames[i], b.flags | PTE_V),
    ) by {
        assert(b.frames[i] == a.frames[i]);
        assert(held(m, root, a.frames[i]));
        if cut.contains(a.frames[i]) {
            let x = choose|x: int| 0 <= x < cut.len() && cut[x] == a.frames[i];
            assert(a.frames[x + h] == a.frames[i]);
        }
        assert(mapping(o, root, (a.start + i) as u64) == mapping(m, root, (a.start + i) as u64));
    }
    assert(b.wf(o, root));
    assert forall|p: int, i: int, q: int, j: int|
        0 <= p < all.len() && 0 <= i < all[p].frames.len() && 0 <= q < all.len() && 0 <= j
            < all[q].frames.len() && p != q implies (#[trigger] all[p].frames[i]) != (
    #[trigger] all[q].frames[j]) by {
        assert(areas[p].frames[i] != areas[q].frames[j]);
    }
}

/// An area of pages with the frames that they are mapped to.
pub struct MapArea {
    start: VirtPageNum,
    end: VirtPageNum,
    flags: PTEFlags,
    frames: Vec<FrameTracker>,
}

impl View for MapArea {
    type V = AreaView;

    closed spec fn view(&self) -> AreaView {
        AreaView {
            start: self.start.0,
            end: self.end.0,
            flags: self.flags.bits,
            frames: ppns(self.frames@),
        }
    }
}

/// An address space.
pub struct MemorySet {
    page_table: PageTable,
    areas: Vec<MapArea>,
}

impl MemorySet {
    /// Page number of the root table.
    pub closed spec fn root(&self) -> u64 {
        self.page_table.root()
    }

    /// The areas, in the order in which they were added.
    pub closed spec fn areas(&self) -> Seq<AreaView> {
        self.areas@.map_values(|a: MapArea| a@)
    }

    /// The frames that the tables take up, in the order in which they were taken.
    pub closed spec fn table_frames(&self) -> Seq<u64> {
        self.page_table.owned()
    }

    /// The address space is as it should be, and owns its tables.
    pub open spec fn inv(&self, m: MemView) -> bool {
        &&& space_wf(m, self.root(), self.areas())
        &&& owns_tables(m, self.root(), self.table_frames())
    }

    /// An address space with no areas.
    pub fn new_bare(mem: &mut PhysMemory) -> (r: MemorySet)
        requires
            old(mem)@.wf(),
            old(mem)@.free.len() > 0,
        ensures
            r.inv(final(mem)@),
            final(mem)@ == old(mem)@.take_frame(),
            r.root() == old(mem)@.free.last(),
            r.areas() == Seq::<AreaView>::empty(),
            r.table_frames() == seq![old(mem)@.free.last()],
    {
        proof {
            law_new_table_maps_nothing(mem@);
            lemma_take_frame(mem@);
        }
        let r = MemorySet { page_table: PageTable::new(mem), areas: Vec::new() };
        assert(r.areas() =~= Seq::<AreaView>::empty());
        proof {
            let root = r.root();
            assert forall|t: u64| #[trigger] is_table(mem@, root, t) == r.table_frames().contains(
                t,
            ) by {
                assert(r.table_frames()[0] == root);
                if is_table(mem@, root, t) && t != root {
                    assert forall|i: u64| i < 512 implies (#[trigger] table1(mem@, root, i)) is None by {
                        assert(mem@.pte(root, i) == 0);
                    }
                }
            }
        }
        r
    }

    /// The token of the page table.
    pub fn token(&self) -> (r: u64)
        ensures
            r == TOKEN_MODE | self.root(),
    {
        self.page_table.token()
    }

    /// Adds an area of pages that are mapped to fresh frames. Where memory runs out
    /// no page stays mapped, and the result is false.
    pub fn mmap(
        &mut self,
        mem: &mut PhysMemory,
        start: VirtPageNum,
        end: VirtPageNum,
        flags: PTEFlags,
    ) -> (r: bool)
        requires
            old(self).inv(old(mem)@),
            start.0 <= end.0 <= VPN_SPAN,
            unmapped(old(mem)@, old(self).root(), start.0 as int, end.0 as int),
        ensures
            final(self).inv(final(mem)@),
            final(self).root() == old(self).root(),
            ({
                let m = old(mem)@;
                let root = old(self).root();
                let n = (end.0 - start.0) as nat;
                let before = old(self).table_frames();
                let after = final(self).table_frames();
                &&& r == pages_fit(m, root, start.0, n, flags.bits)
                &&& r ==> {
                    &&& run_placed(m, final(mem)@, root, start.0, n, flags.bits, before, after)
                    &&& final(self).areas() == old(self).areas().push(
                        AreaView {
                            start: start.0,
                            end: end.0,
                            flags: flags.bits,
                            frames: placed_frames(m, root, start.0, n, flags.bits),
                        },
                    )
                }
                &&& !r ==> {
                    &&& run_given_up(m, final(mem)@, root, start.0, n, flags.bits, before, after)
                    &&& final(self).areas() == old(self).areas()
                }
            }),
    {
        let ghost m = mem@;
        let ghost root = self.root();
        let ghost areas = self.areas();
        let ghost n = (end.0 - start.0) as nat;
        match place_run(&mut self.page_table, mem, start, end, flags) {
            None => {
                proof {
                    law_giving_up_leads_back(
                        m,
                        mem@,
                        root,
                        start.0,
                        n,
                        flags.bits,
                        old(self).table_frames(),
                        self.table_frames(),
                    );
                    assert forall|l: int| 0 <= l < areas.len() implies (#[trigger] areas[l]).wf(
                        mem@,
                        root,
                    ) by {
                        lemma_area_kept(m, mem@, root, areas[l], 0, 0);
                    }
                    assert(self.areas() == areas);
                }
                false
            },
            Some(frames) => {
                let area = MapArea { start, end, flags, frames };
                let ghost added = area@;
                self.areas.push(area);
                proof {
                    lemma_place_pages(m, root, start.0, n, flags.bits);
                    lemma_owns_more(
                        m,
                        mem@,
                        root,
                        old(self).table_frames(),
                        placed_tables(m, root, start.0, n, flags.bits),
                    );
                    assert(self.areas() =~= areas.push(added));
                    assert forall|l: int| 0 <= l < areas.len() implies (#[trigger] areas[l]).wf(
                        mem@,
                        root,
                    ) by {
                        lemma_areas_outside(m, root, areas[l], start.0 as int, end.0 as int);
                        lemma_area_kept(
                            m,
                            mem@,
                            root,
                            areas[l],
                            start.0 as int,
                            end.0 as int,
                        );
                    }
                    let all = self.areas();
                    assert forall|k: int, i: int, l: int, j: int|
                        0 <= k < all.len() && 0 <= i < all[k].frames.len() && 0 <= l < all.len()
                            && 0 <= j < all[l].frames.len() && k != l implies (
                    #[trigger] all[k].frames[i]) != (#[trigger] all[l].frames[j]) by {
                        if k < areas.len() && l < areas.len() {
                            assert(areas[k].frames[i] != areas[l].frames[j]);
                        } else if k < areas.len() {
                            assert(areas[k].wf(m, root));
                            assert(held(m, root, areas[k].frames[i]));
                            assert(m.free.contains(added.frames[j]));
                        } else {
                            assert(areas[l].wf(m, root));
                            assert(held(m, root, areas[l].frames[j]));
                            assert(m.free.contains(added.frames[i]));
                        }
                    }
                    assert(added.wf(mem@, root));
                }
                true
            },
        }
    }

    /// Removes the area with exactly these pages: unmaps them and gives their frames
    /// back. Where there is no such area nothing happens, and the result is false.
    pub fn munmap(&mut self, mem: &mut PhysMemory, start: VirtPageNum, end: VirtPageNum) -> (r: bool)
        requires
            old(self).inv(old(mem)@),
        ensures
            final(self).inv(final(mem)@),
            final(self).root() == old(self).root(),
            final(self).table_frames() == old(self).table_frames(),
            r == (area_of(old(self).areas(), start.0, end.0) < old(self).areas().len()),
            r ==> {
                &&& final(mem)@ == release_pages(
                    old(mem)@,
                    old(self).root(),
                    start.0,
                    (end.0 - start.0) as nat,
                )
                &&& final(self).areas() == old(self).areas().remove(
                    area_of(old(self).areas(), start.0, end.0),
                )
            },
            !r ==> {
                &&& final(mem)@ == old(mem)@
                &&& final(self).areas() == old(self).areas()
            },
    {
        let ghost m = mem@;
        let ghost root = self.root();
        let ghost areas = self.areas();
        let mut k: usize = 0;
        while k < self.areas.len() && !(self.areas[k].start.0 == start.0 && self.areas[k].end.0
            == end.0)
            invariant
                *self == *old(self),
                areas == self.areas(),
                k <= areas.len(),
                area_of(areas, start.0, end.0) == area_from(areas, start.0, end.0, k as int),
            decreases areas.len() - k,
        {
            assert(areas[k as int] == self.areas@[k as int]@);
            k = k + 1;
        }
        if k >= self.areas.len() {
            return false;
        }
        assert(areas[k as int] == self.areas@[k as int]@);
        let area = self.areas.remove(k);
        let ghost gone = area@;
        proof {
            assert(gone == areas[k as int]);
            assert(gone.wf(m, root));
            assert(self.areas() =~= areas.remove(k as int));
            assert(ppns(area.frames@).len() == area.frames@.len());
            lemma_release_pages(m, root, start.0, gone.frames, gone.flags, gone.frames.len());
        }
        release_run(&mut self.page_table, mem, start, &area.frames, area.flags);
        proof {
            let rest = areas.remove(k as int);
            assert(self.areas() == rest);
            assert(gone.frames.take(gone.frames.len() as int) =~= gone.frames);
            assert forall|l: int| 0 <= l < rest.len() implies (#[trigger] rest[l]).wf(
                mem@,
                root,
            ) by {
                let l0 = if l < k {
                    l
                } else {
                    l + 1
                };
                assert(rest[l] == areas[l0]);
                lemma_area_survives(m, mem@, root, areas, k as int, l0);
            }
            assert forall|a: int, i: int, b: int, j: int|
                0 <= a < rest.len() && 0 <= i < rest[a].frames.len() && 0 <= b < rest.len() && 0
                    <= j < rest[b].frames.len() && a != b implies (#[trigger] rest[a].frames[i])
                != (#[trigger] rest[b].frames[j]) by {
                let a0 = if a < k {
                    a
                } else {
                    a + 1
                };
                let b0 = if b < k {
                    b
                } else {
                    b + 1
                };
                assert(areas[a0].frames[i] != areas[b0].frames[j]);
            }
        }
        true
    }

    /// Position of the first area that starts at a page.
    fn find_area(&self, start: VirtPageNum) -> (r: usize)
        ensures
            r == area_at(self.areas(), start.0),
            r <= self.areas().len(),
            r < self.areas().len() ==> self.areas()[r as int].start == start.0,
    {
        let ghost areas = self.areas();
        let mut k: usize = 0;
        while k < self.areas.len() && self.areas[k].start.0 != start.0
            invariant
                areas == self.areas(),
                k <= areas.len(),
                area_at(areas, start.0) == area_at_from(areas, start.0, k as int),
            decreases areas.len() - k,
        {
            assert(areas[k as int] == self.areas@[k as int]@);
            k = k + 1;
        }
        k
    }

    /// Where the first area that starts at a page ends.
    pub fn area_end(&self, start: VirtPageNum) -> (r: Option<VirtPageNum>)
        ensures
            ({
                let k = area_at(self.areas(), start.0);
                match r {
                    Some(end) => k < self.areas().len() && end.0 == self.areas()[k].end,
                    None => k == self.areas().len(),
                }
            }),
    {
        let k = self.find_area(start);
        if k < self.areas.len() {
            assert(self.areas()[k as int] == self.areas@[k as int]@);
            Some(self.areas[k].end)
        } else {
            None
        }
    }

    /// Is none of the pages from `start` up to `end` mapped?
    pub fn all_unmapped(&self, mem: &PhysMemory, start: VirtPageNum, end: VirtPageNum) -> (r: bool)
        requires
            self.inv(mem@),
            start.0 <= end.0,
        ensures
            r == unmapped(mem@, self.root(), start.0 as int, end.0 as int),
    {
        proof {
            law_token_names_root(self.root());
            assert forall|v: u64| #[trigger] path_backed(mem@, self.root(), v) by {
                lemma_path_backed(mem@, self.root(), v);
            }
        }
        check_not_mapped(mem, self.token(), start, end)
    }

    /// Extends the area that starts at page `start` up to page `new_end`. The result
    /// is false, and no page is mapped otherwise than before, where there is no such
    /// area, where one of the pages is mapped, or where memory runs out.
    pub fn append_to(
        &mut self,
        mem: &mut PhysMemory,
        start: VirtPageNum,
        new_end: VirtPageNum,
    ) -> (r: bool)
        requires
            old(self).inv(old(mem)@),
            new_end.0 <= VPN_SPAN,
            ({
                let k = area_at(old(self).areas(), start.0);
                k < old(self).areas().len() ==> old(self).areas()[k].end <= new_end.0
            }),
        ensures
            final(self).inv(final(mem)@),
            final(self).root() == old(self).root(),
            r == can_append(old(mem)@, old(self).root(), old(self).areas(), start.0, new_end.0),
            ({
                let m = old(mem)@;
                let root = old(self).root();
                let areas = old(self).areas();
                let k = area_at(areas, start.0);
                let a = areas[k];
                let n = (new_end.0 - a.end) as nat;
                let before = old(self).table_frames();
                let after = final(self).table_frames();
                &&& r ==> {
                    &&& run_placed(m, final(mem)@, root, a.end, n, a.flags, before, after)
                    &&& final(self).areas() == areas.update(
                        k,
                        AreaView {
                            end: new_end.0,
                            frames: a.frames + placed_frames(m, root, a.end, n, a.flags),
                            ..a
                        },
                    )
                }
                &&& !r ==> {
                    &&& final(self).areas() == areas
                    &&& mapped_alike(m, final(mem)@, root, 0, 0)
                    &&& if k < areas.len() && unmapped(
                        m,
                        root,
                        a.end as int,
                        new_end.0 as int,
                    ) {
                        run_given_up(m, final(mem)@, root, a.end, n, a.flags, before, after)
                    } else {
                        final(mem)@ == m && after == before
                    }
                }
            }),
    {
        let ghost m = mem@;
        let ghost root = self.root();
        let ghost areas = self.areas();
        let k = self.find_area(start);
        if k >= self.areas.len() {
            return false;
        }
        let ghost a = areas[k as int];
        assert(a == self.areas@[k as int]@);
        assert(a.wf(m, root));
        let end = self.areas[k].end;
        let flags = self.areas[k].flags;
        if !self.all_unmapped(mem, end, new_end) {
            return false;
        }
        let ghost n = (new_end.0 - a.end) as nat;
        match place_run(&mut self.page_table, mem, end, new_end, flags) {
            None => {
                proof {
                    law_giving_up_leads_back(
                        m,
                        mem@,
                        root,
                        a.end,
                        n,
                        a.flags,
                        old(self).table_frames(),
                        self.table_frames(),
                    );
                    assert forall|l: int| 0 <= l < areas.len() implies (#[trigger] areas[l]).wf(
                        mem@,
                        root,
                    ) by {
                        lemma_area_kept(m, mem@, root, areas[l], 0, 0);
                    }
                    assert(self.areas() == areas);
                }
                false
            },
            Some(mut frames) => {
                let ghost fresh = ppns(frames@);
                let ghost had = self.areas@[k as int];
                self.areas[k].frames.append(&mut frames);
                self.areas[k].end = new_end;
                proof {
                    let b = AreaView { end: new_end.0, frames: a.frames + fresh, ..a };
                    assert(ppns(self.areas@[k as int].frames@) =~= ppns(had.frames@) + fresh);
                    assert(self.areas@[k as int]@ =~= b);
                    assert(self.areas() =~= areas.update(k as int, b));
                    lemma_place_pages(m, root, a.end, n, a.flags);
                    lemma_owns_more(
                        m,
                        mem@,
                        root,
                        old(self).table_frames(),
                        placed_tables(m, root, a.end, n, a.flags),
                    );
                    lemma_extended(m, mem@, root, areas, k as int, fresh, new_end.0);
                }
                true
            },
        }
    }

    /// Cuts the area that starts at page `start` down to page `new_end`: unmaps the
    /// pages after it and gives their frames back. Where there is no such area
    /// nothing happens, and the result is false.
    pub fn shrink_to(
        &mut self,
        mem: &mut PhysMemory,
        start: VirtPageNum,
        new_end: VirtPageNum,
    ) -> (r: bool)
        requires
            old(self).inv(old(mem)@),
            ({
                let k = area_at(old(self).areas(), start.0);
                k < old(self).areas().len() ==> start.0 <= new_end.0
                    <= old(self).areas()[k].end
            }),
        ensures
            final(self).inv(final(mem)@),
            final(self).root() == old(self).root(),
            final(self).table_frames() == old(self).table_frames(),
            r == (area_at(old(self).areas(), start.0) < old(self).areas().len()),
            r ==> {
                let k = area_at(old(self).areas(), start.0);
                let a = old(self).areas()[k];
                &&& final(mem)@ == release_pages(
                    old(mem)@,
                    old(self).root(),
                    new_end.0,
                    (a.end - new_end.0) as nat,
                )
                &&& final(self).areas() == old(self).areas().update(
                    k,
                    AreaView {
                        end: new_end.0,
                        frames: a.frames.take(new_end.0 - a.start),
                        ..a
                    },
                )
            },
            !r ==> {
                &&& final(mem)@ == old(mem)@
                &&& final(self).areas() == old(self).areas()
            },
    {
        let ghost m = mem@;
        let ghost root = self.root();
        let ghost areas = self.areas();
        let k = self.find_area(start);
        if k >= self.areas.len() {
            return false;
        }
        let ghost a = areas[k as int];
        assert(a == self.areas@[k as int]@);
        assert(a.wf(m, root));
        let keep = (new_end.0 - start.0) as usize;
        let flags = self.areas[k].flags;
        assert(ppns(self.areas@[k as int].frames@).len() == self.areas@[k as int].frames@.len());
        let ghost had = self.areas@[k as int];
        let tail = self.areas[k].frames.split_off(keep);
        self.areas[k].end = new_end;
        let ghost cut = a.frames.skip(keep as int);
        proof {
            let b = AreaView { end: new_end.0, frames: a.frames.take(keep as int), ..a };
            assert(ppns(self.areas@[k as int].frames@) =~= ppns(had.frames@).take(keep as int));
            assert(self.areas@[k as int]@ =~= b);
            assert(self.areas() =~= areas.update(k as int, b));
            assert(ppns(tail@) =~= cut);
            assert forall|i: int| 0 <= i < cut.len() implies mapping(
                m,
                root,
                (new_end.0 + i) as u64,
            ) == Some(pte_word(#[trigger] cut[i], a.flags | PTE_V)) by {
                assert(cut[i] == a.frames[keep + i]);
            }
            assert forall|i: int| 0 <= i < cut.len() implies held(m, root, #[trigger] cut[i]) by {
                assert(cut[i] == a.frames[keep + i]);
            }
            lemma_release_pages(m, root, new_end.0, cut, a.flags, cut.len());
        }
        release_run(&mut self.page_table, mem, new_end, &tail, flags);
        proof {
            assert(cut.take(cut.len() as int) =~= cut);
            lemma_shrunk(m, mem@, root, areas, k as int, new_end.0);
        }
        true
    }
}

} // verus!
