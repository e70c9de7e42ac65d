//! Laws of access to user memory.
use crate::bytes::{lemma_splice_apart, lemma_splice_same, splice};
use crate::mm::address::{vpn_index, PAGE_SIZE, VA_HALF, VA_SPAN};
use crate::mm::entry::pte_ppn;
use crate::mm::memory::MemView;
use crate::mm::pages::lemma_table_in_use;
use crate::mm::user::{
    can_walk, denied, denied_within, end_reached, frames_backed, gather, granted, lemma_denied,
    lemma_spans_bounds, lemma_spans_unfold, scatter, segments_of, span_at, span_next, span_stop,
    spans, translated, user_may, Segment, Span,
};
use crate::mm::user_buffer::{lemma_total_size_first, total_size};
use crate::mm::walk::{
    is_table, leaf_table, lemma_same_tables, lookup, mapping, path_backed, table1, table2, tree_wf,
};
use vstd::prelude::*;

verus! {

/// Byte position of the start of a stretch.
pub open spec fn segment_offset(m: MemView, seg: Segment) -> int {
    m.offset(seg.ppn.0) + seg.start
}

/// Two stretches have no byte in common.
pub open spec fn apart(a: Segment, b: Segment) -> bool {
    a.ppn.0 != b.ppn.0 || a.end <= b.start || b.end <= a.start
}

/// No two stretches of a list have a byte in common.
pub open spec fn all_apart(segs: Seq<Segment>) -> bool {
    forall|i: int, j: int|
        0 <= i < j < segs.len() ==> apart(#[trigger] segs[i], #[trigger] segs[j])
}

/// Every stretch of a list lies in memory.
pub open spec fn all_in_memory(m: MemView, segs: Seq<Segment>) -> bool {
    forall|i: int| 0 <= i < segs.len() ==> (#[trigger] segs[i]).in_memory(m)
}

/// Copying into stretches leaves every byte outside of them as it was.
pub proof fn lemma_scatter_outside(m: MemView, segs: Seq<Segment>, src: Seq<u8>, idx: int, p: int)
    requires
        all_in_memory(m, segs),
        0 <= idx,
        0 <= p < m.bytes.len(),
        forall|i: int|
            0 <= i < segs.len() ==> !(segment_offset(m, #[trigger] segs[i]) <= p < segment_offset(
                m,
                segs[i],
            ) + segs[i].size()),
    ensures
        scatter(m, segs, src, idx).0.bytes.len() == m.bytes.len(),
        scatter(m, segs, src, idx).0.base == m.base,
        scatter(m, segs, src, idx).0.free == m.free,
        scatter(m, segs, src, idx).0.bytes[p] == m.bytes[p],
    decreases segs.len(),
{
    if segs.len() > 0 && idx + segs[0].size() <= src.len() {
        let n = segs[0].size();
        let m1 = m.put(segment_offset(m, segs[0]), src.subrange(idx, idx + n));
        assert(segs[0].in_memory(m));
        assert forall|i: int| 0 <= i < segs.skip(1).len() implies (#[trigger] segs.skip(1)[i]).in_memory(
            m1,
        ) && !(segment_offset(m1, segs.skip(1)[i]) <= p < segment_offset(m1, segs.skip(1)[i])
            + segs.skip(1)[i].size()) by {
            assert(segs.skip(1)[i] == segs[i + 1]);
        }
        lemma_scatter_outside(m1, segs.skip(1), src, idx + n, p);
    }
}

/// Reading stretches back after data was copied into them gives that data.
pub proof fn lemma_gather_after_scatter(
    m: MemView,
    segs: Seq<Segment>,
    src: Seq<u8>,
    dst: Seq<u8>,
    idx: int,
)
    requires
        all_in_memory(m, segs),
        all_apart(segs),
        0 <= idx,
        idx + total_size(segs) == src.len(),
        src.len() == dst.len(),
        src.take(idx) == dst.take(idx),
    ensures
        scatter(m, segs, src, idx).1,
        gather(scatter(m, segs, src, idx).0, segs, dst, idx) == (src, true),
    decreases segs.len(),
{
    if segs.len() == 0 {
        assert(src.take(idx) =~= src);
        assert(dst.take(idx) =~= dst);
    } else {
        let n = segs[0].size();
        let off = segment_offset(m, segs[0]);
        let piece = src.subrange(idx, idx + n);
        let m1 = m.put(off, piece);
        let rest = segs.skip(1);
        assert(segs[0].in_memory(m));
        lemma_total_size_first(segs);
        assert forall|i: int| 0 <= i < rest.len() implies (#[trigger] rest[i]).in_memory(m1)
            && rest[i].in_memory(m) by {
            assert(rest[i] == segs[i + 1]);
            assert(segs[i + 1].in_memory(m));
        }
        lemma_total_nonneg(rest, m);
        assert(idx + n <= src.len());
        let last = scatter(m, segs, src, idx).0;
        assert(last == scatter(m1, rest, src, idx + n).0);
        assert(all_apart(rest));
        assert(last.bytes.subrange(off, off + n) =~= piece) by {
            assert forall|p: int| off <= p < off + n implies last.bytes[p] == m1.bytes[p] by {
                assert forall|i: int| 0 <= i < rest.len() implies !(segment_offset(
                    m1,
                    #[trigger] rest[i],
                ) <= p < segment_offset(m1, rest[i]) + rest[i].size()) by {
                    assert(rest[i] == segs[i + 1]);
                    assert(apart(segs[0], segs[i + 1]));
                    let a = segs[0];
                    let b = segs[i + 1];
                    assert(b.in_memory(m));
                    if a.ppn.0 < b.ppn.0 {
                        assert((b.ppn.0 - m.base) * 4096 >= (a.ppn.0 - m.base) * 4096 + 4096);
                    } else if b.ppn.0 < a.ppn.0 {
                        assert((a.ppn.0 - m.base) * 4096 >= (b.ppn.0 - m.base) * 4096 + 4096);
                    }
                }
                lemma_scatter_outside(m1, rest, src, idx + n, p);
            }
            lemma_scatter_shape(m1, rest, src, idx + n);
        }
        lemma_scatter_shape(m, segs, src, idx);
        let dst1 = splice(dst, idx, piece);
        assert(src.take(idx + n) =~= dst1.take(idx + n)) by {
            assert forall|k: int| 0 <= k < idx + n implies src[k] == dst1[k] by {
                assert(piece.len() == n);
                if k < idx {
                    assert(src.take(idx)[k] == dst.take(idx)[k]);
                    assert(dst1[k] == dst[k]);
                    assert(src.take(idx)[k] == src[k]);
                    assert(dst.take(idx)[k] == dst[k]);
                } else {
                    assert(dst1[k] == piece[k - idx]);
                    assert(piece[k - idx] == src[k]);
                }
            }
        }
        lemma_gather_after_scatter(m1, rest, src, dst1, idx + n);
        assert(last.bytes.subrange(
            last.offset(segs[0].ppn.0) + segs[0].start,
            last.offset(segs[0].ppn.0) + segs[0].end,
        ) == piece);
    }
}

/// Copying into stretches changes neither the extent of memory nor what is free.
proof fn lemma_scatter_shape(m: MemView, segs: Seq<Segment>, src: Seq<u8>, idx: int)
    requires
        0 <= idx,
        all_in_memory(m, segs),
    ensures
        scatter(m, segs, src, idx).0.bytes.len() == m.bytes.len(),
        scatter(m, segs, src, idx).0.base == m.base,
        scatter(m, segs, src, idx).0.free == m.free,
    decreases segs.len(),
{
    if segs.len() > 0 && idx + segs[0].size() <= src.len() {
        let n = segs[0].size();
        assert(segs[0].in_memory(m));
        let m1 = m.put(segment_offset(m, segs[0]), src.subrange(idx, idx + n));
        assert forall|i: int| 0 <= i < segs.skip(1).len() implies (#[trigger] segs.skip(1)[i]).in_memory(
            m1,
        ) by {
            assert(segs.skip(1)[i] == segs[i + 1]);
            assert(segs[i + 1].in_memory(m));
        }
        lemma_scatter_shape(m1, segs.skip(1), src, idx + n);
    }
}

/// The size of stretches in memory is not negative.
proof fn lemma_total_nonneg(segs: Seq<Segment>, m: MemView)
    requires
        all_in_memory(m, segs),
    ensures
        total_size(segs) >= 0,
    decreases segs.len(),
{
    if segs.len() > 0 {
        assert(segs[segs.len() - 1].in_memory(m));
        assert forall|i: int| 0 <= i < segs.drop_last().len() implies (#[trigger] segs.drop_last()[i]).in_memory(
            m,
        ) by {
            assert(segs.drop_last()[i] == segs[i]);
        }
        lemma_total_nonneg(segs.drop_last(), m);
    }
}

/// The words from `start` up to `end` are addresses of one half of the 39-bit
/// space.
pub open spec fn canonical(start: u64, end: u64) -> bool {
    start <= end && (end <= VA_HALF || start >= 0x1_0000_0000_0000_0000 - VA_HALF)
}

/// Number of bytes in some stretches of pages.
pub open spec fn span_total(sp: Seq<Span>) -> int
    decreases sp.len(),
{
    if sp.len() == 0 {
        0
    } else {
        span_total(sp.drop_last()) + (sp.last().hi - sp.last().lo)
    }
}

proof fn lemma_span_total_first(sp: Seq<Span>)
    requires
        sp.len() > 0,
    ensures
        span_total(sp) == (sp[0].hi - sp[0].lo) + span_total(sp.skip(1)),
    decreases sp.len(),
{
    if sp.len() == 1 {
        assert(sp.drop_last() =~= Seq::empty());
        assert(sp.skip(1) =~= Seq::empty());
    } else {
        lemma_span_total_first(sp.drop_last());
        assert(sp.skip(1).drop_last() =~= sp.drop_last().skip(1));
    }
}

/// Within the page of `s`, the stretch up to `e` goes to the end of the page or to
/// `e`, whichever comes first.
proof fn lemma_page_stretch(s: int, e: int)
    requires
        0 <= s < e,
    ensures
        ({
            let lo = s % 4096;
            let page_end = (s / 4096 + 1) * 4096;
            let stop = if page_end <= e { page_end } else { e };
            let n = if e - s <= 4096 - lo { e - s } else { 4096 - lo };
            &&& stop == s + n
            &&& 0 < n
            &&& (if stop % 4096 == 0 { 4096 } else { stop % 4096 }) == lo + n
        }),
{
}

/// A stretch of a page that begins at the address `va` and goes to the end of the
/// page or to the address `end`, whichever comes first.
#[verifier::opaque]
pub open spec fn stretch_at(sp: Span, va: int, end: int) -> bool {
    &&& sp.vpn == va % (VA_SPAN as int) / (PAGE_SIZE as int)
    &&& sp.lo == va % (PAGE_SIZE as int)
    &&& sp.hi - sp.lo == if end - va <= 4096 - sp.lo {
        end - va
    } else {
        4096 - sp.lo
    }
}

/// The first stretch of a range of addresses, and where the next one begins.
pub proof fn lemma_first_span(start: u64, end: u64)
    requires
        canonical(start, end),
        start < end,
    ensures
        end_reached(end),
        stretch_at(span_at(start, end), start as int, end as int),
        ({
            let n = span_at(start, end).hi - span_at(start, end).lo;
            &&& 0 < n <= end - start
            &&& start + n == end ==> span_next(start, end) >= end
            &&& start + n < end ==> span_next(start, end) == start + n
        }),
{
    reveal(stretch_at);
    let s = (start % VA_SPAN) as int;
    let e = (end % VA_SPAN) as int;
    if end <= VA_HALF {
        assert(s == start && e == end);
    } else {
        let k = 0x1_0000_0000_0000_0000 - VA_SPAN;
        assert(s == start - k && e == end - k);
    }
    lemma_page_stretch(s, e);
    assert(s % 4096 == start % 4096);
    let n = span_at(start, end).hi - span_at(start, end).lo;
    assert(span_stop(start, end) == s + n);
}

/// The stretches in `sp` follow one another from the address `va` on.
pub open spec fn stretches_from(sp: Seq<Span>, va: int, end: int) -> bool {
    forall|i: int|
        0 <= i < sp.len() ==> stretch_at(#[trigger] sp[i], va + span_total(sp.take(i)), end)
}

proof fn lemma_stretches_from(sp0: Span, rest: Seq<Span>, va: int, end: int)
    requires
        stretch_at(sp0, va, end),
        stretches_from(rest, va + (sp0.hi - sp0.lo), end),
    ensures
        stretches_from(seq![sp0] + rest, va, end),
        span_total(seq![sp0] + rest) == (sp0.hi - sp0.lo) + span_total(rest),
{
    let all = seq![sp0] + rest;
    lemma_span_total_first(all);
    assert(all.skip(1) =~= rest);
    assert forall|i: int| 0 <= i < all.len() implies stretch_at(
        #[trigger] all[i],
        va + span_total(all.take(i)),
        end,
    ) by {
        if i == 0 {
            assert(all.take(0) =~= Seq::empty());
        } else {
            assert(all[i] == rest[i - 1]);
            lemma_span_total_first(all.take(i));
            assert(all.take(i).skip(1) =~= rest.take(i - 1));
        }
    }
}

/// The stretches of a range of addresses follow one another from its first
/// address on, each going to the end of its page or of the range; together they
/// have as many bytes as the range.
pub proof fn law_spans_cover_range(start: u64, end: u64)
    requires
        canonical(start, end),
    ensures
        span_total(spans(start, end)) == end - start,
        stretches_from(spans(start, end), start as int, end as int),
    decreases end - start,
{
    if start < end {
        lemma_first_span(start, end);
        lemma_spans_unfold(start, end);
        let sp0 = span_at(start, end);
        let next = span_next(start, end);
        let rest = spans(next, end);
        if start + (sp0.hi - sp0.lo) == end {
            assert(rest =~= Seq::empty());
        } else {
            law_spans_cover_range(next, end);
        }
        lemma_stretches_from(sp0, rest, start as int, end as int);
    } else {
        assert(spans(start, end) =~= Seq::empty());
    }
}

/// Copying into frames that are not tables changes no table.
pub proof fn lemma_scatter_keeps_tables(m: MemView, root: u64, segs: Seq<Segment>, src: Seq<u8>)
    requires
        all_in_memory(m, segs),
        forall|i: int| 0 <= i < segs.len() ==> !is_table(m, root, (#[trigger] segs[i]).ppn.0),
    ensures
        ({
            let n = scatter(m, segs, src, 0).0;
            &&& n.base == m.base
            &&& n.bytes.len() == m.bytes.len()
            &&& n.free == m.free
            &&& forall|t: u64, k: u64|
                is_table(m, root, t) && m.backed(t) && k < 512 ==> #[trigger] n.pte(t, k) == m.pte(
                    t,
                    k,
                )
        }),
{
    let n = scatter(m, segs, src, 0).0;
    lemma_scatter_shape(m, segs, src, 0);
    assert forall|t: u64, k: u64| is_table(m, root, t) && m.backed(t) && k < 512 implies #[trigger] n.pte(
        t,
        k,
    ) == m.pte(t, k) by {
        let o = m.offset(t) + k * 8;
        assert forall|p: int| o <= p < o + 8 implies n.bytes[p] == m.bytes[p] by {
            assert forall|i: int| 0 <= i < segs.len() implies !(segment_offset(m, #[trigger] segs[i])
                <= p < segment_offset(m, segs[i]) + segs[i].size()) by {
                let b = segs[i].ppn.0;
                assert(b != t);
                assert(segs[i].in_memory(m));
                if b < t {
                    assert((t - m.base) * 4096 >= (b - m.base) * 4096 + 4096);
                } else {
                    assert((b - m.base) * 4096 >= (t - m.base) * 4096 + 4096);
                }
            }
            lemma_scatter_outside(m, segs, src, 0, p);
        }
        assert(n.bytes.subrange(o, o + 8) =~= m.bytes.subrange(o, o + 8));
    }
}

/// Copying into frames that are not tables changes no translation.
proof fn lemma_scatter_keeps_lookup(m: MemView, root: u64, segs: Seq<Segment>, src: Seq<u8>, v: u64)
    requires
        all_in_memory(m, segs),
        path_backed(m, root, v),
        forall|i: int| 0 <= i < segs.len() ==> !is_table(m, root, (#[trigger] segs[i]).ppn.0),
    ensures
        lookup(scatter(m, segs, src, 0).0, root, v) == lookup(m, root, v),
        path_backed(scatter(m, segs, src, 0).0, root, v),
{
    let n = scatter(m, segs, src, 0).0;
    lemma_scatter_keeps_tables(m, root, segs, src);
    let a = vpn_index(v, 0);
    let b = vpn_index(v, 1);
    let c = vpn_index(v, 2);
    assert(n.pte(root, a) == m.pte(root, a));
    if table1(m, root, a) is Some {
        let t1 = table1(m, root, a)->0;
        assert(is_table(m, root, t1));
        assert(n.pte(t1, b) == m.pte(t1, b));
        if table2(m, root, a, b) is Some {
            let t2 = table2(m, root, a, b)->0;
            assert(is_table(m, root, t2));
            assert(n.pte(t2, c) == m.pte(t2, c));
        }
    }
}

/// The stretches of frames behind some stretches of pages have the same size.
proof fn lemma_segments_size(m: MemView, root: u64, sp: Seq<Span>)
    requires
        forall|i: int| 0 <= i < sp.len() ==> 0 <= (#[trigger] sp[i]).lo <= sp[i].hi <= 4096,
    ensures
        total_size(segments_of(m, root, sp)) == span_total(sp),
    decreases sp.len(),
{
    if sp.len() > 0 {
        assert(segments_of(m, root, sp).drop_last() =~= segments_of(m, root, sp.drop_last()));
        assert forall|i: int| 0 <= i < sp.drop_last().len() implies 0 <= (#[trigger] sp.drop_last()[i]).lo
            <= sp.drop_last()[i].hi <= 4096 by {
            assert(sp.drop_last()[i] == sp[i]);
        }
        lemma_segments_size(m, root, sp.drop_last());
        assert(segments_of(m, root, sp).last().size() == sp.last().hi - sp.last().lo);
    }
}

/// A page without access that is met on the way decides: the access is not granted.
pub proof fn law_denied_is_not_granted(m: MemView, root: u64, start: u64, end: u64, flag: int)
    requires
        denied(m, root, start, end, flag),
    ensures
        !granted(m, root, start, end, flag),
{
    let n = choose|n: nat| denied_within(m, root, start, end, flag, n);
    lemma_denied(m, root, start, end, flag, n);
}

/// Where a user may not access the page that a range begins in, that is found out and
/// the access is refused, whatever words the range lies between.
pub proof fn law_first_page_decides(m: MemView, root: u64, start: u64, end: u64, flag: int)
    requires
        start < end,
        path_backed(m, root, start % VA_SPAN / PAGE_SIZE),
        !user_may(m, root, start % VA_SPAN / PAGE_SIZE, flag),
    ensures
        can_walk(m, root, start, end, flag),
        !granted(m, root, start, end, flag),
{
    assert(denied_within(m, root, start, end, flag, 0));
    lemma_denied(m, root, start, end, flag, 0);
}

/// What is copied to user memory is read back from there: after as many bytes as
/// the range is long were copied to pages that a user may read and write, a copy
/// from the range gives those bytes. The pages must lie in different frames, none
/// of which holds a table of the translation.
pub proof fn law_user_copy_round_trip(
    m: MemView,
    root: u64,
    start: u64,
    end: u64,
    src: Seq<u8>,
    dst: Seq<u8>,
)
    requires
        m.wf(),
        canonical(start, end),
        forall|i: int|
            0 <= i < spans(start, end).len() ==> path_backed(
                m,
                root,
                (#[trigger] spans(start, end)[i]).vpn,
            ),
        granted(m, root, start, end, 1),
        granted(m, root, start, end, 2),
        frames_backed(m, root, spans(start, end)),
        all_apart(segments_of(m, root, spans(start, end))),
        forall|i: int|
            0 <= i < spans(start, end).len() ==> !is_table(
                m,
                root,
                (#[trigger] segments_of(m, root, spans(start, end))[i]).ppn.0,
            ),
        src.len() == end - start,
        dst.len() == end - start,
    ensures
        ({
            let sp = spans(start, end);
            let (n, copied) = scatter(m, segments_of(m, root, sp), src, 0);
            &&& copied
            &&& granted(n, root, start, end, 1)
            &&& gather(n, segments_of(n, root, sp), dst, 0) == (src, true)
        }),
{
    let sp = spans(start, end);
    let segs = segments_of(m, root, sp);
    let n = scatter(m, segs, src, 0).0;
    if start < end {
        lemma_first_span(start, end);
    }
    lemma_spans_bounds(start, end);
    law_spans_cover_range(start, end);
    lemma_segments_size(m, root, sp);
    assert forall|i: int| 0 <= i < segs.len() implies (#[trigger] segs[i]).in_memory(m) by {
        assert(m.backed(pte_ppn(lookup(m, root, sp[i].vpn)->0)));
    }
    assert(src.take(0) =~= dst.take(0));
    lemma_gather_after_scatter(m, segs, src, dst, 0);
    assert forall|i: int| 0 <= i < sp.len() implies lookup(n, root, (#[trigger] sp[i]).vpn)
        == lookup(m, root, sp[i].vpn) by {
        assert forall|j: int| 0 <= j < segs.len() implies !is_table(
            m,
            root,
            (#[trigger] segs[j]).ppn.0,
        ) by {}
        lemma_scatter_keeps_lookup(m, root, segs, src, sp[i].vpn);
    }
    assert(segments_of(n, root, sp) =~= segs);
    assert forall|i: int| 0 <= i < sp.len() implies user_may(n, root, (#[trigger] sp[i]).vpn, 1) by {
        assert(user_may(m, root, sp[i].vpn, 1));
    }
}

/// A value that was stored at the translated address of `ptr` is read back from there:
/// the address is translated as before, and the bytes are those that were stored. The
/// value must lie in memory, in frames that hold no table.
pub proof fn law_stored_value_is_read_back(m: MemView, root: u64, ptr: u64, d: Seq<u8>)
    requires
        tree_wf(m, root),
        translated(m, root, ptr) is Some,
        ({
            let pa = translated(m, root, ptr)->0;
            &&& m.base * PAGE_SIZE <= pa
            &&& pa + d.len() <= m.base * PAGE_SIZE + m.bytes.len()
            &&& forall|t: u64| #[trigger]
                is_table(m, root, t) ==> pa + d.len() <= t * PAGE_SIZE || (t + 1) * PAGE_SIZE <= pa
        }),
    ensures
        ({
            let pa = translated(m, root, ptr)->0;
            let at = pa - m.base * PAGE_SIZE;
            let n = m.put(at, d);
            &&& tree_wf(n, root)
            &&& translated(n, root, ptr) == Some(pa)
            &&& n.bytes.subrange(at, at + d.len()) == d
            &&& forall|v: u64| #[trigger] mapping(n, root, v) == mapping(m, root, v)
        }),
{
    let pa = translated(m, root, ptr)->0;
    let at = pa - m.base * PAGE_SIZE;
    let n = m.put(at, d);
    lemma_splice_same(m.bytes, at, d);
    assert forall|t: u64, k: u64| is_table(m, root, t) && k < 512 implies #[trigger] n.pte(t, k)
        == m.pte(t, k) by {
        lemma_table_in_use(m, root, t);
        let o = m.offset(t) + k * 8;
        lemma_splice_apart(m.bytes, at, d, o, o + 8);
    }
    assert(n.wf()) by {
        assert forall|i: int| 0 <= i < n.free.len() implies n.backed(#[trigger] n.free[i]) by {
            assert(m.backed(m.free[i]));
        }
    }
    assert forall|t: u64| #[trigger] is_table(m, root, t) implies !n.free.contains(t) by {
        lemma_table_in_use(m, root, t);
    }
    lemma_same_tables(m, n, root);
    let v = ptr % VA_SPAN / PAGE_SIZE;
    assert(is_table(m, root, root));
    assert(n.pte(root, vpn_index(v, 0)) == m.pte(root, vpn_index(v, 0)));
    if table1(m, root, vpn_index(v, 0)) is Some {
        let t1 = table1(m, root, vpn_index(v, 0))->0;
        assert(is_table(m, root, t1));
        assert(n.pte(t1, vpn_index(v, 1)) == m.pte(t1, vpn_index(v, 1)));
        if leaf_table(m, root, v) is Some {
            let t2 = table2(m, root, vpn_index(v, 0), vpn_index(v, 1))->0;
            assert(is_table(m, root, t2));
            assert(n.pte(t2, vpn_index(v, 2)) == m.pte(t2, vpn_index(v, 2)));
        }
    }
}

} // verus!
