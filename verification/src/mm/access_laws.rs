//! What access to user memory does to each single byte.
use crate::bytes::splice;
use crate::mm::address::sign_extended;
use crate::mm::entry::pte_ppn;
use crate::mm::memory::MemView;
use crate::mm::user::{
    byte_readable, can_walk, frames_backed, gather, granted, lemma_spans_unfold, range_ok, scatter,
    segments_of, span_at, span_next, spans, string_at, translated, user_byte, user_may,
    visited_backed, Span,
};
use crate::mm::user_laws::{canonical, lemma_first_span, stretch_at};
use crate::mm::walk::{lookup, path_backed};
use vstd::prelude::*;

verus! {

/// A user may read a page where its entry is valid, is for users and is readable, and may
/// write it where the entry is valid, is for users and is writable; the other bits of the
/// entry do not matter.
pub proof fn law_three_bits_decide_access(m: MemView, root: u64, vpn: u64)
    ensures
        user_may(m, root, vpn, 1) == match lookup(m, root, vpn) {
            Some(e) => e & 0x13 == 0x13,
            None => false,
        },
        user_may(m, root, vpn, 2) == match lookup(m, root, vpn) {
            Some(e) => e & 0x15 == 0x15,
            None => false,
        },
{
    if let Some(e) = lookup(m, root, vpn) {
        assert((e & 0x13 == 0x13) == (e % 2 == 1 && (e / 16) % 2 == 1 && (e / 2) % 2 == 1) && (e
            & 0x15 == 0x15) == (e % 2 == 1 && (e / 16) % 2 == 1 && (e / 4) % 2 == 1))
            by (bit_vector);
    }
}

/// Access to a range of addresses is granted exactly where a user may access the page of
/// every byte in it. The addresses lie in one half of the 39-bit space.
#[verifier::spinoff_prover]
pub proof fn law_every_byte_needs_access(m: MemView, root: u64, start: u64, end: u64, flag: int)
    requires
        start <= end,
        end <= 0x40_0000_0000 || start >= 0x1_0000_0000_0000_0000 - 0x40_0000_0000,
    ensures
        granted(m, root, start, end, flag) == (forall|va: u64|
            start <= va < end ==> #[trigger] user_may(m, root, va % 0x80_0000_0000 / 4096, flag)),
    decreases end - start,
{
    if start < end {
        lemma_first_span(start, end);
        lemma_spans_unfold(start, end);
        reveal(stretch_at);
        let sp = spans(start, end);
        let first = span_at(start, end);
        let next = span_next(start, end);
        let n = first.hi - first.lo;
        assert(range_ok(start, end));
        if start + n < end {
            law_every_byte_needs_access(m, root, next, end, flag);
            let rest = spans(next, end);
            lemma_first_span(next, end);
            assert(range_ok(next, end));
            assert(sp[0] == first);
            assert(forall|i: int| 0 <= i < rest.len() ==> rest[i] == sp[i + 1]);
            if granted(m, root, start, end, flag) {
                assert forall|i: int| 0 <= i < rest.len() implies user_may(
                    m,
                    root,
                    (#[trigger] rest[i]).vpn,
                    flag,
                ) by {
                    assert(user_may(m, root, sp[i + 1].vpn, flag));
                }
                assert forall|va: u64| start <= va < end implies #[trigger] user_may(
                    m,
                    root,
                    va % 0x80_0000_0000 / 4096,
                    flag,
                ) by {
                    if va < start + n {
                        lemma_same_page(start, va, n);
                        assert(user_may(m, root, sp[0].vpn, flag));
                    }
                }
            }
            if forall|va: u64|
                start <= va < end ==> #[trigger] user_may(
                    m,
                    root,
                    va % 0x80_0000_0000 / 4096,
                    flag,
                ) {
                assert(user_may(m, root, start % 0x80_0000_0000 / 4096, flag));
                assert(granted(m, root, next, end, flag));
                assert forall|i: int| 0 <= i < sp.len() implies user_may(
                    m,
                    root,
                    (#[trigger] sp[i]).vpn,
                    flag,
                ) by {
                    if i > 0 {
                        assert(sp[i] == rest[i - 1]);
                    }
                }
            }
        } else {
            assert(spans(next, end) =~= Seq::empty());
            assert(sp =~= seq![first]);
            assert(sp[0] == first);
            assert(user_may(m, root, start % 0x80_0000_0000 / 4096, flag) == user_may(
                m,
                root,
                first.vpn,
                flag,
            ));
            if granted(m, root, start, end, flag) {
                assert(user_may(m, root, sp[0].vpn, flag));
                assert forall|va: u64| start <= va < end implies #[trigger] user_may(
                    m,
                    root,
                    va % 0x80_0000_0000 / 4096,
                    flag,
                ) by {
                    lemma_same_page(start, va, n);
                }
            }
        }
    } else {
        assert(spans(start, end) =~= Seq::empty());
    }
}

/// The addresses of a stretch lie in one page.
#[verifier::spinoff_prover]
proof fn lemma_same_page(start: u64, va: u64, n: int)
    requires
        start <= va < start + n,
        n <= 4096 - start % 4096,
    ensures
        va % 0x80_0000_0000 / 4096 == start % 0x80_0000_0000 / 4096,
        va % 4096 == start % 4096 + (va - start),
        va / 4096 == start / 4096,
{
    let q = start / 4096;
    let r = start % 4096;
    assert(start == q * 4096 + r);
    assert(va == q * 4096 + (r + (va - start)));
    assert(va / 4096 == q);
    assert(va % 0x80_0000_0000 / 4096 == (va / 4096) % 0x800_0000) by (bit_vector);
    assert(start % 0x80_0000_0000 / 4096 == (start / 4096) % 0x800_0000) by (bit_vector);
}

/// Every range of addresses in one half of the 39-bit space can be walked where the tables
/// on the way to its pages lie in memory: whether access is granted is always found out.
pub proof fn law_ranges_can_be_walked(m: MemView, root: u64, start: u64, end: u64, flag: int)
    requires
        forall|va: u64|
            start <= va < end ==> #[trigger] path_backed(m, root, va % 0x80_0000_0000 / 4096),
        start <= end,
        end <= 0x40_0000_0000 || start >= 0x1_0000_0000_0000_0000 - 0x40_0000_0000,
    ensures
        can_walk(m, root, start, end, flag),
{
    if start < end {
        lemma_first_span(start, end);
    }
    lemma_ways_in_memory(m, root, start, end);
    assert(visited_backed(m, root, spans(start, end), flag));
}

proof fn lemma_ways_in_memory(m: MemView, root: u64, start: u64, end: u64)
    requires
        forall|va: u64|
            start <= va < end ==> #[trigger] path_backed(m, root, va % 0x80_0000_0000 / 4096),
        canonical(start, end),
    ensures
        forall|i: int|
            0 <= i < spans(start, end).len() ==> path_backed(
                m,
                root,
                (#[trigger] spans(start, end)[i]).vpn,
            ),
    decreases end - start,
{
    let sp = spans(start, end);
    if start < end {
        lemma_first_stretch(start, end);
        let first = span_at(start, end);
        let next = span_next(start, end);
        if start + (first.hi - first.lo) < end {
            lemma_ways_in_memory(m, root, next, end);
        }
        assert forall|i: int| 0 <= i < sp.len() implies path_backed(
            m,
            root,
            (#[trigger] sp[i]).vpn,
        ) by {
            if i == 0 {
                assert(path_backed(m, root, start % 0x80_0000_0000 / 4096));
            } else {
                assert(sp[i] == spans(next, end)[i - 1]);
            }
        }
    } else {
        assert(sp =~= Seq::empty());
    }
}

/// An address is translated where its page has an entry: to the same place in the frame
/// that the entry names.
#[verifier::spinoff_prover]
pub proof fn law_translation_keeps_offset(m: MemView, root: u64, va: u64)
    ensures
        translated(m, root, va) is Some == lookup(m, root, va % 0x80_0000_0000 / 4096) is Some,
        translated(m, root, va) matches Some(pa) ==> {
            &&& pa / 4096 == pte_ppn(lookup(m, root, va % 0x80_0000_0000 / 4096)->0)
            &&& pa % 4096 == va % 4096
            &&& user_byte(m, root, va) == m.bytes[pa - m.base * 4096]
        },
{
}


/// Every byte of the range is in memory.
spec fn in_memory(m: MemView, root: u64, start: u64, end: u64) -> bool {
    forall|va: u64|
        start <= va < end ==> {
            &&& #[trigger] translated(m, root, va) is Some
            &&& m.base * 4096 <= translated(m, root, va)->0 < m.base * 4096 + m.bytes.len()
        }
}

/// An address in the first stretch of a range lies in the same page as the first one, and
/// as far from it in physical memory.
#[verifier::spinoff_prover]
proof fn lemma_in_first_stretch(m: MemView, root: u64, start: u64, end: u64, va: u64)
    requires
        canonical(start, end),
        start <= va < end,
        va - start < span_at(start, end).hi - span_at(start, end).lo,
    ensures
        translated(m, root, va) is Some == translated(m, root, start) is Some,
        translated(m, root, start) is Some ==> translated(m, root, va)->0 == translated(
            m,
            root,
            start,
        )->0 + (va - start),
        va - va % 4096 == start - start % 4096,
{
    lemma_first_span(start, end);
    reveal(stretch_at);
    lemma_same_page(start, va, span_at(start, end).hi - span_at(start, end).lo);
}

/// The first stretch of a range, and where the next one begins.
#[verifier::spinoff_prover]
proof fn lemma_first_stretch(start: u64, end: u64)
    requires
        canonical(start, end),
        start < end,
    ensures
        ({
            let first = span_at(start, end);
            let n = first.hi - first.lo;
            let next = span_next(start, end);
            &&& 0 < n <= end - start
            &&& 0 <= first.lo < first.hi <= 4096
            &&& first.lo == start % 4096
            &&& first.vpn == start % 0x80_0000_0000 / 4096
            &&& spans(start, end) == seq![first] + spans(next, end)
            &&& start + n == end ==> spans(next, end).len() == 0
            &&& start + n < end ==> next == start + n && canonical(next, end)
            &&& start + n == end || start + n == start - start % 4096 + 4096
        }),
{
    lemma_first_span(start, end);
    lemma_spans_unfold(start, end);
    reveal(stretch_at);
}

/// The first stretch of a range, as a stretch of a frame.
#[verifier::spinoff_prover]
proof fn lemma_first_segment(m: MemView, root: u64, start: u64, end: u64)
    requires
        m.wf(),
        canonical(start, end),
        start < end,
        in_memory(m, root, start, end),
    ensures
        ({
            let first = span_at(start, end);
            let n = first.hi - first.lo;
            let segs = segments_of(m, root, spans(start, end));
            let at = translated(m, root, start)->0 - m.base * 4096;
            &&& segs.len() > 0
            &&& segs[0].size() == n
            &&& m.offset(segs[0].ppn.0) + segs[0].start == at
            &&& m.offset(segs[0].ppn.0) + segs[0].end == at + n
            &&& 0 <= at
            &&& at + n <= m.bytes.len()
            &&& segs.skip(1) == segments_of(m, root, spans(span_next(start, end), end))
        }),
{
    lemma_first_stretch(start, end);
    let sp = spans(start, end);
    let first = span_at(start, end);
    let n = first.hi - first.lo;
    let segs = segments_of(m, root, sp);
    assert(sp[0] == first);
    assert(sp.skip(1) =~= spans(span_next(start, end), end));
    assert(segs.skip(1) =~= segments_of(m, root, spans(span_next(start, end), end)));
    let last = (start + n - 1) as u64;
    lemma_in_first_stretch(m, root, start, end, last);
    assert(translated(m, root, last) is Some);
    assert(translated(m, root, start) is Some);
}

/// The bytes `n` came from `c` by writing `d[j]` to place `p[j]`, one after the other.
spec fn scattered(c: Seq<u8>, n: Seq<u8>, p: Seq<int>, d: Seq<u8>) -> bool {
    &&& n.len() == c.len()
    &&& forall|x: int|
        0 <= x < c.len() && (forall|j: int| 0 <= j < p.len() ==> #[trigger] p[j] != x)
            ==> #[trigger] n[x] == c[x]
    &&& forall|j: int|
        0 <= j < p.len() && (forall|i: int| j < i < p.len() ==> #[trigger] p[i] != p[j])
            ==> n[#[trigger] p[j]] == d[j]
}

/// Writing a stretch, and then the rest.
proof fn lemma_scattered_step(
    c: Seq<u8>,
    n: Seq<u8>,
    at: int,
    p: Seq<int>,
    d: Seq<u8>,
    k: int,
)
    requires
        0 <= k <= p.len(),
        p.len() <= d.len(),
        0 <= at,
        at + k <= c.len(),
        forall|j: int| 0 <= j < k ==> #[trigger] p[j] == at + j,
        scattered(splice(c, at, d.take(k)), n, p.skip(k), d.skip(k)),
    ensures
        scattered(c, n, p, d),
{
    let c2 = splice(c, at, d.take(k));
    let p2 = p.skip(k);
    assert forall|x: int|
        0 <= x < c.len() && (forall|j: int| 0 <= j < p.len() ==> #[trigger] p[j]
            != x) implies #[trigger] n[x] == c[x] by {
        if at <= x < at + k {
            assert(p[x - at] == x);
        }
        assert(c2[x] == c[x]);
        assert(forall|j: int| 0 <= j < p2.len() ==> #[trigger] p2[j] == p[j + k]);
        assert(n[x] == c2[x]);
    }
    assert forall|j: int|
        0 <= j < p.len() && (forall|i: int| j < i < p.len() ==> #[trigger] p[i]
            != p[j]) implies n[#[trigger] p[j]] == d[j] by {
        if j < k {
            let x = p[j];
            assert(c2[x] == d.take(k)[j]);
            assert forall|i: int| 0 <= i < p2.len() implies #[trigger] p2[i] != x by {
                assert(p2[i] == p[i + k]);
            }
            assert(n[x] == c2[x]);
        } else {
            assert(p2[j - k] == p[j]);
            assert forall|i: int| j - k < i < p2.len() implies #[trigger] p2[i] != p2[j - k] by {
                assert(p2[i] == p[i + k]);
            }
            assert(d.skip(k)[j - k] == d[j]);
        }
    }
}

/// Number of bytes that are copied to the addresses from `start` up to `end` where `room`
/// bytes are at hand: all of them, or else those up to the end of a page.
spec fn copied_len(start: int, end: int, room: int) -> int {
    if end - start <= room {
        end - start
    } else {
        let n = room - (start + room) % 4096;
        if n >= 0 {
            n
        } else {
            0
        }
    }
}

/// Where the bytes of a range lie in memory.
spec fn places(m: MemView, root: u64, start: u64, n: int) -> Seq<int> {
    Seq::new(
        n as nat,
        |j: int| translated(m, root, (start + j) as u64)->0 - m.base * 4096,
    )
}

/// How many bytes are copied after the first stretch.
#[verifier::spinoff_prover]
proof fn lemma_copied_len(start: int, end: int, room: int, k: int)
    requires
        0 <= start,
        0 < k <= end - start,
        k <= 4096 - start % 4096,
        0 <= room,
        start + k == end || start + k == start - start % 4096 + 4096,
    ensures
        k > room ==> copied_len(start, end, room) == 0,
        k <= room ==> copied_len(start, end, room) == k + copied_len(start + k, end, room - k),
        0 <= copied_len(start, end, room) <= room,
        copied_len(start, end, room) <= end - start,
{
    if end - start > room {
        if k > room {
            assert((start + room) / 4096 == start / 4096);
        } else {
            assert((start + k) % 4096 == 0);
            assert(start + room >= start + k);
            assert((start + room) - (start + room) % 4096 >= start + k);
        }
    }
}

/// What a stretch that was copied holds, and then the rest.
proof fn lemma_gathered_step(
    bytes: Seq<u8>,
    dst: Seq<u8>,
    res: Seq<u8>,
    at: int,
    idx: int,
    p: Seq<int>,
    k: int,
)
    requires
        0 <= k <= p.len(),
        0 <= idx,
        idx + p.len() <= dst.len(),
        0 <= at,
        at + k <= bytes.len(),
        forall|j: int| 0 <= j < k ==> #[trigger] p[j] == at + j,
        gathered(
            bytes,
            splice(dst, idx, bytes.subrange(at, at + k)),
            res,
            idx + k,
            p.skip(k),
        ),
    ensures
        gathered(bytes, dst, res, idx, p),
{
    let d = bytes.subrange(at, at + k);
    let dst2 = splice(dst, idx, d);
    let p2 = p.skip(k);
    assert forall|q: int| 0 <= q < dst.len() implies #[trigger] res[q] == if idx <= q < idx
        + p.len() {
        bytes[p[q - idx]]
    } else {
        dst[q]
    } by {
        assert(res[q] == if idx + k <= q < idx + k + p2.len() {
            bytes[p2[q - (idx + k)]]
        } else {
            dst2[q]
        });
        if idx <= q < idx + k {
            assert(dst2[q] == d[q - idx]);
            assert(p[q - idx] == at + (q - idx));
        } else if idx + k <= q < idx + p.len() {
            assert(p2[q - (idx + k)] == p[q - idx]);
        } else {
            assert(dst2[q] == dst[q]);
        }
    }
}

/// The bytes `res` came from `dst` by putting the bytes at the places `p` there, from place
/// `idx` on.
spec fn gathered(bytes: Seq<u8>, dst: Seq<u8>, res: Seq<u8>, idx: int, p: Seq<int>) -> bool {
    &&& res.len() == dst.len()
    &&& forall|q: int|
        0 <= q < dst.len() ==> #[trigger] res[q] == if idx <= q < idx + p.len() {
            bytes[p[q - idx]]
        } else {
            dst[q]
        }
}

proof fn lemma_gather_bytes(
    m: MemView,
    root: u64,
    start: u64,
    end: u64,
    dst: Seq<u8>,
    idx: int,
)
    requires
        m.wf(),
        canonical(start, end),
        in_memory(m, root, start, end),
        0 <= idx <= dst.len(),
    ensures
        ({
            let (res, ok) = gather(m, segments_of(m, root, spans(start, end)), dst, idx);
            let l = copied_len(start as int, end as int, dst.len() - idx);
            &&& ok == (idx + (end - start) <= dst.len())
            &&& gathered(m.bytes, dst, res, idx, places(m, root, start, l))
        }),
    decreases end - start,
{
    let segs = segments_of(m, root, spans(start, end));
    let room = dst.len() - idx;
    let l = copied_len(start as int, end as int, room);
    let p = places(m, root, start, l);
    if start < end {
        lemma_first_stretch(start, end);
        lemma_first_segment(m, root, start, end);
        let k = span_at(start, end).hi - span_at(start, end).lo;
        lemma_copied_len(start as int, end as int, room, k);
        let at = translated(m, root, start)->0 - m.base * 4096;
        assert(translated(m, root, start) is Some);
        let (res, ok) = gather(m, segs, dst, idx);
        if k <= room {
            let s2 = (start + k) as u64;
            let d = m.bytes.subrange(at, at + k);
            let dst2 = splice(dst, idx, d);
            assert(segs.skip(1) =~= segments_of(m, root, spans(s2, end))) by {
                if s2 == end {
                    assert(spans(end, end) =~= Seq::empty());
                }
            }
            lemma_gather_bytes(m, root, s2, end, dst2, idx + k);
            assert((res, ok) == gather(m, segs.skip(1), dst2, idx + k));
            assert forall|j: int| 0 <= j < k implies #[trigger] p[j] == at + j by {
                lemma_in_first_stretch(m, root, start, end, (start + j) as u64);
            }
            assert(p.skip(k) =~= places(m, root, s2, l - k));
            lemma_gathered_step(m.bytes, dst, res, at, idx, p, k);
        }
    } else {
        assert(spans(start, end) =~= Seq::empty());
        assert(segs =~= Seq::empty());
    }
}

/// Copying a range of user memory to a kernel buffer: byte `p` of the buffer becomes the
/// byte at address `start + p`, which lies where that address is translated to, and what
/// the range does not reach stays. The copy succeeds where the buffer is long enough; else
/// only what lies before the last page boundary that the buffer reaches is copied.
#[verifier::spinoff_prover]
pub proof fn law_copy_in_reads_each_byte(
    m: MemView,
    root: u64,
    start: u64,
    end: u64,
    dst: Seq<u8>,
)
    requires
        m.wf(),
        start <= end,
        end <= 0x40_0000_0000 || start >= 0x1_0000_0000_0000_0000 - 0x40_0000_0000,
        forall|va: u64|
            start <= va < end ==> {
                &&& #[trigger] translated(m, root, va) is Some
                &&& m.base * 4096 <= translated(m, root, va)->0 < m.base * 4096 + m.bytes.len()
            },
    ensures
        ({
            let (res, ok) = gather(m, segments_of(m, root, spans(start, end)), dst, 0);
            let reach = start + dst.len();
            let stop = if end <= reach {
                end as int
            } else {
                reach - reach % 4096
            };
            &&& ok == (end - start <= dst.len())
            &&& res.len() == dst.len()
            &&& forall|p: int|
                0 <= p < dst.len() ==> #[trigger] res[p] == if start + p < stop {
                    m.bytes[translated(m, root, (start + p) as u64)->0 - m.base * 4096]
                } else {
                    dst[p]
                }
        }),
{
    lemma_gather_bytes(m, root, start, end, dst, 0);
    let (res, ok) = gather(m, segments_of(m, root, spans(start, end)), dst, 0);
    let reach = start + dst.len();
    let stop = if end <= reach {
        end as int
    } else {
        reach - reach % 4096
    };
    let l = copied_len(start as int, end as int, dst.len() as int);
    let ps = places(m, root, start, l);
    assert(stop >= start ==> l == stop - start);
    assert(stop < start ==> l == 0);
    assert forall|p: int| 0 <= p < dst.len() implies #[trigger] res[p] == if start + p < stop {
        m.bytes[translated(m, root, (start + p) as u64)->0 - m.base * 4096]
    } else {
        dst[p]
    } by {
        if start + p < stop {
            assert(ps[p] == translated(m, root, (start + p) as u64)->0 - m.base * 4096);
        }
    }
}

proof fn lemma_scatter_bytes(
    m: MemView,
    c: MemView,
    root: u64,
    start: u64,
    end: u64,
    src: Seq<u8>,
    idx: int,
)
    requires
        m.wf(),
        c.base == m.base,
        c.bytes.len() == m.bytes.len(),
        canonical(start, end),
        in_memory(m, root, start, end),
        0 <= idx <= src.len(),
    ensures
        ({
            let (n, ok) = scatter(c, segments_of(m, root, spans(start, end)), src, idx);
            let l = copied_len(start as int, end as int, src.len() - idx);
            &&& ok == (idx + (end - start) <= src.len())
            &&& n.base == c.base
            &&& n.free == c.free
            &&& scattered(c.bytes, n.bytes, places(m, root, start, l), src.skip(idx))
        }),
    decreases end - start,
{
    let segs = segments_of(m, root, spans(start, end));
    let room = src.len() - idx;
    let l = copied_len(start as int, end as int, room);
    let p = places(m, root, start, l);
    let d = src.skip(idx);
    if start < end {
        lemma_first_stretch(start, end);
        lemma_first_segment(m, root, start, end);
        let k = span_at(start, end).hi - span_at(start, end).lo;
        lemma_copied_len(start as int, end as int, room, k);
        let at = translated(m, root, start)->0 - m.base * 4096;
        assert(translated(m, root, start) is Some);
        assert(c.offset(segs[0].ppn.0) == m.offset(segs[0].ppn.0));
        let (n, ok) = scatter(c, segs, src, idx);
        if k <= room {
            let s2 = (start + k) as u64;
            let c2 = c.put(at, src.subrange(idx, idx + k));
            assert(segs.skip(1) =~= segments_of(m, root, spans(s2, end))) by {
                if s2 == end {
                    assert(spans(end, end) =~= Seq::empty());
                }
            }
            lemma_scatter_bytes(m, c2, root, s2, end, src, idx + k);
            assert((n, ok) == scatter(c2, segs.skip(1), src, idx + k));
            assert forall|j: int| 0 <= j < k implies #[trigger] p[j] == at + j by {
                lemma_in_first_stretch(m, root, start, end, (start + j) as u64);
            }
            assert(d.take(k) =~= src.subrange(idx, idx + k));
            assert(d.skip(k) =~= src.skip(idx + k));
            assert(p.skip(k) =~= places(m, root, s2, l - k));
            lemma_scattered_step(c.bytes, n.bytes, at, p, d, k);
        }
    } else {
        assert(spans(start, end) =~= Seq::empty());
        assert(segs =~= Seq::empty());
    }
}

/// Copying kernel data to a range of user memory: the byte at address `start + p`, which
/// lies where that address is translated to, becomes byte `p` of the data; where two
/// addresses lie in the same place, the higher one wins. No other byte of memory changes.
/// The copy succeeds where there is data enough; else only what lies before the last page
/// boundary that the data reaches is copied.
#[verifier::spinoff_prover]
pub proof fn law_copy_out_writes_each_byte(
    m: MemView,
    root: u64,
    start: u64,
    end: u64,
    src: Seq<u8>,
)
    requires
        m.wf(),
        start <= end,
        end <= 0x40_0000_0000 || start >= 0x1_0000_0000_0000_0000 - 0x40_0000_0000,
        forall|va: u64|
            start <= va < end ==> {
                &&& #[trigger] translated(m, root, va) is Some
                &&& m.base * 4096 <= translated(m, root, va)->0 < m.base * 4096 + m.bytes.len()
            },
    ensures
        ({
            let (n, ok) = scatter(m, segments_of(m, root, spans(start, end)), src, 0);
            let reach = start + src.len();
            let stop = if end <= reach {
                end as int
            } else {
                reach - reach % 4096
            };
            &&& ok == (end - start <= src.len())
            &&& n.base == m.base
            &&& n.free == m.free
            &&& n.bytes.len() == m.bytes.len()
            &&& forall|va: u64|
                start <= va < stop && (forall|w: u64|
                    va < w < stop ==> #[trigger] translated(m, root, w)->0 != translated(
                        m,
                        root,
                        va,
                    )->0) ==> n.bytes[(#[trigger] translated(m, root, va))->0 - m.base * 4096]
                    == src[va - start]
            &&& forall|x: int|
                0 <= x < m.bytes.len() && (forall|va: u64|
                    start <= va < stop ==> #[trigger] translated(m, root, va)->0 - m.base * 4096
                        != x) ==> #[trigger] n.bytes[x] == m.bytes[x]
        }),
{
    lemma_scatter_bytes(m, m, root, start, end, src, 0);
    let n = scatter(m, segments_of(m, root, spans(start, end)), src, 0).0;
    let reach = start + src.len();
    let stop = if end <= reach {
        end as int
    } else {
        reach - reach % 4096
    };
    let l = copied_len(start as int, end as int, src.len() as int);
    let p = places(m, root, start, l);
    assert(stop >= start ==> l == stop - start);
    assert(stop < start ==> l == 0);
    assert(src.skip(0) =~= src);
    assert forall|va: u64|
        start <= va < stop && (forall|w: u64|
            va < w < stop ==> #[trigger] translated(m, root, w)->0 != translated(
                m,
                root,
                va,
            )->0) implies n.bytes[(#[trigger] translated(m, root, va))->0 - m.base * 4096]
        == src[va - start] by {
        let j = va - start;
        assert((start + j) as u64 == va);
        assert(p[j] == translated(m, root, va)->0 - m.base * 4096);
        assert forall|i: int| j < i < p.len() implies #[trigger] p[i] != p[j] by {
            let w = (start + i) as u64;
            assert(translated(m, root, w)->0 != translated(m, root, va)->0);
        }
    }
    assert forall|x: int|
        0 <= x < m.bytes.len() && (forall|va: u64|
            start <= va < stop ==> #[trigger] translated(m, root, va)->0 - m.base * 4096
                != x) implies #[trigger] n.bytes[x] == m.bytes[x] by {
        assert forall|j: int| 0 <= j < p.len() implies #[trigger] p[j] != x by {
            let va = (start + j) as u64;
            assert(translated(m, root, va)->0 - m.base * 4096 != x);
        }
    }
}

/// A range is walked page by page. The first stretch lies in the page of the word `start`
/// and begins there. It goes on to the end of the page where the low 39 bits of `end` lie
/// beyond that; the walk goes on at the next page. Else it goes on to the low 39 bits of
/// `end`, and the walk goes on there.
#[verifier::spinoff_prover]
pub proof fn law_walk_goes_page_by_page(start: u64, end: u64)
    requires
        start < end,
        end < 0x80_0000_0000 || end % 0x80_0000_0000 >= 0x40_0000_0000,
    ensures
        ({
            let sp = spans(start, end);
            let page = start % 0x80_0000_0000 / 4096;
            let last = end % 0x80_0000_0000;
            &&& sp.len() > 0
            &&& sp[0].vpn == page
            &&& sp[0].lo == start % 4096
            &&& 0 < sp[0].hi <= 4096
            &&& (page + 1) * 4096 <= last ==> sp[0].hi == 4096 && sp.skip(1) == spans(
                sign_extended((page + 1) * 4096) as u64,
                end,
            )
            &&& (page + 1) * 4096 > last ==> (sp[0].hi - last) % 4096 == 0 && sp.skip(1) == spans(
                sign_extended(last as int) as u64,
                end,
            )
            &&& range_ok(start, end) == (sp[0].lo <= sp[0].hi)
        }),
{
    lemma_spans_unfold(start, end);
    let next = span_next(start, end);
    assert(spans(start, end).skip(1) =~= spans(next, end));
    assert(spans(start, end)[0] == span_at(start, end));
    let last = (end % 0x80_0000_0000) as int;
    assert((last % 4096 - last) % 4096 == 0);
    assert((4096 - last) % 4096 == 0 || last % 4096 != 0);
}

/// A range that is empty has no stretches, and can always be accessed.
pub proof fn law_empty_range(m: MemView, root: u64, start: u64, end: u64, flag: int)
    requires
        start >= end,
    ensures
        spans(start, end).len() == 0,
        granted(m, root, start, end, flag),
{
}

/// Each stretch of a page becomes the same stretch of the frame that the entry of the page
/// names.
pub proof fn law_stretches_keep_their_place(m: MemView, root: u64, sp: Seq<Span>, i: int)
    requires
        0 <= i < sp.len(),
        0 <= sp[i].lo <= sp[i].hi <= 4096,
    ensures
        segments_of(m, root, sp).len() == sp.len(),
        segments_of(m, root, sp)[i].ppn.0 == pte_ppn(lookup(m, root, sp[i].vpn)->0),
        segments_of(m, root, sp)[i].start == sp[i].lo,
        segments_of(m, root, sp)[i].end == sp[i].hi,
        segments_of(m, root, sp)[i].size() == sp[i].hi - sp[i].lo,
{
}

/// The string at an address is the bytes before the first 0, all of which must be in
/// memory; there is at most one such string.
#[verifier::spinoff_prover]
pub proof fn law_string_ends_at_first_zero(m: MemView, root: u64, ptr: u64, n: nat, k: nat)
    requires
        string_at(m, root, ptr, n),
    ensures
        ptr + n <= u64::MAX,
        k < n ==> user_byte(m, root, (ptr + k) as u64) != 0,
        k == n ==> user_byte(m, root, (ptr + k) as u64) == 0,
        k <= n ==> translated(m, root, (ptr + k) as u64) is Some,
        string_at(m, root, ptr, k) ==> k == n,
{
    if k <= n {
        assert(byte_readable(m, root, (ptr + k) as u64));
    }
    if k < n {
        assert(user_byte(m, root, (ptr + k) as u64) != 0);
    }
    if string_at(m, root, ptr, k) && n < k {
        assert(user_byte(m, root, (ptr + n) as u64) != 0);
    }
}

/// A byte that is translated to a place in memory lies in a frame of memory.
#[verifier::spinoff_prover]
proof fn lemma_byte_in_memory(m: MemView, root: u64, va: u64)
    requires
        m.wf(),
        path_backed(m, root, va % 0x80_0000_0000 / 4096),
        translated(m, root, va) is Some,
        m.base * 4096 <= translated(m, root, va)->0 < m.base * 4096 + m.bytes.len(),
    ensures
        byte_readable(m, root, va),
{
    let p = pte_ppn(lookup(m, root, va % 0x80_0000_0000 / 4096)->0);
    let o = va % 4096;
    assert(translated(m, root, va)->0 == p * 4096 + o);
    let len = m.bytes.len() as int;
    assert(len % 4096 == 0);
    assert(m.base <= p);
    assert((p - m.base + 1) * 4096 <= len) by {
        assert((p - m.base) * 4096 + o < len);
        assert((p - m.base) * 4096 < (len / 4096) * 4096);
    }
}

/// Bytes in memory that end in a 0 and have none before are a string, where they are
/// translated through tables that lie in memory.
#[verifier::spinoff_prover]
pub proof fn law_bytes_up_to_zero_are_a_string(m: MemView, root: u64, ptr: u64, n: nat)
    requires
        m.wf(),
        ptr + n <= u64::MAX,
        forall|va: u64|
            ptr <= va <= ptr + n ==> {
                &&& path_backed(m, root, va % 0x80_0000_0000 / 4096)
                &&& #[trigger] translated(m, root, va) is Some
                &&& m.base * 4096 <= translated(m, root, va)->0 < m.base * 4096 + m.bytes.len()
                &&& (user_byte(m, root, va) == 0) == (va == ptr + n)
            },
    ensures
        string_at(m, root, ptr, n),
{
    assert forall|k: nat| k <= n implies byte_readable(m, root, #[trigger] ((ptr + k) as u64)) by {
        let va = (ptr + k) as u64;
        assert(translated(m, root, va) is Some);
        lemma_byte_in_memory(m, root, va);
    }
    assert forall|k: nat| k < n implies user_byte(m, root, #[trigger] ((ptr + k) as u64)) != 0 by {
        assert(translated(m, root, (ptr + k) as u64) is Some);
    }
    assert(translated(m, root, (ptr + n) as u64) is Some);
}

/// The frames behind a range of addresses lie in memory where, for every byte of the range,
/// the frame that the entry of its page names does.
#[verifier::spinoff_prover]
pub proof fn law_every_byte_needs_a_frame(m: MemView, root: u64, start: u64, end: u64)
    requires
        start <= end,
        end <= 0x40_0000_0000 || start >= 0x1_0000_0000_0000_0000 - 0x40_0000_0000,
    ensures
        frames_backed(m, root, spans(start, end)) == (forall|va: u64|
            start <= va < end ==> m.backed(
                pte_ppn((#[trigger] lookup(m, root, va % 0x80_0000_0000 / 4096))->0),
            )),
    decreases end - start,
{
    if start < end {
        lemma_first_stretch(start, end);
        let sp = spans(start, end);
        let first = span_at(start, end);
        let n = first.hi - first.lo;
        let next = span_next(start, end);
        let rest = spans(next, end);
        assert(sp[0] == first);
        assert(forall|i: int| 0 <= i < rest.len() ==> rest[i] == sp[i + 1]);
        if start + n < end {
            law_every_byte_needs_a_frame(m, root, next, end);
        }
        if frames_backed(m, root, sp) {
            assert(m.backed(pte_ppn(lookup(m, root, sp[0].vpn)->0)));
            assert forall|i: int| 0 <= i < rest.len() implies m.backed(
                pte_ppn(lookup(m, root, (#[trigger] rest[i]).vpn)->0),
            ) by {
                assert(m.backed(pte_ppn(lookup(m, root, sp[i + 1].vpn)->0)));
            }
            assert forall|va: u64| start <= va < end implies m.backed(
                pte_ppn((#[trigger] lookup(m, root, va % 0x80_0000_0000 / 4096))->0),
            ) by {
                if va < start + n {
                    lemma_same_page(start, va, n);
                }
            }
        }
        if forall|va: u64|
            start <= va < end ==> m.backed(
                pte_ppn((#[trigger] lookup(m, root, va % 0x80_0000_0000 / 4096))->0),
            ) {
            assert(m.backed(pte_ppn(lookup(m, root, start % 0x80_0000_0000 / 4096)->0)));
            assert forall|i: int| 0 <= i < sp.len() implies m.backed(
                pte_ppn(lookup(m, root, (#[trigger] sp[i]).vpn)->0),
            ) by {
                if i > 0 {
                    assert(sp[i] == rest[i - 1]);
                    assert(frames_backed(m, root, rest));
                }
            }
        }
    } else {
        assert(spans(start, end) =~= Seq::empty());
    }
}

/// Access to a range is granted exactly where the range can be walked to its end and a user
/// may access the page of each of its stretches.
pub proof fn law_every_stretch_needs_access(
    m: MemView,
    root: u64,
    start: u64,
    end: u64,
    flag: int,
)
    ensures
        granted(m, root, start, end, flag) == (range_ok(start, end) && forall|i: int|
            0 <= i < spans(start, end).len() ==> user_may(
                m,
                root,
                (#[trigger] spans(start, end)[i]).vpn,
                flag,
            )),
{
}

} // verus!
