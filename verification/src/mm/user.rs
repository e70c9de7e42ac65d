//! User memory as the kernel sees it: a range of virtual addresses as a list of
//! stretches of physical frames.
use crate::bytes::{splice, write_bytes};
use crate::mm::address::{
    sign_extended, PhysAddr, PhysPageNum, VirtAddr, VirtPageNum, PAGE_SIZE, VA_HALF, VA_SPAN,
    VPN_SPAN,
};
use crate::mm::entry::{pte_flag, pte_ppn, pte_valid};
use crate::mm::memory::{MemView, PhysMemory};
use crate::mm::page_table::{token_root, PageTable};
use crate::mm::walk::{lookup, mapping, path_backed};
use vstd::prelude::*;

verus! {

/// A stretch of one virtual page: offsets `lo` up to `hi`, not included.
#[verifier::ext_equal]
pub struct Span {
    pub vpn: u64,
    pub lo: int,
    pub hi: int,
}

/// Where the stretch that begins at the word `start` stops, as a 39-bit address:
/// at the end of its page or at the low 39 bits of `end`, whichever is lower.
pub open spec fn span_stop(start: u64, end: u64) -> int {
    let page_end = (start % VA_SPAN / PAGE_SIZE + 1) * PAGE_SIZE;
    let last = (end % VA_SPAN) as int;
    if page_end <= last {
        page_end
    } else {
        last
    }
}

/// The word at which the stretch after the one at `start` begins.
pub open spec fn span_next(start: u64, end: u64) -> u64 {
    sign_extended(span_stop(start, end)) as u64
}

/// The stretch of a page that begins at the word `start`.
pub open spec fn span_at(start: u64, end: u64) -> Span {
    let stop = span_stop(start, end);
    Span {
        vpn: start % VA_SPAN / PAGE_SIZE,
        lo: (start % PAGE_SIZE) as int,
        hi: if stop % (PAGE_SIZE as int) == 0 {
            PAGE_SIZE as int
        } else {
            stop % (PAGE_SIZE as int)
        },
    }
}

/// Stepping page by page arrives at or beyond the word `end`. It does not where
/// bits 63 to 39 of `end` are not all 0 and bit 38 is: sign extension then keeps
/// every address that is reached below `end`.
pub open spec fn end_reached(end: u64) -> bool {
    end < VA_SPAN || end % VA_SPAN >= VA_HALF
}

/// The words from `start` up to `end` can be read as stretches of pages. What
/// the second part leaves out is a `start` that lies above `end` once both are
/// cut to 39 bits and whose first stretch would end before it begins.
pub open spec fn range_ok(start: u64, end: u64) -> bool {
    start >= end || {
        &&& end_reached(end)
        &&& span_at(start, end).lo <= span_at(start, end).hi
    }
}

/// The stretches of pages that the words from `start` up to `end` consist of.
pub open spec fn spans(start: u64, end: u64) -> Seq<Span>
    decreases (if start < end { VA_SPAN - start % VA_SPAN } else { 0 }),
        when start >= end || end_reached(end)
        via spans_decreases
{
    if start >= end {
        Seq::empty()
    } else {
        seq![span_at(start, end)] + spans(span_next(start, end), end)
    }
}

#[via_fn]
proof fn spans_decreases(start: u64, end: u64) {
    if start < end {
        lemma_span_step(start, end);
    }
}

/// One step along a range: the next stretch begins where this one stops, or at
/// or beyond the end.
proof fn lemma_span_step(start: u64, end: u64)
    requires
        start < end,
        end_reached(end),
    ensures
        0 <= span_stop(start, end) < VA_SPAN,
        span_next(start, end) == sign_extended(span_stop(start, end)),
        span_next(start, end) < end ==> span_next(start, end) % VA_SPAN > start % VA_SPAN,
        span_next(start, end) % VA_SPAN == span_stop(start, end),
        span_next(start, end) < end ==> span_next(start, end) % VA_SPAN < end % VA_SPAN,
{
    let s = start % VA_SPAN;
    let e = end % VA_SPAN;
    let stop = span_stop(start, end);
    assert(s < (s / PAGE_SIZE + 1) * PAGE_SIZE);
    assert(stop <= e);
    if e < VA_HALF {
        assert(end == e);
        assert(start == s);
    }
    assert(end <= 0x1_0000_0000_0000_0000 - VA_SPAN + e);
    if stop >= VA_HALF {
        assert((stop + (0x1_0000_0000_0000_0000int - VA_SPAN)) % (VA_SPAN as int) == stop);
    }
}

/// A stretch of one physical frame: offsets `start` up to `end`, not included.
#[derive(Clone, Copy, Debug, PartialEq, Eq, Structural)]
pub struct Segment {
    pub ppn: PhysPageNum,
    pub start: usize,
    pub end: usize,
}

impl Segment {
    /// Number of bytes in the stretch.
    pub open spec fn size(self) -> int {
        self.end - self.start
    }

    /// The stretch lies in a frame of memory.
    pub open spec fn in_memory(self, m: MemView) -> bool {
        m.backed(self.ppn.0) && self.start <= self.end <= 4096
    }
}

/// The stretch of a frame that a stretch of a page is, under the entry `bits`.
pub open spec fn segment_of(bits: u64, span: Span) -> Segment {
    Segment { ppn: PhysPageNum(pte_ppn(bits)), start: span.lo as usize, end: span.hi as usize }
}

/// The stretches of frames that some stretches of pages are.
pub open spec fn segments_of(m: MemView, root: u64, sp: Seq<Span>) -> Seq<Segment> {
    Seq::new(sp.len(), |i: int| segment_of(lookup(m, root, sp[i].vpn)->0, sp[i]))
}

/// A user may read page `vpn` (`flag` is 1) or write it (`flag` is 2).
pub open spec fn user_may(m: MemView, root: u64, vpn: u64, flag: int) -> bool {
    lookup(m, root, vpn) matches Some(e) && pte_valid(e) && pte_flag(e, 4) && pte_flag(e, flag)
}

/// A user may access each of some stretches of pages.
pub open spec fn user_may_all(m: MemView, root: u64, sp: Seq<Span>, flag: int) -> bool {
    forall|i: int| 0 <= i < sp.len() ==> user_may(m, root, (#[trigger] sp[i]).vpn, flag)
}

/// Every table on the way to the pages of `sp` lies in memory, as far as the
/// pages are visited when the walk stops at the first page without access.
pub open spec fn visited_backed(m: MemView, root: u64, sp: Seq<Span>, flag: int) -> bool {
    forall|i: int|
        0 <= i < sp.len() && user_may_all(m, root, sp.take(i), flag) ==> path_backed(
            m,
            root,
            (#[trigger] sp[i]).vpn,
        )
}

/// A page without access is met on the way from the word `start` to the word `end`,
/// after at most `n` pages with access. Every table that is looked at lies in memory,
/// and no stretch ends before it begins.
pub open spec fn denied_within(
    m: MemView,
    root: u64,
    start: u64,
    end: u64,
    flag: int,
    n: nat,
) -> bool
    decreases n,
{
    let span = span_at(start, end);
    &&& start < end
    &&& path_backed(m, root, span.vpn)
    &&& user_may(m, root, span.vpn, flag) ==> {
        &&& n > 0
        &&& span.lo <= span.hi
        &&& denied_within(m, root, span_next(start, end), end, flag, (n - 1) as nat)
    }
}

/// A page without access is met on the way from the word `start` to the word `end`.
pub open spec fn denied(m: MemView, root: u64, start: u64, end: u64, flag: int) -> bool {
    exists|n: nat| denied_within(m, root, start, end, flag, n)
}

/// The walk from the word `start` to the word `end` comes to its end, or to a page
/// without access, and every table that is looked at lies in memory.
pub open spec fn can_walk(m: MemView, root: u64, start: u64, end: u64, flag: int) -> bool {
    ||| range_ok(start, end) && visited_backed(m, root, spans(start, end), flag)
    ||| denied(m, root, start, end, flag)
}

/// A user may access all bytes from the word `start` up to the word `end`.
pub open spec fn granted(m: MemView, root: u64, start: u64, end: u64, flag: int) -> bool {
    range_ok(start, end) && user_may_all(m, root, spans(start, end), flag)
}

/// Where access is denied on the way, it is not granted.
pub proof fn lemma_denied(m: MemView, root: u64, start: u64, end: u64, flag: int, n: nat)
    requires
        denied_within(m, root, start, end, flag, n),
    ensures
        !granted(m, root, start, end, flag),
    decreases n,
{
    if range_ok(start, end) {
        lemma_spans_unfold(start, end);
        let sp = spans(start, end);
        let next = span_next(start, end);
        assert(sp[0] == span_at(start, end));
        if user_may(m, root, sp[0].vpn, flag) {
            lemma_denied(m, root, next, end, flag, (n - 1) as nat);
            lemma_next_range(start, end);
            let rest = spans(next, end);
            let i = choose|i: int|
                0 <= i < rest.len() && !user_may(m, root, (#[trigger] rest[i]).vpn, flag);
            assert(sp[i + 1] == rest[i]);
        }
    }
}

/// The rest of a range can be read as stretches of pages too.
proof fn lemma_next_range(start: u64, end: u64)
    requires
        start < end,
        end_reached(end),
    ensures
        range_ok(span_next(start, end), end),
{
    lemma_span_step(start, end);
    let next = span_next(start, end);
    if next < end {
        let s = next % VA_SPAN;
        let stop = span_stop(next, end);
        assert(s < stop <= (s / PAGE_SIZE + 1) * PAGE_SIZE);
        if stop % (PAGE_SIZE as int) != 0 {
            assert(stop / (PAGE_SIZE as int) == s / PAGE_SIZE);
        }
        assert(next % PAGE_SIZE == s % PAGE_SIZE);
    }
}

/// Where a stretch stops is a 39-bit address.
proof fn lemma_span_stop(start: u64, end: u64)
    ensures
        0 <= span_stop(start, end) < VA_SPAN,
        span_next(start, end) == sign_extended(span_stop(start, end)),
{
}

/// The stretch of a page that begins at the word `start`, and the word at which
/// the next one begins.
fn next_span(start: u64, end: u64) -> (r: (VirtPageNum, usize, usize, u64))
    requires
        start < end,
    ensures
        r.0.0 == span_at(start, end).vpn,
        r.1 == span_at(start, end).lo,
        r.2 == span_at(start, end).hi,
        r.2 <= 4096,
        r.3 == span_next(start, end),
{
    proof {
        lemma_span_stop(start, end);
    }
    let start_va = VirtAddr::from_word(start);
    let mut vpn = start_va.floor();
    let page = vpn;
    vpn.step();
    let end_va = vpn.addr().min(VirtAddr::from_word(end));
    assert(end_va.0 == span_stop(start, end));
    let lo = start_va.page_offset() as usize;
    let hi = if end_va.page_offset() == 0 {
        4096
    } else {
        end_va.page_offset() as usize
    };
    (page, lo, hi, end_va.to_word())
}

/// Can the words from `start` up to `end` be read as stretches of pages?
fn check_range(start: u64, end: u64) -> (r: bool)
    ensures
        r == range_ok(start, end),
{
    if start >= end {
        return true;
    }
    if !(end < VA_SPAN || end % VA_SPAN >= VA_HALF) {
        return false;
    }
    let (_, lo, hi, _) = next_span(start, end);
    lo <= hi
}

/// The part of a range that is left after its first stretch.
pub proof fn lemma_spans_unfold(start: u64, end: u64)
    requires
        start < end,
        end_reached(end),
    ensures
        spans(start, end) == seq![span_at(start, end)] + spans(span_next(start, end), end),
{
    lemma_span_step(start, end);
}

/// Translate the `len` bytes at `ptr` through the page table with this token.
pub fn translated_byte_buffer(mem: &PhysMemory, token: u64, ptr: u64, len: u64) -> (r: Vec<Segment>)
    requires
        mem@.wf(),
        ptr + len <= u64::MAX,
        range_ok(ptr, (ptr + len) as u64),
        forall|i: int|
            0 <= i < spans(ptr, (ptr + len) as u64).len() ==> {
                let vpn = (#[trigger] spans(ptr, (ptr + len) as u64)[i]).vpn;
                path_backed(mem@, token_root(token), vpn) && lookup(mem@, token_root(token), vpn)
                    is Some
            },
    ensures
        r@ == segments_of(mem@, token_root(token), spans(ptr, (ptr + len) as u64)),
{
    let page_table = PageTable::from_token(token);
    let ghost root = page_table.root();
    let mut start = ptr;
    let end = start + len;
    let ghost all = spans(ptr, end);
    let ghost mut done: Seq<Span> = Seq::empty();
    let mut v: Vec<Segment> = Vec::new();
    assert(all =~= done + spans(start, end));
    while start < end
        invariant
            mem@.wf(),
            root == page_table.root(),
            start < end ==> end_reached(end),
            all == done + spans(start, end),
            forall|i: int|
                0 <= i < all.len() ==> {
                    let vpn = (#[trigger] all[i]).vpn;
                    path_backed(mem@, root, vpn) && lookup(mem@, root, vpn) is Some
                },
            v@ == segments_of(mem@, root, done),
        decreases (if start < end { VA_SPAN - start % VA_SPAN } else { 0 }),
    {
        proof {
            lemma_span_step(start, end);
            lemma_spans_unfold(start, end);
            assert(all[done.len() as int] == span_at(start, end));
        }
        let (vpn, lo, hi, next) = next_span(start, end);
        let ppn = page_table.translate(mem, vpn).unwrap().ppn();
        v.push(Segment { ppn, start: lo, end: hi });
        proof {
            done = done.push(span_at(start, end));
            assert(all =~= done + spans(next, end));
            assert(v@ =~= segments_of(mem@, root, done));
        }
        start = next;
    }
    proof {
        assert(spans(start, end) =~= Seq::empty());
        assert(all =~= done);
    }
    v
}

/// Where every page on the way can be accessed and a step leads nowhere, no page
/// without access is met.
proof fn lemma_stuck(m: MemView, root: u64, start: u64, end: u64, flag: int, n: nat)
    requires
        user_may(m, root, span_at(start, end).vpn, flag),
        span_next(start, end) == start,
    ensures
        !denied_within(m, root, start, end, flag, n),
    decreases n,
{
    if n > 0 {
        lemma_stuck(m, root, start, end, flag, (n - 1) as nat);
    }
}

/// After a page with access, the question whether access is denied is one about the
/// rest of the way.
proof fn lemma_denied_step(m: MemView, root: u64, start: u64, end: u64, flag: int)
    requires
        start < end,
        path_backed(m, root, span_at(start, end).vpn),
        user_may(m, root, span_at(start, end).vpn, flag),
        span_at(start, end).lo <= span_at(start, end).hi,
    ensures
        denied(m, root, start, end, flag) == denied(m, root, span_next(start, end), end, flag),
{
    let next = span_next(start, end);
    if denied(m, root, start, end, flag) {
        let n = choose|n: nat| denied_within(m, root, start, end, flag, n);
        assert(denied_within(m, root, next, end, flag, (n - 1) as nat));
    }
    if denied(m, root, next, end, flag) {
        let n = choose|n: nat| denied_within(m, root, next, end, flag, n);
        assert(denied_within(m, root, start, end, flag, n + 1));
    }
}

/// Can the walk from the word `start` to the word `end` be made, for writing or else
/// for reading?
pub fn check_walk(mem: &PhysMemory, token: u64, start: u64, end: u64, write: bool) -> (r: bool)
    requires
        mem@.wf(),
        forall|v: u64| #[trigger] path_backed(mem@, token_root(token), v),
    ensures
        r == can_walk(mem@, token_root(token), start, end, if write { 2 } else { 1 }),
{
    let ghost flag: int = if write { 2 } else { 1 };
    if check_range(start, end) {
        assert(visited_backed(mem@, token_root(token), spans(start, end), flag));
        return true;
    }
    let page_table = PageTable::from_token(token);
    let ghost root = page_table.root();
    let mut word = start;
    while word < end
        invariant
            mem@.wf(),
            root == page_table.root(),
            root == token_root(token),
            forall|v: u64| #[trigger] path_backed(mem@, root, v),
            flag == if write { 2int } else { 1 },
            !range_ok(start, end),
            end_reached(end) ==> word == start,
            word == start || word <= end % VA_SPAN,
            denied(mem@, root, start, end, flag) == denied(mem@, root, word, end, flag),
        decreases
                (if word <= end % VA_SPAN {
                    end % VA_SPAN - word
                } else {
                    end % VA_SPAN + 1
                }),
    {
        let (vpn, lo, hi, next) = next_span(word, end);
        proof {
            assert(path_backed(mem@, root, vpn.0));
            lemma_span_stop(word, end);
        }
        let permitted = match page_table.translate(mem, vpn) {
            Some(pte) => pte.is_valid() && pte.is_user_accessible() && if write {
                pte.writable()
            } else {
                pte.readable()
            },
            None => false,
        };
        assert(permitted == user_may(mem@, root, vpn.0, flag));
        if !permitted {
            assert(denied_within(mem@, root, word, end, flag, 0));
            return true;
        }
        if lo > hi {
            return false;
        }
        if next == word {
            proof {
                assert forall|n: nat| !#[trigger] denied_within(mem@, root, word, end, flag, n) by {
                    lemma_stuck(mem@, root, word, end, flag, n);
                }
            }
            return false;
        }
        proof {
            lemma_denied_step(mem@, root, word, end, flag);
        }
        word = next;
    }
    false
}


/// Translate the `len` bytes at `ptr`, if a user may access all of them.
fn translated_user(mem: &PhysMemory, token: u64, ptr: u64, len: u64, write: bool) -> (r: Option<
    Vec<Segment>,
>)
    requires
        mem@.wf(),
        ptr + len <= u64::MAX,
        can_walk(
            mem@,
            token_root(token),
            ptr,
            (ptr + len) as u64,
            if write { 2 } else { 1 },
        ),
    ensures
        ({
            let end = (ptr + len) as u64;
            let root = token_root(token);
            if granted(mem@, root, ptr, end, if write { 2 } else { 1 }) {
                r is Some && (r->0)@ == segments_of(mem@, root, spans(ptr, end))
            } else {
                r is None
            }
        }),
{
    let page_table = PageTable::from_token(token);
    let ghost root = page_table.root();
    let ghost flag: int = if write { 2 } else { 1 };
    let mut start = ptr;
    let end = start + len;
    let ghost regular = range_ok(ptr, end) && visited_backed(mem@, root, spans(ptr, end), flag);
    let ghost mut left: nat = choose|n: nat| denied_within(mem@, root, ptr, end, flag, n);
    let ghost all = spans(ptr, end);
    let ghost mut done: Seq<Span> = Seq::empty();
    let mut v: Vec<Segment> = Vec::new();
    proof {
        assert(all =~= done + spans(start, end));
        if !regular {
            lemma_denied(mem@, root, ptr, end, flag, left);
        }
    }
    while start < end
        invariant
            mem@.wf(),
            root == page_table.root(),
            flag == if write { 2int } else { 1 },
            root == token_root(token),
            all == spans(ptr, end),
            end == ptr + len,
            regular ==> {
                &&& range_ok(ptr, end)
                &&& start < end ==> end_reached(end)
                &&& all == done + spans(start, end)
                &&& visited_backed(mem@, root, all, flag)
                &&& user_may_all(mem@, root, done, flag)
                &&& v@ == segments_of(mem@, root, done)
            },
            !regular ==> {
                &&& denied_within(mem@, root, start, end, flag, left)
                &&& !granted(mem@, root, ptr, end, flag)
            },
        decreases
                (if !regular {
                    left as int
                } else if start < end {
                    VA_SPAN - start % VA_SPAN
                } else {
                    0
                }),
    {
        proof {
            if regular {
                lemma_span_step(start, end);
                lemma_spans_unfold(start, end);
                assert(all[done.len() as int] == span_at(start, end));
                assert(all.take(done.len() as int) =~= done);
            }
        }
        let (vpn, lo, hi, next) = next_span(start, end);
        match page_table.translate(mem, vpn) {
            Some(pte) => {
                let permitted = if write {
                    pte.writable()
                } else {
                    pte.readable()
                };
                if pte.is_valid() && pte.is_user_accessible() && permitted {
                    v.push(Segment { ppn: pte.ppn(), start: lo, end: hi });
                } else {
                    assert(!user_may(mem@, root, vpn.0, flag));
                    return None;
                }
            },
            None => {
                assert(!user_may(mem@, root, vpn.0, flag));
                return None;
            },
        }
        proof {
            if regular {
                done = done.push(span_at(start, end));
                assert(all =~= done + spans(next, end));
                assert(v@ =~= segments_of(mem@, root, done));
            } else {
                left = (left - 1) as nat;
            }
        }
        start = next;
    }
    proof {
        assert(regular);
        assert(spans(start, end) =~= Seq::empty());
        assert(all =~= done);
    }
    Some(v)
}

/// The stretches of frames that a user may write through the `len` bytes at
/// `ptr`; nothing if a page is not mapped, not a user page or not writable.
pub fn translated_ua2write(mem: &PhysMemory, token: u64, ptr: u64, len: u64) -> (r: Option<
    Vec<Segment>,
>)
    requires
        mem@.wf(),
        ptr + len <= u64::MAX,
        can_walk(mem@, token_root(token), ptr, (ptr + len) as u64, 2),
    ensures
        ({
            let end = (ptr + len) as u64;
            let root = token_root(token);
            if granted(mem@, root, ptr, end, 2) {
                r is Some && (r->0)@ == segments_of(mem@, root, spans(ptr, end))
            } else {
                r is None
            }
        }),
{
    translated_user(mem, token, ptr, len, true)
}

/// The stretches of frames that a user may read through the `len` bytes at
/// `ptr`; nothing if a page is not mapped, not a user page or not readable.
pub fn translated_ua2read(mem: &PhysMemory, token: u64, ptr: u64, len: u64) -> (r: Option<
    Vec<Segment>,
>)
    requires
        mem@.wf(),
        ptr + len <= u64::MAX,
        can_walk(mem@, token_root(token), ptr, (ptr + len) as u64, 1),
    ensures
        ({
            let end = (ptr + len) as u64;
            let root = token_root(token);
            if granted(mem@, root, ptr, end, 1) {
                r is Some && (r->0)@ == segments_of(mem@, root, spans(ptr, end))
            } else {
                r is None
            }
        }),
{
    translated_user(mem, token, ptr, len, false)
}

/// Every stretch of a page lies in it, and none of them ends before it begins.
pub proof fn lemma_spans_bounds(start: u64, end: u64)
    requires
        range_ok(start, end),
    ensures
        forall|i: int|
            0 <= i < spans(start, end).len() ==> {
                let sp = #[trigger] spans(start, end)[i];
                0 <= sp.lo <= sp.hi <= 4096 && sp.lo < 4096 && sp.vpn < VPN_SPAN
            },
    decreases (if start < end { VA_SPAN - start % VA_SPAN } else { 0 }),
{
    if start < end {
        lemma_span_step(start, end);
        lemma_spans_unfold(start, end);
        let next = span_next(start, end);
        if next < end {
            let s = next % VA_SPAN;
            let stop = span_stop(next, end);
            assert(s < stop <= (s / PAGE_SIZE + 1) * PAGE_SIZE);
            if stop % (PAGE_SIZE as int) != 0 {
                assert(stop / (PAGE_SIZE as int) == s / PAGE_SIZE);
            }
            assert(next % PAGE_SIZE == s % PAGE_SIZE);
            lemma_spans_bounds(next, end);
        }
        assert forall|i: int| 0 <= i < spans(start, end).len() implies {
            let sp = #[trigger] spans(start, end)[i];
            0 <= sp.lo <= sp.hi <= 4096 && sp.lo < 4096 && sp.vpn < VPN_SPAN
        } by {
            if i > 0 {
                assert(spans(start, end)[i] == spans(next, end)[i - 1]);
            }
        }
    }
}

/// The frames behind some stretches of pages lie in memory.
pub open spec fn frames_backed(m: MemView, root: u64, sp: Seq<Span>) -> bool {
    forall|i: int|
        0 <= i < sp.len() ==> m.backed(pte_ppn(lookup(m, root, (#[trigger] sp[i]).vpn)->0))
}

/// Memory after `src`, from position `idx` on, was copied into stretches of
/// frames in turn, up to the first one for which it is too short; and whether
/// all of them were filled.
pub open spec fn scatter(m: MemView, segs: Seq<Segment>, src: Seq<u8>, idx: int) -> (MemView, bool)
    decreases segs.len(),
{
    if segs.len() == 0 {
        (m, true)
    } else if idx + segs[0].size() > src.len() {
        (m, false)
    } else {
        scatter(
            m.put(
                m.offset(segs[0].ppn.0) + segs[0].start,
                src.subrange(idx, idx + segs[0].size()),
            ),
            segs.skip(1),
            src,
            idx + segs[0].size(),
        )
    }
}

/// The buffer `dst` after stretches of frames were copied to it in turn, from
/// position `idx` on, up to the first one that does not fit; and whether all of
/// them did.
pub open spec fn gather(m: MemView, segs: Seq<Segment>, dst: Seq<u8>, idx: int) -> (Seq<u8>, bool)
    decreases segs.len(),
{
    if segs.len() == 0 {
        (dst, true)
    } else if idx + segs[0].size() > dst.len() {
        (dst, false)
    } else {
        gather(
            m,
            segs.skip(1),
            splice(
                dst,
                idx,
                m.bytes.subrange(
                    m.offset(segs[0].ppn.0) + segs[0].start,
                    m.offset(segs[0].ppn.0) + segs[0].end,
                ),
            ),
            idx + segs[0].size(),
        )
    }
}

/// Copy kernel data to the `dst_len` bytes at the user address `dst`, if a user
/// may write all of them. Where the data is too short, what precedes the first
/// stretch of a page that it does not fill is still copied.
pub fn pa_copyto_uva(mem: &mut PhysMemory, token: u64, src: &[u8], dst: u64, dst_len: u64) -> (r:
    bool)
    requires
        old(mem)@.wf(),
        dst + dst_len <= u64::MAX,
        can_walk(old(mem)@, token_root(token), dst, (dst + dst_len) as u64, 2),
        granted(old(mem)@, token_root(token), dst, (dst + dst_len) as u64, 2)
            ==> frames_backed(old(mem)@, token_root(token), spans(dst, (dst + dst_len) as u64)),
    ensures
        final(mem)@.wf(),
        ({
            let sp = spans(dst, (dst + dst_len) as u64);
            let root = token_root(token);
            if granted(old(mem)@, root, dst, (dst + dst_len) as u64, 2) {
                (final(mem)@, r) == scatter(
                    old(mem)@,
                    segments_of(old(mem)@, root, sp),
                    src@,
                    0,
                )
            } else {
                !r && final(mem)@ == old(mem)@
            }
        }),
{
    match translated_ua2write(mem, token, dst, dst_len) {
        Some(dsts) => {
            let ghost m0 = mem@;
            let ghost segs = dsts@;
            proof {
                lemma_spans_bounds(dst, (dst + dst_len) as u64);
            }
            let mut idx: usize = 0;
            let mut k: usize = 0;
            assert(segs.skip(0) =~= segs);
            while k < dsts.len()
                invariant
                    k <= dsts@.len(),
                    segs == dsts@,
                    m0 == old(mem)@,
                    granted(m0, token_root(token), dst, (dst + dst_len) as u64, 2),
                    segs == segments_of(
                        m0,
                        token_root(token),
                        spans(dst, (dst + dst_len) as u64),
                    ),
                    idx <= src@.len(),
                    mem@.wf(),
                    mem@.base == m0.base,
                    mem@.bytes.len() == m0.bytes.len(),
                    forall|i: int| 0 <= i < segs.len() ==> (#[trigger] segs[i]).in_memory(m0),
                    scatter(m0, segs, src@, 0) == scatter(mem@, segs.skip(k as int), src@, idx as int),
                decreases dsts@.len() - k,
            {
                let seg = dsts[k];
                let n = seg.end - seg.start;
                assert(segs[k as int].in_memory(m0));
                assert(segs.skip(k as int)[0] == seg);
                assert(segs.skip(k as int).skip(1) =~= segs.skip(k as int + 1));
                if n > src.len() - idx {
                    return false;
                }
                mem.write_frame(seg.ppn, seg.start, vstd::slice::slice_subrange(src, idx, idx + n));
                idx = idx + n;
                k = k + 1;
            }
            true
        },
        None => false,
    }
}

/// Copy the `src_len` bytes at the user address `src` to a kernel buffer, if a
/// user may read all of them. Where the buffer is too short, what precedes the
/// first stretch of a page that does not fit is still copied.
pub fn uva_copyto_pa(mem: &PhysMemory, token: u64, src: u64, src_len: u64, dst: &mut Vec<u8>) -> (r:
    bool)
    requires
        mem@.wf(),
        src + src_len <= u64::MAX,
        can_walk(mem@, token_root(token), src, (src + src_len) as u64, 1),
        granted(mem@, token_root(token), src, (src + src_len) as u64, 1)
            ==> frames_backed(mem@, token_root(token), spans(src, (src + src_len) as u64)),
    ensures
        ({
            let sp = spans(src, (src + src_len) as u64);
            let root = token_root(token);
            if granted(mem@, root, src, (src + src_len) as u64, 1) {
                (final(dst)@, r) == gather(mem@, segments_of(mem@, root, sp), old(dst)@, 0)
            } else {
                !r && final(dst)@ == old(dst)@
            }
        }),
{
    match translated_ua2read(mem, token, src, src_len) {
        Some(srcs) => {
            let ghost d0 = dst@;
            let ghost segs = srcs@;
            proof {
                lemma_spans_bounds(src, (src + src_len) as u64);
            }
            let mut idx: usize = 0;
            let mut k: usize = 0;
            assert(segs.skip(0) =~= segs);
            while k < srcs.len()
                invariant
                    k <= srcs@.len(),
                    segs == srcs@,
                    d0 == old(dst)@,
                    granted(mem@, token_root(token), src, (src + src_len) as u64, 1),
                    segs == segments_of(
                        mem@,
                        token_root(token),
                        spans(src, (src + src_len) as u64),
                    ),
                    idx <= dst@.len(),
                    dst@.len() == d0.len(),
                    mem@.wf(),
                    forall|i: int| 0 <= i < segs.len() ==> (#[trigger] segs[i]).in_memory(mem@),
                    gather(mem@, segs, d0, 0) == gather(mem@, segs.skip(k as int), dst@, idx as int),
                decreases srcs@.len() - k,
            {
                let seg = srcs[k];
                let n = seg.end - seg.start;
                assert(segs[k as int].in_memory(mem@));
                assert(segs.skip(k as int)[0] == seg);
                assert(segs.skip(k as int).skip(1) =~= segs.skip(k as int + 1));
                if n > dst.len() - idx {
                    return false;
                }
                write_bytes(dst, idx, mem.read_frame(seg.ppn, seg.start, seg.end));
                idx = idx + n;
                k = k + 1;
            }
            true
        },
        None => false,
    }
}

/// The physical address of the word `va`, if its page has an entry.
pub open spec fn translated(m: MemView, root: u64, va: u64) -> Option<int> {
    match lookup(m, root, va % VA_SPAN / PAGE_SIZE) {
        Some(bits) => Some(pte_ppn(bits) * PAGE_SIZE + va % PAGE_SIZE),
        None => None,
    }
}

/// A page with an entry that points into memory.
pub open spec fn byte_readable(m: MemView, root: u64, va: u64) -> bool {
    let vpn = va % VA_SPAN / PAGE_SIZE;
    path_backed(m, root, vpn) && (lookup(m, root, vpn) matches Some(e) && m.backed(pte_ppn(e)))
}

/// The byte at the word `va`.
pub open spec fn user_byte(m: MemView, root: u64, va: u64) -> u8 {
    m.byte(translated(m, root, va)->0)
}

/// The word `ptr` is the address of `n` bytes other than 0 and of a 0 after them.
pub open spec fn string_at(m: MemView, root: u64, ptr: u64, n: nat) -> bool {
    &&& ptr + n <= u64::MAX
    &&& forall|k: nat| k <= n ==> byte_readable(m, root, #[trigger] ((ptr + k) as u64))
    &&& forall|k: nat| k < n ==> user_byte(m, root, #[trigger] ((ptr + k) as u64)) != 0
    &&& user_byte(m, root, (ptr + n) as u64) == 0
}

/// `String::push` appends one character at the end.
pub assume_specification[ String::push ](s: &mut String, c: char)
    ensures
        final(s)@ == old(s)@.push(c),
;

/// Which frame a place in a frame lies in.
proof fn lemma_frame_of_place(ppn: int, offset: int)
    requires
        0 <= offset < 4096,
    ensures
        (ppn * 4096 + offset) / 4096 == ppn,
{
}

/// The byte at the word `va`.
#[verifier::spinoff_prover]
pub(crate) fn read_user_byte(page_table: &PageTable, mem: &PhysMemory, va: u64) -> (r: u8)
    requires
        mem@.wf(),
        byte_readable(mem@, page_table.root(), va),
    ensures
        r == user_byte(mem@, page_table.root(), va),
{
    let addr = VirtAddr::from_word(va);
    assert(addr.0 % PAGE_SIZE == va % PAGE_SIZE);
    let pa = page_table.translate_va(mem, addr).unwrap();
    proof {
        let e = lookup(mem@, page_table.root(), va % VA_SPAN / PAGE_SIZE)->0;
        lemma_frame_of_place(pte_ppn(e) as int, (va % PAGE_SIZE) as int);
        assert(pa.0 / PAGE_SIZE == pte_ppn(e));
    }
    mem.read_byte(pa)
}

/// Read the bytes at `ptr` up to the first 0 as a string, each byte as the
/// character with that number.
pub fn translated_str(mem: &PhysMemory, token: u64, ptr: u64) -> (r: String)
    requires
        mem@.wf(),
        exists|n: nat| string_at(mem@, token_root(token), ptr, n),
    ensures
        forall|n: nat| #[trigger]
            string_at(mem@, token_root(token), ptr, n) ==> r@ == Seq::new(
                n,
                |k: int| user_byte(mem@, token_root(token), (ptr + k) as u64) as char,
            ),
{
    let page_table = PageTable::from_token(token);
    let ghost root = page_table.root();
    let ghost n = choose|n: nat| string_at(mem@, token_root(token), ptr, n);
    let ghost mut i: nat = 0;
    let mut string = String::new();
    let mut va = ptr;
    loop
        invariant
            mem@.wf(),
            root == page_table.root(),
            root == token_root(token),
            string_at(mem@, root, ptr, n),
            i <= n,
            va == ptr + i,
            string@ =~= Seq::new(i, |k: int| user_byte(mem@, root, (ptr + k) as u64) as char),
        ensures
            i == n,
        decreases n - i,
    {
        assert(byte_readable(mem@, root, (ptr + i) as u64));
        let ch = read_user_byte(&page_table, mem, va);
        if ch == 0 {
            break;
        }
        string.push(ch as char);
        va = va + 1;
        proof {
            i = i + 1;
        }
    }
    proof {
        assert forall|p: nat| #[trigger] string_at(mem@, root, ptr, p) implies p == n by {
            if p < n {
                assert(user_byte(mem@, root, (ptr + p) as u64) != 0);
            } else if n < p {
                assert(user_byte(mem@, root, (ptr + n) as u64) != 0);
            }
        }
    }
    string
}

/// Translate the address of a value that lies in one page to the physical
/// address at which it is read.
pub fn translated_ref(mem: &PhysMemory, token: u64, ptr: u64) -> (r: PhysAddr)
    requires
        mem@.wf(),
        path_backed(mem@, token_root(token), ptr % VA_SPAN / PAGE_SIZE),
        translated(mem@, token_root(token), ptr) is Some,
    ensures
        r.0 == translated(mem@, token_root(token), ptr)->0,
{
    let page_table = PageTable::from_token(token);
    let va = VirtAddr::from_word(ptr);
    assert(va.0 % PAGE_SIZE == ptr % PAGE_SIZE);
    page_table.translate_va(mem, va).unwrap()
}

/// Translate the address of a value that lies in one page to the physical
/// address at which it is written.
pub fn translated_refmut(mem: &PhysMemory, token: u64, ptr: u64) -> (r: PhysAddr)
    requires
        mem@.wf(),
        path_backed(mem@, token_root(token), ptr % VA_SPAN / PAGE_SIZE),
        translated(mem@, token_root(token), ptr) is Some,
    ensures
        r.0 == translated(mem@, token_root(token), ptr)->0,
{
    translated_ref(mem, token, ptr)
}

/// Is none of the pages from `start_vpn` up to `end_vpn` mapped?
pub fn check_not_mapped(
    mem: &PhysMemory,
    token: u64,
    start_vpn: VirtPageNum,
    end_vpn: VirtPageNum,
) -> (r: bool)
    requires
        mem@.wf(),
        start_vpn.0 <= end_vpn.0,
        forall|v: u64|
            start_vpn.0 <= v < end_vpn.0 && (forall|w: u64|
                start_vpn.0 <= w < v ==> #[trigger] mapping(mem@, token_root(token), w) is None)
                ==> #[trigger] path_backed(mem@, token_root(token), v),
    ensures
        r == (forall|v: u64|
            start_vpn.0 <= v < end_vpn.0 ==> #[trigger] mapping(mem@, token_root(token), v) is None),
{
    let page_table = PageTable::from_token(token);
    let mut vpn = start_vpn;
    while vpn.0 < end_vpn.0
        invariant
            mem@.wf(),
            page_table.root() == token_root(token),
            start_vpn.0 <= vpn.0 <= end_vpn.0,
            forall|v: u64|
                start_vpn.0 <= v < vpn.0 ==> #[trigger] mapping(mem@, token_root(token), v) is None,
            forall|v: u64|
                start_vpn.0 <= v < end_vpn.0 && (forall|w: u64|
                    start_vpn.0 <= w < v ==> #[trigger] mapping(mem@, token_root(token), w) is None)
                    ==> #[trigger] path_backed(mem@, token_root(token), v),
        decreases end_vpn.0 - vpn.0,
    {
        assert(path_backed(mem@, token_root(token), vpn.0));
        if page_table.check_mapped_one(mem, vpn) {
            return false;
        }
        vpn.step();
    }
    true
}

} // verus!
