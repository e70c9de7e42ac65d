//! A user buffer: the stretches of frames that a range of user memory is made of,
//! and the walk over its bytes.
use crate::mm::address::{PhysAddr, PAGE_SIZE, PPN_SPAN};
use crate::mm::user::Segment;
use vstd::prelude::*;

verus! {

/// Number of bytes in a list of stretches.
pub open spec fn total_size(segs: Seq<Segment>) -> int
    decreases segs.len(),
{
    if segs.len() == 0 {
        0
    } else {
        total_size(segs.drop_last()) + segs.last().size()
    }
}

/// Physical address of byte `i` of a stretch.
pub open spec fn segment_addr(seg: Segment, i: int) -> int {
    seg.ppn.0 * PAGE_SIZE + seg.start + i
}

/// No stretch ends before it begins, and all lie in frames with 44-bit numbers.
pub open spec fn segments_wf(segs: Seq<Segment>) -> bool {
    forall|i: int|
        0 <= i < segs.len() ==> (#[trigger] segs[i]).start <= segs[i].end <= 4096
            && segs[i].ppn.0 < PPN_SPAN
}

/// Physical addresses of the bytes of a list of stretches, from byte `idx` of
/// stretch `cur` on.
pub open spec fn addresses_from(segs: Seq<Segment>, cur: int, idx: int) -> Seq<int>
    decreases segs.len() - cur, (if 0 <= cur < segs.len() { segs[cur].size() - idx } else { 0 }),
{
    if cur >= segs.len() || cur < 0 {
        Seq::empty()
    } else if idx >= segs[cur].size() {
        addresses_from(segs, cur + 1, 0)
    } else {
        seq![segment_addr(segs[cur], idx)] + addresses_from(segs, cur, idx + 1)
    }
}

/// An abstraction over a buffer passed from user space to kernel space.
pub struct UserBuffer {
    /// A list of stretches of frames.
    pub buffers: Vec<Segment>,
}

/// A walk over the bytes of a `UserBuffer`.
pub struct UserBufferIterator {
    buffers: Vec<Segment>,
    current_buffer: usize,
    current_idx: usize,
}

impl UserBuffer {
    /// Construct a `UserBuffer`.
    pub fn new(buffers: Vec<Segment>) -> (r: UserBuffer)
        ensures
            r.buffers == buffers,
    {
        UserBuffer { buffers }
    }

    /// Get the length of the buffer.
    pub fn len(&self) -> (r: usize)
        requires
            segments_wf(self.buffers@),
            total_size(self.buffers@) <= usize::MAX,
        ensures
            r == total_size(self.buffers@),
    {
        let mut total: usize = 0;
        let mut i: usize = 0;
        while i < self.buffers.len()
            invariant
                i <= self.buffers@.len(),
                segments_wf(self.buffers@),
                total_size(self.buffers@) <= usize::MAX,
                total == total_size(self.buffers@.take(i as int)),
            decreases self.buffers@.len() - i,
        {
            proof {
                lemma_total_size_monotone(self.buffers@, i as int + 1);
                assert(self.buffers@.take(i as int + 1).drop_last() =~= self.buffers@.take(i as int));
            }
            total = total + (self.buffers[i].end - self.buffers[i].start);
            i = i + 1;
        }
        assert(self.buffers@.take(i as int) =~= self.buffers@);
        total
    }

    /// A walk over the bytes of the buffer, from the first one on.
    pub fn into_iter(self) -> (r: UserBufferIterator)
        ensures
            r.segments() == self.buffers@,
            r.position() == (0int, 0int),
    {
        UserBufferIterator { buffers: self.buffers, current_buffer: 0, current_idx: 0 }
    }
}

impl UserBufferIterator {
    /// The stretches that are walked over.
    pub closed spec fn segments(self) -> Seq<Segment> {
        self.buffers@
    }

    /// The stretch that the next byte lies in, and its place in it.
    pub closed spec fn position(self) -> (int, int) {
        (self.current_buffer as int, self.current_idx as int)
    }

    /// Physical addresses of the bytes that are left.
    pub open spec fn rest(self) -> Seq<int> {
        addresses_from(self.segments(), self.position().0, self.position().1)
    }

    /// The walk is at a byte of a stretch, or at the end.
    pub open spec fn at_byte(self) -> bool {
        &&& segments_wf(self.segments())
        &&& 0 <= self.position().0 < self.segments().len() ==> self.position().1
            < self.segments()[self.position().0].size()
    }

    /// The address of the next byte, and nothing at the end.
    pub fn next(&mut self) -> (r: Option<PhysAddr>)
        requires
            old(self).at_byte(),
        ensures
            final(self).segments() == old(self).segments(),
            ({
                let (cur, idx) = old(self).position();
                let segs = old(self).segments();
                if cur >= segs.len() {
                    r is None && final(self).position() == (cur, idx)
                } else {
                    &&& r is Some
                    &&& (r->0).0 == segment_addr(segs[cur], idx)
                    &&& final(self).position() == if idx + 1 == segs[cur].size() {
                        (cur + 1, 0int)
                    } else {
                        (cur, idx + 1)
                    }
                }
            }),
            match r {
                Some(pa) => old(self).rest() == seq![pa.0 as int] + final(self).rest(),
                None => old(self).rest().len() == 0 && final(self).rest().len() == 0,
            },
    {
        if self.current_buffer >= self.buffers.len() {
            None
        } else {
            let seg = self.buffers[self.current_buffer];
            let r = PhysAddr(
                seg.ppn.0 * PAGE_SIZE + seg.start as u64 + self.current_idx as u64,
            );
            assert(addresses_from(
                self.buffers@,
                self.current_buffer as int,
                seg.end - seg.start,
            ) == addresses_from(self.buffers@, self.current_buffer + 1, 0));
            if self.current_idx + 1 == seg.end - seg.start {
                self.current_idx = 0;
                self.current_buffer = self.current_buffer + 1;
            } else {
                self.current_idx = self.current_idx + 1;
            }
            Some(r)
        }
    }
}

/// The size of a part of a list is at most that of the list.
proof fn lemma_total_size_monotone(segs: Seq<Segment>, n: int)
    requires
        segments_wf(segs),
        0 <= n <= segs.len(),
    ensures
        0 <= total_size(segs.take(n)) <= total_size(segs),
    decreases segs.len(),
{
    if n == segs.len() {
        assert(segs.take(n) =~= segs);
        if segs.len() > 0 {
            lemma_total_size_monotone(segs.drop_last(), n - 1);
            assert(segs.drop_last().take(n - 1) =~= segs.drop_last());
        }
    } else {
        assert(segs.drop_last().take(n) =~= segs.take(n));
        lemma_total_size_monotone(segs.drop_last(), n);
    }
}

/// The size of a list is that of its first stretch and that of the others.
pub proof fn lemma_total_size_first(segs: Seq<Segment>)
    requires
        segs.len() > 0,
    ensures
        total_size(segs) == segs[0].size() + total_size(segs.skip(1)),
    decreases segs.len(),
{
    if segs.len() == 1 {
        assert(segs.drop_last() =~= Seq::empty());
        assert(segs.skip(1) =~= Seq::empty());
    } else {
        lemma_total_size_first(segs.drop_last());
        assert(segs.skip(1).drop_last() =~= segs.drop_last().skip(1));
    }
}

/// The bytes that are left from a position on: those of its stretch and those of
/// the stretches after it.
proof fn lemma_addresses_count(segs: Seq<Segment>, cur: int, idx: int)
    requires
        segments_wf(segs),
        0 <= cur <= segs.len(),
        0 <= idx,
        cur < segs.len() ==> idx <= segs[cur].size(),
        cur == segs.len() ==> idx == 0,
    ensures
        addresses_from(segs, cur, idx).len() + idx == total_size(segs.skip(cur)),
    decreases segs.len() - cur, (if 0 <= cur < segs.len() { segs[cur].size() - idx } else { 0 }),
{
    if cur < segs.len() {
        lemma_total_size_first(segs.skip(cur));
        assert(segs.skip(cur).skip(1) =~= segs.skip(cur + 1));
        if idx >= segs[cur].size() {
            lemma_addresses_count(segs, cur + 1, 0);
        } else {
            lemma_addresses_count(segs, cur, idx + 1);
        }
    }
}

/// A walk from the start meets as many bytes as the buffer is long.
pub proof fn law_walk_meets_every_byte(segs: Seq<Segment>)
    requires
        segments_wf(segs),
    ensures
        addresses_from(segs, 0, 0).len() == total_size(segs),
{
    lemma_addresses_count(segs, 0, 0);
    assert(segs.skip(0) =~= segs);
}

/// The length of a buffer is the sum of the lengths of its stretches.
pub proof fn law_length_is_the_sum(segs: Seq<Segment>, s: Segment)
    ensures
        total_size(Seq::<Segment>::empty()) == 0,
        total_size(segs.push(s)) == total_size(segs) + (s.end - s.start),
{
    assert(segs.push(s).drop_last() =~= segs);
}

/// The walk finishes a stretch before it goes on to the next one.
proof fn lemma_addresses_stretch(segs: Seq<Segment>, cur: int, idx: int)
    requires
        0 <= cur < segs.len(),
        0 <= idx <= segs[cur].size(),
    ensures
        addresses_from(segs, cur, idx) == Seq::new(
            (segs[cur].size() - idx) as nat,
            |j: int| segment_addr(segs[cur], idx + j),
        ) + addresses_from(segs, cur + 1, 0),
    decreases segs[cur].size() - idx,
{
    let head = |i: int|
        Seq::new((segs[cur].size() - i) as nat, |j: int| segment_addr(segs[cur], i + j));
    if idx < segs[cur].size() {
        lemma_addresses_stretch(segs, cur, idx + 1);
        assert(head(idx) =~= seq![segment_addr(segs[cur], idx)] + head(idx + 1));
        assert(addresses_from(segs, cur, idx) =~= head(idx) + addresses_from(segs, cur + 1, 0));
    } else {
        assert(head(idx) =~= Seq::empty());
        assert(addresses_from(segs, cur, idx) =~= head(idx) + addresses_from(segs, cur + 1, 0));
    }
}

/// What is left of the walk after the first `i` stretches.
proof fn lemma_addresses_after(segs: Seq<Segment>, i: int)
    requires
        segments_wf(segs),
        0 <= i <= segs.len(),
    ensures
        0 <= total_size(segs.take(i)) <= addresses_from(segs, 0, 0).len(),
        addresses_from(segs, 0, 0).skip(total_size(segs.take(i))) == addresses_from(segs, i, 0),
    decreases i,
{
    let all = addresses_from(segs, 0, 0);
    if i > 0 {
        lemma_addresses_after(segs, i - 1);
        lemma_addresses_stretch(segs, i - 1, 0);
        assert(segs.take(i).drop_last() =~= segs.take(i - 1));
        let a = total_size(segs.take(i - 1));
        let n = segs[i - 1].size();
        assert(total_size(segs.take(i)) == a + n);
        assert(all.skip(a).len() >= n);
        assert(all.skip(a + n) =~= all.skip(a).skip(n));
        assert(all.skip(a).skip(n) =~= addresses_from(segs, i, 0));
    } else {
        assert(segs.take(0) =~= Seq::empty());
        assert(all.skip(0) =~= all);
    }
}

/// The walk goes through the stretches in order, and through the bytes of each in order:
/// after all bytes of the stretches before, byte `j` of stretch `i` is met, and it lies `j`
/// bytes after the place in its frame where the stretch begins.
#[verifier::spinoff_prover]
pub proof fn law_walk_keeps_the_order(segs: Seq<Segment>, i: int, j: int)
    requires
        forall|k: int|
            0 <= k < segs.len() ==> (#[trigger] segs[k]).start <= segs[k].end <= 4096
                && segs[k].ppn.0 < 0x1000_0000_0000,
        0 <= i < segs.len(),
        0 <= j < segs[i].end - segs[i].start,
    ensures
        0 <= total_size(segs.take(i)) + j < addresses_from(segs, 0, 0).len(),
        addresses_from(segs, 0, 0)[total_size(segs.take(i)) + j] == segs[i].ppn.0 * 4096
            + segs[i].start + j,
{
    lemma_addresses_after(segs, i);
    lemma_addresses_stretch(segs, i, 0);
    let a = total_size(segs.take(i));
    let all = addresses_from(segs, 0, 0);
    assert(all.skip(a)[j] == segment_addr(segs[i], j));
    assert(all.skip(a).len() > j);
}

/// A walk through stretches that are not empty is always at a byte, or at the end, from
/// where no byte is left; what is left at the start is all of it.
#[verifier::spinoff_prover]
pub proof fn law_walk_is_at_a_byte(it: UserBufferIterator)
    requires
        forall|k: int|
            0 <= k < it.segments().len() ==> (#[trigger] it.segments()[k]).start
                < it.segments()[k].end <= 4096 && it.segments()[k].ppn.0 < 0x1000_0000_0000,
        0 <= it.position().0 <= it.segments().len(),
        0 <= it.position().1,
        it.position().0 < it.segments().len() ==> it.position().1 < it.segments()[it.position().0].end
            - it.segments()[it.position().0].start,
    ensures
        it.at_byte(),
        it.position().0 == it.segments().len() ==> it.rest().len() == 0,
        it.position().0 < it.segments().len() ==> it.rest().len() > 0 && it.rest()[0]
            == it.segments()[it.position().0].ppn.0 * 4096
            + it.segments()[it.position().0].start + it.position().1,
        it.position() == (0int, 0int) ==> it.rest() == addresses_from(it.segments(), 0, 0),
{
}

/// A buffer is made of stretches that lie in frames with numbers of 44 bits and do not end
/// before they begin; they may be empty.
pub proof fn law_what_a_buffer_is(segs: Seq<Segment>)
    ensures
        segments_wf(segs) == (forall|k: int|
            0 <= k < segs.len() ==> (#[trigger] segs[k]).start <= segs[k].end && segs[k].end <= 4096
                && segs[k].ppn.0 < 0x1000_0000_0000),
{
}

} // verus!
