//! Physical memory and the allocator of its frames.
use crate::bytes::{
    clear_bytes, lemma_splice_apart, lemma_splice_inside, lemma_splice_same, lemma_zero_word,
    splice, write_bytes, zeros,
};
use crate::mm::address::{PhysAddr, PhysPageNum, PAGE_SIZE, PPN_SPAN};
use vstd::bytes::{u64_from_le_bytes, u64_to_le_bytes};
use vstd::prelude::*;
use vstd::slice::slice_subrange;

verus! {

/// What physical memory holds: the bytes of its frames, the first of which has
/// page number `base`, and the frames that are free, next to be handed out last.
#[verifier::ext_equal]
pub struct MemView {
    pub base: u64,
    pub bytes: Seq<u8>,
    pub free: Seq<u64>,
}

impl MemView {
    /// Whole frames with page numbers of 44 bits; free frames exist and are
    /// listed once.
    pub open spec fn wf(self) -> bool {
        &&& self.bytes.len() % 4096 == 0
        &&& self.base + self.bytes.len() / 4096 <= PPN_SPAN
        &&& forall|i: int| 0 <= i < self.free.len() ==> self.backed(#[trigger] self.free[i])
        &&& self.free.no_duplicates()
    }

    /// Is there a frame with this page number?
    pub open spec fn backed(self, ppn: u64) -> bool {
        self.base <= ppn && (ppn - self.base + 1) * 4096 <= self.bytes.len()
    }

    /// Position of the first byte of a frame.
    pub open spec fn offset(self, ppn: u64) -> int {
        (ppn - self.base) * 4096
    }

    /// The bytes of a frame.
    pub open spec fn frame(self, ppn: u64) -> Seq<u8> {
        self.bytes.subrange(self.offset(ppn), self.offset(ppn) + 4096)
    }

    /// The word at index `idx` of a frame that holds a table.
    pub open spec fn pte(self, ppn: u64, idx: u64) -> u64 {
        vstd::bytes::spec_u64_from_le_bytes(
            self.bytes.subrange(self.offset(ppn) + idx * 8, self.offset(ppn) + idx * 8 + 8),
        )
    }

    /// The byte at a physical address.
    pub open spec fn byte(self, pa: int) -> u8 {
        self.bytes[pa - self.base * 4096]
    }

    /// Memory after some bytes were written at position `off`.
    pub open spec fn put(self, off: int, d: Seq<u8>) -> MemView {
        MemView { bytes: splice(self.bytes, off, d), ..self }
    }

    /// Memory after a word was written at index `idx` of a table.
    pub open spec fn put_pte(self, ppn: u64, idx: u64, bits: u64) -> MemView {
        self.put(self.offset(ppn) + idx * 8, vstd::bytes::spec_u64_to_le_bytes(bits))
    }

    /// Memory after the last free frame was taken and cleared.
    pub open spec fn take_frame(self) -> MemView {
        MemView {
            free: self.free.drop_last(),
            ..self.put(self.offset(self.free.last()), zeros(4096))
        }
    }
}

/// A word that was written is read back, and no other word changes.
pub proof fn lemma_put_pte(m: MemView, ppn: u64, idx: u64, bits: u64)
    requires
        m.wf(),
        m.backed(ppn),
        idx < 512,
    ensures
        m.put_pte(ppn, idx, bits).wf(),
        m.put_pte(ppn, idx, bits).base == m.base,
        m.put_pte(ppn, idx, bits).bytes.len() == m.bytes.len(),
        m.put_pte(ppn, idx, bits).free == m.free,
        forall|t: u64| #![auto] m.put_pte(ppn, idx, bits).backed(t) == m.backed(t),
        forall|t: u64, i: u64|
            m.backed(t) && i < 512 ==> #[trigger] m.put_pte(ppn, idx, bits).pte(t, i) == if t == ppn
                && i == idx {
                bits
            } else {
                m.pte(t, i)
            },
        forall|t: u64|
            m.backed(t) && t != ppn ==> #[trigger] m.put_pte(ppn, idx, bits).frame(t) == m.frame(t),
{
    vstd::bytes::lemma_auto_spec_u64_to_from_le_bytes();
    let n = m.put_pte(ppn, idx, bits);
    let d = vstd::bytes::spec_u64_to_le_bytes(bits);
    let off = m.offset(ppn) + idx * 8;
    assert forall|t: u64, i: u64| m.backed(t) && i < 512 implies #[trigger] n.pte(t, i) == if t
        == ppn && i == idx {
        bits
    } else {
        m.pte(t, i)
    } by {
        let o = m.offset(t) + i * 8;
        if t == ppn && i == idx {
            lemma_splice_same(m.bytes, off, d);
        } else {
            assert(o + 8 <= off || off + 8 <= o) by {
                if t == ppn {
                } else if t < ppn {
                    assert((ppn - m.base) * 4096 >= (t - m.base) * 4096 + 4096);
                } else {
                    assert((t - m.base) * 4096 >= (ppn - m.base) * 4096 + 4096);
                }
            }
            lemma_splice_apart(m.bytes, off, d, o, o + 8);
        }
    }
    assert forall|t: u64| m.backed(t) && t != ppn implies #[trigger] n.frame(t) == m.frame(t) by {
        lemma_splice_apart(m.bytes, off, d, m.offset(t), m.offset(t) + 4096);
    }
}

/// The frame that was taken reads as zero, and no other frame changes.
pub proof fn lemma_take_frame(m: MemView)
    requires
        m.wf(),
        m.free.len() > 0,
    ensures
        m.take_frame().wf(),
        m.take_frame().base == m.base,
        m.take_frame().bytes.len() == m.bytes.len(),
        m.backed(m.free.last()),
        !m.take_frame().free.contains(m.free.last()),
        forall|t: u64| #![auto] m.take_frame().backed(t) == m.backed(t),
        forall|i: u64| i < 512 ==> #[trigger] m.take_frame().pte(m.free.last(), i) == 0,
        forall|t: u64, i: u64|
            m.backed(t) && i < 512 && t != m.free.last() ==> #[trigger] m.take_frame().pte(t, i) == m.pte(
                t,
                i,
            ),
        m.take_frame().frame(m.free.last()) == zeros(4096),
        forall|t: u64|
            m.backed(t) && t != m.free.last() ==> #[trigger] m.take_frame().frame(t) == m.frame(t),
{
    let f = m.free.last();
    let n = m.take_frame();
    let z = zeros(4096);
    assert(m.backed(m.free[m.free.len() - 1]));
    assert forall|i: int| 0 <= i < n.free.len() implies n.backed(#[trigger] n.free[i]) by {
        assert(n.free[i] == m.free[i]);
    }
    assert forall|i: u64| i < 512 implies #[trigger] n.pte(f, i) == 0 by {
        let o = m.offset(f) + i * 8;
        lemma_splice_inside(m.bytes, m.offset(f), z, o, o + 8);
        lemma_zero_word(n.bytes.subrange(o, o + 8));
    }
    assert forall|t: u64, i: u64| m.backed(t) && i < 512 && t != f implies #[trigger] n.pte(t, i)
        == m.pte(t, i) by {
        let o = m.offset(t) + i * 8;
        if t < f {
            assert((f - m.base) * 4096 >= (t - m.base) * 4096 + 4096);
        } else {
            assert((t - m.base) * 4096 >= (f - m.base) * 4096 + 4096);
        }
        lemma_splice_apart(m.bytes, m.offset(f), z, o, o + 8);
    }
    lemma_splice_same(m.bytes, m.offset(f), z);
    assert forall|t: u64| m.backed(t) && t != f implies #[trigger] n.frame(t) == m.frame(t) by {
        lemma_splice_apart(m.bytes, m.offset(f), z, m.offset(t), m.offset(t) + 4096);
    }
}

/// Physical memory, with the frames that nobody owns.
pub struct PhysMemory {
    base: u64,
    bytes: Vec<u8>,
    free: Vec<u64>,
}

/// A frame that its holder owns.
#[derive(Debug, PartialEq, Eq, Structural)]
pub struct FrameTracker {
    pub ppn: PhysPageNum,
}

impl View for PhysMemory {
    type V = MemView;

    closed spec fn view(&self) -> MemView {
        MemView { base: self.base, bytes: self.bytes@, free: self.free@ }
    }
}

impl PhysMemory {
    /// Memory of `frames` frames from page number `base` on, all of them zero
    /// and free. The frame with the lowest number is handed out first.
    pub fn new(base: u64, frames: usize) -> (r: PhysMemory)
        requires
            base + frames <= PPN_SPAN,
            frames * 4096 <= usize::MAX,
        ensures
            r@.wf(),
            r@.base == base,
            r@.bytes == zeros((frames * 4096) as nat),
            r@.free == Seq::new(frames as nat, |i: int| (base + frames - 1 - i) as u64),
    {
        let mut bytes: Vec<u8> = Vec::new();
        let mut free: Vec<u64> = Vec::new();
        let total: usize = frames * 4096;
        while bytes.len() < total
            invariant
                bytes@.len() <= total,
                bytes@ =~= zeros(bytes@.len()),
            decreases total - bytes@.len(),
        {
            bytes.push(0u8);
        }
        let mut i: usize = 0;
        while i < frames
            invariant
                i <= frames,
                base + frames <= PPN_SPAN,
                free@ =~= Seq::new(i as nat, |k: int| (base + frames - 1 - k) as u64),
            decreases frames - i,
        {
            free.push(base + (frames - 1 - i) as u64);
            i = i + 1;
        }
        PhysMemory { base, bytes, free }
    }

    /// Number of free frames.
    pub fn free_frames(&self) -> (r: usize)
        ensures
            r == self@.free.len(),
    {
        self.free.len()
    }

    /// Is there a frame with this page number?
    pub fn is_backed(&self, ppn: PhysPageNum) -> (r: bool)
        requires
            self@.wf(),
        ensures
            r == self@.backed(ppn.0),
    {
        ppn.0 >= self.base && ppn.0 - self.base < (self.bytes.len() / 4096) as u64
    }

    /// Do the `n` bytes from a physical address on lie in memory?
    pub fn holds(&self, pa: PhysAddr, n: u64) -> (r: bool)
        requires
            self@.wf(),
            pa.0 + n <= u64::MAX,
        ensures
            r == (self@.base * PAGE_SIZE <= pa.0 && pa.0 + n <= self@.base * PAGE_SIZE
                + self@.bytes.len()),
    {
        let first = self.base * PAGE_SIZE;
        assert(self.bytes@.len() == self.bytes.len());
        pa.0 >= first && pa.0 + n - first <= (self.bytes.len() as u64)
    }

    /// Takes a frame and clears it; nothing when none is free.
    pub fn frame_alloc(&mut self) -> (r: Option<FrameTracker>)
        requires
            old(self)@.wf(),
        ensures
            final(self)@.wf(),
            old(self)@.free.len() == 0 ==> r is None && final(self)@ == old(self)@,
            old(self)@.free.len() > 0 ==> {
                &&& r is Some
                &&& r->0.ppn.0 == old(self)@.free.last()
                &&& final(self)@ == old(self)@.take_frame()
            },
    {
        proof {
            if self@.free.len() > 0 {
                lemma_take_frame(self@);
            }
        }
        match self.free.pop() {
            None => None,
            Some(ppn) => {
                assert(self.bytes@.len() == self.bytes.len());
                let off = ((ppn - self.base) * PAGE_SIZE) as usize;
                clear_bytes(&mut self.bytes, off, 4096);
                Some(FrameTracker { ppn: PhysPageNum(ppn) })
            },
        }
    }

    /// Gives a frame back.
    pub fn frame_dealloc(&mut self, frame: FrameTracker)
        requires
            old(self)@.wf(),
            old(self)@.backed(frame.ppn.0),
            !old(self)@.free.contains(frame.ppn.0),
        ensures
            final(self)@.wf(),
            final(self)@ == (MemView { free: old(self)@.free.push(frame.ppn.0), ..old(self)@ }),
    {
        self.free.push(frame.ppn.0);
    }

    /// The word at index `idx` of a table.
    pub fn read_pte(&self, ppn: PhysPageNum, idx: usize) -> (r: u64)
        requires
            self@.wf(),
            self@.backed(ppn.0),
            idx < 512,
        ensures
            r == self@.pte(ppn.0, idx as u64),
    {
        assert(self.bytes@.len() == self.bytes.len());
        let off = ((ppn.0 - self.base) * PAGE_SIZE) as usize + idx * 8;
        u64_from_le_bytes(slice_subrange(self.bytes.as_slice(), off, off + 8))
    }

    /// Writes the word at index `idx` of a table.
    pub fn write_pte(&mut self, ppn: PhysPageNum, idx: usize, bits: u64)
        requires
            old(self)@.wf(),
            old(self)@.backed(ppn.0),
            idx < 512,
        ensures
            final(self)@.wf(),
            final(self)@ == old(self)@.put_pte(ppn.0, idx as u64, bits),
    {
        proof {
            lemma_put_pte(self@, ppn.0, idx as u64, bits);
        }
        assert(self.bytes@.len() == self.bytes.len());
        let off = ((ppn.0 - self.base) * PAGE_SIZE) as usize + idx * 8;
        let d = u64_to_le_bytes(bits);
        write_bytes(&mut self.bytes, off, d.as_slice());
    }

    /// The byte at a physical address.
    pub fn read_byte(&self, pa: PhysAddr) -> (r: u8)
        requires
            self@.wf(),
            self@.backed(pa.0 / PAGE_SIZE),
        ensures
            r == self@.byte(pa.0 as int),
    {
        assert(self.bytes@.len() == self.bytes.len());
        let off = (pa.0 - self.base * PAGE_SIZE) as usize;
        self.bytes[off]
    }

    /// Writes bytes from a physical address on.
    pub fn write_at(&mut self, pa: PhysAddr, d: &[u8])
        requires
            old(self)@.wf(),
            old(self)@.base * PAGE_SIZE <= pa.0,
            pa.0 + d@.len() <= old(self)@.base * PAGE_SIZE + old(self)@.bytes.len(),
        ensures
            final(self)@.wf(),
            final(self)@ == old(self)@.put(pa.0 - old(self)@.base * PAGE_SIZE, d@),
    {
        assert(self.bytes@.len() == self.bytes.len());
        let off = (pa.0 - self.base * PAGE_SIZE) as usize;
        write_bytes(&mut self.bytes, off, d);
    }

    /// Writes bytes into a frame, from offset `start` on.
    pub fn write_frame(&mut self, ppn: PhysPageNum, start: usize, d: &[u8])
        requires
            old(self)@.wf(),
            old(self)@.backed(ppn.0),
            start + d@.len() <= 4096,
        ensures
            final(self)@.wf(),
            final(self)@ == old(self)@.put(old(self)@.offset(ppn.0) + start, d@),
    {
        assert(self.bytes@.len() == self.bytes.len());
        let off = ((ppn.0 - self.base) * PAGE_SIZE) as usize + start;
        write_bytes(&mut self.bytes, off, d);
    }

    /// The bytes of a frame from offset `start` to offset `end`.
    pub fn read_frame(&self, ppn: PhysPageNum, start: usize, end: usize) -> (r: &[u8])
        requires
            self@.wf(),
            self@.backed(ppn.0),
            start <= end <= 4096,
        ensures
            r@ == self@.bytes.subrange(
                self@.offset(ppn.0) + start,
                self@.offset(ppn.0) + end,
            ),
    {
        assert(self.bytes@.len() == self.bytes.len());
        let off = ((ppn.0 - self.base) * PAGE_SIZE) as usize;
        slice_subrange(self.bytes.as_slice(), off + start, off + end)
    }
}

/// Frames lie one after the other: frame `ppn` is the 4096 bytes from physical address
/// `ppn * 4096` on, a frame lies in memory where all of these do, and an entry is the
/// little-endian word in 8 of them.
#[verifier::spinoff_prover]
pub proof fn law_frames_lie_in_order(m: MemView, ppn: u64, i: int)
    requires
        m.wf(),
        0 <= i < 4096,
    ensures
        m.backed(ppn) == (m.base * 4096 <= ppn * 4096 && ppn * 4096 + 4096 <= m.base * 4096
            + m.bytes.len()),
        m.backed(ppn) ==> {
            &&& m.frame(ppn).len() == 4096
            &&& m.frame(ppn)[i] == m.bytes[ppn * 4096 + i - m.base * 4096]
            &&& m.byte(ppn * 4096 + i) == m.bytes[ppn * 4096 + i - m.base * 4096]
            &&& vstd::bytes::spec_u64_to_le_bytes(m.pte(ppn, (i / 8) as u64))[i % 8] == m.bytes[ppn
                * 4096 + i - m.base * 4096]
        },
{
    vstd::bytes::lemma_auto_spec_u64_to_from_le_bytes();
    if m.backed(ppn) {
        let o = m.offset(ppn) + (i / 8) * 8;
        assert(o == m.offset(ppn) + ((i / 8) as u64) * 8);
        assert(m.bytes.subrange(o, o + 8)[i % 8] == m.bytes[o + i % 8]);
    }
}

/// Taking a frame: it was free and is free no more, all its bytes are 0 afterwards, no
/// byte of another frame changes, and what else was free still is.
#[verifier::spinoff_prover]
pub proof fn law_taken_frame_is_fresh(m: MemView, pa: int)
    requires
        m.wf(),
        m.free.len() > 0,
        m.base * 4096 <= pa < m.base * 4096 + m.bytes.len(),
    ensures
        m.take_frame().base == m.base,
        m.take_frame().bytes.len() == m.bytes.len(),
        m.free.contains(m.free.last()),
        forall|t: u64| #[trigger]
            m.take_frame().free.contains(t) == (m.free.contains(t) && t != m.free.last()),
        m.take_frame().free.len() == m.free.len() - 1,
        m.take_frame().bytes[pa - m.base * 4096] == if pa / 4096 == m.free.last() {
            0
        } else {
            m.bytes[pa - m.base * 4096]
        },
{
    let n = m.take_frame();
    let f = m.free.last();
    lemma_take_frame(m);
    assert(m.free[m.free.len() - 1] == f);
    assert forall|t: u64| #[trigger] n.free.contains(t) == (m.free.contains(t) && t != f) by {
        if n.free.contains(t) {
            let x = choose|x: int| 0 <= x < n.free.len() && n.free[x] == t;
            assert(m.free[x] == t);
        }
        if m.free.contains(t) && t != f {
            let x = choose|x: int| 0 <= x < m.free.len() && m.free[x] == t;
            assert(n.free[x] == t);
        }
    }
}

/// Storing bytes changes those bytes and no others, and no frame becomes free or is
/// taken by it.
pub proof fn law_put_changes_its_bytes(m: MemView, off: int, d: Seq<u8>)
    requires
        0 <= off,
        off + d.len() <= m.bytes.len(),
    ensures
        m.put(off, d).base == m.base,
        m.put(off, d).free == m.free,
        m.put(off, d).bytes.len() == m.bytes.len(),
        forall|j: int| 0 <= j < d.len() ==> m.put(off, d).bytes[off + j] == #[trigger] d[j],
        forall|i: int|
            0 <= i < m.bytes.len() && !(off <= i < off + d.len()) ==> #[trigger] m.put(
                off,
                d,
            ).bytes[i] == m.bytes[i],
{
}

/// An entry that was written is read back, and no other entry of any frame changes.
pub proof fn law_entry_is_read_back(m: MemView, ppn: u64, idx: u64, bits: u64)
    requires
        m.wf(),
        m.backed(ppn),
        idx < 512,
    ensures
        m.put_pte(ppn, idx, bits).pte(ppn, idx) == bits,
        m.put_pte(ppn, idx, bits).free == m.free,
        forall|t: u64, i: u64|
            m.backed(t) && i < 512 && !(t == ppn && i == idx) ==> #[trigger] m.put_pte(
                ppn,
                idx,
                bits,
            ).pte(t, i) == m.pte(t, i),
{
    lemma_put_pte(m, ppn, idx, bits);
}

} // verus!
