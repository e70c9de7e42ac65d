//! Byte sequences: overwriting a stretch of a sequence, little-endian words.
use vstd::prelude::*;

verus! {

/// `s` with the bytes from position `off` on replaced by those of `d`.
pub open spec fn splice(s: Seq<u8>, off: int, d: Seq<u8>) -> Seq<u8> {
    Seq::new(s.len(), |i: int| if off <= i < off + d.len() { d[i - off] } else { s[i] })
}

/// A sequence of `n` zero bytes.
pub open spec fn zeros(n: nat) -> Seq<u8> {
    Seq::new(n, |i: int| 0u8)
}

/// What is read back from the stretch that was overwritten.
pub proof fn lemma_splice_same(s: Seq<u8>, off: int, d: Seq<u8>)
    requires
        0 <= off,
        off + d.len() <= s.len(),
    ensures
        splice(s, off, d).len() == s.len(),
        splice(s, off, d).subrange(off, off + d.len()) == d,
{
    assert(splice(s, off, d).subrange(off, off + d.len()) =~= d);
}

/// A stretch that does not meet the overwritten one keeps its bytes.
pub proof fn lemma_splice_apart(s: Seq<u8>, off: int, d: Seq<u8>, lo: int, hi: int)
    requires
        0 <= lo <= hi <= s.len(),
        hi <= off || off + d.len() <= lo,
    ensures
        splice(s, off, d).subrange(lo, hi) == s.subrange(lo, hi),
{
    assert(splice(s, off, d).subrange(lo, hi) =~= s.subrange(lo, hi));
}

/// A stretch inside the overwritten one shows the matching part of `d`.
pub proof fn lemma_splice_inside(s: Seq<u8>, off: int, d: Seq<u8>, lo: int, hi: int)
    requires
        0 <= off <= lo <= hi <= off + d.len(),
        off + d.len() <= s.len(),
    ensures
        splice(s, off, d).subrange(lo, hi) == d.subrange(lo - off, hi - off),
{
    assert(splice(s, off, d).subrange(lo, hi) =~= d.subrange(lo - off, hi - off));
}

/// Eight zero bytes are the little-endian word 0.
pub proof fn lemma_zero_word(s: Seq<u8>)
    requires
        s.len() == 8,
        forall|i: int| 0 <= i < 8 ==> s[i] == 0u8,
    ensures
        vstd::bytes::spec_u64_from_le_bytes(s) == 0,
{
    vstd::bytes::lemma_auto_spec_u64_to_from_le_bytes();
    vstd::bytes::spec_u64_to_le_bytes_to_open(0u64);
    assert(0u64 & 0xff == 0 && (0u64 >> 8) & 0xff == 0 && (0u64 >> 16) & 0xff == 0 && (0u64 >> 24)
        & 0xff == 0 && (0u64 >> 32) & 0xff == 0 && (0u64 >> 40) & 0xff == 0 && (0u64 >> 48) & 0xff
        == 0 && (0u64 >> 56) & 0xff == 0) by (bit_vector);
    assert(vstd::bytes::spec_u64_to_le_bytes(0u64) =~= s);
}

/// Overwrites the bytes of `v` from position `off` on with those of `d`.
pub fn write_bytes(v: &mut Vec<u8>, off: usize, d: &[u8])
    requires
        off + d@.len() <= old(v)@.len(),
    ensures
        final(v)@ == splice(old(v)@, off as int, d@),
{
    let n = d.len();
    assert(v@.len() == v.len());
    let mut i: usize = 0;
    while i < n
        invariant
            n == d@.len(),
            i <= n,
            off + n <= old(v)@.len() <= usize::MAX,
            v@ == splice(old(v)@, off as int, d@.take(i as int)),
        decreases n - i,
    {
        v[off + i] = d[i];
        i = i + 1;
        assert(v@ =~= splice(old(v)@, off as int, d@.take(i as int)));
    }
    assert(d@.take(n as int) =~= d@);
}

/// Sets `n` bytes of `v` to zero, from position `off` on.
pub fn clear_bytes(v: &mut Vec<u8>, off: usize, n: usize)
    requires
        off + n <= old(v)@.len(),
    ensures
        final(v)@ == splice(old(v)@, off as int, zeros(n as nat)),
{
    assert(v@.len() == v.len());
    let mut i: usize = 0;
    while i < n
        invariant
            i <= n,
            off + n <= old(v)@.len() <= usize::MAX,
            v@ == splice(old(v)@, off as int, zeros(i as nat)),
        decreases n - i,
    {
        v[off + i] = 0u8;
        i = i + 1;
        assert(v@ =~= splice(old(v)@, off as int, zeros(i as nat)));
    }
}

/// Overwriting a stretch keeps the length, puts byte `j` of the new bytes at place
/// `off + j`, and leaves every place before and after the stretch alone.
pub proof fn law_overwriting(s: Seq<u8>, off: int, d: Seq<u8>)
    requires
        0 <= off,
        off + d.len() <= s.len(),
    ensures
        splice(s, off, d).len() == s.len(),
        forall|j: int| 0 <= j < d.len() ==> splice(s, off, d)[off + j] == #[trigger] d[j],
        forall|i: int| 0 <= i < off ==> #[trigger] splice(s, off, d)[i] == s[i],
        forall|i: int|
            off + d.len() <= i < s.len() ==> #[trigger] splice(s, off, d)[i] == s[i],
{
}

/// As many zero bytes as were asked for, and nothing but zero bytes.
pub proof fn law_zeros_are_zero(n: nat)
    ensures
        zeros(n).len() == n,
        forall|i: int| 0 <= i < n ==> #[trigger] zeros(n)[i] == 0u8,
{
}

} // verus!
