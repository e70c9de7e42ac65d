//! What reading, writing and clearing does to each single byte of a file.
use crate::fs::efs::{count_free, first_free, FileView, FsView};
use crate::fs::layout::{blocks_of_size, data_blocks, data_slot, lemma_blocks_of_size};
use crate::fs::vfs::{
    bytes_read, cleared, has_room, inode_block, inode_offset, synced, write_file, Inode,
};
use vstd::prelude::*;

verus! {

/// A read gives the bytes from the offset on, in order, as many as there are up to the end
/// of the file and as the buffer holds; none where the offset lies at or beyond the end.
pub proof fn law_read_gives_the_bytes_from_offset(c: Seq<u8>, off: int, n: int)
    requires
        0 <= off,
        0 <= n,
    ensures
        ({
            let r = bytes_read(c, off, n);
            &&& off >= c.len() ==> r.len() == 0
            &&& off < c.len() && off + n <= c.len() ==> r.len() == n
            &&& off < c.len() && off + n > c.len() ==> r.len() == c.len() - off
            &&& forall|i: int| 0 <= i < r.len() ==> #[trigger] r[i] == c[off + i]
        }),
{
}

/// Reading a file in two parts gives the same bytes as reading it at once.
pub proof fn law_two_reads_make_one(c: Seq<u8>, off: int, a: int, b: int)
    requires
        0 <= off,
        0 <= a,
        0 <= b,
    ensures
        bytes_read(c, off, a + b) == bytes_read(c, off, a) + bytes_read(c, off + a, b),
{
    assert(bytes_read(c, off, a + b) =~= bytes_read(c, off, a) + bytes_read(c, off + a, b));
}

/// The contents of a file are as many of its bytes as its size says.
pub proof fn law_contents_have_the_size(f: FileView, p: int)
    requires
        f.wf(),
        0 <= p < f.size,
    ensures
        f.content().len() == f.size,
        f.content()[p] == f.backing[p],
{
    lemma_blocks_of_size(0, f.size as int);
}

/// A file has as many data blocks of 512 bytes as its size needs and no more, and besides
/// them an index block where there are more than 27 data blocks, and, where there are more
/// than 155, an index block of index blocks and one of these for each 128 blocks.
#[verifier::spinoff_prover]
pub proof fn law_blocks_of_a_file(size: int, d: int)
    requires
        0 <= size,
        (d - 1) * 512 < size <= d * 512,
    ensures
        data_blocks(size) == d,
        blocks_of_size(size) == d + (if d > 27 {
            1int
        } else {
            0
        }) + (if d > 155 {
            1 + (d - 155 + 127) / 128
        } else {
            0
        }),
        d > 0 ==> data_slot(d - 1) == blocks_of_size(size) - 1,
{
}

/// A file grows to a size and keeps its bytes; what is new is 0. To a smaller size it does
/// not shrink by growing.
pub proof fn law_growing_keeps_the_bytes(f: FileView, size: u32)
    requires
        f.wf(),
        size <= 8_467_968,
    ensures
        ({
            let g = f.grown(size);
            &&& g.wf()
            &&& g.kind == f.kind
            &&& g.nlink == f.nlink
            &&& g.size == if size < f.size {
                f.size
            } else {
                size
            }
            &&& forall|p: int| 0 <= p < f.backing.len() ==> #[trigger] g.backing[p] == f.backing[p]
            &&& forall|p: int| f.backing.len() <= p < g.backing.len() ==> #[trigger] g.backing[p]
                == 0
        }),
{
    if size >= f.size {
        lemma_blocks_of_size(f.size as int, size as int);
    }
}

/// A file is cut to a size and keeps the bytes before it. To a larger size it does not grow
/// by being cut.
#[verifier::spinoff_prover]
pub proof fn law_cutting_keeps_what_is_before(f: FileView, size: u32)
    requires
        f.wf(),
    ensures
        ({
            let g = f.cut(size);
            &&& g.wf()
            &&& g.kind == f.kind
            &&& g.nlink == f.nlink
            &&& g.size == if size < f.size {
                size
            } else {
                f.size
            }
            &&& forall|p: int| 0 <= p < g.content().len() ==> #[trigger] g.content()[p]
                == f.content()[p]
            &&& g.content().len() == g.size
        }),
{
    lemma_blocks_of_size(0, f.size as int);
    if size < f.size {
        lemma_blocks_of_size(size as int, f.size as int);
        lemma_blocks_of_size(0, size as int);
    }
}

/// There is room for a size where it is not beyond the largest one and the blocks that the
/// file does not have yet are free.
pub proof fn law_room_for_a_size(v: FsView, k: int, size: int)
    requires
        v.wf(),
    ensures
        has_room(v, k, size) == (size <= 8_467_968 && (size < v.files[k].size || blocks_of_size(
            size,
        ) - blocks_of_size(v.files[k].size as int) <= v.free_blocks)),
{
}

/// Writing puts each byte at its place, makes the file as long as it must be, and leaves
/// every other byte of the file, what it is, its links, every other file and the inodes in
/// use alone. The blocks that are new are taken from the free ones.
#[verifier::spinoff_prover]
pub proof fn law_write_changes_its_bytes(v: FsView, k: int, off: int, d: Seq<u8>)
    requires
        v.wf(),
        0 <= k < v.files.len(),
        0 <= off,
        off + d.len() <= 8_467_968,
        off + d.len() < v.files[k].size || blocks_of_size(off + d.len()) - blocks_of_size(
            v.files[k].size as int,
        ) <= v.free_blocks,
    ensures
        ({
            let w = synced(write_file(v, k, off, d));
            let f = v.files[k];
            let g = w.files[k];
            let after = g.content();
            &&& g.wf()
            &&& g.kind == f.kind
            &&& g.nlink == f.nlink
            &&& g.size == if off + d.len() >= f.size {
                off + d.len()
            } else {
                f.size as int
            }
            &&& after.len() == g.size
            &&& forall|i: int| 0 <= i < d.len() ==> after[off + i] == #[trigger] d[i]
            &&& forall|p: int|
                0 <= p < f.size && !(off <= p < off + d.len()) ==> #[trigger] after[p]
                    == f.content()[p]
            &&& forall|p: int|
                f.size <= p < after.len() && p < off ==> #[trigger] after[p] == if p
                    < f.backing.len() {
                    f.backing[p]
                } else {
                    0
                }
            &&& w.files.len() == v.files.len()
            &&& forall|l: int|
                0 <= l < v.files.len() && l != k ==> #[trigger] w.files[l] == v.files[l]
            &&& w.used == v.used
            &&& w.inode_start == v.inode_start
            &&& !w.modified
            &&& w.free_blocks == v.free_blocks - (if off + d.len() < f.size {
                0
            } else {
                blocks_of_size(off + d.len()) - blocks_of_size(f.size as int)
            })
        }),
{
    let f = v.files[k];
    assert(f.wf());
    lemma_blocks_of_size(0, f.size as int);
    let size = off + d.len();
    lemma_blocks_of_size(0, size);
    if size >= f.size {
        lemma_blocks_of_size(f.size as int, size);
    }
}

/// Clearing makes a file empty and gives all its blocks back; what it is, its links, every
/// other file and the inodes in use stay.
pub proof fn law_clear_empties_one_file(v: FsView, k: int)
    requires
        v.wf(),
        0 <= k < v.files.len(),
    ensures
        ({
            let w = synced(cleared(v, k));
            let f = v.files[k];
            let g = w.files[k];
            &&& g.wf()
            &&& g.size == 0
            &&& g.content().len() == 0
            &&& g.kind == f.kind
            &&& g.nlink == f.nlink
            &&& w.files.len() == v.files.len()
            &&& forall|l: int|
                0 <= l < v.files.len() && l != k ==> #[trigger] w.files[l] == v.files[l]
            &&& w.used == v.used
            &&& w.inode_start == v.inode_start
            &&& !w.modified
            &&& w.free_blocks == v.free_blocks + blocks_of_size(f.size as int)
        }),
{
}

/// The inode that a new file gets is the first one that is not in use.
pub proof fn law_first_free_inode(s: Seq<bool>, k: int)
    requires
        0 <= k <= s.len(),
        k < s.len() ==> !s[k],
        forall|j: int| 0 <= j < k ==> #[trigger] s[j],
    ensures
        first_free(s, 0) == k,
{
    lemma_free_search(s, 0);
    let r = first_free(s, 0);
    if k < r {
        assert(s[k]);
    }
    if r < k {
        assert(s[r]);
    }
}

proof fn lemma_free_search(s: Seq<bool>, i: int)
    requires
        0 <= i <= s.len(),
    ensures
        i <= first_free(s, i) <= s.len(),
        first_free(s, i) < s.len() ==> !s[first_free(s, i)],
        forall|j: int| i <= j < first_free(s, i) ==> #[trigger] s[j],
    decreases s.len() - i,
{
    if i < s.len() && s[i] {
        lemma_free_search(s, i + 1);
    }
}

/// The number of free blocks counts each block that is not marked once.
pub proof fn law_free_blocks_are_counted(s: Seq<bool>, b: bool)
    ensures
        count_free(Seq::<bool>::empty()) == 0,
        count_free(s.push(b)) == count_free(s) + (if b {
            0int
        } else {
            1
        }),
{
    assert(s.push(b).drop_last() =~= s);
}

/// Inodes lie four to a block, 128 bytes apart: the place of an inode gives its number back.
#[verifier::spinoff_prover]
pub proof fn law_inode_places(start: u32, id: u32)
    ensures
        inode_block(start, id) >= start,
        0 <= inode_offset(id) < 512,
        inode_offset(id) % 128 == 0,
        (inode_block(start, id) - start) * 4 + inode_offset(id) / 128 == id,
{
}

/// An inode stands for the file whose number its place gives, where that is a place of the
/// inode area.
#[verifier::spinoff_prover]
pub proof fn law_place_names_the_file(inode: Inode, v: FsView, id: int)
    requires
        v.wf(),
        inode.block_id() == v.inode_start + id / 4,
        inode.block_offset() == id % 4 * 128,
        0 <= id,
    ensures
        inode.stands_in(v) == (id < v.files.len()),
        inode.slot(v) == id,
        id < v.files.len() ==> inode.file(v) == v.files[id],
        id < v.files.len() ==> inode.content(v) == v.files[id].backing.take(
            v.files[id].size as int,
        ),
{
}

/// A place that is none of the inode area is refused.
#[verifier::spinoff_prover]
pub proof fn law_other_places_are_refused(inode: Inode, v: FsView)
    requires
        inode.stands_in(v),
    ensures
        inode.block_id() >= v.inode_start,
        inode.block_offset() == 0 || inode.block_offset() == 128 || inode.block_offset() == 256
            || inode.block_offset() == 384,
        (inode.block_id() - v.inode_start) * 4 + inode.block_offset() as int / 128 < v.files.len(),
{
}

} // verus!
