//! Inodes and data blocks: what they hold, and how they are handed out.
use crate::bytes::{clear_bytes, splice, zeros};
use crate::fs::layout::{
    blocks_of_size, data_blocks, data_slot, lemma_blocks_of_size, lemma_data_slot, slot_of_block,
    total_blocks, MAX_FILE_SIZE,
};
use vstd::prelude::*;

verus! {

/// What an inode stands for.
#[derive(Clone, Copy, Debug, PartialEq, Eq, Structural)]
pub enum DiskInodeType {
    File,
    Directory,
}

/// What there is to know of an inode: its kind, the number of its links, its size
/// and the bytes of its data blocks, which go on to the end of the last block.
#[verifier::ext_equal]
pub struct FileView {
    pub kind: DiskInodeType,
    pub nlink: u32,
    pub size: u32,
    pub backing: Seq<u8>,
}

impl FileView {
    /// The contents of the file.
    pub open spec fn content(self) -> Seq<u8> {
        self.backing.take(self.size as int)
    }

    /// The data blocks are those of the size.
    pub open spec fn wf(self) -> bool {
        &&& self.size <= MAX_FILE_SIZE
        &&& self.backing.len() == data_blocks(self.size as int) * 512
    }

    /// The file with room for `new_size` bytes; the new blocks are zero.
    pub open spec fn grown(self, new_size: u32) -> FileView {
        if new_size < self.size {
            self
        } else {
            FileView {
                size: new_size,
                backing: self.backing + zeros(
                    (data_blocks(new_size as int) * 512 - self.backing.len()) as nat,
                ),
                ..self
            }
        }
    }

    /// The file cut to `new_size` bytes.
    pub open spec fn cut(self, new_size: u32) -> FileView {
        if new_size >= self.size {
            self
        } else {
            FileView {
                size: new_size,
                backing: self.backing.take(data_blocks(new_size as int) * 512),
                ..self
            }
        }
    }

    /// The file after bytes were written from position `off` on.
    pub open spec fn written(self, off: int, d: Seq<u8>) -> FileView {
        FileView { backing: splice(self.backing, off, d), ..self }
    }
}

/// What there is to know of a file system: its inodes, which of them are in use,
/// the number of free data blocks, the first block of the inode area, and whether
/// something was modified since it was last asked that the blocks be written back.
#[verifier::ext_equal]
pub struct FsView {
    pub files: Seq<FileView>,
    pub used: Seq<bool>,
    pub free_blocks: int,
    pub inode_start: u32,
    pub modified: bool,
}

impl FsView {
    /// There are as many marks as inodes, and every inode is well-formed.
    pub open spec fn wf(self) -> bool {
        &&& self.files.len() == self.used.len()
        &&& self.free_blocks >= 0
        &&& self.inode_start + self.files.len() <= u32::MAX
        &&& forall|k: int| 0 <= k < self.files.len() ==> (#[trigger] self.files[k]).wf()
    }
}

/// Number of marks that are not set.
pub open spec fn count_free(s: Seq<bool>) -> int
    decreases s.len(),
{
    if s.len() == 0 {
        0
    } else {
        count_free(s.drop_last()) + if s.last() {
            0int
        } else {
            1
        }
    }
}

/// Position of the first mark that is not set, from position `i` on.
pub open spec fn first_free(s: Seq<bool>, i: int) -> int
    decreases s.len() - i,
{
    if i >= s.len() || !s[i] {
        i
    } else {
        first_free(s, i + 1)
    }
}

proof fn lemma_count_free_bounds(s: Seq<bool>)
    ensures
        0 <= count_free(s) <= s.len(),
    decreases s.len(),
{
    if s.len() > 0 {
        lemma_count_free_bounds(s.drop_last());
    }
}

proof fn lemma_count_free_update(s: Seq<bool>, i: int, b: bool)
    requires
        0 <= i < s.len(),
    ensures
        count_free(s.update(i, b)) == count_free(s) + (if s[i] { 1int } else { 0 }) - (if b {
            1int
        } else {
            0
        }),
    decreases s.len(),
{
    if i == s.len() - 1 {
        assert(s.update(i, b).drop_last() =~= s.drop_last());
    } else {
        assert(s.update(i, b).drop_last() =~= s.drop_last().update(i, b));
        lemma_count_free_update(s.drop_last(), i, b);
    }
}

proof fn lemma_first_free_from(s: Seq<bool>, i: int)
    requires
        0 <= i <= s.len(),
    ensures
        i <= first_free(s, i) <= s.len(),
    decreases s.len() - i,
{
    if i < s.len() && s[i] {
        lemma_first_free_from(s, i + 1);
    }
}

proof fn lemma_all_set_count(s: Seq<bool>)
    requires
        forall|j: int| 0 <= j < s.len() ==> s[j],
    ensures
        count_free(s) == 0,
    decreases s.len(),
{
    if s.len() > 0 {
        lemma_all_set_count(s.drop_last());
    }
}

/// An inode, as it stands in the inode area.
pub struct DiskInode {
    size: u32,
    nlink: u32,
    kind: DiskInodeType,
    blocks: Vec<u32>,
}

/// A file system.
pub struct EasyFileSystem {
    inode_area_start_block: u32,
    data_area_start_block: u32,
    inodes: Vec<DiskInode>,
    inode_used: Vec<bool>,
    data: Vec<u8>,
    data_used: Vec<bool>,
    modified: bool,
}

impl View for EasyFileSystem {
    type V = FsView;

    closed spec fn view(&self) -> FsView {
        FsView {
            files: Seq::new(self.inodes@.len(), |k: int| self.file(k)),
            used: self.inode_used@,
            free_blocks: count_free(self.data_used@),
            inode_start: self.inode_area_start_block,
            modified: self.modified,
        }
    }
}

impl EasyFileSystem {
    /// Place of byte `p` of inode `k` in the data area.
    spec fn place(&self, k: int, p: int) -> int {
        (self.inodes@[k].blocks@[data_slot(p / 512)] - self.data_area_start_block) * 512 + p % 512
    }

    spec fn file(&self, k: int) -> FileView {
        FileView {
            kind: self.inodes@[k].kind,
            nlink: self.inodes@[k].nlink,
            size: self.inodes@[k].size,
            backing: Seq::new(
                (data_blocks(self.inodes@[k].size as int) * 512) as nat,
                |p: int| self.data@[self.place(k, p)],
            ),
        }
    }

    spec fn shape(&self) -> bool {
        &&& self.inodes@.len() == self.inode_used@.len()
        &&& self.data@.len() == self.data_used@.len() * 512
        &&& self.data_area_start_block + self.data_used@.len() <= u32::MAX
        &&& self.inode_area_start_block + self.inodes@.len() <= u32::MAX
        &&& forall|k: int|
            0 <= k < self.inodes@.len() ==> {
                &&& (#[trigger] self.inodes@[k]).size <= MAX_FILE_SIZE
                &&& self.inodes@[k].blocks@.len() == blocks_of_size(self.inodes@[k].size as int)
            }
    }

    /// Every block of an inode lies in the data area and is marked.
    spec fn owned_marked(&self) -> bool {
        forall|k: int, i: int|
            0 <= k < self.inodes@.len() && 0 <= i < self.inodes@[k].blocks@.len() ==> {
                let b = (#[trigger] self.inodes@[k].blocks@[i]) - self.data_area_start_block;
                0 <= b < self.data_used@.len() && self.data_used@[b]
            }
    }

    /// No block is one of two inodes, or twice one of an inode.
    spec fn owned_once(&self) -> bool {
        forall|k: int, i: int, l: int, j: int|
            0 <= k < self.inodes@.len() && 0 <= i < self.inodes@[k].blocks@.len() && 0 <= l
                < self.inodes@.len() && 0 <= j < self.inodes@[l].blocks@.len() && (
            #[trigger] self.inodes@[k].blocks@[i]) == (#[trigger] self.inodes@[l].blocks@[j])
                ==> k == l && i == j
    }

    /// A block that is not marked is zero.
    spec fn free_zero(&self) -> bool {
        forall|b: int, r: int|
            0 <= b < self.data_used@.len() && !self.data_used@[b] && 0 <= r < 512
                ==> #[trigger] self.data@[b * 512 + r] == 0
    }

    /// The file system is well-formed: each inode has the blocks of its size, no
    /// block belongs to two places, and free blocks are zero.
    pub closed spec fn inv(&self) -> bool {
        &&& self.shape()
        &&& self.owned_marked()
        &&& self.owned_once()
        &&& self.free_zero()
    }

    /// A well-formed file system has a well-formed view.
    pub proof fn lemma_inv(&self)
        requires
            self.inv(),
        ensures
            self@.wf(),
    {
        lemma_count_free_bounds(self.data_used@);
        assert forall|k: int| 0 <= k < self@.files.len() implies (#[trigger] self@.files[k]).wf() by {
            assert(self.inodes@[k].size <= MAX_FILE_SIZE);
            lemma_blocks_of_size(0, self.inodes@[k].size as int);
        }
    }

    /// Inodes and data determine the files.
    proof fn lemma_same_files(&self, before: EasyFileSystem)
        requires
            self.inodes == before.inodes,
            self.data == before.data,
            self.data_area_start_block == before.data_area_start_block,
        ensures
            self@.files == before@.files,
    {
        assert forall|k: int| 0 <= k < self.inodes@.len() implies #[trigger] self.file(k)
            == before.file(k) by {
            assert(self.file(k).backing =~= before.file(k).backing);
        }
        assert(self@.files =~= before@.files);
    }

    /// The place of a byte lies in the data area.
    proof fn lemma_place(&self, k: int, p: int)
        requires
            self.inv(),
            0 <= k < self.inodes@.len(),
            0 <= p < data_blocks(self.inodes@[k].size as int) * 512,
        ensures
            0 <= self.place(k, p) < self.data@.len(),
            0 <= data_slot(p / 512) < self.inodes@[k].blocks@.len(),
            ({
                let b = self.inodes@[k].blocks@[data_slot(p / 512)] - self.data_area_start_block;
                0 <= b < self.data_used@.len() && self.data_used@[b]
            }),
    {
        assert(self.inodes@[k].size <= MAX_FILE_SIZE);
        lemma_blocks_of_size(self.inodes@[k].size as int, self.inodes@[k].size as int);
        let i = data_slot(p / 512);
        let b = self.inodes@[k].blocks@[i] - self.data_area_start_block;
        assert(0 <= b < self.data_used@.len() && self.data_used@[b]);
        assert(b * 512 + 512 <= self.data@.len());
    }

    /// Two bytes of inodes have the same place only if they are the same.
    proof fn lemma_place_once(&self, k: int, p: int, l: int, q: int)
        requires
            self.inv(),
            0 <= k < self.inodes@.len(),
            0 <= p < data_blocks(self.inodes@[k].size as int) * 512,
            0 <= l < self.inodes@.len(),
            0 <= q < data_blocks(self.inodes@[l].size as int) * 512,
            self.place(k, p) == self.place(l, q),
        ensures
            k == l,
            p == q,
    {
        self.lemma_place(k, p);
        self.lemma_place(l, q);
        let i = data_slot(p / 512);
        let j = data_slot(q / 512);
        assert(self.inodes@[k].blocks@[i] == self.inodes@[l].blocks@[j]);
        if p / 512 < q / 512 {
            lemma_data_slot(p / 512, q / 512);
        } else if q / 512 < p / 512 {
            lemma_data_slot(q / 512, p / 512);
        }
    }

    /// A file system with `inodes` inodes and `blocks` data blocks; inode 0 is an
    /// empty directory.
    pub fn new(inode_start: u32, inodes: usize, data_start: u32, blocks: usize) -> (r: EasyFileSystem)
        requires
            inodes > 0,
            inode_start + inodes <= u32::MAX,
            data_start + blocks <= u32::MAX,
            blocks * 512 <= usize::MAX,
        ensures
            r.inv(),
            r@.files == Seq::new(
                inodes as nat,
                |k: int|
                    FileView {
                        kind: if k == 0 {
                            DiskInodeType::Directory
                        } else {
                            DiskInodeType::File
                        },
                        nlink: if k == 0 {
                            1
                        } else {
                            0
                        },
                        size: 0,
                        backing: Seq::empty(),
                    },
            ),
            r@.used == Seq::new(inodes as nat, |k: int| k == 0),
            r@.free_blocks == blocks,
            r@.inode_start == inode_start,
            !r@.modified,
    {
        let mut nodes: Vec<DiskInode> = Vec::new();
        let mut marks: Vec<bool> = Vec::new();
        nodes.push(
            DiskInode { size: 0, nlink: 1, kind: DiskInodeType::Directory, blocks: Vec::new() },
        );
        marks.push(true);
        while nodes.len() < inodes
            invariant
                1 <= nodes@.len() <= inodes,
                marks@ =~= Seq::new(nodes@.len(), |k: int| k == 0),
                forall|k: int|
                    0 <= k < nodes@.len() ==> (#[trigger] nodes@[k]).size == 0
                        && nodes@[k].blocks@.len() == 0 && nodes@[k].kind == (if k == 0 {
                        DiskInodeType::Directory
                    } else {
                        DiskInodeType::File
                    }) && nodes@[k].nlink == (if k == 0 {
                        1u32
                    } else {
                        0u32
                    }),
            decreases inodes - nodes@.len(),
        {
            nodes.push(
                DiskInode { size: 0, nlink: 0, kind: DiskInodeType::File, blocks: Vec::new() },
            );
            marks.push(false);
        }
        let mut data: Vec<u8> = Vec::new();
        while data.len() < blocks * 512
            invariant
                blocks * 512 <= usize::MAX,
                data@.len() <= blocks * 512,
                forall|p: int| 0 <= p < data@.len() ==> data@[p] == 0,
            decreases blocks * 512 - data@.len(),
        {
            data.push(0u8);
        }
        let mut data_used: Vec<bool> = Vec::new();
        while data_used.len() < blocks
            invariant
                data_used@.len() <= blocks,
                count_free(data_used@) == data_used@.len(),
            decreases blocks - data_used@.len(),
        {
            let ghost before = data_used@;
            data_used.push(false);
            assert(data_used@.drop_last() =~= before);
        }
        let r = EasyFileSystem {
            inode_area_start_block: inode_start,
            data_area_start_block: data_start,
            inodes: nodes,
            inode_used: marks,
            data,
            data_used,
            modified: false,
        };
        assert(r.inv());
        proof {
            assert forall|k: int| 0 <= k < r.inodes@.len() implies (#[trigger] r.file(k)).backing
                =~= Seq::<u8>::empty() by {
                assert(r.inodes@[k].size == 0);
            }
            assert(r@.files =~= Seq::new(
                inodes as nat,
                |k: int|
                    FileView {
                        kind: if k == 0 {
                            DiskInodeType::Directory
                        } else {
                            DiskInodeType::File
                        },
                        nlink: if k == 0 {
                            1
                        } else {
                            0
                        },
                        size: 0,
                        backing: Seq::empty(),
                    },
            ));
        }
        r
    }
}

impl EasyFileSystem {
    /// Takes the first inode that is not in use.
    pub fn alloc_inode(&mut self) -> (r: u32)
        requires
            old(self).inv(),
            first_free(old(self)@.used, 0) < old(self)@.used.len(),
        ensures
            final(self).inv(),
            r == first_free(old(self)@.used, 0),
            final(self)@ == (FsView {
                used: old(self)@.used.update(r as int, true),
                modified: true,
                ..old(self)@
            }),
    {
        let mut i: usize = 0;
        assert(self.inode_used@.len() == self.inode_used.len());
        proof {
            lemma_first_free_from(self.inode_used@, 0);
        }
        while self.inode_used[i]
            invariant
                *self == *old(self),
                i <= first_free(self.inode_used@, i as int),
                first_free(self.inode_used@, 0) == first_free(self.inode_used@, i as int),
                first_free(self.inode_used@, 0) < self.inode_used@.len() <= usize::MAX,
            decreases self.inode_used@.len() - i,
        {
            proof {
                lemma_first_free_from(self.inode_used@, i as int + 1);
            }
            i = i + 1;
        }
        self.inode_used[i] = true;
        self.modified = true;
        proof {
            self.lemma_same_files(*old(self));
        }
        i as u32
    }

    /// Marks an inode as not in use.
    pub fn dealloc_inode(&mut self, id: u32)
        requires
            old(self).inv(),
            id < old(self)@.used.len(),
        ensures
            final(self).inv(),
            final(self)@ == (FsView {
                used: old(self)@.used.update(id as int, false),
                modified: true,
                ..old(self)@
            }),
    {
        self.inode_used[id as usize] = false;
        self.modified = true;
        proof {
            self.lemma_same_files(*old(self));
        }
    }

    /// Makes an inode an empty one of this kind with this number of links. Blocks
    /// that it had stay marked.
    pub fn initialize(&mut self, id: u32, kind: DiskInodeType, nlink: u32)
        requires
            old(self).inv(),
            id < old(self)@.files.len(),
        ensures
            final(self).inv(),
            final(self)@ == (FsView {
                files: old(self)@.files.update(
                    id as int,
                    FileView { kind, nlink, size: 0, backing: Seq::empty() },
                ),
                modified: true,
                ..old(self)@
            }),
    {
        let k = id as usize;
        self.inodes[k] = DiskInode { size: 0, nlink, kind, blocks: Vec::new() };
        self.modified = true;
        proof {
            assert(self.owned_marked()) by {
                assert forall|l: int, i: int|
                    0 <= l < self.inodes@.len() && 0 <= i < self.inodes@[l].blocks@.len() implies {
                    let b = (#[trigger] self.inodes@[l].blocks@[i]) - self.data_area_start_block;
                    0 <= b < self.data_used@.len() && self.data_used@[b]
                } by {
                    assert(self.inodes@[l].blocks@[i] == old(self).inodes@[l].blocks@[i]);
                }
            }
            assert(self.file(k as int).backing =~= Seq::<u8>::empty());
            assert forall|l: int| 0 <= l < self.inodes@.len() && l != k implies #[trigger] self.file(l)
                == old(self).file(l) by {
                assert(self.file(l).backing =~= old(self).file(l).backing);
            }
            assert(self@.files =~= old(self)@.files.update(
                k as int,
                FileView { kind, nlink, size: 0, backing: Seq::empty() },
            ));
        }
    }

    /// Sets the number of links of an inode.
    pub fn set_nlink(&mut self, id: u32, nlink: u32)
        requires
            old(self).inv(),
            id < old(self)@.files.len(),
        ensures
            final(self).inv(),
            final(self)@ == (FsView {
                files: old(self)@.files.update(
                    id as int,
                    FileView { nlink, ..old(self)@.files[id as int] },
                ),
                modified: true,
                ..old(self)@
            }),
    {
        let k = id as usize;
        self.inodes[k].nlink = nlink;
        self.modified = true;
        proof {
            assert forall|l: int| 0 <= l < self.inodes@.len() implies (#[trigger] self.inodes@[l]).blocks
                == old(self).inodes@[l].blocks && self.inodes@[l].size == old(self).inodes@[l].size
                && self.inodes@[l].kind == old(self).inodes@[l].kind by {}
            assert(self.owned_marked()) by {
                assert forall|l: int, i: int|
                    0 <= l < self.inodes@.len() && 0 <= i < self.inodes@[l].blocks@.len() implies {
                    let b = (#[trigger] self.inodes@[l].blocks@[i]) - self.data_area_start_block;
                    0 <= b < self.data_used@.len() && self.data_used@[b]
                } by {
                    assert(self.inodes@[l].blocks@[i] == old(self).inodes@[l].blocks@[i]);
                }
            }
            assert forall|l: int| 0 <= l < self.inodes@.len() implies (#[trigger] self.file(l)).backing
                =~= old(self).file(l).backing by {}
            assert(self@.files =~= old(self)@.files.update(
                k as int,
                FileView { nlink, ..old(self)@.files[k as int] },
            ));
        }
    }

    /// Takes a data block that is not marked.
    fn alloc_data(&mut self) -> (r: u32)
        requires
            old(self).inv(),
            count_free(old(self).data_used@) > 0,
        ensures
            final(self).inode_area_start_block == old(self).inode_area_start_block,
            final(self).data_area_start_block == old(self).data_area_start_block,
            final(self).inodes == old(self).inodes,
            final(self).inode_used == old(self).inode_used,
            final(self).data == old(self).data,
            final(self).inv(),
            ({
                let b = r - old(self).data_area_start_block;
                &&& 0 <= b < old(self).data_used@.len()
                &&& !old(self).data_used@[b]
                &&& final(self).data_used@ == old(self).data_used@.update(b, true)
                &&& count_free(final(self).data_used@) == count_free(old(self).data_used@) - 1
            }),
    {
        let mut i: usize = 0;
        proof {
            if forall|j: int| 0 <= j < self.data_used@.len() ==> self.data_used@[j] {
                lemma_all_set_count(self.data_used@);
            }
        }
        assert(self.data_used@.len() == self.data_used.len());
        while self.data_used[i]
            invariant
                *self == *old(self),
                i < self.data_used@.len() <= usize::MAX,
                exists|j: int| i <= j < self.data_used@.len() && !self.data_used@[j],
            decreases self.data_used@.len() - i,
        {
            i = i + 1;
        }
        proof {
            lemma_count_free_update(self.data_used@, i as int, true);
        }
        self.data_used[i] = true;
        self.modified = true;
        self.data_area_start_block + i as u32
    }

    /// Gives an inode room for `new_size` bytes, as many blocks more as the larger
    /// size needs; does nothing where it has more room already.
    pub fn increase_size(&mut self, id: u32, new_size: u32)
        requires
            old(self).inv(),
            id < old(self)@.files.len(),
            new_size <= MAX_FILE_SIZE,
            new_size >= old(self)@.files[id as int].size ==> blocks_of_size(new_size as int)
                - blocks_of_size(old(self)@.files[id as int].size as int) <= old(self)@.free_blocks,
        ensures
            final(self).inv(),
            new_size < old(self)@.files[id as int].size ==> final(self)@ == old(self)@,
            new_size >= old(self)@.files[id as int].size ==> final(self)@ == (FsView {
                files: old(self)@.files.update(
                    id as int,
                    old(self)@.files[id as int].grown(new_size),
                ),
                free_blocks: old(self)@.free_blocks - (blocks_of_size(new_size as int)
                    - blocks_of_size(old(self)@.files[id as int].size as int)),
                modified: true,
                ..old(self)@
            }),
    {
        let k = id as usize;
        let size = self.inodes[k].size;
        if new_size < size {
            return;
        }
        proof {
            lemma_blocks_of_size(size as int, new_size as int);
        }
        let blocks_needed = total_blocks(new_size) - total_blocks(size);
        let mut v: Vec<u32> = Vec::new();
        let mut n: u32 = 0;
        while n < blocks_needed
            invariant
                n <= blocks_needed,
                n == v@.len(),
                self.inv(),
                blocks_needed <= count_free(old(self).data_used@),
                self.inode_area_start_block == old(self).inode_area_start_block,
                self.data_area_start_block == old(self).data_area_start_block,
                self.inodes == old(self).inodes,
                self.inode_used == old(self).inode_used,
                self.data == old(self).data,
                self.data_used@.len() == old(self).data_used@.len(),
                count_free(self.data_used@) == count_free(old(self).data_used@) - n,
                forall|i: int|
                    0 <= i < v@.len() ==> {
                        let b = (#[trigger] v@[i]) - self.data_area_start_block;
                        0 <= b < self.data_used@.len() && self.data_used@[b] && !old(
                            self,
                        ).data_used@[b]
                    },
                forall|i: int, j: int| 0 <= i < j < v@.len() ==> #[trigger] v@[i] != #[trigger] v@[j],
                forall|b: int|
                    0 <= b < self.data_used@.len() && old(self).data_used@[b]
                        ==> #[trigger] self.data_used@[b],
            decreases blocks_needed - n,
        {
            let b = self.alloc_data();
            v.push(b);
            n = n + 1;
        }
        let ghost added = v@;
        self.inodes[k].blocks.append(&mut v);
        self.inodes[k].size = new_size;
        self.modified = true;
        proof {
            self.lemma_increased(*old(self), k as int, new_size, added);
        }
    }

    /// A file system in which inode `k` of `before` got the blocks `added`.
    proof fn lemma_increased(&self, before: EasyFileSystem, k: int, new_size: u32, added: Seq<u32>)
        requires
            before.inv(),
            0 <= k < before.inodes@.len(),
            before.inodes@[k].size <= new_size <= MAX_FILE_SIZE,
            added.len() == blocks_of_size(new_size as int) - blocks_of_size(
                before.inodes@[k].size as int,
            ),
            self.inode_area_start_block == before.inode_area_start_block,
            self.data_area_start_block == before.data_area_start_block,
            self.inode_used == before.inode_used,
            self.data == before.data,
            self.modified,
            self.data_used@.len() == before.data_used@.len(),
            count_free(self.data_used@) == count_free(before.data_used@) - added.len(),
            self.free_zero(),
            self.inodes@.len() == before.inodes@.len(),
            forall|l: int|
                0 <= l < before.inodes@.len() && l != k ==> #[trigger] self.inodes@[l]
                    == before.inodes@[l],
            self.inodes@[k].size == new_size,
            self.inodes@[k].kind == before.inodes@[k].kind,
            self.inodes@[k].nlink == before.inodes@[k].nlink,
            self.inodes@[k].blocks@ == before.inodes@[k].blocks@ + added,
            forall|i: int|
                0 <= i < added.len() ==> {
                    let b = (#[trigger] added[i]) - self.data_area_start_block;
                    0 <= b < self.data_used@.len() && self.data_used@[b] && !before.data_used@[b]
                },
            forall|i: int, j: int| 0 <= i < j < added.len() ==> #[trigger] added[i] != #[trigger] added[j],
            forall|b: int|
                0 <= b < self.data_used@.len() && before.data_used@[b]
                    ==> #[trigger] self.data_used@[b],
        ensures
            self.inv(),
            self@ == (FsView {
                files: before@.files.update(k, before@.files[k].grown(new_size)),
                free_blocks: before@.free_blocks - added.len(),
                modified: true,
                ..before@
            }),
    {
        let size = before.inodes@[k].size;
        let old_blocks = before.inodes@[k].blocks@;
        lemma_blocks_of_size(size as int, new_size as int);
        assert forall|l: int, i: int|
            0 <= l < self.inodes@.len() && 0 <= i < self.inodes@[l].blocks@.len() implies {
            let b = (#[trigger] self.inodes@[l].blocks@[i]) - self.data_area_start_block;
            &&& 0 <= b < self.data_used@.len()
            &&& self.data_used@[b]
            &&& before.data_used@[b] <==> !(l == k && i >= old_blocks.len())
        } by {
            if l == k && i >= old_blocks.len() {
                assert(self.inodes@[l].blocks@[i] == added[i - old_blocks.len()]);
            } else {
                assert(self.inodes@[l].blocks@[i] == before.inodes@[l].blocks@[i]);
            }
        }
        assert(self.owned_marked());
        assert forall|p: int, i: int, l: int, j: int|
            0 <= p < self.inodes@.len() && 0 <= i < self.inodes@[p].blocks@.len() && 0 <= l
                < self.inodes@.len() && 0 <= j < self.inodes@[l].blocks@.len() && (
            #[trigger] self.inodes@[p].blocks@[i]) == (#[trigger] self.inodes@[l].blocks@[j]) implies p
            == l && i == j by {
            if p == k && i >= old_blocks.len() {
                assert(l == k && j >= old_blocks.len());
                assert(added[i - old_blocks.len()] == added[j - old_blocks.len()]);
            } else {
                assert(!(l == k && j >= old_blocks.len()));
                assert(before.inodes@[p].blocks@[i] == before.inodes@[l].blocks@[j]);
            }
        }
        assert(self.owned_once());
        assert(self.inv());
        assert forall|l: int| 0 <= l < self.inodes@.len() && l != k implies #[trigger] self.file(l)
            == before.file(l) by {
            assert(self.file(l).backing =~= before.file(l).backing);
        }
        let want = before@.files[k].grown(new_size);
        assert(self.file(k).backing =~= want.backing) by {
            assert forall|p: int| 0 <= p < data_blocks(new_size as int) * 512 implies self.file(
                k,
            ).backing[p] == want.backing[p] by {
                let i = data_slot(p / 512);
                if p < data_blocks(size as int) * 512 {
                    before.lemma_place(k, p);
                    assert(self.place(k, p) == before.place(k, p));
                } else {
                    assert(data_blocks(size as int) <= p / 512 < data_blocks(new_size as int));
                    assert(i >= blocks_of_size(size as int));
                    self.lemma_place(k, p);
                    let b = self.inodes@[k].blocks@[i] - self.data_area_start_block;
                    assert(self.inodes@[k].blocks@[i] == added[i - old_blocks.len()]);
                    assert(!before.data_used@[b]);
                    assert(before.data@[b * 512 + p % 512] == 0);
                }
            }
        }
        assert(self@.files =~= before@.files.update(k, want));
    }
}

impl EasyFileSystem {
    /// Number of inodes.
    pub fn inode_count(&self) -> (r: usize)
        ensures
            r == self@.files.len(),
    {
        self.inodes.len()
    }

    /// Size of an inode.
    pub fn size(&self, id: u32) -> (r: u32)
        requires
            id < self@.files.len(),
        ensures
            r == self@.files[id as int].size,
    {
        self.inodes[id as usize].size
    }

    /// Number of links of an inode.
    pub fn nlink(&self, id: u32) -> (r: u32)
        requires
            id < self@.files.len(),
        ensures
            r == self@.files[id as int].nlink,
    {
        self.inodes[id as usize].nlink
    }

    /// Is an inode a directory?
    pub fn is_dir(&self, id: u32) -> (r: bool)
        requires
            id < self@.files.len(),
        ensures
            r == (self@.files[id as int].kind == DiskInodeType::Directory),
    {
        self.inodes[id as usize].kind == DiskInodeType::Directory
    }

    /// First block of the inode area.
    pub fn inode_area(&self) -> (r: u32)
        ensures
            r == self@.inode_start,
    {
        self.inode_area_start_block
    }

    /// Was something modified since it was last asked that the blocks be written back?
    pub fn is_modified(&self) -> (r: bool)
        ensures
            r == self@.modified,
    {
        self.modified
    }

    /// Records the request that all modified blocks be written back: the mark that
    /// something was modified is cleared. No block is written here.
    pub fn sync_all(&mut self)
        requires
            old(self).inv(),
        ensures
            final(self).inv(),
            final(self)@ == (FsView { modified: false, ..old(self)@ }),
    {
        self.modified = false;
        proof {
            self.lemma_same_files(*old(self));
        }
    }

    /// The first inode that is not in use.
    pub fn free_inode(&self) -> (r: Option<u32>)
        requires
            self.inv(),
        ensures
            match r {
                Some(id) => id == first_free(self@.used, 0) && id < self@.used.len(),
                None => first_free(self@.used, 0) == self@.used.len(),
            },
    {
        let mut i: usize = 0;
        while i < self.inode_used.len()
            invariant
                self.inv(),
                i <= self.inode_used@.len(),
                self@.used == self.inode_used@,
                first_free(self.inode_used@, 0) == first_free(self.inode_used@, i as int),
            decreases self.inode_used@.len() - i,
        {
            if !self.inode_used[i] {
                return Some(i as u32);
            }
            i = i + 1;
        }
        None
    }

    /// Number of free data blocks.
    pub fn free_blocks(&self) -> (r: usize)
        requires
            self.inv(),
        ensures
            r == self@.free_blocks,
    {
        let mut i: usize = 0;
        let mut n: usize = 0;
        while i < self.data_used.len()
            invariant
                i <= self.data_used@.len(),
                n <= i,
                n == count_free(self.data_used@.take(i as int)),
            decreases self.data_used@.len() - i,
        {
            assert(self.data_used@.take(i as int + 1).drop_last() =~= self.data_used@.take(i as int));
            if !self.data_used[i] {
                n = n + 1;
            }
            i = i + 1;
        }
        assert(self.data_used@.take(i as int) =~= self.data_used@);
        n
    }

    /// Place of byte `p` of an inode in the data area.
    fn place_of(&self, id: usize, p: u32) -> (r: usize)
        requires
            self.inv(),
            id < self.inodes@.len(),
            p < data_blocks(self.inodes@[id as int].size as int) * 512,
        ensures
            r == self.place(id as int, p as int),
            r < self.data@.len(),
    {
        proof {
            self.lemma_place(id as int, p as int);
            assert(self.data@.len() == self.data.len());
            assert(self.inodes@[id as int].size <= MAX_FILE_SIZE);
        }
        let slot = slot_of_block(p / 512) as usize;
        let b = (self.inodes[id].blocks[slot] - self.data_area_start_block) as usize;
        b * 512 + (p % 512) as usize
    }

    /// Setting the byte at the place of byte `p` of inode `k` changes that byte of
    /// that inode alone.
    proof fn lemma_set_byte(&self, before: EasyFileSystem, k: int, p: int, v: u8)
        requires
            before.inv(),
            0 <= k < before.inodes@.len(),
            0 <= p < before.inodes@[k].size,
            self.inode_area_start_block == before.inode_area_start_block,
            self.data_area_start_block == before.data_area_start_block,
            self.inodes == before.inodes,
            self.inode_used == before.inode_used,
            self.data_used == before.data_used,
            self.data@ == before.data@.update(before.place(k, p), v),
        ensures
            self.inv(),
            self.file(k).backing == before.file(k).backing.update(p, v),
            forall|l: int|
                0 <= l < self.inodes@.len() && l != k ==> #[trigger] self.file(l) == before.file(l),
    {
        before.lemma_place(k, p);
        assert(self.free_zero()) by {
            assert forall|b: int, r: int|
                0 <= b < self.data_used@.len() && !self.data_used@[b] && 0 <= r < 512 implies #[trigger] self.data@[b
                * 512 + r] == 0 by {
                assert(before.data@[b * 512 + r] == 0);
                let c = before.inodes@[k].blocks@[data_slot(p / 512)]
                    - before.data_area_start_block;
                assert(c != b);
                assert(c * 512 + p % 512 != b * 512 + r);
            }
        }
        assert forall|l: int| 0 <= l < self.inodes@.len() && l != k implies #[trigger] self.file(l)
            == before.file(l) by {
            assert forall|q: int|
                0 <= q < data_blocks(self.inodes@[l].size as int) * 512 implies self.file(l).backing[q]
                == before.file(l).backing[q] by {
                before.lemma_place(l, q);
                if before.place(l, q) == before.place(k, p) {
                    before.lemma_place_once(l, q, k, p);
                }
            }
            assert(self.file(l).backing =~= before.file(l).backing);
        }
        assert forall|q: int|
            0 <= q < data_blocks(self.inodes@[k].size as int) * 512 implies self.file(k).backing[q]
            == before.file(k).backing.update(p, v)[q] by {
            before.lemma_place(k, q);
            if before.place(k, q) == before.place(k, p) {
                before.lemma_place_once(k, q, k, p);
            }
        }
        assert(self.file(k).backing =~= before.file(k).backing.update(p, v));
    }

    /// Writes bytes to an inode, from position `off` on.
    pub fn write_data(&mut self, id: u32, off: u32, d: &[u8])
        requires
            old(self).inv(),
            id < old(self)@.files.len(),
            off + d@.len() <= old(self)@.files[id as int].size,
        ensures
            final(self).inv(),
            final(self)@ == (FsView {
                files: old(self)@.files.update(
                    id as int,
                    old(self)@.files[id as int].written(off as int, d@),
                ),
                modified: true,
                ..old(self)@
            }),
    {
        let k = id as usize;
        let n = d.len();
        let mut i: usize = 0;
        proof {
            assert(splice(self.file(k as int).backing, off as int, d@.take(0)) =~= self.file(
                k as int,
            ).backing);
        }
        while i < n
            invariant
                i <= n,
                n == d@.len(),
                k < self.inodes@.len(),
                off + n <= self.inodes@[k as int].size,
                self.inv(),
                self.inode_area_start_block == old(self).inode_area_start_block,
                self.data_area_start_block == old(self).data_area_start_block,
                self.inodes == old(self).inodes,
                self.inode_used == old(self).inode_used,
                self.data_used == old(self).data_used,
                self.file(k as int).backing == splice(
                    old(self).file(k as int).backing,
                    off as int,
                    d@.take(i as int),
                ),
                forall|l: int|
                    0 <= l < self.inodes@.len() && l != k ==> #[trigger] self.file(l) == old(
                        self,
                    ).file(l),
            decreases n - i,
        {
            let ghost before = *self;
            let at = self.place_of(k, off + i as u32);
            self.data[at] = d[i];
            proof {
                self.lemma_set_byte(before, k as int, off + i, d@[i as int]);
                assert(self.file(k as int).backing =~= splice(
                    old(self).file(k as int).backing,
                    off as int,
                    d@.take(i as int + 1),
                ));
            }
            i = i + 1;
        }
        let ghost done = *self;
        self.modified = true;
        proof {
            assert(d@.take(n as int) =~= d@);
            self.lemma_same_files(done);
            assert forall|l: int| 0 <= l < done.inodes@.len() && l != k implies done@.files[l]
                == old(self)@.files[l] by {
                assert(done.file(l) == old(self).file(l));
            }
            assert(done@.files =~= old(self)@.files.update(
                k as int,
                old(self)@.files[k as int].written(off as int, d@),
            ));
        }
    }

    /// Reads `n` bytes of an inode, from position `off` on.
    pub fn read_data(&self, id: u32, off: u32, n: usize) -> (r: Vec<u8>)
        requires
            self.inv(),
            id < self@.files.len(),
            off + n <= self@.files[id as int].size,
        ensures
            r@ == self@.files[id as int].content().subrange(off as int, off + n),
            r@.len() == n,
    {
        let k = id as usize;
        let mut r: Vec<u8> = Vec::new();
        let mut i: usize = 0;
        let ghost c = self.file(k as int).content();
        proof {
            lemma_blocks_of_size(0, self.inodes@[k as int].size as int);
        }
        while i < n
            invariant
                i <= n,
                k < self.inodes@.len(),
                off + n <= self.inodes@[k as int].size,
                self.inv(),
                c == self.file(k as int).content(),
                self.inodes@[k as int].size <= data_blocks(self.inodes@[k as int].size as int)
                    * 512,
                r@ =~= c.subrange(off as int, off + i),
            decreases n - i,
        {
            let at = self.place_of(k, off + i as u32);
            r.push(self.data[at]);
            i = i + 1;
        }
        r
    }

    /// Number, among all blocks, of data block `i` of inode `k`.
    pub closed spec fn block_number(&self, k: int, i: int) -> u32 {
        self.inodes@[k].blocks@[data_slot(i)]
    }

    /// Data block `i` of an inode: its number among all blocks, and its bytes.
    pub fn data_block(&self, id: u32, i: u32) -> (r: (u32, Vec<u8>))
        requires
            self.inv(),
            id < self@.files.len(),
            i < data_blocks(self@.files[id as int].size as int),
        ensures
            r.0 == self.block_number(id as int, i as int),
            r.1@ == self@.files[id as int].backing.subrange(i * 512, i * 512 + 512),
            r.1@.len() == 512,
    {
        let k = id as usize;
        let ghost backing = self.file(k as int).backing;
        proof {
            self.lemma_place(k as int, i * 512);
            assert(self.inodes@[k as int].size <= MAX_FILE_SIZE);
        }
        let mut bytes: Vec<u8> = Vec::new();
        let mut j: u32 = 0;
        while j < 512
            invariant
                j <= 512,
                k < self.inodes@.len(),
                i < data_blocks(self.inodes@[k as int].size as int),
                self.inodes@[k as int].size <= MAX_FILE_SIZE,
                self.inv(),
                backing == self.file(k as int).backing,
                bytes@ =~= backing.subrange(i * 512, i * 512 + j),
            decreases 512 - j,
        {
            let at = self.place_of(k, i * 512 + j);
            bytes.push(self.data[at]);
            j = j + 1;
        }
        let slot = slot_of_block(i) as usize;
        (self.inodes[k].blocks[slot], bytes)
    }

    /// No two data blocks have the same number, so that each can be written to its
    /// place on a device and none is overwritten by another.
    pub proof fn law_data_blocks_apart(&self, k: int, i: int, l: int, j: int)
        requires
            self.inv(),
            0 <= k < self@.files.len(),
            0 <= i < data_blocks(self@.files[k].size as int),
            0 <= l < self@.files.len(),
            0 <= j < data_blocks(self@.files[l].size as int),
            (k, i) != (l, j),
        ensures
            self.block_number(k, i) != self.block_number(l, j),
    {
        self.lemma_place(k, i * 512);
        self.lemma_place(l, j * 512);
        if self.block_number(k, i) == self.block_number(l, j) {
            self.lemma_place_once(k, i * 512, l, j * 512);
        }
    }

    /// Cuts an inode to `new_size` bytes, and gives the blocks at its end that it no
    /// longer needs back, cleared.
    pub fn decrease_size(&mut self, id: u32, new_size: u32)
        requires
            old(self).inv(),
            id < old(self)@.files.len(),
        ensures
            final(self).inv(),
            new_size >= old(self)@.files[id as int].size ==> final(self)@ == old(self)@,
            new_size < old(self)@.files[id as int].size ==> final(self)@ == (FsView {
                files: old(self)@.files.update(id as int, old(self)@.files[id as int].cut(new_size)),
                free_blocks: old(self)@.free_blocks + blocks_of_size(
                    old(self)@.files[id as int].size as int,
                ) - blocks_of_size(new_size as int),
                modified: true,
                ..old(self)@
            }),
    {
        let size = self.inodes[id as usize].size;
        if new_size >= size {
            return;
        }
        proof {
            assert(self.inodes@[id as int].size <= MAX_FILE_SIZE);
            lemma_blocks_of_size(new_size as int, size as int);
        }
        let blocks = self.cut_size(id, new_size);
        proof {
            let keep = blocks_of_size(new_size as int);
            let had = old(self).inodes@[id as int].blocks@;
            assert forall|j: int| 0 <= j < blocks@.len() implies self.can_dealloc(
                #[trigger] blocks@[j],
            ) by {
                assert(blocks@[j] == had[keep + j]);
                assert forall|k: int, i: int|
                    0 <= k < self.inodes@.len() && 0 <= i
                        < self.inodes@[k].blocks@.len() implies #[trigger] self.inodes@[k].blocks@[i]
                    != blocks@[j] by {
                    assert(self.inodes@[k].blocks@[i] == old(self).inodes@[k].blocks@[i]);
                    assert(old(self).inodes@[k].blocks@[i] != old(
                        self,
                    ).inodes@[id as int].blocks@[keep + j]);
                }
            }
            assert forall|i: int, j: int| 0 <= i < j < blocks@.len() implies blocks@[i]
                != blocks@[j] by {
                assert(old(self).inodes@[id as int].blocks@[keep + i] != old(
                    self,
                ).inodes@[id as int].blocks@[keep + j]);
            }
        }
        self.dealloc_all(blocks);
    }

    /// Cuts an inode to `new_size` bytes, and hands out the blocks at its end that it
    /// no longer needs. They stay marked.
    fn cut_size(&mut self, id: u32, new_size: u32) -> (r: Vec<u32>)
        requires
            old(self).inv(),
            id < old(self)@.files.len(),
            new_size < old(self)@.files[id as int].size,
        ensures
            final(self).inv(),
            r@ == old(self).inodes@[id as int].blocks@.skip(blocks_of_size(new_size as int)),
            final(self).data_used == old(self).data_used,
            final(self).data_area_start_block == old(self).data_area_start_block,
            final(self).inodes@.len() == old(self).inodes@.len(),
            final(self).inodes@[id as int].blocks@ == old(self).inodes@[id as int].blocks@.take(
                blocks_of_size(new_size as int),
            ),
            forall|k: int|
                0 <= k < final(self).inodes@.len() && k != id ==> #[trigger] final(self).inodes@[k]
                    == old(self).inodes@[k],
            final(self)@ == (FsView {
                files: old(self)@.files.update(id as int, old(self)@.files[id as int].cut(new_size)),
                modified: true,
                ..old(self)@
            }),
    {
        let k = id as usize;
        proof {
            assert(self.inodes@[k as int].size <= MAX_FILE_SIZE);
            lemma_blocks_of_size(new_size as int, self.inodes@[k as int].size as int);
        }
        let keep = total_blocks(new_size) as usize;
        let tail = self.inodes[k].blocks.split_off(keep);
        self.inodes[k].size = new_size;
        self.modified = true;
        proof {
            assert forall|l: int, i: int|
                0 <= l < self.inodes@.len() && 0 <= i < self.inodes@[l].blocks@.len() implies {
                &&& i < old(self).inodes@[l].blocks@.len()
                &&& (#[trigger] self.inodes@[l].blocks@[i]) == old(self).inodes@[l].blocks@[i]
            } by {}
            assert(self.owned_marked());
            assert(self.owned_once());
            assert(self.inv());
            assert forall|l: int| 0 <= l < self.inodes@.len() && l != k implies #[trigger] self.file(l)
                == old(self).file(l) by {
                assert(self.file(l).backing =~= old(self).file(l).backing);
            }
            let want = old(self)@.files[k as int].cut(new_size);
            assert forall|p: int| 0 <= p < data_blocks(new_size as int) * 512 implies self.file(
                k as int,
            ).backing[p] == want.backing[p] by {
                self.lemma_place(k as int, p);
                assert(self.place(k as int, p) == old(self).place(k as int, p));
            }
            assert(self.file(k as int).backing =~= want.backing);
            assert(self@.files =~= old(self)@.files.update(k as int, want));
        }
        tail
    }

    /// A data block is marked, and no inode has it.
    spec fn can_dealloc(&self, block: u32) -> bool {
        let b = block - self.data_area_start_block;
        &&& 0 <= b < self.data_used@.len()
        &&& self.data_used@[b]
        &&& forall|k: int, i: int|
            0 <= k < self.inodes@.len() && 0 <= i < self.inodes@[k].blocks@.len()
                ==> #[trigger] self.inodes@[k].blocks@[i] != block
    }

    /// Takes the mark off a data block that no inode has, and clears it.
    fn dealloc_data(&mut self, block: u32)
        requires
            old(self).inv(),
            old(self).can_dealloc(block),
        ensures
            final(self).inv(),
            final(self).inodes == old(self).inodes,
            final(self).data_area_start_block == old(self).data_area_start_block,
            final(self).data_used@ == old(self).data_used@.update(
                block - old(self).data_area_start_block,
                false,
            ),
            final(self)@ == (FsView {
                free_blocks: old(self)@.free_blocks + 1,
                modified: true,
                ..old(self)@
            }),
    {
        let b = (block - self.data_area_start_block) as usize;
        proof {
            lemma_count_free_update(self.data_used@, b as int, false);
            assert(self.data@.len() == self.data.len());
            assert(b * 512 + 512 <= self.data@.len());
        }
        clear_bytes(&mut self.data, b * 512, 512);
        self.data_used[b] = false;
        self.modified = true;
        proof {
            assert forall|c: int, r: int|
                0 <= c < self.data_used@.len() && !self.data_used@[c] && 0 <= r < 512 implies #[trigger] self.data@[c
                * 512 + r] == 0 by {
                if c != b {
                    assert(old(self).data@[c * 512 + r] == 0);
                    assert(c * 512 + r < b * 512 || c * 512 + r >= b * 512 + 512);
                }
            }
            assert(self.owned_marked());
            assert(self.inv());
            assert forall|k: int| 0 <= k < self.inodes@.len() implies #[trigger] self.file(k)
                == old(self).file(k) by {
                assert forall|p: int|
                    0 <= p < data_blocks(self.inodes@[k].size as int) * 512 implies self.file(
                    k,
                ).backing[p] == old(self).file(k).backing[p] by {
                    old(self).lemma_place(k, p);
                    let c = self.inodes@[k].blocks@[data_slot(p / 512)]
                        - self.data_area_start_block;
                    assert(c != b);
                    assert(c * 512 + p % 512 < b * 512 || c * 512 + p % 512 >= b * 512 + 512);
                }
                assert(self.file(k).backing =~= old(self).file(k).backing);
            }
            assert(self@.files =~= old(self)@.files);
        }
    }

    /// Takes the marks off data blocks that no inode has, and clears them.
    fn dealloc_all(&mut self, blocks: Vec<u32>)
        requires
            old(self).inv(),
            old(self)@.modified,
            forall|j: int| 0 <= j < blocks@.len() ==> old(self).can_dealloc(#[trigger] blocks@[j]),
            forall|i: int, j: int| 0 <= i < j < blocks@.len() ==> blocks@[i] != blocks@[j],
        ensures
            final(self).inv(),
            final(self)@ == (FsView {
                free_blocks: old(self)@.free_blocks + blocks@.len(),
                ..old(self)@
            }),
    {
        let mut i: usize = 0;
        while i < blocks.len()
            invariant
                i <= blocks@.len(),
                self.inv(),
                forall|j: int| i <= j < blocks@.len() ==> self.can_dealloc(#[trigger] blocks@[j]),
                forall|a: int, b: int| 0 <= a < b < blocks@.len() ==> blocks@[a] != blocks@[b],
                self@ == (FsView { free_blocks: old(self)@.free_blocks + i, ..old(self)@ }),
                old(self)@.modified,
            decreases blocks@.len() - i,
        {
            let ghost before = *self;
            self.dealloc_data(blocks[i]);
            proof {
                assert forall|j: int| i + 1 <= j < blocks@.len() implies self.can_dealloc(
                    #[trigger] blocks@[j],
                ) by {
                    assert(before.can_dealloc(blocks@[j]));
                    assert(blocks@[i as int] != blocks@[j]);
                }
            }
            i = i + 1;
        }
    }

    /// Takes the blocks away from an inode, which is then empty. They stay marked.
    fn clear_size(&mut self, id: u32) -> (r: Vec<u32>)
        requires
            old(self).inv(),
            id < old(self)@.files.len(),
        ensures
            final(self).inv(),
            r@ == old(self).inodes@[id as int].blocks@,
            final(self).data_used == old(self).data_used,
            final(self).data_area_start_block == old(self).data_area_start_block,
            final(self).inodes@.len() == old(self).inodes@.len(),
            final(self).inodes@[id as int].blocks@.len() == 0,
            forall|k: int|
                0 <= k < final(self).inodes@.len() && k != id ==> #[trigger] final(self).inodes@[k]
                    == old(self).inodes@[k],
            final(self)@ == (FsView {
                files: old(self)@.files.update(
                    id as int,
                    FileView { size: 0, backing: Seq::empty(), ..old(self)@.files[id as int] },
                ),
                modified: true,
                ..old(self)@
            }),
    {
        let k = id as usize;
        let mut blocks: Vec<u32> = Vec::new();
        std::mem::swap(&mut blocks, &mut self.inodes[k].blocks);
        self.inodes[k].size = 0;
        self.modified = true;
        proof {
            assert forall|l: int, i: int|
                0 <= l < self.inodes@.len() && 0 <= i < self.inodes@[l].blocks@.len() implies {
                &&& i < old(self).inodes@[l].blocks@.len()
                &&& (#[trigger] self.inodes@[l].blocks@[i]) == old(self).inodes@[l].blocks@[i]
            } by {}
            assert(self.owned_marked());
            assert(self.owned_once());
            assert(self.inv());
            assert forall|l: int| 0 <= l < self.inodes@.len() && l != k implies #[trigger] self.file(l)
                == old(self).file(l) by {
                assert(self.file(l).backing =~= old(self).file(l).backing);
            }
            assert(self.file(k as int).backing =~= Seq::empty());
            assert(self@.files =~= old(self)@.files.update(
                k as int,
                FileView { size: 0, backing: Seq::empty(), ..old(self)@.files[k as int] },
            ));
        }
        blocks
    }

    /// Makes an inode empty and gives its blocks back, cleared.
    pub fn clear_data(&mut self, id: u32)
        requires
            old(self).inv(),
            id < old(self)@.files.len(),
        ensures
            final(self).inv(),
            final(self)@ == (FsView {
                files: old(self)@.files.update(
                    id as int,
                    FileView { size: 0, backing: Seq::empty(), ..old(self)@.files[id as int] },
                ),
                free_blocks: old(self)@.free_blocks + blocks_of_size(
                    old(self)@.files[id as int].size as int,
                ),
                modified: true,
                ..old(self)@
            }),
    {
        let blocks = self.clear_size(id);
        proof {
            assert(old(self).inodes@[id as int].size <= MAX_FILE_SIZE);
            assert forall|j: int| 0 <= j < blocks@.len() implies self.can_dealloc(
                #[trigger] blocks@[j],
            ) by {
                assert(blocks@[j] == old(self).inodes@[id as int].blocks@[j]);
                assert forall|k: int, i: int|
                    0 <= k < self.inodes@.len() && 0 <= i
                        < self.inodes@[k].blocks@.len() implies #[trigger] self.inodes@[k].blocks@[i]
                    != blocks@[j] by {
                    assert(k != id);
                    assert(self.inodes@[k] == old(self).inodes@[k]);
                    assert(old(self).inodes@[k].blocks@[i] != old(
                        self,
                    ).inodes@[id as int].blocks@[j]);
                }
            }
            assert forall|i: int, j: int| 0 <= i < j < blocks@.len() implies blocks@[i]
                != blocks@[j] by {
                assert(old(self).inodes@[id as int].blocks@[i] != old(
                    self,
                ).inodes@[id as int].blocks@[j]);
            }
        }
        self.dealloc_all(blocks);
    }
}

} // verus!
