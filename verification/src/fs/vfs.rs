//! Inodes as the kernel holds them: creating, linking, unlinking and listing the
//! entries of a directory, and reading and writing files.
use crate::bytes::splice;
use crate::fs::dir::{
    entry_at, entry_count, find_entry, find_from, has_entry, lemma_find_from, lookup_name, readable,
    searchable,
};
use crate::fs::efs::{first_free, DiskInodeType, EasyFileSystem, FileView, FsView};
use crate::fs::layout::{
    blocks_of_size, entry_bytes, entry_name, lemma_blocks_of_size, text_bytes, DirEntry, DIRENT_SZ,
    MAX_FILE_SIZE, NAME_LENGTH_LIMIT,
};
use vstd::prelude::*;
use vstd::utf8::decode_utf8;

verus! {

/// Block that holds an inode, in an inode area that starts at block `start`.
pub open spec fn inode_block(start: u32, id: u32) -> int {
    start + id as int / 4
}

/// Position of an inode in its block.
pub open spec fn inode_offset(id: u32) -> int {
    (id as int % 4) * 128
}

/// The file system with another file `k`.
pub open spec fn with_file(v: FsView, k: int, f: FileView) -> FsView {
    FsView { files: v.files.update(k, f), modified: true, ..v }
}

/// The file system after it was asked that all modified blocks be written back: the
/// mark that something was modified records the request, and no block is written.
pub open spec fn synced(v: FsView) -> FsView {
    FsView { modified: false, ..v }
}

/// Number of blocks that file `k` needs in addition to hold `size` bytes.
pub open spec fn blocks_wanted(v: FsView, k: int, size: int) -> int {
    if size < v.files[k].size {
        0
    } else {
        blocks_of_size(size) - blocks_of_size(v.files[k].size as int)
    }
}

/// Can file `k` hold `size` bytes?
pub open spec fn has_room(v: FsView, k: int, size: int) -> bool {
    size <= MAX_FILE_SIZE && blocks_wanted(v, k, size) <= v.free_blocks
}

/// The file system after bytes were written to file `k` from position `off` on,
/// which grows where it has less room.
pub open spec fn write_file(v: FsView, k: int, off: int, d: Seq<u8>) -> FsView {
    let size = (off + d.len()) as u32;
    FsView {
        files: v.files.update(k, v.files[k].grown(size).written(off, d)),
        free_blocks: v.free_blocks - blocks_wanted(v, k, off + d.len()),
        modified: true,
        ..v
    }
}

/// Number of entries in directory `k`.
pub open spec fn entries(v: FsView, k: int) -> int {
    v.files[k].size as int / 32
}

/// The file system after an entry was added at the end of directory `k`.
pub open spec fn append_entry(v: FsView, k: int, e: Seq<u8>) -> FsView {
    write_file(v, k, 32 * entries(v, k), e)
}

/// Can an entry be added to directory `k`?
pub open spec fn can_append(v: FsView, k: int) -> bool {
    has_room(v, k, 32 * entries(v, k) + 32)
}

/// The file system once the first free inode is an empty file with one link.
pub open spec fn new_file(v: FsView) -> FsView {
    let id = first_free(v.used, 0);
    FsView {
        files: v.files.update(
            id,
            FileView { kind: DiskInodeType::File, nlink: 1, size: 0, backing: Seq::empty() },
        ),
        used: v.used.update(id, true),
        modified: true,
        ..v
    }
}

/// The file system after a file with this name was created in directory `k`.
pub open spec fn created(v: FsView, k: int, name: Seq<u8>) -> FsView {
    synced(append_entry(new_file(v), k, entry_bytes(name, first_free(v.used, 0) as u32)))
}

/// The file system with one link more to file `id`.
pub open spec fn add_link(v: FsView, id: int) -> FsView {
    with_file(v, id, FileView { nlink: (v.files[id].nlink + 1) as u32, ..v.files[id] })
}

/// The file system after a name for file `id` was added to directory `k`.
pub open spec fn linked(v: FsView, k: int, id: u32, name: Seq<u8>) -> FsView {
    synced(append_entry(add_link(v, id as int), k, entry_bytes(name, id)))
}

/// The file system with one link less to file `id`.
pub open spec fn drop_link(v: FsView, id: int) -> FsView {
    with_file(v, id, FileView { nlink: (v.files[id].nlink - 1) as u32, ..v.files[id] })
}

/// The file system after file `id` was made empty and its blocks were given back.
pub open spec fn cleared(v: FsView, id: int) -> FsView {
    FsView {
        files: v.files.update(id, FileView { size: 0, backing: Seq::empty(), ..v.files[id] }),
        free_blocks: v.free_blocks + blocks_of_size(v.files[id].size as int),
        modified: true,
        ..v
    }
}

/// The file system after the last entry of directory `k` took the place of entry
/// `i` and the blocks that the directory no longer needs were given back.
pub open spec fn remove_entry(v: FsView, k: int, i: int) -> FsView {
    let f = v.files[k];
    let size = 32 * (entries(v, k) - 1);
    FsView {
        files: v.files.update(
            k,
            f.written(32 * i, f.content().subrange(size, size + 32)).cut(size as u32),
        ),
        free_blocks: v.free_blocks + blocks_of_size(f.size as int) - blocks_of_size(size),
        modified: true,
        ..v
    }
}

/// The file system without file `id`: its blocks were given back, and the inode is no
/// longer in use.
pub open spec fn without_file(v: FsView, id: int) -> FsView {
    let w = cleared(v, id);
    FsView { used: w.used.update(id, false), ..w }
}

/// The file system with one link less to file `id`, which goes with its last link.
pub open spec fn release_link(v: FsView, id: int) -> FsView {
    let w = drop_link(v, id);
    if w.files[id].nlink == 0 {
        without_file(w, id)
    } else {
        w
    }
}

/// The file system after entry `i` of directory `k` was unlinked, which names file
/// `id`: the entry is removed, and the file goes with its last link.
pub open spec fn unlinked(v: FsView, k: int, i: int, id: int) -> FsView {
    synced(remove_entry(release_link(v, id), k, i))
}

/// What a read of `n` bytes from position `off` on gives: as many of them as the
/// contents have.
pub open spec fn bytes_read(c: Seq<u8>, off: int, n: int) -> Seq<u8> {
    if off >= c.len() {
        Seq::empty()
    } else if off + n <= c.len() {
        c.subrange(off, off + n)
    } else {
        c.skip(off)
    }
}

impl EasyFileSystem {
    /// Where an inode stands: its block, and its position there.
    pub fn get_disk_inode_pos(&self, id: u32) -> (r: (u32, usize))
        requires
            inode_block(self@.inode_start, id) <= u32::MAX,
        ensures
            r.0 == inode_block(self@.inode_start, id),
            r.1 == inode_offset(id),
    {
        (self.inode_area() + id / 4, (id % 4) as usize * 128)
    }

    /// Writes bytes to an inode, which grows where it has less room.
    fn write_grown(&mut self, id: u32, off: u32, d: &[u8])
        requires
            old(self).inv(),
            id < old(self)@.files.len(),
            has_room(old(self)@, id as int, off + d@.len()),
        ensures
            final(self).inv(),
            final(self)@ == write_file(old(self)@, id as int, off as int, d@),
    {
        let ghost v = self@;
        proof {
            self.lemma_inv();
        }
        self.increase_size(id, off + d.len() as u32);
        self.write_data(id, off, d);
        proof {
            assert(self@ =~= write_file(v, id as int, off as int, d@));
        }
    }

    /// Number of entries in an inode.
    pub(crate) fn entry_total(&self, id: u32) -> (r: usize)
        requires
            self.inv(),
            id < self@.files.len(),
        ensures
            r == entries(self@, id as int),
            r == entry_count(self@.files[id as int].content()),
    {
        proof {
            self.lemma_inv();
            lemma_blocks_of_size(0, self@.files[id as int].size as int);
        }
        self.size(id) as usize / DIRENT_SZ
    }

    /// Entry `i` of an inode.
    pub(crate) fn entry(&self, id: u32, i: usize) -> (r: DirEntry)
        requires
            self.inv(),
            id < self@.files.len(),
            i < entries(self@, id as int),
        ensures
            r@ == entry_at(self@.files[id as int].content(), i as int),
            r@.len() == DIRENT_SZ,
    {
        proof {
            self.lemma_inv();
        }
        DirEntry::from_bytes(self.read_data(id, i as u32 * 32, DIRENT_SZ))
    }
}

/// An inode: where it stands on disk, and its number.
#[derive(Clone, Copy, Debug)]
pub struct Inode {
    block_id: usize,
    block_offset: usize,
    inode_id: u32,
}

impl Inode {
    /// The block that holds the inode.
    pub closed spec fn block_id(&self) -> usize {
        self.block_id
    }

    /// The position of the inode in its block.
    pub closed spec fn block_offset(&self) -> usize {
        self.block_offset
    }

    /// The number of the inode.
    pub closed spec fn inode_id(&self) -> u32 {
        self.inode_id
    }

    /// Position in the inode area of a file system.
    pub open spec fn slot(&self, v: FsView) -> int {
        (self.block_id() - v.inode_start) * 4 + self.block_offset() as int / 128
    }

    /// Does it stand in the inode area of a file system?
    pub open spec fn stands_in(&self, v: FsView) -> bool {
        &&& self.block_id() >= v.inode_start
        &&& self.block_offset() as int % 128 == 0
        &&& self.block_offset() < 512
        &&& self.slot(v) < v.files.len()
    }

    /// What it holds.
    pub open spec fn file(&self, v: FsView) -> FileView {
        v.files[self.slot(v)]
    }

    /// Its contents.
    pub open spec fn content(&self, v: FsView) -> Seq<u8> {
        self.file(v).content()
    }

    /// Is it a directory in which this name can be looked up?
    pub open spec fn can_search(&self, v: FsView, name: Seq<u8>) -> bool {
        &&& self.stands_in(v)
        &&& self.file(v).kind == DiskInodeType::Directory
        &&& searchable(self.content(v), name)
    }

    /// Can a name be looked up, with an inode that has a place?
    pub open spec fn can_find(&self, v: FsView, name: Seq<u8>) -> bool {
        &&& self.can_search(v, name)
        &&& lookup_name(self.content(v), name) matches Some(id) ==> inode_block(v.inode_start, id)
            <= u32::MAX
    }

    /// Can a file be created, unless the name is taken? There must be a free inode,
    /// the name must fit in an entry, and the directory must have room for one more.
    pub open spec fn can_create(&self, v: FsView, name: Seq<u8>) -> bool {
        &&& self.can_search(v, name)
        &&& !has_entry(self.content(v), name) ==> {
            &&& first_free(v.used, 0) < v.used.len()
            &&& name.len() <= NAME_LENGTH_LIMIT
            &&& can_append(new_file(v), self.slot(v))
        }
    }

    /// Can a file get a second name, where it is there and the name is not taken?
    pub open spec fn can_link(&self, v: FsView, old_name: Seq<u8>, new_name: Seq<u8>) -> bool {
        &&& self.can_search(v, old_name)
        &&& self.can_search(v, new_name)
        &&& !has_entry(self.content(v), new_name) ==> (lookup_name(
            self.content(v),
            old_name,
        ) matches Some(id) ==> {
            &&& id < v.files.len()
            &&& v.files[id as int].nlink < u32::MAX
            &&& new_name.len() <= NAME_LENGTH_LIMIT
            &&& can_append(v, self.slot(v))
        })
    }

    /// Can a link be removed, where the name is there? The file must have links, and
    /// the directory must not lose its own last one.
    pub open spec fn can_unlink(&self, v: FsView, name: Seq<u8>) -> bool {
        &&& self.can_search(v, name)
        &&& lookup_name(self.content(v), name) matches Some(id) ==> {
            &&& id < v.files.len()
            &&& v.files[id as int].nlink > 0
            &&& id == self.slot(v) ==> v.files[id as int].nlink > 1
        }
    }

    /// Is it a directory whose names can be listed?
    pub open spec fn can_list(&self, v: FsView) -> bool {
        &&& self.stands_in(v)
        &&& self.file(v).kind == DiskInodeType::Directory
        &&& readable(self.content(v), entry_count(self.content(v)))
    }

    /// Looking up a name gives this inode.
    pub open spec fn finds(&self, v: FsView, name: Seq<u8>, r: Option<Inode>) -> bool {
        match r {
            Some(inode) => {
                &&& has_entry(self.content(v), name)
                &&& inode.is_inode(v, lookup_name(self.content(v), name)->0)
            },
            None => !has_entry(self.content(v), name),
        }
    }

    /// Creating a file leads from `v` to `w` and gives this inode.
    pub open spec fn creates(
        &self,
        v: FsView,
        w: FsView,
        name: Seq<u8>,
        r: Option<Inode>,
    ) -> bool {
        match r {
            Some(inode) => {
                &&& !has_entry(self.content(v), name)
                &&& inode.is_inode(v, first_free(v.used, 0) as u32)
                &&& w == created(v, self.slot(v), name)
            },
            None => has_entry(self.content(v), name) && w == v,
        }
    }

    /// Linking leads from `v` to `w` with this result: 0, or -1 where the file is
    /// not there or the name is taken.
    pub open spec fn links(
        &self,
        v: FsView,
        w: FsView,
        old_name: Seq<u8>,
        new_name: Seq<u8>,
        r: isize,
    ) -> bool {
        let c = self.content(v);
        if has_entry(c, old_name) && !has_entry(c, new_name) {
            r == 0 && w == linked(v, self.slot(v), lookup_name(c, old_name)->0, new_name)
        } else {
            r == -1 && w == v
        }
    }

    /// Unlinking leads from `v` to `w` with this result: 0, or -1 where the name is
    /// not there.
    pub open spec fn unlinks(&self, v: FsView, w: FsView, name: Seq<u8>, r: isize) -> bool {
        let c = self.content(v);
        if has_entry(c, name) {
            r == 0 && w == unlinked(
                v,
                self.slot(v),
                find_entry(c, name),
                lookup_name(c, name)->0 as int,
            )
        } else {
            r == -1 && w == v
        }
    }

    /// These are the names in the directory, in order.
    pub open spec fn lists(&self, v: FsView, r: Seq<String>) -> bool {
        &&& r.len() == entry_count(self.content(v))
        &&& forall|i: int|
            0 <= i < r.len() ==> (#[trigger] r[i])@ == decode_utf8(
                entry_name(entry_at(self.content(v), i)),
            )
    }

    /// Is this the inode of number `id`, where the inode area puts it?
    pub open spec fn is_inode(&self, v: FsView, id: u32) -> bool {
        &&& self.inode_id() == id
        &&& self.block_id() == inode_block(v.inode_start, id)
        &&& self.block_offset() == inode_offset(id)
    }

    /// The inode at this place, with this number.
    pub fn new(block_id: u32, block_offset: usize, inode_id: u32) -> (r: Inode)
        ensures
            r.block_id() == block_id,
            r.block_offset() == block_offset,
            r.inode_id() == inode_id,
    {
        Inode { block_id: block_id as usize, block_offset, inode_id }
    }

    /// The block that holds the inode.
    pub(crate) fn block(&self) -> (r: usize)
        ensures
            r == self.block_id(),
    {
        self.block_id
    }

    /// The position of the inode in its block.
    pub(crate) fn offset(&self) -> (r: usize)
        ensures
            r == self.block_offset(),
    {
        self.block_offset
    }

    /// Position in the inode area.
    pub(crate) fn disk_inode(&self, fs: &EasyFileSystem) -> (r: u32)
        requires
            fs.inv(),
            self.stands_in(fs@),
        ensures
            r == self.slot(fs@),
            r < fs@.files.len(),
    {
        proof {
            fs.lemma_inv();
        }
        let row = (self.block_id - fs.inode_area() as usize) as u32;
        row * 4 + (self.block_offset / 128) as u32
    }

    /// The first entry with a name: its position, and the inode that it names.
    fn find_entry(&self, fs: &EasyFileSystem, name: &str) -> (r: Option<(usize, u32)>)
        requires
            fs.inv(),
            self.can_search(fs@, text_bytes(name)),
        ensures
            r is Some == has_entry(self.content(fs@), text_bytes(name)),
            r is Some ==> (r->0).0 == find_entry(self.content(fs@), text_bytes(name)) && Some(
                (r->0).1,
            ) == lookup_name(self.content(fs@), text_bytes(name)),
    {
        let k = self.disk_inode(fs);
        let count = fs.entry_total(k);
        let ghost c = self.content(fs@);
        let mut i: usize = 0;
        while i < count
            invariant
                fs.inv(),
                k < fs@.files.len(),
                count == entries(fs@, k as int),
                count == entry_count(c),
                c == fs@.files[k as int].content(),
                i <= count,
                find_entry(c, text_bytes(name)) == find_from(c, text_bytes(name), i as int),
                c == self.content(fs@),
            decreases count - i,
        {
            let e = fs.entry(k, i);
            if e.name_is(name) {
                return Some((i, e.inode_id()));
            }
            i = i + 1;
        }
        None
    }

    /// The number of the inode that a directory gives for a name.
    pub(crate) fn find_inode_id(&self, fs: &EasyFileSystem, name: &str) -> (r: Option<u32>)
        requires
            fs.inv(),
            self.can_search(fs@, text_bytes(name)),
        ensures
            r == lookup_name(self.content(fs@), text_bytes(name)),
    {
        match self.find_entry(fs, name) {
            Some(found) => Some(found.1),
            None => None,
        }
    }

    /// Looks up a name in a directory.
    pub fn find(&self, fs: &EasyFileSystem, name: &str) -> (r: Option<Inode>)
        requires
            fs.inv(),
            self.can_find(fs@, text_bytes(name)),
        ensures
            self.finds(fs@, text_bytes(name), r),
    {
        match self.find_inode_id(fs, name) {
            Some(id) => {
                let (block_id, block_offset) = fs.get_disk_inode_pos(id);
                Some(Inode::new(block_id, block_offset, id))
            },
            None => None,
        }
    }

    /// Creates a file in a directory, unless the name is taken.
    pub fn create(&self, fs: &mut EasyFileSystem, name: &str) -> (r: Option<Inode>)
        requires
            old(fs).inv(),
            self.can_create(old(fs)@, text_bytes(name)),
        ensures
            final(fs).inv(),
            self.creates(old(fs)@, final(fs)@, text_bytes(name), r),
    {
        if self.find_inode_id(fs, name).is_some() {
            return None;
        }
        proof {
            fs.lemma_inv();
        }
        let k = self.disk_inode(fs);
        let id = fs.alloc_inode();
        fs.initialize(id, DiskInodeType::File, 1);
        proof {
            assert(fs@ =~= new_file(old(fs)@));
        }
        let count = fs.entry_total(k);
        let entry = DirEntry::new(name, id);
        fs.write_grown(k, count as u32 * 32, entry.as_bytes());
        let (block_id, block_offset) = fs.get_disk_inode_pos(id);
        fs.sync_all();
        Some(Inode::new(block_id, block_offset, id))
    }

    /// Number of links.
    pub fn nlinks(&self, fs: &EasyFileSystem) -> (r: u32)
        requires
            fs.inv(),
            self.stands_in(fs@),
        ensures
            r == self.file(fs@).nlink,
    {
        fs.nlink(self.disk_inode(fs))
    }

    /// Gives a file a second name in a directory: -1 where the file is not there
    /// or the name is taken, else 0.
    pub fn link_at(&self, fs: &mut EasyFileSystem, old_name: &str, new_name: &str) -> (r: isize)
        requires
            old(fs).inv(),
            self.can_link(old(fs)@, text_bytes(old_name), text_bytes(new_name)),
        ensures
            final(fs).inv(),
            self.links(old(fs)@, final(fs)@, text_bytes(old_name), text_bytes(new_name), r),
    {
        let old_id = self.find_inode_id(fs, old_name);
        let new_id = self.find_inode_id(fs, new_name);
        if old_id.is_none() || new_id.is_some() {
            return -1;
        }
        let id = old_id.unwrap();
        let k = self.disk_inode(fs);
        let nlink = fs.nlink(id);
        fs.set_nlink(id, nlink + 1);
        proof {
            assert(fs@ =~= add_link(old(fs)@, id as int));
            fs.lemma_inv();
        }
        let count = fs.entry_total(k);
        let entry = DirEntry::new(new_name, id);
        fs.write_grown(k, count as u32 * 32, entry.as_bytes());
        fs.sync_all();
        0
    }

    /// Deletes the link that a name is: -1 where there is no such name, else 0. The
    /// name goes, and with its last link the file goes too.
    pub fn unlink_at(&self, fs: &mut EasyFileSystem, name: &str) -> (r: isize)
        requires
            old(fs).inv(),
            self.can_unlink(old(fs)@, text_bytes(name)),
        ensures
            final(fs).inv(),
            self.unlinks(old(fs)@, final(fs)@, text_bytes(name), r),
    {
        let found = self.find_entry(fs, name);
        if found.is_none() {
            return -1;
        }
        let (at, id) = found.unwrap();
        let k = self.disk_inode(fs);
        let nlink = fs.nlink(id) - 1;
        proof {
            fs.lemma_inv();
            lemma_blocks_of_size(0, self.file(fs@).size as int);
            lemma_find_from(self.content(fs@), text_bytes(name), 0);
        }
        fs.set_nlink(id, nlink);
        proof {
            assert(fs@ =~= drop_link(old(fs)@, id as int));
        }
        if nlink == 0 {
            fs.clear_data(id);
            fs.dealloc_inode(id);
        }
        let ghost v = fs@;
        proof {
            assert(v =~= release_link(old(fs)@, id as int));
            assert(v.files[k as int].size == old(fs)@.files[k as int].size);
            assert(v.files[k as int].backing == old(fs)@.files[k as int].backing);
        }
        let count = fs.entry_total(k);
        let last = fs.entry(k, count - 1);
        let size = (count - 1) as u32 * 32;
        fs.write_data(k, at as u32 * 32, last.as_bytes());
        fs.decrease_size(k, size);
        proof {
            assert(fs@ =~= remove_entry(v, k as int, at as int));
        }
        fs.sync_all();
        0
    }

    /// The names in a directory, in order.
    pub fn ls(&self, fs: &EasyFileSystem) -> (r: Vec<String>)
        requires
            fs.inv(),
            self.can_list(fs@),
        ensures
            self.lists(fs@, r@),
    {
        let k = self.disk_inode(fs);
        let count = fs.entry_total(k);
        let mut v: Vec<String> = Vec::new();
        let mut i: usize = 0;
        while i < count
            invariant
                i <= count,
                fs.inv(),
                k < fs@.files.len(),
                k == self.slot(fs@),
                count == entries(fs@, k as int),
                count == entry_count(self.content(fs@)),
                readable(self.content(fs@), entry_count(self.content(fs@))),
                v@.len() == i,
                forall|j: int|
                    0 <= j < i ==> (#[trigger] v@[j])@ == decode_utf8(
                        entry_name(entry_at(self.content(fs@), j)),
                    ),
            decreases count - i,
        {
            let e = fs.entry(k, i);
            v.push(e.name());
            i = i + 1;
        }
        v
    }

    /// Reads bytes from position `offset` on into `buf`, as far as the file goes,
    /// and returns their number.
    pub fn read_at(&self, fs: &EasyFileSystem, offset: usize, buf: &mut [u8]) -> (r: usize)
        requires
            fs.inv(),
            self.stands_in(fs@),
            offset + old(buf)@.len() <= usize::MAX,
        ensures
            r == bytes_read(self.content(fs@), offset as int, old(buf)@.len() as int).len(),
            final(buf)@ == splice(
                old(buf)@,
                0,
                bytes_read(self.content(fs@), offset as int, old(buf)@.len() as int),
            ),
    {
        let k = self.disk_inode(fs);
        proof {
            fs.lemma_inv();
            lemma_blocks_of_size(0, fs@.files[k as int].size as int);
        }
        let size = fs.size(k) as usize;
        let end = if offset + buf.len() < size {
            offset + buf.len()
        } else {
            size
        };
        if offset >= end {
            assert(buf@ =~= splice(old(buf)@, 0, Seq::empty()));
            assert(bytes_read(self.content(fs@), offset as int, buf@.len() as int)
                =~= Seq::empty());
            return 0;
        }
        let data = fs.read_data(k, offset as u32, end - offset);
        let n = data.len();
        let mut i: usize = 0;
        while i < n
            invariant
                i <= n,
                n == data@.len(),
                n <= old(buf)@.len(),
                buf@ == splice(old(buf)@, 0, data@.take(i as int)),
            decreases n - i,
        {
            buf[i] = data[i];
            i = i + 1;
            assert(buf@ =~= splice(old(buf)@, 0, data@.take(i as int)));
        }
        assert(data@.take(n as int) =~= data@);
        assert(data@ =~= bytes_read(self.content(fs@), offset as int, old(buf)@.len() as int));
        n
    }

    /// Writes bytes from position `offset` on, growing the file where it has less
    /// room, and returns their number.
    pub fn write_at(&self, fs: &mut EasyFileSystem, offset: usize, buf: &[u8]) -> (r: usize)
        requires
            old(fs).inv(),
            self.stands_in(old(fs)@),
            has_room(old(fs)@, self.slot(old(fs)@), offset + buf@.len()),
        ensures
            final(fs).inv(),
            r == buf@.len(),
            final(fs)@ == synced(
                write_file(old(fs)@, self.slot(old(fs)@), offset as int, buf@),
            ),
    {
        let k = self.disk_inode(fs);
        fs.write_grown(k, offset as u32, buf);
        fs.sync_all();
        buf.len()
    }

    /// Makes a file empty and gives its blocks back.
    pub fn clear(&self, fs: &mut EasyFileSystem)
        requires
            old(fs).inv(),
            self.stands_in(old(fs)@),
        ensures
            final(fs).inv(),
            final(fs)@ == synced(cleared(old(fs)@, self.slot(old(fs)@))),
    {
        let k = self.disk_inode(fs);
        fs.clear_data(k);
        fs.sync_all();
    }

    /// Number of links, whether it is a directory, and its number.
    pub fn stat(&self, fs: &EasyFileSystem) -> (r: (u32, bool, u64))
        requires
            fs.inv(),
            self.stands_in(fs@),
        ensures
            r.0 == self.file(fs@).nlink,
            r.1 == (self.file(fs@).kind == DiskInodeType::Directory),
            r.2 == self.inode_id(),
    {
        let k = self.disk_inode(fs);
        (fs.nlink(k), fs.is_dir(k), self.inode_id as u64)
    }
}

} // verus!
