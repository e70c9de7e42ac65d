//! Finding out whether an operation on the file system can be carried out.
use crate::fs::dir::{entry_at, entry_count, find_entry, find_from, lemma_find_from, searchable};
use crate::fs::efs::{DiskInodeType, EasyFileSystem};
use crate::fs::layout::{
    blocks_of_size, entry_ok, lemma_blocks_of_size, text_bytes, total_blocks, DIRENT_SZ,
    MAX_FILE_SIZE, NAME_LENGTH_LIMIT,
};
use crate::fs::vfs::{can_append, entries, has_room, new_file, Inode};
use vstd::prelude::*;

verus! {

impl EasyFileSystem {
    /// Can an inode hold `size` bytes?
    pub fn room_for(&self, id: u32, size: usize) -> (r: bool)
        requires
            self.inv(),
            id < self@.files.len(),
        ensures
            r == has_room(self@, id as int, size as int),
    {
        if size > MAX_FILE_SIZE as usize {
            return false;
        }
        let size = size as u32;
        let now = self.size(id);
        proof {
            self.lemma_inv();
        }
        if size < now {
            return true;
        }
        proof {
            lemma_blocks_of_size(now as int, size as int);
        }
        (total_blocks(size) - total_blocks(now)) as usize <= self.free_blocks()
    }

    /// Can an entry be added to a directory?
    fn room_for_entry(&self, id: u32) -> (r: bool)
        requires
            self.inv(),
            id < self@.files.len(),
        ensures
            r == can_append(self@, id as int),
    {
        proof {
            self.lemma_inv();
        }
        self.room_for(id, self.entry_total(id) * DIRENT_SZ + DIRENT_SZ)
    }
}

impl Inode {
    /// Does the inode stand in the inode area?
    pub fn check_place(&self, fs: &EasyFileSystem) -> (r: bool)
        requires
            fs.inv(),
        ensures
            r == self.stands_in(fs@),
    {
        proof {
            fs.lemma_inv();
        }
        let block_id = self.block();
        let offset = self.offset();
        let start = fs.inode_area() as usize;
        if block_id < start || offset % 128 != 0 || offset >= 512 {
            return false;
        }
        let row = block_id - start;
        let count = fs.inode_count();
        if row >= count {
            return false;
        }
        let slot: u64 = row as u64 * 4 + (offset / 128) as u64;
        slot < (count as u64)
    }

    /// Can a name be looked up?
    pub fn check_search(&self, fs: &EasyFileSystem, name: &str) -> (r: bool)
        requires
            fs.inv(),
        ensures
            r == self.can_search(fs@, text_bytes(name)),
    {
        if !self.check_place(fs) {
            return false;
        }
        let k = self.disk_inode(fs);
        if !fs.is_dir(k) {
            return false;
        }
        let count = fs.entry_total(k);
        let ghost c = self.content(fs@);
        let ghost f = find_entry(c, text_bytes(name));
        let mut i: usize = 0;
        while i < count
            invariant
                fs.inv(),
                k < fs@.files.len(),
                count == entries(fs@, k as int),
                count == entry_count(c),
                c == fs@.files[k as int].content(),
                c == self.content(fs@),
                self.stands_in(fs@),
                self.file(fs@).kind == DiskInodeType::Directory,
                f == find_entry(c, text_bytes(name)),
                i <= count,
                f == find_from(c, text_bytes(name), i as int),
                forall|j: int| 0 <= j < i ==> entry_ok(#[trigger] entry_at(c, j)),
            decreases count - i,
        {
            proof {
                lemma_find_from(c, text_bytes(name), i as int);
            }
            let e = fs.entry(k, i);
            if !e.is_readable() {
                assert(!searchable(c, text_bytes(name))) by {
                    assert(!entry_ok(entry_at(c, i as int)));
                }
                return false;
            }
            if e.name_is(name) {
                return true;
            }
            i = i + 1;
        }
        true
    }

    /// Can a name be looked up, with an inode that has a place?
    pub fn check_find(&self, fs: &EasyFileSystem, name: &str) -> (r: bool)
        requires
            fs.inv(),
        ensures
            r == self.can_find(fs@, text_bytes(name)),
    {
        if !self.check_search(fs, name) {
            return false;
        }
        match self.find_inode_id(fs, name) {
            Some(id) => id / 4 <= u32::MAX - fs.inode_area(),
            None => true,
        }
    }

    /// Can a file be created, unless the name is taken?
    pub fn check_create(&self, fs: &EasyFileSystem, name: &str) -> (r: bool)
        requires
            fs.inv(),
        ensures
            r == self.can_create(fs@, text_bytes(name)),
    {
        if !self.check_search(fs, name) {
            return false;
        }
        if self.find_inode_id(fs, name).is_some() {
            return true;
        }
        let k = self.disk_inode(fs);
        proof {
            fs.lemma_inv();
        }
        match fs.free_inode() {
            None => false,
            Some(id) => {
                let room = if id == k {
                    fs.free_blocks() >= 1
                } else {
                    fs.room_for_entry(k)
                };
                proof {
                    let u = new_file(fs@);
                    if id != k {
                        assert(u.files[k as int] == fs@.files[k as int]);
                    } else {
                        assert(entries(u, k as int) == 0);
                        assert(blocks_of_size(32) == 1);
                        assert(blocks_of_size(0) == 0);
                    }
                    assert(room == can_append(u, k as int));
                }
                name.as_bytes().len() <= NAME_LENGTH_LIMIT && room
            },
        }
    }

    /// Can a file get a second name, where it is there and the name is not taken?
    pub fn check_link(&self, fs: &EasyFileSystem, old_name: &str, new_name: &str) -> (r: bool)
        requires
            fs.inv(),
        ensures
            r == self.can_link(fs@, text_bytes(old_name), text_bytes(new_name)),
    {
        if !self.check_search(fs, old_name) || !self.check_search(fs, new_name) {
            return false;
        }
        if self.find_inode_id(fs, new_name).is_some() {
            return true;
        }
        match self.find_inode_id(fs, old_name) {
            Some(id) => (id as usize) < fs.inode_count() && fs.nlink(id) < u32::MAX
                && new_name.as_bytes().len() <= NAME_LENGTH_LIMIT && fs.room_for_entry(
                self.disk_inode(fs),
            ),
            None => true,
        }
    }

    /// Can a link be removed, where the name is there?
    pub fn check_unlink(&self, fs: &EasyFileSystem, name: &str) -> (r: bool)
        requires
            fs.inv(),
        ensures
            r == self.can_unlink(fs@, text_bytes(name)),
    {
        if !self.check_search(fs, name) {
            return false;
        }
        match self.find_inode_id(fs, name) {
            Some(id) => {
                if id as usize >= fs.inode_count() {
                    return false;
                }
                let nlink = fs.nlink(id);
                nlink > 1 || nlink == 1 && id != self.disk_inode(fs)
            },
            None => true,
        }
    }

    /// Is it a directory whose names can be listed?
    pub fn check_list(&self, fs: &EasyFileSystem) -> (r: bool)
        requires
            fs.inv(),
        ensures
            r == self.can_list(fs@),
    {
        if !self.check_place(fs) {
            return false;
        }
        let k = self.disk_inode(fs);
        if !fs.is_dir(k) {
            return false;
        }
        let count = fs.entry_total(k);
        let ghost c = self.content(fs@);
        let mut i: usize = 0;
        while i < count
            invariant
                fs.inv(),
                k < fs@.files.len(),
                count == entries(fs@, k as int),
                count == entry_count(c),
                c == fs@.files[k as int].content(),
                c == self.content(fs@),
                i <= count,
                forall|j: int| 0 <= j < i ==> entry_ok(#[trigger] entry_at(c, j)),
            decreases count - i,
        {
            let e = fs.entry(k, i);
            if !e.is_readable() {
                assert(!entry_ok(entry_at(c, i as int)));
                return false;
            }
            i = i + 1;
        }
        true
    }
}

} // verus!
