//! A file system behind a lock, shared by the inodes that were opened on it.
use crate::bytes::splice;
use crate::fs::efs::{DiskInodeType, EasyFileSystem, FsView};
use crate::fs::layout::text_bytes;
use crate::fs::vfs::{bytes_read, cleared, has_room, synced, write_file, Inode};
use spin::{Mutex, MutexGuard};
use std::sync::Arc;
use vstd::prelude::*;

verus! {

/// The lock of the `spin` crate.
#[verifier::external_type_specification]
#[verifier::external_body]
#[verifier::reject_recursive_types(T)]
pub struct ExMutex<T: ?Sized>(Mutex<T>);

/// What the lock of the `spin` crate hands out; it is open again once this is gone.
#[verifier::external_type_specification]
#[verifier::external_body]
#[verifier::reject_recursive_types(T)]
pub struct ExMutexGuard<'a, T: ?Sized + 'a>(MutexGuard<'a, T>);

/// `spin::Mutex::new` puts a value behind a lock. Nothing is claimed of the lock.
#[verifier::external_body]
fn new_lock(volume: Volume) -> (r: Mutex<Volume>) {
    Mutex::new(volume)
}

/// `spin::Mutex::lock` waits until nobody holds the lock, and takes it. What the
/// volume holds then depends on who held the lock before, so nothing is claimed of
/// it.
#[verifier::external_body]
fn lock<'a>(m: &'a Mutex<Volume>) -> (r: MutexGuard<'a, Volume>) {
    m.lock()
}

/// `spin::MutexGuard::deref_mut` gives access to the value behind the lock. What it
/// is depends on who held the lock before, so nothing is claimed of it.
#[verifier::external_body]
fn locked<'a, 'b>(g: &'b mut MutexGuard<'a, Volume>) -> (r: &'b mut Volume) {
    &mut **g
}

/// The operation cannot be carried out on this file system.
#[derive(Clone, Copy, Debug, PartialEq, Eq)]
pub struct Fault;

/// Outcome of looking up a name in volume `v`.
pub open spec fn found(
    dir: Inode,
    v: FsView,
    name: Seq<u8>,
    r: Result<Option<Inode>, Fault>,
) -> bool {
    &&& v.wf()
    &&& match r {
        Ok(inode) => dir.can_find(v, name) && dir.finds(v, name, inode),
        Err(_) => !dir.can_find(v, name),
    }
}

/// Outcome of creating a file, which leads from volume `v` to volume `w`.
pub open spec fn made(
    dir: Inode,
    v: FsView,
    w: FsView,
    name: Seq<u8>,
    r: Result<Option<Inode>, Fault>,
) -> bool {
    &&& v.wf()
    &&& match r {
        Ok(inode) => dir.can_create(v, name) && dir.creates(v, w, name, inode),
        Err(_) => !dir.can_create(v, name) && w == v,
    }
}

/// Outcome of asking for the number of links.
pub open spec fn counted(inode: Inode, v: FsView, r: Result<u32, Fault>) -> bool {
    &&& v.wf()
    &&& match r {
        Ok(n) => inode.stands_in(v) && n == inode.file(v).nlink,
        Err(_) => !inode.stands_in(v),
    }
}

/// Outcome of giving a file a second name.
pub open spec fn joined(
    dir: Inode,
    v: FsView,
    w: FsView,
    old_name: Seq<u8>,
    new_name: Seq<u8>,
    r: Result<isize, Fault>,
) -> bool {
    &&& v.wf()
    &&& match r {
        Ok(n) => dir.can_link(v, old_name, new_name) && dir.links(v, w, old_name, new_name, n),
        Err(_) => !dir.can_link(v, old_name, new_name) && w == v,
    }
}

/// Outcome of deleting a link.
pub open spec fn dropped(
    dir: Inode,
    v: FsView,
    w: FsView,
    name: Seq<u8>,
    r: Result<isize, Fault>,
) -> bool {
    &&& v.wf()
    &&& match r {
        Ok(n) => dir.can_unlink(v, name) && dir.unlinks(v, w, name, n),
        Err(_) => !dir.can_unlink(v, name) && w == v,
    }
}

/// Outcome of listing a directory.
pub open spec fn listed(dir: Inode, v: FsView, r: Result<Vec<String>, Fault>) -> bool {
    &&& v.wf()
    &&& match r {
        Ok(names) => dir.can_list(v) && dir.lists(v, names@),
        Err(_) => !dir.can_list(v),
    }
}

/// Outcome of reading into a buffer.
pub open spec fn filled(
    inode: Inode,
    v: FsView,
    offset: int,
    before: Seq<u8>,
    after: Seq<u8>,
    r: Result<usize, Fault>,
) -> bool {
    let possible = inode.stands_in(v) && offset + before.len() <= usize::MAX;
    &&& v.wf()
    &&& match r {
        Ok(n) => {
            let data = bytes_read(inode.content(v), offset, before.len() as int);
            possible && n == data.len() && after == splice(before, 0, data)
        },
        Err(_) => !possible && after == before,
    }
}

/// Outcome of writing bytes.
pub open spec fn stored(
    inode: Inode,
    v: FsView,
    w: FsView,
    offset: int,
    d: Seq<u8>,
    r: Result<usize, Fault>,
) -> bool {
    let possible = inode.stands_in(v) && has_room(v, inode.slot(v), offset + d.len());
    &&& v.wf()
    &&& match r {
        Ok(n) => {
            &&& possible
            &&& n == d.len()
            &&& w == synced(write_file(v, inode.slot(v), offset, d))
        },
        Err(_) => !possible && w == v,
    }
}

/// Outcome of making a file empty.
pub open spec fn emptied(inode: Inode, v: FsView, w: FsView, r: Result<(), Fault>) -> bool {
    &&& v.wf()
    &&& match r {
        Ok(_) => inode.stands_in(v) && w == synced(cleared(v, inode.slot(v))),
        Err(_) => !inode.stands_in(v) && w == v,
    }
}

/// Outcome of asking what an inode is.
pub open spec fn described(inode: Inode, v: FsView, r: Result<(u32, bool, u64), Fault>) -> bool {
    &&& v.wf()
    &&& match r {
        Ok((nlink, dir, id)) => {
            &&& inode.stands_in(v)
            &&& nlink == inode.file(v).nlink
            &&& dir == (inode.file(v).kind == DiskInodeType::Directory)
            &&& id == inode.inode_id()
        },
        Err(_) => !inode.stands_in(v),
    }
}

/// A well-formed file system.
pub struct Volume {
    fs: EasyFileSystem,
}

impl View for Volume {
    type V = FsView;

    closed spec fn view(&self) -> FsView {
        self.fs@
    }
}

impl Volume {
    #[verifier::type_invariant]
    spec fn well_formed(&self) -> bool {
        self.fs.inv()
    }

    /// The volume of a file system.
    pub fn new(fs: EasyFileSystem) -> (r: Volume)
        requires
            fs.inv(),
        ensures
            r@ == fs@,
    {
        Volume { fs }
    }

    /// The file system of the volume.
    pub fn file_system(&self) -> (r: &EasyFileSystem)
        ensures
            r.inv(),
            r@ == self@,
    {
        proof {
            use_type_invariant(self);
        }
        &self.fs
    }

    /// Takes the file system out.
    fn take(&mut self) -> (r: EasyFileSystem)
        ensures
            r.inv(),
            r@ == old(self)@,
    {
        proof {
            use_type_invariant(&*self);
        }
        let mut fs = EasyFileSystem::new(0, 1, 0, 0);
        std::mem::swap(&mut fs, &mut self.fs);
        fs
    }

    /// Looks up a name in a directory.
    pub fn find(&self, dir: &Inode, name: &str) -> (r: Result<Option<Inode>, Fault>)
        ensures
            found(*dir, self@, text_bytes(name), r),
    {
        proof {
            use_type_invariant(self);
            self.fs.lemma_inv();
        }
        if dir.check_find(&self.fs, name) {
            Ok(dir.find(&self.fs, name))
        } else {
            Err(Fault)
        }
    }

    /// Creates a file in a directory, unless the name is taken.
    pub fn create(&mut self, dir: &Inode, name: &str) -> (r: Result<Option<Inode>, Fault>)
        ensures
            made(*dir, old(self)@, final(self)@, text_bytes(name), r),
    {
        let mut fs = self.take();
        proof {
            fs.lemma_inv();
        }
        let r = if dir.check_create(&fs, name) {
            Ok(dir.create(&mut fs, name))
        } else {
            Err(Fault)
        };
        self.fs = fs;
        r
    }

    /// Number of links of an inode.
    pub fn nlinks(&self, inode: &Inode) -> (r: Result<u32, Fault>)
        ensures
            counted(*inode, self@, r),
    {
        proof {
            use_type_invariant(self);
            self.fs.lemma_inv();
        }
        if inode.check_place(&self.fs) {
            Ok(inode.nlinks(&self.fs))
        } else {
            Err(Fault)
        }
    }

    /// Gives a file a second name in a directory.
    pub fn link_at(&mut self, dir: &Inode, old_name: &str, new_name: &str) -> (r: Result<
        isize,
        Fault,
    >)
        ensures
            joined(
                *dir,
                old(self)@,
                final(self)@,
                text_bytes(old_name),
                text_bytes(new_name),
                r,
            ),
    {
        let mut fs = self.take();
        proof {
            fs.lemma_inv();
        }
        let r = if dir.check_link(&fs, old_name, new_name) {
            Ok(dir.link_at(&mut fs, old_name, new_name))
        } else {
            Err(Fault)
        };
        self.fs = fs;
        r
    }

    /// Deletes the link that a name is.
    pub fn unlink_at(&mut self, dir: &Inode, name: &str) -> (r: Result<isize, Fault>)
        ensures
            dropped(*dir, old(self)@, final(self)@, text_bytes(name), r),
    {
        let mut fs = self.take();
        proof {
            fs.lemma_inv();
        }
        let r = if dir.check_unlink(&fs, name) {
            Ok(dir.unlink_at(&mut fs, name))
        } else {
            Err(Fault)
        };
        self.fs = fs;
        r
    }

    /// The names in a directory, in order.
    pub fn ls(&self, dir: &Inode) -> (r: Result<Vec<String>, Fault>)
        ensures
            listed(*dir, self@, r),
    {
        proof {
            use_type_invariant(self);
            self.fs.lemma_inv();
        }
        if dir.check_list(&self.fs) {
            Ok(dir.ls(&self.fs))
        } else {
            Err(Fault)
        }
    }

    /// Reads bytes from position `offset` on into `buf`.
    pub fn read_at(&self, inode: &Inode, offset: usize, buf: &mut [u8]) -> (r: Result<
        usize,
        Fault,
    >)
        ensures
            filled(*inode, self@, offset as int, old(buf)@, final(buf)@, r),
    {
        proof {
            use_type_invariant(self);
            self.fs.lemma_inv();
        }
        if inode.check_place(&self.fs) && offset <= usize::MAX - buf.len() {
            Ok(inode.read_at(&self.fs, offset, buf))
        } else {
            Err(Fault)
        }
    }

    /// Writes bytes from position `offset` on.
    pub fn write_at(&mut self, inode: &Inode, offset: usize, buf: &[u8]) -> (r: Result<
        usize,
        Fault,
    >)
        ensures
            stored(*inode, old(self)@, final(self)@, offset as int, buf@, r),
    {
        let mut fs = self.take();
        proof {
            fs.lemma_inv();
        }
        let r = if inode.check_place(&fs) && offset <= usize::MAX - buf.len() && fs.room_for(
            inode.disk_inode(&fs),
            offset + buf.len(),
        ) {
            Ok(inode.write_at(&mut fs, offset, buf))
        } else {
            Err(Fault)
        };
        self.fs = fs;
        r
    }

    /// Makes a file empty and gives its blocks back.
    pub fn clear(&mut self, inode: &Inode) -> (r: Result<(), Fault>)
        ensures
            emptied(*inode, old(self)@, final(self)@, r),
    {
        let mut fs = self.take();
        proof {
            fs.lemma_inv();
        }
        let r = if inode.check_place(&fs) {
            inode.clear(&mut fs);
            Ok(())
        } else {
            Err(Fault)
        };
        self.fs = fs;
        r
    }

    /// Number of links of an inode, whether it is a directory, and its number.
    pub fn stat(&self, inode: &Inode) -> (r: Result<(u32, bool, u64), Fault>)
        ensures
            described(*inode, self@, r),
    {
        proof {
            use_type_invariant(self);
            self.fs.lemma_inv();
        }
        if inode.check_place(&self.fs) {
            Ok(inode.stat(&self.fs))
        } else {
            Err(Fault)
        }
    }
}

/// An inode of a volume that is shared.
pub struct SharedInode {
    inode: Inode,
    volume: Arc<Mutex<Volume>>,
}

/// The inode in the outcome of opening one.
pub open spec fn opened(r: Result<Option<SharedInode>, Fault>) -> Result<Option<Inode>, Fault> {
    match r {
        Ok(Some(shared)) => Ok(Some(shared.inode())),
        Ok(None) => Ok(None),
        Err(fault) => Err(fault),
    }
}

impl SharedInode {
    /// The inode.
    pub closed spec fn inode(&self) -> Inode {
        self.inode
    }

    /// The lock that the volume is behind.
    pub closed spec fn volume_lock(&self) -> Mutex<Volume> {
        *self.volume
    }

    /// An inode of a volume, with a lock of its own.
    pub fn new(inode: Inode, volume: Volume) -> (r: SharedInode)
        ensures
            r.inode() == inode,
    {
        SharedInode { inode, volume: Arc::new(new_lock(volume)) }
    }

    /// Another inode of the same volume, behind the same lock.
    pub fn beside(&self, inode: Inode) -> (r: SharedInode)
        ensures
            r.inode() == inode,
            r.volume_lock() == self.volume_lock(),
    {
        SharedInode { inode, volume: Arc::clone(&self.volume) }
    }

    /// The inode that was found or made, in the same volume.
    fn open(&self, r: Result<Option<Inode>, Fault>) -> (shared: Result<
        Option<SharedInode>,
        Fault,
    >)
        ensures
            opened(shared) == r,
            shared matches Ok(Some(inode)) ==> inode.volume_lock() == self.volume_lock(),
    {
        match r {
            Ok(Some(inode)) => Ok(Some(self.beside(inode))),
            Ok(None) => Ok(None),
            Err(fault) => Err(fault),
        }
    }

    /// Looks up a name in a directory, in the volume as it is once the lock is taken.
    pub fn find(&self, name: &str) -> (r: Result<Option<SharedInode>, Fault>)
        ensures
            exists|v: FsView| #[trigger] found(self.inode(), v, text_bytes(name), opened(r)),
            r matches Ok(Some(inode)) ==> inode.volume_lock() == self.volume_lock(),
    {
        let mut guard = lock(&self.volume);
        let volume = locked(&mut guard);
        let ghost v = volume@;
        let r = self.open(volume.find(&self.inode, name));
        assert(found(self.inode(), v, text_bytes(name), opened(r)));
        r
    }

    /// Creates a file in a directory, unless the name is taken in the volume as it
    /// is once the lock is taken.
    pub fn create(&self, name: &str) -> (r: Result<Option<SharedInode>, Fault>)
        ensures
            exists|v: FsView, w: FsView| #[trigger]
                made(self.inode(), v, w, text_bytes(name), opened(r)),
            r matches Ok(Some(inode)) ==> inode.volume_lock() == self.volume_lock(),
    {
        let mut guard = lock(&self.volume);
        let volume = locked(&mut guard);
        let ghost v = volume@;
        let r = self.open(volume.create(&self.inode, name));
        assert(made(self.inode(), v, volume@, text_bytes(name), opened(r)));
        r
    }

    /// Number of links, in the volume as it is once the lock is taken.
    pub fn nlinks(&self) -> (r: Result<u32, Fault>)
        ensures
            exists|v: FsView| #[trigger] counted(self.inode(), v, r),
    {
        let mut guard = lock(&self.volume);
        let volume = locked(&mut guard);
        let ghost v = volume@;
        let r = volume.nlinks(&self.inode);
        assert(counted(self.inode(), v, r));
        r
    }

    /// Gives a file a second name, in the volume as it is once the lock is taken.
    pub fn link_at(&self, old_name: &str, new_name: &str) -> (r: Result<isize, Fault>)
        ensures
            exists|v: FsView, w: FsView| #[trigger]
                joined(self.inode(), v, w, text_bytes(old_name), text_bytes(new_name), r),
    {
        let mut guard = lock(&self.volume);
        let volume = locked(&mut guard);
        let ghost v = volume@;
        let r = volume.link_at(&self.inode, old_name, new_name);
        assert(joined(self.inode(), v, volume@, text_bytes(old_name), text_bytes(new_name), r));
        r
    }

    /// Deletes the link that a name is, in the volume as it is once the lock is
    /// taken.
    pub fn unlink_at(&self, name: &str) -> (r: Result<isize, Fault>)
        ensures
            exists|v: FsView, w: FsView| #[trigger]
                dropped(self.inode(), v, w, text_bytes(name), r),
    {
        let mut guard = lock(&self.volume);
        let volume = locked(&mut guard);
        let ghost v = volume@;
        let r = volume.unlink_at(&self.inode, name);
        assert(dropped(self.inode(), v, volume@, text_bytes(name), r));
        r
    }

    /// The names in a directory, in the volume as it is once the lock is taken.
    pub fn ls(&self) -> (r: Result<Vec<String>, Fault>)
        ensures
            exists|v: FsView| #[trigger] listed(self.inode(), v, r),
    {
        let mut guard = lock(&self.volume);
        let volume = locked(&mut guard);
        let ghost v = volume@;
        let r = volume.ls(&self.inode);
        assert(listed(self.inode(), v, r));
        r
    }

    /// Reads bytes, in the volume as it is once the lock is taken.
    pub fn read_at(&self, offset: usize, buf: &mut [u8]) -> (r: Result<usize, Fault>)
        ensures
            exists|v: FsView| #[trigger]
                filled(self.inode(), v, offset as int, old(buf)@, final(buf)@, r),
    {
        let mut guard = lock(&self.volume);
        let volume = locked(&mut guard);
        let ghost v = volume@;
        let r = volume.read_at(&self.inode, offset, buf);
        assert(filled(self.inode(), v, offset as int, old(buf)@, buf@, r));
        r
    }

    /// Writes bytes, in the volume as it is once the lock is taken.
    pub fn write_at(&self, offset: usize, buf: &[u8]) -> (r: Result<usize, Fault>)
        ensures
            exists|v: FsView, w: FsView| #[trigger]
                stored(self.inode(), v, w, offset as int, buf@, r),
    {
        let mut guard = lock(&self.volume);
        let volume = locked(&mut guard);
        let ghost v = volume@;
        let r = volume.write_at(&self.inode, offset, buf);
        assert(stored(self.inode(), v, volume@, offset as int, buf@, r));
        r
    }

    /// Makes a file empty, in the volume as it is once the lock is taken.
    pub fn clear(&self) -> (r: Result<(), Fault>)
        ensures
            exists|v: FsView, w: FsView| #[trigger] emptied(self.inode(), v, w, r),
    {
        let mut guard = lock(&self.volume);
        let volume = locked(&mut guard);
        let ghost v = volume@;
        let r = volume.clear(&self.inode);
        assert(emptied(self.inode(), v, volume@, r));
        r
    }

    /// Number of links, whether it is a directory, and its number, in the volume as
    /// it is once the lock is taken.
    pub fn stat(&self) -> (r: Result<(u32, bool, u64), Fault>)
        ensures
            exists|v: FsView| #[trigger] described(self.inode(), v, r),
    {
        let mut guard = lock(&self.volume);
        let volume = locked(&mut guard);
        let ghost v = volume@;
        let r = volume.stat(&self.inode);
        assert(described(self.inode(), v, r));
        r
    }
}

} // verus!
