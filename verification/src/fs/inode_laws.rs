//! What each operation on an inode answers, and when it can be carried out.
use crate::fs::dir::{entry_at, entry_count, readable};
use crate::fs::efs::{DiskInodeType, FsView};
use crate::fs::file_laws::{law_first_free_inode, law_room_for_a_size};
use crate::fs::layout::{blocks_of_size, entry_inode, entry_name, entry_ok};
use crate::fs::name_laws::law_name_leads_to_its_entry;
use crate::fs::vfs::{
    bytes_read, can_append, cleared, created, linked, new_file, synced, unlinked, write_file, Inode,
};
use crate::fs::volume::{
    counted, described, dropped, emptied, filled, found, joined, listed, made, opened, stored, Fault,
    SharedInode,
};
use vstd::prelude::*;
use vstd::utf8::decode_utf8;

verus! {

/// Entry `k` of a directory is the first with the name, or else, where `k` is the number of
/// entries, no entry has it.
pub open spec fn first_named(c: Seq<u8>, name: Seq<u8>, k: int) -> bool {
    &&& 0 <= k <= c.len() as int / 32
    &&& k < c.len() as int / 32 ==> entry_name(entry_at(c, k)) == name
    &&& forall|j: int| 0 <= j < k ==> entry_name(#[trigger] entry_at(c, j)) != name
}

/// Finding a name gives an inode where an entry has the name: with the number in the first
/// such entry, at the place of that number.
pub proof fn law_find_answers(dir: Inode, v: FsView, name: Seq<u8>, k: int, r: Option<Inode>)
    requires
        first_named(dir.content(v), name, k),
        dir.finds(v, name, r),
    ensures
        r is Some == (k < dir.content(v).len() as int / 32),
        r matches Some(x) ==> {
            let id = entry_inode(entry_at(dir.content(v), k));
            &&& x.inode_id() == id
            &&& x.block_id() == v.inode_start + id as int / 4
            &&& x.block_offset() == id as int % 4 * 128
        },
{
    law_name_leads_to_its_entry(dir.content(v), name, k);
}

/// Creating a file answers with its inode, the first one that is not in use, at its place,
/// unless an entry has the name; then nothing changes.
pub proof fn law_create_answers(
    dir: Inode,
    v: FsView,
    w: FsView,
    name: Seq<u8>,
    k: int,
    id: int,
    r: Option<Inode>,
)
    requires
        first_named(dir.content(v), name, k),
        0 <= id < v.used.len() <= u32::MAX,
        !v.used[id],
        forall|j: int| 0 <= j < id ==> #[trigger] v.used[j],
        dir.creates(v, w, name, r),
    ensures
        r is None == (k < dir.content(v).len() as int / 32),
        r is None ==> w == v,
        r matches Some(x) ==> {
            &&& x.inode_id() == id
            &&& x.block_id() == v.inode_start + id / 4
            &&& x.block_offset() == id % 4 * 128
            &&& w == created(v, dir.slot(v), name)
        },
{
    law_name_leads_to_its_entry(dir.content(v), name, k);
    law_first_free_inode(v.used, id);
}

/// Giving a file a second name answers 0 where an entry has the old name and none has the
/// new one, and then links the file in the first entry with the old name; else it answers
/// -1 and changes nothing.
pub proof fn law_link_answers(
    dir: Inode,
    v: FsView,
    w: FsView,
    old_name: Seq<u8>,
    new_name: Seq<u8>,
    i: int,
    j: int,
    r: isize,
)
    requires
        first_named(dir.content(v), old_name, i),
        first_named(dir.content(v), new_name, j),
        dir.links(v, w, old_name, new_name, r),
    ensures
        ({
            let n = dir.content(v).len() as int / 32;
            if i < n && j == n {
                r == 0 && w == linked(
                    v,
                    dir.slot(v),
                    entry_inode(entry_at(dir.content(v), i)),
                    new_name,
                )
            } else {
                r == -1 && w == v
            }
        }),
{
    law_name_leads_to_its_entry(dir.content(v), old_name, i);
    law_name_leads_to_its_entry(dir.content(v), new_name, j);
}

/// Unlinking a name answers 0 where an entry has it, and then unlinks the first such entry;
/// else it answers -1 and changes nothing.
pub proof fn law_unlink_answers(
    dir: Inode,
    v: FsView,
    w: FsView,
    name: Seq<u8>,
    k: int,
    r: isize,
)
    requires
        first_named(dir.content(v), name, k),
        dir.unlinks(v, w, name, r),
    ensures
        if k < dir.content(v).len() as int / 32 {
            r == 0 && w == unlinked(
                v,
                dir.slot(v),
                k,
                entry_inode(entry_at(dir.content(v), k)) as int,
            )
        } else {
            r == -1 && w == v
        },
{
    law_name_leads_to_its_entry(dir.content(v), name, k);
}

/// Listing a directory gives the names of all its entries, in order.
pub proof fn law_list_answers(dir: Inode, v: FsView, r: Seq<String>, i: int)
    requires
        dir.lists(v, r),
        0 <= i < dir.content(v).len() as int / 32,
    ensures
        r.len() == dir.content(v).len() as int / 32,
        r[i]@ == decode_utf8(entry_name(entry_at(dir.content(v), i))),
{
}

/// A directory can be listed where it is a directory of the file system and all its entries
/// can be read.
pub proof fn law_when_it_can_be_listed(dir: Inode, v: FsView)
    ensures
        dir.can_list(v) == {
            &&& dir.stands_in(v)
            &&& dir.file(v).kind == DiskInodeType::Directory
            &&& forall|i: int|
                0 <= i < dir.content(v).len() as int / 32 ==> entry_ok(
                    #[trigger] entry_at(dir.content(v), i),
                )
        },
{
    let c = dir.content(v);
    assert(readable(c, entry_count(c)) == (forall|i: int|
        0 <= i < c.len() as int / 32 ==> entry_ok(#[trigger] entry_at(c, i))));
}

/// A name can be searched for, and found, where the inode is that of a directory, the
/// entries up to the one with the name can be read, and the number in it has a place.
pub proof fn law_when_it_can_be_found(dir: Inode, v: FsView, name: Seq<u8>, k: int)
    requires
        first_named(dir.content(v), name, k),
    ensures
        dir.can_search(v, name) == {
            &&& dir.stands_in(v)
            &&& dir.file(v).kind == DiskInodeType::Directory
            &&& forall|i: int|
                0 <= i <= k && i < dir.content(v).len() as int / 32 ==> entry_ok(
                    #[trigger] entry_at(dir.content(v), i),
                )
        },
        dir.can_find(v, name) == {
            &&& dir.can_search(v, name)
            &&& k < dir.content(v).len() as int / 32 ==> v.inode_start + entry_inode(
                entry_at(dir.content(v), k),
            ) as int / 4 <= u32::MAX
        },
{
    law_name_leads_to_its_entry(dir.content(v), name, k);
}

/// There is room for one more entry where the directory with it is not beyond the largest
/// size and the blocks that it does not have yet are free.
pub proof fn law_room_for_an_entry(v: FsView, k: int)
    requires
        v.wf(),
        0 <= k < v.files.len(),
    ensures
        can_append(v, k) == {
            let size = 32 * (v.files[k].size as int / 32) + 32;
            &&& size <= 8_467_968
            &&& blocks_of_size(size) - blocks_of_size(v.files[k].size as int) <= v.free_blocks
        },
{
    law_room_for_a_size(v, k, 32 * (v.files[k].size as int / 32) + 32);
}

/// A file can be created where the name can be searched for and, unless an entry has it, it
/// has at most 27 bytes, an inode is not in use and there is room for one more entry.
pub proof fn law_when_it_can_be_created(dir: Inode, v: FsView, name: Seq<u8>, k: int, id: int)
    requires
        v.wf(),
        dir.stands_in(v),
        v.used[dir.slot(v)],
        first_named(dir.content(v), name, k),
        0 <= id <= v.used.len(),
        id < v.used.len() ==> !v.used[id],
        forall|j: int| 0 <= j < id ==> #[trigger] v.used[j],
    ensures
        dir.can_create(v, name) == {
            &&& dir.can_search(v, name)
            &&& k == dir.content(v).len() as int / 32 ==> {
                &&& id < v.used.len()
                &&& name.len() <= 27
                &&& can_append(v, dir.slot(v))
            }
        },
{
    law_name_leads_to_its_entry(dir.content(v), name, k);
    law_first_free_inode(v.used, id);
    let s = dir.slot(v);
    if id < v.used.len() {
        assert(0 <= s < v.files.len());
        assert(new_file(v).files[s] == v.files[s]);
    }
}

/// A file can get a second name where both names can be searched for and, if an entry has
/// the old one and none the new one, the file exists, can have one more link, the new name
/// has at most 27 bytes and there is room for one more entry.
pub proof fn law_when_it_can_be_linked(
    dir: Inode,
    v: FsView,
    old_name: Seq<u8>,
    new_name: Seq<u8>,
    i: int,
    j: int,
)
    requires
        first_named(dir.content(v), old_name, i),
        first_named(dir.content(v), new_name, j),
    ensures
        dir.can_link(v, old_name, new_name) == {
            let n = dir.content(v).len() as int / 32;
            let id = entry_inode(entry_at(dir.content(v), i));
            &&& dir.can_search(v, old_name)
            &&& dir.can_search(v, new_name)
            &&& i < n && j == n ==> {
                &&& id < v.files.len()
                &&& v.files[id as int].nlink < 0xffff_ffff
                &&& new_name.len() <= 27
                &&& can_append(v, dir.slot(v))
            }
        },
{
    law_name_leads_to_its_entry(dir.content(v), old_name, i);
    law_name_leads_to_its_entry(dir.content(v), new_name, j);
}

/// A name can be unlinked where it can be searched for and, if an entry has it, the file
/// exists and has a link, which must not be the last one of the directory itself.
pub proof fn law_when_it_can_be_unlinked(dir: Inode, v: FsView, name: Seq<u8>, k: int)
    requires
        first_named(dir.content(v), name, k),
    ensures
        dir.can_unlink(v, name) == {
            let id = entry_inode(entry_at(dir.content(v), k));
            &&& dir.can_search(v, name)
            &&& k < dir.content(v).len() as int / 32 ==> {
                &&& id < v.files.len()
                &&& v.files[id as int].nlink > 0
                &&& id == dir.slot(v) ==> v.files[id as int].nlink > 1
            }
        },
{
    law_name_leads_to_its_entry(dir.content(v), name, k);
}

/// A volume carries out an operation exactly where it can be carried out, with the outcome
/// that it has on the file system; else it answers that it cannot and changes nothing.
pub proof fn law_volume_names(
    dir: Inode,
    v: FsView,
    w: FsView,
    name: Seq<u8>,
    other: Seq<u8>,
    a: Result<Option<Inode>, Fault>,
    b: Result<Option<Inode>, Fault>,
    c: Result<isize, Fault>,
    d: Result<isize, Fault>,
    e: Result<Vec<String>, Fault>,
)
    ensures
        found(dir, v, name, a) ==> {
            &&& a is Ok == dir.can_find(v, name)
            &&& a matches Ok(x) ==> dir.finds(v, name, x)
        },
        made(dir, v, w, name, b) ==> {
            &&& b is Ok == dir.can_create(v, name)
            &&& b matches Ok(x) ==> dir.creates(v, w, name, x)
            &&& b is Err ==> w == v
        },
        joined(dir, v, w, name, other, c) ==> {
            &&& c is Ok == dir.can_link(v, name, other)
            &&& c matches Ok(x) ==> dir.links(v, w, name, other, x)
            &&& c is Err ==> w == v
        },
        dropped(dir, v, w, name, d) ==> {
            &&& d is Ok == dir.can_unlink(v, name)
            &&& d matches Ok(x) ==> dir.unlinks(v, w, name, x)
            &&& d is Err ==> w == v
        },
        listed(dir, v, e) ==> {
            &&& e is Ok == dir.can_list(v)
            &&& e matches Ok(x) ==> dir.lists(v, x@)
        },
{
}

/// A volume reads, writes, clears and describes a file exactly where the inode is one of
/// the file system, and, to write, where there is room; else it answers that it cannot and
/// changes nothing. A read fills the front of the buffer with the bytes from the offset on
/// and leaves the rest of it alone.
#[verifier::spinoff_prover]
pub proof fn law_volume_bytes(
    inode: Inode,
    v: FsView,
    w: FsView,
    offset: int,
    before: Seq<u8>,
    after: Seq<u8>,
    data: Seq<u8>,
    a: Result<usize, Fault>,
    b: Result<usize, Fault>,
    c: Result<(), Fault>,
    d: Result<u32, Fault>,
    e: Result<(u32, bool, u64), Fault>,
    i: int,
)
    requires
        v.wf(),
        0 <= offset,
        0 <= i < before.len(),
    ensures
        filled(inode, v, offset, before, after, a) ==> {
            let r = bytes_read(inode.content(v), offset, before.len() as int);
            &&& a is Ok == (inode.stands_in(v) && offset + before.len() <= usize::MAX)
            &&& a is Err ==> after == before
            &&& a matches Ok(n) ==> {
                &&& n == r.len()
                &&& after.len() == before.len()
                &&& i < n ==> after[i] == r[i]
                &&& i >= n ==> after[i] == before[i]
            }
        },
        stored(inode, v, w, offset, data, b) ==> {
            let size = offset + data.len();
            let f = inode.file(v);
            &&& b is Ok == (inode.stands_in(v) && size <= 8_467_968 && (size < f.size
                || blocks_of_size(size) - blocks_of_size(f.size as int) <= v.free_blocks))
            &&& b is Err ==> w == v
            &&& b matches Ok(n) ==> n == data.len() && w == synced(
                write_file(v, inode.slot(v), offset, data),
            )
        },
        emptied(inode, v, w, c) ==> {
            &&& c is Ok == inode.stands_in(v)
            &&& c is Err ==> w == v
            &&& c is Ok ==> w == synced(cleared(v, inode.slot(v)))
        },
        counted(inode, v, d) ==> {
            &&& d is Ok == inode.stands_in(v)
            &&& d matches Ok(n) ==> n == v.files[inode.slot(v)].nlink
        },
        described(inode, v, e) ==> {
            &&& e is Ok == inode.stands_in(v)
            &&& e matches Ok(x) ==> {
                &&& x.0 == v.files[inode.slot(v)].nlink
                &&& x.1 == (v.files[inode.slot(v)].kind == DiskInodeType::Directory)
                &&& x.2 == inode.inode_id()
            }
        },
{
    if inode.stands_in(v) {
        law_room_for_a_size(v, inode.slot(v), offset + data.len());
    }
    let r = bytes_read(inode.content(v), offset, before.len() as int);
    assert(r.len() <= before.len());
}

/// An inode that was opened is the one that was found or made; what was not found or could
/// not be done stays that.
pub proof fn law_opening_keeps_the_inode(r: Result<Option<SharedInode>, Fault>)
    ensures
        opened(r) is Ok == r is Ok,
        r matches Ok(None) ==> opened(r) == Ok::<Option<Inode>, Fault>(None),
        r matches Ok(Some(s)) ==> opened(r) == Ok::<Option<Inode>, Fault>(Some(s.inode())),
{
}

} // verus!
