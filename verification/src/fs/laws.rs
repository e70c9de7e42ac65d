//! What holds of sequences of file system operations.
use crate::fs::dir::{
    entry_at, entry_count, find_entry, has_entry, lemma_appended, lemma_find_from,
    lemma_found_at, lemma_removed, lookup_name, names_differ, readable,
};
use crate::fs::efs::{first_free, DiskInodeType, FileView, FsView};
use crate::fs::layout::{
    blocks_of_size, data_blocks, entry_bytes, entry_name, lemma_blocks_of_size, lemma_entry_bytes,
    NAME_LENGTH_LIMIT,
};
use crate::fs::vfs::{
    add_link, append_entry, bytes_read, can_append, cleared, created, entries, has_room, linked,
    new_file, release_link, synced, unlinked, write_file, Inode,
};
use vstd::prelude::*;
use vstd::utf8::valid_utf8;

verus! {

/// A name that an entry can hold: short enough, text, and without a 0.
pub open spec fn is_name(name: Seq<u8>) -> bool {
    &&& name.len() <= NAME_LENGTH_LIMIT
    &&& valid_utf8(name)
    &&& forall|i: int| 0 <= i < name.len() ==> name[i] != 0
}

/// The contents of file `k`.
pub open spec fn content(v: FsView, k: int) -> Seq<u8> {
    v.files[k].content()
}

/// What a directory holds after an entry was added.
pub proof fn lemma_append_content(v: FsView, k: int, e: Seq<u8>)
    requires
        v.wf(),
        0 <= k < v.files.len(),
        can_append(v, k),
        e.len() == 32,
    ensures
        ({
            let c = content(v, k);
            let d = content(append_entry(v, k, e), k);
            &&& entry_count(c) == entries(v, k)
            &&& d.len() == 32 * (entry_count(c) + 1)
            &&& forall|p: int| 0 <= p < 32 * entry_count(c) ==> d[p] == c[p]
            &&& forall|p: int| 0 <= p < 32 ==> d[32 * entry_count(c) + p] == #[trigger] e[p]
        }),
{
    let f = v.files[k];
    assert(f.wf());
    let n = entries(v, k);
    let size = 32 * n + 32;
    lemma_blocks_of_size(f.size as int, size);
    lemma_blocks_of_size(0, f.size as int);
    assert(f.size < size);
    let g = f.grown(size as u32);
    assert(g.backing.len() == data_blocks(size) * 512);
    assert(forall|p: int| 0 <= p < f.backing.len() ==> g.backing[p] == f.backing[p]);
}

/// After a file was created, its name leads to it, and it is empty and has one
/// link. Every other name leads where it led, the entries before it are those that
/// were there, and no other file has changed.
pub proof fn law_create_then_find(v: FsView, k: int, name: Seq<u8>)
    requires
        v.wf(),
        0 <= k < v.files.len(),
        v.used[k],
        first_free(v.used, 0) < v.used.len(),
        can_append(v, k),
        is_name(name),
        !has_entry(content(v, k), name),
    ensures
        ({
            let id = first_free(v.used, 0);
            let w = created(v, k, name);
            let c = content(v, k);
            let d = content(w, k);
            &&& id != k
            &&& lookup_name(d, name) == Some(id as u32)
            &&& find_entry(d, name) == entry_count(c)
            &&& forall|other: Seq<u8>|
                other != name ==> #[trigger] lookup_name(d, other) == lookup_name(c, other)
            &&& entry_count(d) == entry_count(c) + 1
            &&& forall|i: int|
                0 <= i < entry_count(c) ==> #[trigger] entry_at(d, i) == entry_at(c, i)
            &&& entry_name(entry_at(d, entry_count(c))) == name
            &&& names_differ(c) ==> names_differ(d)
            &&& readable(c, entry_count(c)) ==> readable(d, entry_count(d))
            &&& w.files[id].kind == DiskInodeType::File
            &&& w.files[id].nlink == 1
            &&& content(w, id).len() == 0
            &&& w.used == v.used.update(id, true)
            &&& forall|l: int|
                0 <= l < v.files.len() && l != k && l != id ==> #[trigger] w.files[l] == v.files[l]
            &&& !w.modified
        }),
{
    lemma_first_free_unset(v.used, 0);
    let id = first_free(v.used, 0);
    let u = new_file(v);
    let e = entry_bytes(name, id as u32);
    lemma_entry_bytes(name, id as u32);
    assert(u.wf()) by {
        assert forall|l: int| 0 <= l < u.files.len() implies (#[trigger] u.files[l]).wf() by {
            if l != id {
                assert(u.files[l] == v.files[l]);
                assert(v.files[l].wf());
            }
        }
    }
    assert(u.files[k] == v.files[k]);
    lemma_append_content(u, k, e);
    lemma_appended(content(v, k), content(created(v, k, name), k), e);
}

/// The first mark that is not set is not set.
pub proof fn lemma_first_free_unset(s: Seq<bool>, i: int)
    requires
        0 <= i <= s.len(),
    ensures
        i <= first_free(s, i) <= s.len(),
        first_free(s, i) < s.len() ==> !s[first_free(s, i)],
    decreases s.len() - i,
{
    if i < s.len() && s[i] {
        lemma_first_free_unset(s, i + 1);
    }
}

/// After a file got a second name, both names lead to it and it has one link more.
/// Every other name leads where it led, the entries before the new one are those that
/// were there, the file has the contents that it had, and no file but it and the
/// directory has changed.
pub proof fn law_link_then_find(v: FsView, k: int, id: u32, old_name: Seq<u8>, new_name: Seq<u8>)
    requires
        v.wf(),
        0 <= k < v.files.len(),
        id < v.files.len(),
        lookup_name(content(v, k), old_name) == Some(id),
        v.files[id as int].nlink < u32::MAX,
        can_append(v, k),
        is_name(new_name),
        !has_entry(content(v, k), new_name),
    ensures
        ({
            let w = linked(v, k, id, new_name);
            let c = content(v, k);
            let d = content(w, k);
            &&& lookup_name(d, new_name) == Some(id)
            &&& lookup_name(d, old_name) == Some(id)
            &&& find_entry(d, new_name) == entry_count(c)
            &&& forall|other: Seq<u8>|
                other != new_name ==> #[trigger] lookup_name(d, other) == lookup_name(c, other)
            &&& entry_count(d) == entry_count(c) + 1
            &&& forall|i: int|
                0 <= i < entry_count(c) ==> #[trigger] entry_at(d, i) == entry_at(c, i)
            &&& names_differ(c) ==> names_differ(d)
            &&& readable(c, entry_count(c)) ==> readable(d, entry_count(d))
            &&& w.files[id as int].nlink == v.files[id as int].nlink + 1
            &&& id != k ==> content(w, id as int) == content(v, id as int)
            &&& w.used == v.used
            &&& forall|l: int|
                0 <= l < v.files.len() && l != k && l != id ==> #[trigger] w.files[l] == v.files[l]
            &&& !w.modified
        }),
{
    let u = add_link(v, id as int);
    let e = entry_bytes(new_name, id);
    lemma_entry_bytes(new_name, id);
    assert(u.wf()) by {
        assert forall|l: int| 0 <= l < u.files.len() implies (#[trigger] u.files[l]).wf() by {
            assert(v.files[l].wf());
        }
    }
    assert(content(u, k) == content(v, k));
    lemma_append_content(u, k, e);
    let d = content(linked(v, k, id, new_name), k);
    lemma_appended(content(v, k), d, e);
    lemma_find_from(content(v, k), old_name, 0);
    assert(old_name != new_name);
    assert(lookup_name(d, old_name) == lookup_name(content(v, k), old_name));
}

/// Unlinking a name removes it, and takes a link off the file. Where no name occurs
/// twice, every other name leads where it led and still no name occurs twice. With the
/// last link the file goes: the inode is free and its blocks are given back. With links
/// left the file stays as it is but for their number. The directory gives back the
/// blocks that it no longer needs, and no file but these two has changed.
pub proof fn law_unlink_removes_name(v: FsView, k: int, id: u32, name: Seq<u8>)
    requires
        v.wf(),
        0 <= k < v.files.len(),
        id < v.files.len(),
        lookup_name(content(v, k), name) == Some(id),
        v.files[id as int].nlink >= 1,
        id == k ==> v.files[id as int].nlink > 1,
        names_differ(content(v, k)),
    ensures
        ({
            let w = unlinked(v, k, find_entry(content(v, k), name), id as int);
            let c = content(v, k);
            let d = content(w, k);
            let f = v.files[id as int];
            let given_back = blocks_of_size(c.len() as int) - blocks_of_size(d.len() as int);
            &&& lookup_name(d, name) is None
            &&& forall|other: Seq<u8>|
                other != name ==> #[trigger] lookup_name(d, other) == lookup_name(c, other)
            &&& entry_count(d) == entry_count(c) - 1
            &&& names_differ(d)
            &&& readable(c, entry_count(c)) ==> readable(d, entry_count(d))
            &&& w.files[id as int].nlink == f.nlink - 1
            &&& f.nlink == 1 ==> {
                &&& content(w, id as int).len() == 0
                &&& w.used == v.used.update(id as int, false)
                &&& w.free_blocks == v.free_blocks + blocks_of_size(f.size as int) + given_back
            }
            &&& f.nlink > 1 ==> {
                &&& id != k ==> w.files[id as int] == (FileView {
                    nlink: (f.nlink - 1) as u32,
                    ..f
                })
                &&& w.used == v.used
                &&& w.free_blocks == v.free_blocks + given_back
            }
            &&& forall|l: int|
                0 <= l < v.files.len() && l != k && l != id ==> #[trigger] w.files[l] == v.files[l]
            &&& !w.modified
        }),
{
    let c = content(v, k);
    let i = find_entry(c, name);
    lemma_find_from(c, name, 0);
    lemma_unlinked_content(v, k, i, id);
    lemma_removed(c, content(unlinked(v, k, i, id as int), k), i);
}

/// What a directory holds after entry `i` was unlinked, which names file `id`.
pub proof fn lemma_unlinked_content(v: FsView, k: int, i: int, id: u32)
    requires
        v.wf(),
        0 <= k < v.files.len(),
        id < v.files.len(),
        v.files[id as int].nlink >= 1,
        id == k ==> v.files[id as int].nlink > 1,
        0 <= i < entry_count(content(v, k)),
    ensures
        ({
            let c = content(v, k);
            let d = content(unlinked(v, k, i, id as int), k);
            &&& c.len() == v.files[k].size
            &&& d.len() == 32 * (entry_count(c) - 1)
            &&& forall|p: int|
                0 <= p < d.len() ==> #[trigger] d[p] == if 32 * i <= p < 32 * i + 32 {
                    c[32 * (entry_count(c) - 1) + p - 32 * i]
                } else {
                    c[p]
                }
        }),
{
    let c = content(v, k);
    let u = release_link(v, id as int);
    let w = unlinked(v, k, i, id as int);
    let f = v.files[k];
    assert(f.wf());
    lemma_blocks_of_size(0, f.size as int);
    assert(u.files[k].size == f.size && u.files[k].backing == f.backing);
    let size = 32 * (entries(v, k) - 1);
    lemma_blocks_of_size(size, f.size as int);
    lemma_blocks_of_size(0, size);
    let last = c.subrange(size, size + 32);
    assert(w.files[k] == u.files[k].written(32 * i, last).cut(size as u32));
}

/// Giving a file with links a second name and unlinking that name leads back: the old
/// name still leads to the file, the new one to none, and every other name leads where
/// it led. The entries are those that were there, in the same order, and number of
/// links, contents and free blocks are as they were, but for what the directory held
/// after its last whole entry.
pub proof fn law_unlink_after_link(
    v: FsView,
    k: int,
    id: u32,
    old_name: Seq<u8>,
    new_name: Seq<u8>,
)
    requires
        v.wf(),
        0 <= k < v.files.len(),
        id < v.files.len(),
        lookup_name(content(v, k), old_name) == Some(id),
        0 < v.files[id as int].nlink < u32::MAX,
        can_append(v, k),
        is_name(new_name),
        !has_entry(content(v, k), new_name),
    ensures
        ({
            let u = linked(v, k, id, new_name);
            let w = unlinked(u, k, find_entry(content(u, k), new_name), id as int);
            let c = content(v, k);
            let whole = 32 * entry_count(c);
            &&& content(w, k) == c.take(whole)
            &&& lookup_name(content(w, k), old_name) == Some(id)
            &&& lookup_name(content(w, k), new_name) is None
            &&& forall|any: Seq<u8>| #[trigger]
                lookup_name(content(w, k), any) == lookup_name(c, any)
            &&& w.files[id as int].nlink == v.files[id as int].nlink
            &&& id != k ==> w.files[id as int] == v.files[id as int]
            &&& w.used == v.used
            &&& w.free_blocks == v.free_blocks + blocks_of_size(c.len() as int) - blocks_of_size(
                whole,
            )
            &&& forall|l: int|
                0 <= l < v.files.len() && l != k ==> #[trigger] w.files[l] == v.files[l]
        }),
{
    law_link_then_find(v, k, id, old_name, new_name);
    let u = linked(v, k, id, new_name);
    let c = content(v, k);
    let d = content(u, k);
    lemma_entry_bytes(new_name, id);
    let a = add_link(v, id as int);
    assert forall|l: int| 0 <= l < a.files.len() implies (#[trigger] a.files[l]).wf() by {
        assert(v.files[l].wf());
    }
    lemma_write_wf(a, k, 32 * entries(a, k), entry_bytes(new_name, id));
    assert(u.wf());
    let w = unlinked(u, k, entry_count(c), id as int);
    lemma_append_content(a, k, entry_bytes(new_name, id));
    assert(content(a, k) == c);
    lemma_unlinked_content(u, k, entry_count(c), id);
    assert(content(w, k) =~= c.take(32 * entry_count(c)));
    lemma_whole_entries(c);
    assert forall|l: int| 0 <= l < v.files.len() && l != k implies #[trigger] w.files[l]
        == v.files[l] by {
        if l != id {
            assert(u.files[l] == v.files[l]);
        }
    }
}

/// Names are looked up in whole entries only.
proof fn lemma_whole_entries(c: Seq<u8>)
    ensures
        entry_count(c.take(32 * entry_count(c))) == entry_count(c),
        forall|any: Seq<u8>| #[trigger]
            lookup_name(c.take(32 * entry_count(c)), any) == lookup_name(c, any),
{
    let d = c.take(32 * entry_count(c));
    assert forall|i: int| 0 <= i < entry_count(c) implies #[trigger] entry_at(d, i) == entry_at(
        c,
        i,
    ) by {
        assert(entry_at(d, i) =~= entry_at(c, i));
    }
    assert forall|any: Seq<u8>| #[trigger] lookup_name(d, any) == lookup_name(c, any) by {
        lemma_find_from(c, any, 0);
        let f = find_entry(c, any);
        assert forall|j: int| 0 <= j < f implies entry_name(#[trigger] entry_at(d, j)) != any by {
            assert(entry_at(d, j) == entry_at(c, j));
        }
        if f < entry_count(c) {
            assert(entry_at(d, f) == entry_at(c, f));
        }
        lemma_found_at(d, any, 0, f);
    }
}

/// Creating a file and unlinking its name leads back: the entries are those that were
/// there, in the same order, so every name leads where it led; the inode is free again,
/// the free blocks are as they were, but for what the directory held after its last
/// whole entry, and no other file has changed.
pub proof fn law_unlink_undoes_create(v: FsView, k: int, name: Seq<u8>)
    requires
        v.wf(),
        0 <= k < v.files.len(),
        v.used[k],
        first_free(v.used, 0) < v.used.len(),
        can_append(v, k),
        is_name(name),
        !has_entry(content(v, k), name),
    ensures
        ({
            let id = first_free(v.used, 0);
            let u = created(v, k, name);
            let w = unlinked(u, k, find_entry(content(u, k), name), id);
            let c = content(v, k);
            let whole = 32 * entry_count(c);
            &&& content(w, k) == c.take(whole)
            &&& forall|any: Seq<u8>| #[trigger]
                lookup_name(content(w, k), any) == lookup_name(c, any)
            &&& w.used == v.used
            &&& w.free_blocks == v.free_blocks + blocks_of_size(c.len() as int) - blocks_of_size(
                whole,
            )
            &&& forall|l: int|
                0 <= l < v.files.len() && l != k && l != id ==> #[trigger] w.files[l] == v.files[l]
        }),
{
    let id = first_free(v.used, 0);
    let u = created(v, k, name);
    let c = content(v, k);
    law_create_then_find(v, k, name);
    lemma_first_free_unset(v.used, 0);
    lemma_entry_bytes(name, id as u32);
    let a = new_file(v);
    lemma_write_wf(a, k, 32 * entries(v, k), entry_bytes(name, id as u32));
    assert(u.wf());
    let w = unlinked(u, k, entry_count(c), id);
    assert(a.files[k] == v.files[k]);
    lemma_append_content(a, k, entry_bytes(name, id as u32));
    lemma_unlinked_content(u, k, entry_count(c), id as u32);
    assert(content(w, k) =~= c.take(32 * entry_count(c)));
    lemma_whole_entries(c);
    assert(w.used =~= v.used);
}

proof fn lemma_write_wf(v: FsView, k: int, off: int, d: Seq<u8>)
    requires
        v.files.len() == v.used.len(),
        v.inode_start + v.files.len() <= u32::MAX,
        forall|l: int| 0 <= l < v.files.len() ==> (#[trigger] v.files[l]).wf(),
        0 <= k < v.files.len(),
        0 <= off,
        has_room(v, k, off + d.len()),
    ensures
        write_file(v, k, off, d).wf(),
{
    let f = v.files[k];
    assert(f.wf());
    let size = off + d.len();
    if size >= f.size {
        lemma_blocks_of_size(f.size as int, size);
    }
    let w = write_file(v, k, off, d);
    assert forall|l: int| 0 <= l < w.files.len() implies (#[trigger] w.files[l]).wf() by {
        if l != k {
            assert(w.files[l] == v.files[l]);
        }
    }
}

/// What was written is read back. The rest of the file keeps its bytes, blocks that
/// it did not have before are zero elsewhere, and no other file has changed.
pub proof fn law_write_then_read(v: FsView, k: int, off: int, d: Seq<u8>)
    requires
        v.wf(),
        0 <= k < v.files.len(),
        0 <= off,
        has_room(v, k, off + d.len()),
    ensures
        ({
            let w = synced(write_file(v, k, off, d));
            let before = content(v, k);
            let after = content(w, k);
            &&& bytes_read(after, off, d.len() as int) == d
            &&& after.len() == if off + d.len() > before.len() {
                off + d.len()
            } else {
                before.len() as int
            }
            &&& forall|p: int|
                0 <= p < before.len() && !(off <= p < off + d.len()) ==> #[trigger] after[p]
                    == before[p]
            &&& forall|p: int|
                v.files[k].backing.len() <= p < off ==> #[trigger] after[p] == 0
            &&& forall|l: int|
                0 <= l < v.files.len() && l != k ==> #[trigger] w.files[l] == v.files[l]
            &&& !w.modified
        }),
{
    let f = v.files[k];
    assert(f.wf());
    lemma_blocks_of_size(0, f.size as int);
    let size = off + d.len();
    lemma_blocks_of_size(0, size);
    if size >= f.size {
        lemma_blocks_of_size(f.size as int, size);
    }
    let w = synced(write_file(v, k, off, d));
    let after = content(w, k);
    assert(bytes_read(after, off, d.len() as int) =~= d);
}

/// Clearing a file that was empty gives back the blocks that were taken since.
pub proof fn law_clear_gives_back(v: FsView, k: int, off: int, d: Seq<u8>)
    requires
        v.wf(),
        0 <= k < v.files.len(),
        0 <= off,
        v.files[k].size == 0,
        has_room(v, k, off + d.len()),
    ensures
        ({
            let w = synced(cleared(synced(write_file(v, k, off, d)), k));
            &&& w.free_blocks == v.free_blocks
            &&& content(w, k).len() == 0
            &&& forall|l: int|
                0 <= l < v.files.len() && l != k ==> #[trigger] w.files[l] == v.files[l]
        }),
{
    lemma_blocks_of_size(0, off + d.len());
}

/// An inode that stands where the inode area puts number `id` is inode `id`, so
/// different numbers have different places.
pub proof fn law_inode_place(v: FsView, inode: Inode, id: u32)
    requires
        v.wf(),
        id < v.files.len(),
        inode.is_inode(v, id),
    ensures
        inode.stands_in(v),
        inode.slot(v) == id,
{
}

} // verus!
