//! What directories hold, and what naming and unnaming files does to them.
use crate::fs::dir::{
    entry_at, entry_count, find_entry, has_entry, lemma_found_at, lookup_name, readable, searchable,
};
use crate::fs::efs::{DiskInodeType, FsView};
use crate::fs::file_laws::law_first_free_inode;
use crate::fs::laws::{lemma_append_content, lemma_unlinked_content};
use crate::fs::layout::{
    blocks_of_size, entry_bytes, entry_inode, entry_name, entry_ok, lemma_blocks_of_size,
    lemma_name_end, text_bytes,
};
use crate::fs::vfs::{
    add_link, can_append, created, linked, new_file, unlinked,
};
use vstd::prelude::*;
use vstd::utf8::{decode_utf8, encode_utf8_decode_utf8, encode_utf8_valid_utf8, valid_utf8};

verus! {

/// The name in an entry is the bytes before the first 0 among its first 28 bytes. The entry
/// can be read where there is such a 0 and the name is text.
pub proof fn law_name_ends_at_first_zero(raw: Seq<u8>, n: int)
    requires
        raw.len() == 32,
        0 <= n <= 28,
        n < 28 ==> raw[n] == 0,
        forall|j: int| 0 <= j < n ==> #[trigger] raw[j] != 0,
    ensures
        entry_name(raw).len() == n,
        forall|j: int| 0 <= j < n ==> #[trigger] entry_name(raw)[j] == raw[j],
        entry_ok(raw) == (n < 28 && valid_utf8(entry_name(raw))),
{
    lemma_name_end(raw, 0, n);
}

/// The last 4 bytes of an entry are its inode number, lowest byte first.
pub proof fn law_entry_ends_in_its_number(raw: Seq<u8>)
    requires
        raw.len() == 32,
    ensures
        vstd::bytes::spec_u32_to_le_bytes(entry_inode(raw)) == raw.subrange(28, 32),
{
    vstd::bytes::lemma_auto_spec_u32_to_from_le_bytes();
}

/// An entry has 32 bytes: the name, then 0 up to byte 28, then the inode number. A name
/// without a 0 is read back from it, and so is the number.
pub proof fn law_entry_is_read_back(name: Seq<u8>, inode: u32)
    requires
        name.len() <= 27,
    ensures
        ({
            let raw = entry_bytes(name, inode);
            &&& raw.len() == 32
            &&& forall|j: int| 0 <= j < name.len() ==> #[trigger] raw[j] == name[j]
            &&& forall|j: int| name.len() <= j < 28 ==> #[trigger] raw[j] == 0
            &&& entry_inode(raw) == inode
            &&& (forall|j: int| 0 <= j < name.len() ==> #[trigger] name[j] != 0) ==> entry_name(raw)
                == name
        }),
{
    vstd::bytes::lemma_auto_spec_u32_to_from_le_bytes();
    let raw = entry_bytes(name, inode);
    assert(raw.subrange(28, 32) =~= vstd::bytes::spec_u32_to_le_bytes(inode));
    if forall|j: int| 0 <= j < name.len() ==> #[trigger] name[j] != 0 {
        assert forall|j: int| 0 <= j < name.len() implies #[trigger] raw[j] != 0 by {
            assert(name[j] != 0);
        }
        lemma_name_end(raw, 0, name.len() as int);
        assert(entry_name(raw) =~= name);
    }
}

/// The bytes of a text are read as the text, so that different texts have different bytes.
pub proof fn law_bytes_of_a_text(s: &str)
    ensures
        valid_utf8(text_bytes(s)),
        decode_utf8(text_bytes(s)) == s@,
{
    encode_utf8_valid_utf8(s@);
    encode_utf8_decode_utf8(s@);
}

/// A directory holds as many entries as whole ones fit into it, one after the other, 32
/// bytes each.
#[verifier::spinoff_prover]
pub proof fn law_entries_lie_in_order(c: Seq<u8>, i: int, j: int)
    requires
        0 <= i < entry_count(c),
        0 <= j < 32,
    ensures
        32 * entry_count(c) <= c.len() < 32 * entry_count(c) + 32,
        entry_at(c, i).len() == 32,
        entry_at(c, i)[j] == c[32 * i + j],
{
}

/// A name leads to the inode of the first entry that has it, wherever that stands; where no
/// entry has it, it leads nowhere. The search reads the entries up to that one.
pub proof fn law_name_leads_to_its_entry(c: Seq<u8>, name: Seq<u8>, k: int)
    requires
        0 <= k <= c.len() as int / 32,
        k < c.len() as int / 32 ==> entry_name(entry_at(c, k)) == name,
        forall|j: int| 0 <= j < k ==> entry_name(#[trigger] entry_at(c, j)) != name,
    ensures
        has_entry(c, name) == (k < c.len() as int / 32),
        has_entry(c, name) ==> find_entry(c, name) == k,
        lookup_name(c, name) == if k < c.len() as int / 32 {
            Some(entry_inode(entry_at(c, k)))
        } else {
            None
        },
        searchable(c, name) == (forall|i: int|
            0 <= i <= k && i < c.len() as int / 32 ==> entry_ok(#[trigger] entry_at(c, i))),
{
    lemma_found_at(c, name, 0, k);
    assert(readable(c, k + 1) == (forall|i: int|
        0 <= i < k + 1 && i < entry_count(c) ==> entry_ok(#[trigger] entry_at(c, i))));
}

/// Creating a file adds one entry with its name and the first inode that is not in use to
/// the end of the directory, and makes that inode an empty file with one link. Every other
/// entry, every other file and all else about the directory stay.
#[verifier::spinoff_prover]
pub proof fn law_create_adds_one_entry(v: FsView, k: int, name: Seq<u8>, id: int)
    requires
        v.wf(),
        0 <= k < v.files.len(),
        v.used[k],
        name.len() <= 27,
        can_append(v, k),
        0 <= id < v.used.len(),
        !v.used[id],
        forall|j: int| 0 <= j < id ==> #[trigger] v.used[j],
    ensures
        ({
            let w = created(v, k, name);
            let c = v.files[k].content();
            let d = w.files[k].content();
            let n = c.len() as int / 32;
            &&& d.len() == 32 * n + 32
            &&& forall|p: int| 0 <= p < 32 * n ==> #[trigger] d[p] == c[p]
            &&& d.subrange(32 * n, 32 * n + 32) == entry_bytes(name, id as u32)
            &&& w.files[k].kind == v.files[k].kind
            &&& w.files[k].nlink == v.files[k].nlink
            &&& w.files[id].kind == DiskInodeType::File
            &&& w.files[id].nlink == 1
            &&& w.files[id].size == 0
            &&& w.files.len() == v.files.len()
            &&& forall|l: int|
                0 <= l < v.files.len() && l != k && l != id ==> #[trigger] w.files[l] == v.files[l]
            &&& w.used.len() == v.used.len()
            &&& forall|l: int|
                0 <= l < v.used.len() ==> #[trigger] w.used[l] == (v.used[l] || l == id)
            &&& w.free_blocks == v.free_blocks + blocks_of_size(c.len() as int) - blocks_of_size(
                d.len() as int,
            )
            &&& w.inode_start == v.inode_start
            &&& !w.modified
        }),
{
    law_first_free_inode(v.used, id);
    let u = new_file(v);
    let e = entry_bytes(name, id as u32);
    law_entry_is_read_back(name, id as u32);
    assert(u.wf()) by {
        assert forall|l: int| 0 <= l < u.files.len() implies (#[trigger] u.files[l]).wf() by {
            if l != id {
                assert(u.files[l] == v.files[l]);
                assert(v.files[l].wf());
            }
        }
    }
    assert(u.files[k] == v.files[k]);
    assert(v.files[k].wf());
    lemma_blocks_of_size(0, v.files[k].size as int);
    lemma_append_content(u, k, e);
    let d = created(v, k, name).files[k].content();
    let n = v.files[k].content().len() as int / 32;
    assert(d.subrange(32 * n, 32 * n + 32) =~= e) by {
        assert forall|p: int| 0 <= p < 32 implies d[32 * n + p] == e[p] by {}
    }
}

/// Giving a file a second name adds one entry with the name and the inode of the file to
/// the end of the directory, and one link to the file. Every other entry, every other file,
/// the bytes of the file and all else about the directory stay.
#[verifier::spinoff_prover]
pub proof fn law_link_adds_one_entry(v: FsView, k: int, id: u32, name: Seq<u8>)
    requires
        v.wf(),
        0 <= k < v.files.len(),
        id < v.files.len(),
        v.files[id as int].nlink < u32::MAX,
        name.len() <= 27,
        can_append(v, k),
    ensures
        ({
            let w = linked(v, k, id, name);
            let c = v.files[k].content();
            let d = w.files[k].content();
            let n = c.len() as int / 32;
            let f = v.files[id as int];
            let g = w.files[id as int];
            &&& d.len() == 32 * n + 32
            &&& forall|p: int| 0 <= p < 32 * n ==> #[trigger] d[p] == c[p]
            &&& d.subrange(32 * n, 32 * n + 32) == entry_bytes(name, id)
            &&& g.nlink == f.nlink + 1
            &&& g.kind == f.kind
            &&& id != k ==> g.size == f.size && g.backing == f.backing
            &&& id != k ==> w.files[k].nlink == v.files[k].nlink
            &&& w.files[k].kind == v.files[k].kind
            &&& w.files.len() == v.files.len()
            &&& forall|l: int|
                0 <= l < v.files.len() && l != k && l != id ==> #[trigger] w.files[l] == v.files[l]
            &&& w.used == v.used
            &&& w.free_blocks == v.free_blocks + blocks_of_size(c.len() as int) - blocks_of_size(
                d.len() as int,
            )
            &&& w.inode_start == v.inode_start
            &&& !w.modified
        }),
{
    let u = add_link(v, id as int);
    let e = entry_bytes(name, id);
    law_entry_is_read_back(name, id);
    assert forall|l: int| 0 <= l < u.files.len() implies (#[trigger] u.files[l]).wf() by {
        assert(v.files[l].wf());
    }
    assert(v.files[k].wf());
    lemma_blocks_of_size(0, v.files[k].size as int);
    assert(u.files[k].content() == v.files[k].content());
    lemma_append_content(u, k, e);
    let d = linked(v, k, id, name).files[k].content();
    let n = v.files[k].content().len() as int / 32;
    assert(d.subrange(32 * n, 32 * n + 32) =~= e) by {
        assert forall|p: int| 0 <= p < 32 implies d[32 * n + p] == e[p] by {}
    }
}

/// Unlinking entry `i`, which names file `id`, puts the last entry in its place and drops
/// the last; the other entries stay where they are. The file has one link less; with the
/// last link it becomes empty, its blocks are given back and its inode is no longer in use,
/// else its bytes stay. Every other file and all else about the directory stay.
#[verifier::spinoff_prover]
pub proof fn law_unlink_takes_one_entry(v: FsView, k: int, i: int, id: u32)
    requires
        v.wf(),
        0 <= k < v.files.len(),
        id < v.files.len(),
        v.files[id as int].nlink >= 1,
        id == k ==> v.files[id as int].nlink > 1,
        0 <= i < v.files[k].size as int / 32,
    ensures
        ({
            let w = unlinked(v, k, i, id as int);
            let c = v.files[k].content();
            let d = w.files[k].content();
            let n = c.len() as int / 32;
            let f = v.files[id as int];
            let g = w.files[id as int];
            let given_back = blocks_of_size(c.len() as int) - blocks_of_size(d.len() as int);
            &&& d.len() == 32 * (n - 1)
            &&& forall|j: int, p: int|
                #![trigger entry_at(d, j)[p]]
                0 <= j < n - 1 && 0 <= p < 32 ==> entry_at(d, j)[p] == if j == i {
                    c[32 * (n - 1) + p]
                } else {
                    c[32 * j + p]
                }
            &&& g.nlink == f.nlink - 1
            &&& g.kind == f.kind
            &&& f.nlink == 1 ==> {
                &&& g.size == 0
                &&& w.used == v.used.update(id as int, false)
                &&& w.free_blocks == v.free_blocks + blocks_of_size(f.size as int) + given_back
            }
            &&& f.nlink > 1 ==> {
                &&& id != k ==> g.size == f.size && g.backing == f.backing
                &&& w.used == v.used
                &&& w.free_blocks == v.free_blocks + given_back
            }
            &&& w.files[k].kind == v.files[k].kind
            &&& id != k ==> w.files[k].nlink == v.files[k].nlink
            &&& w.files.len() == v.files.len()
            &&& forall|l: int|
                0 <= l < v.files.len() && l != k && l != id ==> #[trigger] w.files[l] == v.files[l]
            &&& w.inode_start == v.inode_start
            &&& !w.modified
        }),
{
    assert(v.files[k].wf());
    lemma_blocks_of_size(0, v.files[k].size as int);
    lemma_unlinked_content(v, k, i, id);
    let w = unlinked(v, k, i, id as int);
    let c = v.files[k].content();
    let d = w.files[k].content();
    let n = c.len() as int / 32;
    assert forall|j: int, p: int|
        #![trigger entry_at(d, j)[p]]
        0 <= j < n - 1 && 0 <= p < 32 implies entry_at(d, j)[p] == if j == i {
        c[32 * (n - 1) + p]
    } else {
        c[32 * j + p]
    } by {
        assert(entry_at(d, j)[p] == d[32 * j + p]);
    }
}

} // verus!
