//! The number of links of a file, and the names that a directory has for it.
use crate::fs::dir::{
    entry_at, entry_count, find_entry, has_entry, lemma_appended, lemma_find_from, lookup_name,
    names_differ,
};
use crate::fs::efs::{first_free, FsView};
use crate::fs::laws::{
    content, is_name, law_create_then_find, law_link_then_find, law_unlink_removes_name,
    lemma_append_content, lemma_first_free_unset, lemma_unlinked_content,
};
use crate::fs::layout::{entry_bytes, entry_inode, lemma_entry_bytes};
use crate::fs::vfs::{add_link, can_append, created, linked, new_file, unlinked};
use vstd::prelude::*;

verus! {

/// How many of the first `n` entries name inode `id`.
pub open spec fn names_of(c: Seq<u8>, id: u32, n: int) -> int
    decreases n,
{
    if n <= 0 {
        0
    } else {
        names_of(c, id, n - 1) + if entry_inode(entry_at(c, n - 1)) == id {
            1int
        } else {
            0
        }
    }
}

/// Directory `k` has as many names for each other file as the file has links, and
/// none for an inode that is not in use.
pub open spec fn links_counted(v: FsView, k: int) -> bool {
    forall|id: u32|
        id < v.files.len() && id != k ==> #[trigger] names_of(
            content(v, k),
            id,
            entry_count(content(v, k)),
        ) == if v.used[id as int] {
            v.files[id as int].nlink as int
        } else {
            0
        }
}

proof fn lemma_names_same(c: Seq<u8>, d: Seq<u8>, id: u32, n: int)
    requires
        forall|i: int| 0 <= i < n ==> #[trigger] entry_at(d, i) == entry_at(c, i),
    ensures
        names_of(d, id, n) == names_of(c, id, n),
    decreases n,
{
    if n > 0 {
        lemma_names_same(c, d, id, n - 1);
        assert(entry_at(d, n - 1) == entry_at(c, n - 1));
    }
}

proof fn lemma_names_bounds(c: Seq<u8>, id: u32, n: int, i: int)
    requires
        0 <= i < n,
        entry_inode(entry_at(c, i)) == id,
    ensures
        names_of(c, id, n) >= 1,
    decreases n,
{
    lemma_names_nonneg(c, id, n - 1);
    if i < n - 1 {
        lemma_names_bounds(c, id, n - 1, i);
    }
}

proof fn lemma_names_nonneg(c: Seq<u8>, id: u32, n: int)
    ensures
        names_of(c, id, n) >= 0,
    decreases n,
{
    if n > 0 {
        lemma_names_nonneg(c, id, n - 1);
    }
}

/// Names once the last of `n` entries has taken the place of entry `k`, counted over
/// the first `m` entries.
proof fn lemma_names_swapped(c: Seq<u8>, d: Seq<u8>, id: u32, n: int, k: int, m: int)
    requires
        0 <= k < n,
        0 <= m <= n - 1,
        forall|i: int| 0 <= i < n - 1 && i != k ==> #[trigger] entry_at(d, i) == entry_at(c, i),
        k < n - 1 ==> entry_at(d, k) == entry_at(c, n - 1),
    ensures
        names_of(d, id, m) == names_of(c, id, m) + if m > k {
            (if entry_inode(entry_at(c, n - 1)) == id {
                1int
            } else {
                0
            }) - if entry_inode(entry_at(c, k)) == id {
                1int
            } else {
                0
            }
        } else {
            0
        },
    decreases m,
{
    if m > 0 {
        lemma_names_swapped(c, d, id, n, k, m - 1);
        if m - 1 != k {
            assert(entry_at(d, m - 1) == entry_at(c, m - 1));
        }
    }
}

/// Creating a file keeps the number of links of every file what its names say.
pub proof fn law_create_counts_links(v: FsView, k: int, name: Seq<u8>)
    requires
        v.wf(),
        0 <= k < v.files.len(),
        v.used[k],
        first_free(v.used, 0) < v.used.len(),
        can_append(v, k),
        is_name(name),
        !has_entry(content(v, k), name),
        links_counted(v, k),
    ensures
        links_counted(created(v, k, name), k),
{
    let new_id = first_free(v.used, 0);
    let w = created(v, k, name);
    let c = content(v, k);
    let d = content(w, k);
    let n = entry_count(c);
    law_create_then_find(v, k, name);
    lemma_first_free_unset(v.used, 0);
    lemma_entry_bytes(name, new_id as u32);
    let u = new_file(v);
    assert forall|l: int| 0 <= l < u.files.len() implies (#[trigger] u.files[l]).wf() by {
        if l != new_id {
            assert(u.files[l] == v.files[l]);
        }
    }
    lemma_append_content(u, k, entry_bytes(name, new_id as u32));
    lemma_appended(c, d, entry_bytes(name, new_id as u32));
    assert forall|id: u32| id < w.files.len() && id != k implies #[trigger] names_of(
        d,
        id,
        entry_count(d),
    ) == if w.used[id as int] {
        w.files[id as int].nlink as int
    } else {
        0
    } by {
        lemma_names_same(c, d, id, n);
        assert(names_of(c, id, n) == if v.used[id as int] {
            v.files[id as int].nlink as int
        } else {
            0
        });
        assert(names_of(d, id, n + 1) == names_of(d, id, n) + if new_id == id {
            1int
        } else {
            0
        });
        if id != new_id {
            assert(w.files[id as int] == v.files[id as int]);
        }
    }
}

/// Giving a file a second name keeps the number of links of every file what its
/// names say.
pub proof fn law_link_counts_links(
    v: FsView,
    k: int,
    id: u32,
    old_name: Seq<u8>,
    new_name: Seq<u8>,
)
    requires
        v.wf(),
        0 <= k < v.files.len(),
        id < v.files.len(),
        lookup_name(content(v, k), old_name) == Some(id),
        v.files[id as int].nlink < u32::MAX,
        can_append(v, k),
        is_name(new_name),
        !has_entry(content(v, k), new_name),
        links_counted(v, k),
    ensures
        links_counted(linked(v, k, id, new_name), k),
{
    let w = linked(v, k, id, new_name);
    let c = content(v, k);
    let d = content(w, k);
    let n = entry_count(c);
    law_link_then_find(v, k, id, old_name, new_name);
    lemma_entry_bytes(new_name, id);
    let u = add_link(v, id as int);
    assert forall|l: int| 0 <= l < u.files.len() implies (#[trigger] u.files[l]).wf() by {
        assert(v.files[l].wf());
    }
    lemma_append_content(u, k, entry_bytes(new_name, id));
    assert(content(u, k) == c);
    lemma_appended(c, d, entry_bytes(new_name, id));
    lemma_find_from(c, old_name, 0);
    lemma_names_bounds(c, id, n, find_entry(c, old_name));
    assert(names_of(c, id, n) >= 1);
    assert forall|x: u32| x < w.files.len() && x != k implies #[trigger] names_of(
        d,
        x,
        entry_count(d),
    ) == if w.used[x as int] {
        w.files[x as int].nlink as int
    } else {
        0
    } by {
        lemma_names_same(c, d, x, n);
        assert(names_of(c, x, n) == if v.used[x as int] {
            v.files[x as int].nlink as int
        } else {
            0
        });
        assert(names_of(d, x, n + 1) == names_of(d, x, n) + if id == x {
            1int
        } else {
            0
        });
        if x != id {
            assert(w.files[x as int] == v.files[x as int]);
        }
    }
}

/// Unlinking a name keeps the number of links of every file what its names say.
pub proof fn law_unlink_counts_links(v: FsView, k: int, id: u32, name: Seq<u8>)
    requires
        v.wf(),
        0 <= k < v.files.len(),
        id < v.files.len(),
        lookup_name(content(v, k), name) == Some(id),
        v.files[id as int].nlink >= 1,
        id == k ==> v.files[id as int].nlink > 1,
        names_differ(content(v, k)),
        links_counted(v, k),
    ensures
        links_counted(unlinked(v, k, find_entry(content(v, k), name), id as int), k),
{
    let c = content(v, k);
    let i = find_entry(c, name);
    let w = unlinked(v, k, i, id as int);
    let d = content(w, k);
    let n = entry_count(c);
    law_unlink_removes_name(v, k, id, name);
    lemma_find_from(c, name, 0);
    lemma_unlinked_content(v, k, i, id);
    lemma_names_bounds(c, id, n, i);
    assert forall|j: int| 0 <= j < n - 1 && j != i implies #[trigger] entry_at(d, j) == entry_at(
        c,
        j,
    ) by {
        assert(entry_at(d, j) =~= entry_at(c, j));
    }
    if i < n - 1 {
        assert(entry_at(d, i) =~= entry_at(c, n - 1));
    }
    assert forall|x: u32| x < w.files.len() && x != k implies #[trigger] names_of(
        d,
        x,
        entry_count(d),
    ) == if w.used[x as int] {
        w.files[x as int].nlink as int
    } else {
        0
    } by {
        lemma_names_swapped(c, d, x, n, i, n - 1);
        assert(names_of(c, x, n) == if v.used[x as int] {
            v.files[x as int].nlink as int
        } else {
            0
        });
        if x != id {
            assert(w.files[x as int] == v.files[x as int]);
        }
    }
}

} // verus!
