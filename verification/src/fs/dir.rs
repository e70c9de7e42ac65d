//! What a directory holds: entries one after the other, and the entry of a name.
use crate::fs::layout::{entry_inode, entry_name, entry_ok};
use vstd::prelude::*;

verus! {

/// Number of entries in the contents of a directory.
pub open spec fn entry_count(c: Seq<u8>) -> int {
    c.len() as int / 32
}

/// The bytes of entry `i`.
pub open spec fn entry_at(c: Seq<u8>, i: int) -> Seq<u8> {
    c.subrange(32 * i, 32 * i + 32)
}

/// Position of the first entry with this name, from entry `i` on; the number of
/// entries where there is none.
pub open spec fn find_from(c: Seq<u8>, name: Seq<u8>, i: int) -> int
    decreases entry_count(c) - i,
{
    if i >= entry_count(c) {
        entry_count(c)
    } else if entry_name(entry_at(c, i)) == name {
        i
    } else {
        find_from(c, name, i + 1)
    }
}

/// Position of the first entry with this name.
pub open spec fn find_entry(c: Seq<u8>, name: Seq<u8>) -> int {
    find_from(c, name, 0)
}

/// Is there an entry with this name?
pub open spec fn has_entry(c: Seq<u8>, name: Seq<u8>) -> bool {
    find_entry(c, name) < entry_count(c)
}

/// The inode that a directory gives for a name.
pub open spec fn lookup_name(c: Seq<u8>, name: Seq<u8>) -> Option<u32> {
    if has_entry(c, name) {
        Some(entry_inode(entry_at(c, find_entry(c, name))))
    } else {
        None
    }
}

/// Entries `0..n` have names that can be read.
pub open spec fn readable(c: Seq<u8>, n: int) -> bool {
    forall|i: int| 0 <= i < n && i < entry_count(c) ==> entry_ok(#[trigger] entry_at(c, i))
}

/// The entries up to the one with this name have names that can be read.
pub open spec fn searchable(c: Seq<u8>, name: Seq<u8>) -> bool {
    readable(c, find_entry(c, name) + 1)
}

/// No two entries have the same name.
pub open spec fn names_differ(c: Seq<u8>) -> bool {
    forall|i: int, j: int|
        0 <= i < j < entry_count(c) ==> entry_name(#[trigger] entry_at(c, i)) != entry_name(
            #[trigger] entry_at(c, j),
        )
}

/// Where the search for a name ends.
pub proof fn lemma_find_from(c: Seq<u8>, name: Seq<u8>, i: int)
    requires
        0 <= i <= entry_count(c),
    ensures
        i <= find_from(c, name, i) <= entry_count(c),
        forall|j: int|
            i <= j < find_from(c, name, i) ==> entry_name(#[trigger] entry_at(c, j)) != name,
        find_from(c, name, i) < entry_count(c) ==> entry_name(
            entry_at(c, find_from(c, name, i)),
        ) == name,
    decreases entry_count(c) - i,
{
    if i < entry_count(c) && entry_name(entry_at(c, i)) != name {
        lemma_find_from(c, name, i + 1);
    }
}

/// The search ends at the first entry with the name.
pub proof fn lemma_found_at(c: Seq<u8>, name: Seq<u8>, i: int, n: int)
    requires
        0 <= i <= n <= entry_count(c),
        forall|j: int| i <= j < n ==> entry_name(#[trigger] entry_at(c, j)) != name,
        n < entry_count(c) ==> entry_name(entry_at(c, n)) == name,
    ensures
        find_from(c, name, i) == n,
    decreases n - i,
{
    if i < n {
        assert(entry_name(entry_at(c, i)) != name);
        lemma_found_at(c, name, i + 1, n);
    }
}

/// Adding an entry at the end: the name that it has is found there if it was not
/// there before, and every other name is found where it was.
pub proof fn lemma_appended(c: Seq<u8>, d: Seq<u8>, e: Seq<u8>)
    requires
        e.len() == 32,
        d.len() == 32 * (entry_count(c) + 1),
        forall|p: int| 0 <= p < 32 * entry_count(c) ==> d[p] == c[p],
        forall|p: int| 0 <= p < 32 ==> d[32 * entry_count(c) + p] == #[trigger] e[p],
    ensures
        entry_count(d) == entry_count(c) + 1,
        entry_at(d, entry_count(c)) == e,
        forall|i: int| 0 <= i < entry_count(c) ==> #[trigger] entry_at(d, i) == entry_at(c, i),
        !has_entry(c, entry_name(e)) ==> find_entry(d, entry_name(e)) == entry_count(c),
        forall|name: Seq<u8>|
            has_entry(c, name) || name != entry_name(e) ==> #[trigger] lookup_name(d, name)
                == lookup_name(c, name),
        !has_entry(c, entry_name(e)) && names_differ(c) ==> names_differ(d),
        readable(c, entry_count(c)) && entry_ok(e) ==> readable(d, entry_count(d)),
{
    let n = entry_count(c);
    assert(entry_at(d, n) =~= e) by {
        assert forall|p: int| 0 <= p < 32 implies entry_at(d, n)[p] == e[p] by {
            assert(d[32 * n + p] == e[p]);
        }
    }
    assert forall|i: int| 0 <= i < n implies #[trigger] entry_at(d, i) == entry_at(c, i) by {
        assert(entry_at(d, i) =~= entry_at(c, i));
    }
    lemma_find_from(c, entry_name(e), 0);
    if !has_entry(c, entry_name(e)) {
        assert forall|j: int| 0 <= j < n implies entry_name(#[trigger] entry_at(d, j))
            != entry_name(e) by {
            assert(entry_at(d, j) == entry_at(c, j));
        }
        lemma_found_at(d, entry_name(e), 0, n);
    }
    assert forall|name: Seq<u8>| has_entry(c, name) || name != entry_name(e) implies #[trigger] lookup_name(
        d, name) == lookup_name(c, name) by {
        lemma_find_from(c, name, 0);
        let f = find_entry(c, name);
        assert forall|j: int| 0 <= j < f implies entry_name(#[trigger] entry_at(d, j)) != name by {
            assert(entry_at(d, j) == entry_at(c, j));
        }
        if f < n {
            assert(entry_at(d, f) == entry_at(c, f));
            lemma_found_at(d, name, 0, f);
        } else {
            assert forall|j: int| 0 <= j < n + 1 implies entry_name(#[trigger] entry_at(d, j))
                != name by {}
            lemma_found_at(d, name, 0, n + 1);
        }
    }
    if !has_entry(c, entry_name(e)) && names_differ(c) {
        assert forall|i: int, j: int| 0 <= i < j < entry_count(d) implies entry_name(
            #[trigger] entry_at(d, i),
        ) != entry_name(#[trigger] entry_at(d, j)) by {
            assert(entry_at(d, i) == entry_at(c, i));
            if j < n {
                assert(entry_at(d, j) == entry_at(c, j));
            }
        }
    }
}

/// Putting the last entry in the place of entry `k` and dropping the last: where
/// no name occurs twice, the name of entry `k` is gone and every other name is
/// found with the inode that it had.
pub proof fn lemma_removed(c: Seq<u8>, d: Seq<u8>, k: int)
    requires
        0 <= k < entry_count(c),
        d.len() == 32 * (entry_count(c) - 1),
        forall|p: int|
            0 <= p < d.len() ==> #[trigger] d[p] == if 32 * k <= p < 32 * k + 32 {
                c[32 * (entry_count(c) - 1) + p - 32 * k]
            } else {
                c[p]
            },
        names_differ(c),
    ensures
        entry_count(d) == entry_count(c) - 1,
        !has_entry(d, entry_name(entry_at(c, k))),
        forall|name: Seq<u8>|
            name != entry_name(entry_at(c, k)) ==> #[trigger] lookup_name(d, name) == lookup_name(
                c,
                name,
            ),
        names_differ(d),
        readable(c, entry_count(c)) ==> readable(d, entry_count(d)),
{
    let n = entry_count(c);
    let gone = entry_name(entry_at(c, k));
    assert forall|i: int| 0 <= i < n - 1 && i != k implies #[trigger] entry_at(d, i) == entry_at(
        c,
        i,
    ) by {
        assert(entry_at(d, i) =~= entry_at(c, i));
    }
    if k < n - 1 {
        assert(entry_at(d, k) =~= entry_at(c, n - 1));
    }
    lemma_find_from(d, gone, 0);
    let f = find_entry(d, gone);
    if f < n - 1 {
        let g = if f == k {
            n - 1
        } else {
            f
        };
        assert(entry_at(d, f) == entry_at(c, g));
        assert(g != k);
        assert(false);
    }
    assert forall|i: int, j: int| 0 <= i < j < entry_count(d) implies entry_name(
        #[trigger] entry_at(d, i),
    ) != entry_name(#[trigger] entry_at(d, j)) by {
        let a = if i == k {
            n - 1
        } else {
            i
        };
        let b = if j == k {
            n - 1
        } else {
            j
        };
        assert(entry_at(d, i) == entry_at(c, a) && entry_at(d, j) == entry_at(c, b));
    }
    assert forall|name: Seq<u8>| name != gone implies #[trigger] lookup_name(d, name)
        == lookup_name(c, name) by {
        lemma_find_from(c, name, 0);
        lemma_find_from(d, name, 0);
        let f = find_entry(c, name);
        let g = find_entry(d, name);
        if f < n {
            let h = if f == n - 1 {
                k
            } else {
                f
            };
            assert(h < n - 1 && entry_at(d, h) == entry_at(c, f));
            assert forall|j: int| 0 <= j < h implies entry_name(#[trigger] entry_at(d, j))
                != name by {
                assert(entry_name(entry_at(d, j)) != entry_name(entry_at(d, h)));
            }
            lemma_found_at(d, name, 0, h);
        } else if g < n - 1 {
            let a = if g == k {
                n - 1
            } else {
                g
            };
            assert(entry_at(d, g) == entry_at(c, a));
            assert(false);
        }
    }
    if readable(c, n) {
        assert forall|i: int| 0 <= i < n - 1 implies entry_ok(#[trigger] entry_at(d, i)) by {
            let a = if i == k {
                n - 1
            } else {
                i
            };
            assert(entry_at(d, i) == entry_at(c, a));
        }
    }
}

} // verus!
