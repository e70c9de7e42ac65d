//! What a three-level table tree in physical memory maps.
use crate::mm::address::{lemma_indexes_determine_page, vpn_index, PPN_SPAN, VPN_SPAN};
use crate::mm::entry::{
    lemma_flags_valid, lemma_pte_word, pte_ppn, pte_valid, pte_word, PTE_V,
};
use crate::mm::memory::{lemma_put_pte, lemma_take_frame, MemView};
use vstd::prelude::*;

verus! {

/// The table that entry `i` of table `t` points to, if the entry is valid.
pub open spec fn child(m: MemView, t: u64, i: u64) -> Option<u64> {
    if pte_valid(m.pte(t, i)) {
        Some(pte_ppn(m.pte(t, i)))
    } else {
        None
    }
}

/// The level-1 table for index `i` of the root.
pub open spec fn table1(m: MemView, root: u64, i: u64) -> Option<u64> {
    child(m, root, i)
}

/// The level-2 table for indexes `i` and `j`.
pub open spec fn table2(m: MemView, root: u64, i: u64, j: u64) -> Option<u64> {
    match table1(m, root, i) {
        Some(t) => child(m, t, j),
        None => None,
    }
}

/// The last-level entry for three indexes, where there is a table for it.
pub open spec fn leaf(m: MemView, root: u64, i: u64, j: u64, k: u64) -> Option<u64> {
    match table2(m, root, i, j) {
        Some(t) => Some(m.pte(t, k)),
        None => None,
    }
}

/// The last-level table for page `vpn`, where there is one.
pub open spec fn leaf_table(m: MemView, root: u64, vpn: u64) -> Option<u64> {
    table2(m, root, vpn_index(vpn, 0), vpn_index(vpn, 1))
}

/// The last-level entry for page `vpn`, where there is a table for it. The entry
/// may be one that is not valid.
pub open spec fn lookup(m: MemView, root: u64, vpn: u64) -> Option<u64> {
    leaf(m, root, vpn_index(vpn, 0), vpn_index(vpn, 1), vpn_index(vpn, 2))
}

/// The valid entry for page `vpn`, if it is mapped.
pub open spec fn mapping(m: MemView, root: u64, vpn: u64) -> Option<u64> {
    match lookup(m, root, vpn) {
        Some(e) => if pte_valid(e) {
            Some(e)
        } else {
            None
        },
        None => None,
    }
}

/// Every table on the way to page `vpn` lies in memory.
pub open spec fn path_backed(m: MemView, root: u64, vpn: u64) -> bool {
    &&& m.backed(root)
    &&& table1(m, root, vpn_index(vpn, 0)) matches Some(t) ==> m.backed(t)
    &&& leaf_table(m, root, vpn) matches Some(t) ==> m.backed(t)
}

/// Memory after entry `i` of table `t` was made to point to a table: as it was
/// where the entry is valid, else with a new, empty table.
pub open spec fn with_child(m: MemView, t: u64, i: u64) -> MemView {
    if pte_valid(m.pte(t, i)) {
        m
    } else {
        m.take_frame().put_pte(t, i, pte_word(m.free.last(), PTE_V))
    }
}

/// The tables that `with_child` takes from the free frames.
pub open spec fn new_child(m: MemView, t: u64, i: u64) -> Seq<u64> {
    if pte_valid(m.pte(t, i)) {
        Seq::empty()
    } else {
        seq![m.free.last()]
    }
}

/// Entry `i` of table `t` can be made to point to a table in memory.
pub open spec fn child_available(m: MemView, t: u64, i: u64) -> bool {
    &&& m.backed(t)
    &&& pte_valid(m.pte(t, i)) ==> m.backed(pte_ppn(m.pte(t, i)))
    &&& !pte_valid(m.pte(t, i)) ==> m.free.len() > 0
}

/// Memory with the level-1 table for page `vpn` in place.
pub open spec fn path1(m: MemView, root: u64, vpn: u64) -> MemView {
    with_child(m, root, vpn_index(vpn, 0))
}

/// The level-1 table for page `vpn`, once it is in place.
pub open spec fn path1_table(m: MemView, root: u64, vpn: u64) -> u64 {
    pte_ppn(path1(m, root, vpn).pte(root, vpn_index(vpn, 0)))
}

/// Memory with both lower tables for page `vpn` in place.
pub open spec fn path2(m: MemView, root: u64, vpn: u64) -> MemView {
    with_child(path1(m, root, vpn), path1_table(m, root, vpn), vpn_index(vpn, 1))
}

/// The last-level table for page `vpn`, once it is in place.
pub open spec fn path2_table(m: MemView, root: u64, vpn: u64) -> u64 {
    pte_ppn(path2(m, root, vpn).pte(path1_table(m, root, vpn), vpn_index(vpn, 1)))
}

/// The tables that are taken from the free frames to reach page `vpn`.
pub open spec fn path_frames(m: MemView, root: u64, vpn: u64) -> Seq<u64> {
    new_child(m, root, vpn_index(vpn, 0)) + new_child(
        path1(m, root, vpn),
        path1_table(m, root, vpn),
        vpn_index(vpn, 1),
    )
}

/// The tables on the way to page `vpn` lie in memory, or there are free frames
/// for those that are missing.
pub open spec fn path_available(m: MemView, root: u64, vpn: u64) -> bool {
    &&& child_available(m, root, vpn_index(vpn, 0))
    &&& child_available(path1(m, root, vpn), path1_table(m, root, vpn), vpn_index(vpn, 1))
}

/// Memory after the entry for page `vpn` was set, with the tables on the way put
/// in place.
pub open spec fn map_entry(m: MemView, root: u64, vpn: u64, bits: u64) -> MemView {
    path2(m, root, vpn).put_pte(path2_table(m, root, vpn), vpn_index(vpn, 2), bits)
}

/// Memory after the entry for page `vpn` was set, its tables being in place.
pub open spec fn set_entry(m: MemView, root: u64, vpn: u64, bits: u64) -> MemView {
    m.put_pte(leaf_table(m, root, vpn)->0, vpn_index(vpn, 2), bits)
}

/// Can page `vpn` be mapped? It must not be mapped, and its tables must be in memory
/// or there must be free frames for them.
pub open spec fn can_map(m: MemView, root: u64, vpn: u64) -> bool {
    let n = path2(m, root, vpn);
    let t = path2_table(m, root, vpn);
    &&& path_available(m, root, vpn)
    &&& n.backed(t)
    &&& !pte_valid(n.pte(t, vpn_index(vpn, 2)))
}

/// Facts about `with_child`.
pub proof fn lemma_with_child(m: MemView, t: u64, i: u64)
    requires
        m.wf(),
        child_available(m, t, i),
        !m.free.contains(t),
        i < 512,
    ensures
        ({
            let n = with_child(m, t, i);
            let c = pte_ppn(n.pte(t, i));
            &&& n.wf()
            &&& n.base == m.base
            &&& n.bytes.len() == m.bytes.len()
            &&& pte_valid(n.pte(t, i))
            &&& n.backed(c)
            &&& forall|u: u64| #![auto] n.backed(u) == m.backed(u)
            &&& pte_valid(m.pte(t, i)) ==> n == m
            &&& !pte_valid(m.pte(t, i)) ==> {
                &&& c == m.free.last()
                &&& n.pte(t, i) == pte_word(m.free.last(), PTE_V)
                &&& n.free == m.free.drop_last()
                &&& !n.free.contains(c)
                &&& m.free.contains(c)
                &&& forall|k: u64| k < 512 ==> #[trigger] n.pte(c, k) == 0
                &&& forall|u: u64, k: u64|
                    m.backed(u) && k < 512 && u != c && (u != t || k != i) ==> #[trigger] n.pte(
                        u,
                        k,
                    ) == m.pte(u, k)
                &&& forall|u: u64|
                    m.backed(u) && u != c && u != t ==> #[trigger] n.frame(u) == m.frame(u)
            }
        }),
{
    if !pte_valid(m.pte(t, i)) {
        lemma_take_frame(m);
        let f = m.free.last();
        assert(m.free[m.free.len() - 1] == f);
        assert(m.backed(f));
        lemma_pte_word(f, PTE_V);
        lemma_put_pte(m.take_frame(), t, i, pte_word(f, PTE_V));
    }
}

/// The tables under `root` form a tree in memory: no frame is used as a table
/// twice, and none of them is free.
pub open spec fn tree_wf(m: MemView, root: u64) -> bool {
    &&& m.wf()
    &&& m.backed(root)
    &&& !m.free.contains(root)
    &&& forall|i: u64|
        i < 512 && (#[trigger] table1(m, root, i)) is Some ==> {
            let t = table1(m, root, i)->0;
            m.backed(t) && t != root && !m.free.contains(t)
        }
    &&& forall|i: u64, j: u64|
        i < 512 && j < 512 && (#[trigger] table2(m, root, i, j)) is Some ==> {
            let t = table2(m, root, i, j)->0;
            m.backed(t) && t != root && !m.free.contains(t)
        }
    &&& forall|i: u64, k: u64|
        i < 512 && k < 512 && (#[trigger] table1(m, root, i)) is Some && table1(m, root, i) == (
        #[trigger] table1(m, root, k)) ==> i == k
    &&& forall|i: u64, k: u64, l: u64|
        i < 512 && k < 512 && l < 512 && (#[trigger] table1(m, root, i)) is Some ==> table1(
            m,
            root,
            i,
        ) != (#[trigger] table2(m, root, k, l))
    &&& forall|i: u64, j: u64, k: u64, l: u64|
        i < 512 && j < 512 && k < 512 && l < 512 && (#[trigger] table2(m, root, i, j)) is Some
            && table2(m, root, i, j) == (#[trigger] table2(m, root, k, l)) ==> i == k && j == l
}

/// Is the frame one of the tables under `root`?
pub open spec fn is_table(m: MemView, root: u64, t: u64) -> bool {
    ||| t == root
    ||| exists|i: u64| i < 512 && #[trigger] table1(m, root, i) == Some(t)
    ||| exists|i: u64, j: u64| i < 512 && j < 512 && #[trigger] table2(m, root, i, j) == Some(t)
}

/// Putting a level-1 table in place keeps the tree and every last-level entry.
proof fn lemma_grow1(m: MemView, root: u64, a: u64)
    requires
        tree_wf(m, root),
        a < 512,
        child_available(m, root, a),
    ensures
        ({
            let n = with_child(m, root, a);
            &&& tree_wf(n, root)
            &&& table1(n, root, a) == Some(pte_ppn(n.pte(root, a)))
            &&& forall|i: u64| i < 512 && i != a ==> #[trigger] table1(n, root, i) == table1(m, root, i)
            &&& table1(m, root, a) is Some ==> n == m
            &&& table1(m, root, a) is None ==> forall|j: u64|
                j < 512 ==> #[trigger] table2(n, root, a, j) is None
            &&& forall|i: u64, j: u64|
                i < 512 && j < 512 && i != a ==> #[trigger] table2(n, root, i, j) == table2(
                    m,
                    root,
                    i,
                    j,
                )
            &&& forall|i: u64, j: u64, k: u64|
                i < 512 && j < 512 && k < 512 ==> #[trigger] leaf(n, root, i, j, k) == leaf(
                    m,
                    root,
                    i,
                    j,
                    k,
                )
        }),
{
    let n = with_child(m, root, a);
    lemma_with_child(m, root, a);
    if table1(m, root, a) is None {
        let c = m.free.last();
        assert(table1(n, root, a) == Some(c));
        assert forall|i: u64| i < 512 && i != a implies #[trigger] table1(n, root, i) == table1(
            m,
            root,
            i,
        ) by {}
        assert forall|j: u64| j < 512 implies #[trigger] table2(n, root, a, j) is None by {
            assert(n.pte(c, j) == 0);
        }
        assert forall|i: u64, j: u64| i < 512 && j < 512 && i != a implies #[trigger] table2(
            n,
            root,
            i,
            j,
        ) == table2(m, root, i, j) by {
            assert(table1(n, root, i) == table1(m, root, i));
            if table1(m, root, i) is Some {
                let t = table1(m, root, i)->0;
                assert(n.pte(t, j) == m.pte(t, j));
            }
        }
        assert forall|i: u64, j: u64, k: u64| i < 512 && j < 512 && k < 512 implies #[trigger] leaf(
            n,
            root,
            i,
            j,
            k,
        ) == leaf(m, root, i, j, k) by {
            if i == a {
                assert(table2(n, root, a, j) is None);
            } else {
                assert(table2(n, root, i, j) == table2(m, root, i, j));
                if table2(m, root, i, j) is Some {
                    let t = table2(m, root, i, j)->0;
                    assert(n.pte(t, k) == m.pte(t, k));
                }
            }
        }
        assert forall|t: u64| !m.free.contains(t) implies !n.free.contains(t) by {
            if n.free.contains(t) {
                let x = choose|x: int| 0 <= x < n.free.len() && n.free[x] == t;
                assert(m.free[x] == t);
            }
        }
        assert forall|i: u64, j: u64| i < 512 && j < 512 implies (#[trigger] table2(n, root, i, j))
            == (if i == a { None } else { table2(m, root, i, j) }) by {}
        assert forall|i: u64| i < 512 implies (#[trigger] table1(n, root, i)) == (if i == a {
            Some(c)
        } else {
            table1(m, root, i)
        }) by {}
    }
}

/// Putting a level-2 table in place keeps the tree and every valid last-level
/// entry; the entries of a new table are not valid.
proof fn lemma_grow2(m: MemView, root: u64, a: u64, b: u64)
    requires
        tree_wf(m, root),
        a < 512,
        b < 512,
        table1(m, root, a) is Some,
        child_available(m, table1(m, root, a)->0, b),
    ensures
        ({
            let t1 = table1(m, root, a)->0;
            let n = with_child(m, t1, b);
            &&& tree_wf(n, root)
            &&& table1(n, root, a) == Some(t1)
            &&& forall|i: u64| i < 512 ==> #[trigger] table1(n, root, i) == table1(m, root, i)
            &&& table2(n, root, a, b) == Some(pte_ppn(n.pte(t1, b)))
            &&& table2(m, root, a, b) is Some ==> n == m
            &&& table2(m, root, a, b) is None ==> forall|k: u64|
                k < 512 ==> #[trigger] leaf(n, root, a, b, k) == Some(0u64)
            &&& forall|i: u64, j: u64|
                i < 512 && j < 512 && !(i == a && j == b) ==> #[trigger] table2(n, root, i, j)
                    == table2(m, root, i, j)
            &&& forall|i: u64, j: u64, k: u64|
                i < 512 && j < 512 && k < 512 && !(i == a && j == b) ==> #[trigger] leaf(
                    n,
                    root,
                    i,
                    j,
                    k,
                ) == leaf(m, root, i, j, k)
        }),
{
    let t1 = table1(m, root, a)->0;
    let n = with_child(m, t1, b);
    lemma_with_child(m, t1, b);
    if table2(m, root, a, b) is None {
        let c = m.free.last();
        assert forall|i: u64| i < 512 implies #[trigger] table1(n, root, i) == table1(m, root, i) by {
            assert(n.pte(root, i) == m.pte(root, i));
        }
        assert(table2(n, root, a, b) == Some(c));
        assert forall|k: u64| k < 512 implies #[trigger] leaf(n, root, a, b, k) == Some(0u64) by {
            assert(n.pte(c, k) == 0);
        }
        assert forall|i: u64, j: u64| i < 512 && j < 512 && !(i == a && j == b) implies #[trigger] table2(
            n,
            root,
            i,
            j,
        ) == table2(m, root, i, j) by {
            assert(table1(n, root, i) == table1(m, root, i));
            if table1(m, root, i) is Some {
                let t = table1(m, root, i)->0;
                if i != a {
                    assert(table1(m, root, i) != table1(m, root, a));
                }
                assert(n.pte(t, j) == m.pte(t, j));
            }
        }
        assert forall|i: u64, j: u64, k: u64|
            i < 512 && j < 512 && k < 512 && !(i == a && j == b) implies #[trigger] leaf(
            n,
            root,
            i,
            j,
            k,
        ) == leaf(m, root, i, j, k) by {
            assert(table2(n, root, i, j) == table2(m, root, i, j));
            if table2(m, root, i, j) is Some {
                let t = table2(m, root, i, j)->0;
                assert(table1(m, root, a) != table2(m, root, i, j));
                assert(n.pte(t, k) == m.pte(t, k));
            }
        }
        assert forall|t: u64| !m.free.contains(t) implies !n.free.contains(t) by {
            if n.free.contains(t) {
                let x = choose|x: int| 0 <= x < n.free.len() && n.free[x] == t;
                assert(m.free[x] == t);
            }
        }
        assert forall|i: u64, j: u64| i < 512 && j < 512 implies (#[trigger] table2(n, root, i, j))
            == (if i == a && j == b { Some(c) } else { table2(m, root, i, j) }) by {}
    } else {
        assert(table2(n, root, a, b) == Some(pte_ppn(n.pte(t1, b))));
    }
}

/// Setting a last-level entry changes that entry alone.
proof fn lemma_set_leaf(m: MemView, root: u64, a: u64, b: u64, c: u64, bits: u64)
    requires
        tree_wf(m, root),
        a < 512,
        b < 512,
        c < 512,
        table2(m, root, a, b) is Some,
    ensures
        ({
            let n = m.put_pte(table2(m, root, a, b)->0, c, bits);
            &&& tree_wf(n, root)
            &&& forall|i: u64| i < 512 ==> #[trigger] table1(n, root, i) == table1(m, root, i)
            &&& forall|i: u64, j: u64|
                i < 512 && j < 512 ==> #[trigger] table2(n, root, i, j) == table2(m, root, i, j)
            &&& forall|i: u64, j: u64, k: u64|
                i < 512 && j < 512 && k < 512 ==> #[trigger] leaf(n, root, i, j, k) == if i == a && j
                    == b && k == c {
                    Some(bits)
                } else {
                    leaf(m, root, i, j, k)
                }
        }),
{
    let t2 = table2(m, root, a, b)->0;
    let n = m.put_pte(t2, c, bits);
    assert(m.backed(t2) && t2 != root);
    lemma_put_pte(m, t2, c, bits);
    assert forall|i: u64| i < 512 implies #[trigger] table1(n, root, i) == table1(m, root, i) by {
        assert(n.pte(root, i) == m.pte(root, i));
    }
    assert forall|i: u64, j: u64| i < 512 && j < 512 implies #[trigger] table2(n, root, i, j)
        == table2(m, root, i, j) by {
        assert(table1(n, root, i) == table1(m, root, i));
        if table1(m, root, i) is Some {
            assert(table1(m, root, i) != table2(m, root, a, b));
            let t = table1(m, root, i)->0;
            assert(n.pte(t, j) == m.pte(t, j));
        }
    }
    assert forall|i: u64, j: u64, k: u64| i < 512 && j < 512 && k < 512 implies #[trigger] leaf(
        n,
        root,
        i,
        j,
        k,
    ) == if i == a && j == b && k == c {
        Some(bits)
    } else {
        leaf(m, root, i, j, k)
    } by {
        assert(table2(n, root, i, j) == table2(m, root, i, j));
        if table2(m, root, i, j) is Some {
            let t = table2(m, root, i, j)->0;
            if !(i == a && j == b) {
                assert(table2(m, root, i, j) != table2(m, root, a, b));
            }
            assert(n.pte(t, k) == if t == t2 && k == c {
                bits
            } else {
                m.pte(t, k)
            });
        }
    }
}

/// Putting the tables for a page in place keeps the tree and what it maps.
pub proof fn lemma_path(m: MemView, root: u64, vpn: u64)
    requires
        tree_wf(m, root),
        path_available(m, root, vpn),
    ensures
        tree_wf(path2(m, root, vpn), root),
        leaf_table(path2(m, root, vpn), root, vpn) == Some(path2_table(m, root, vpn)),
        path2(m, root, vpn).backed(path2_table(m, root, vpn)),
        path2(m, root, vpn).base == m.base,
        path2(m, root, vpn).bytes.len() == m.bytes.len(),
        forall|v: u64|
            #![trigger mapping(path2(m, root, vpn), root, v)]
            mapping(path2(m, root, vpn), root, v) == mapping(m, root, v),
{
    let a = vpn_index(vpn, 0);
    let b = vpn_index(vpn, 1);
    let m1 = path1(m, root, vpn);
    let m2 = path2(m, root, vpn);
    lemma_grow1(m, root, a);
    lemma_with_child(m, root, a);
    lemma_grow2(m1, root, a, b);
    lemma_with_child(m1, path1_table(m, root, vpn), b);
    assert forall|v: u64| #![trigger mapping(m2, root, v)] mapping(m2, root, v) == mapping(
        m,
        root,
        v,
    ) by {
        let i = vpn_index(v, 0);
        let j = vpn_index(v, 1);
        let k = vpn_index(v, 2);
        assert(leaf(m1, root, i, j, k) == leaf(m, root, i, j, k));
        if i == a && j == b {
            if table2(m1, root, a, b) is None {
                assert(leaf(m2, root, a, b, k) == Some(0u64));
            }
        } else {
            assert(leaf(m2, root, i, j, k) == leaf(m1, root, i, j, k));
        }
    }
}

/// In a tree, a page that is not mapped can be mapped once there are frames for its
/// tables.
pub proof fn lemma_can_map(m: MemView, root: u64, vpn: u64)
    requires
        tree_wf(m, root),
        path_available(m, root, vpn),
        mapping(m, root, vpn) is None,
    ensures
        can_map(m, root, vpn),
{
    lemma_path(m, root, vpn);
    assert(mapping(path2(m, root, vpn), root, vpn) == mapping(m, root, vpn));
}

/// Number of tables that are missing on the way to page `vpn`.
pub open spec fn missing_tables(m: MemView, root: u64, vpn: u64) -> nat {
    if table1(m, root, vpn_index(vpn, 0)) is None {
        2
    } else if leaf_table(m, root, vpn) is None {
        1
    } else {
        0
    }
}

/// In a tree, the tables for a page can be put in place where there is a free frame
/// for each that is missing.
pub proof fn lemma_path_available(m: MemView, root: u64, vpn: u64)
    requires
        tree_wf(m, root),
    ensures
        path_available(m, root, vpn) == (m.free.len() >= missing_tables(m, root, vpn)),
{
    let a = vpn_index(vpn, 0);
    let b = vpn_index(vpn, 1);
    if table1(m, root, a) is Some {
        assert(m.backed(table1(m, root, a)->0));
        if table2(m, root, a, b) is Some {
            assert(m.backed(table2(m, root, a, b)->0));
        }
    } else if m.free.len() > 0 {
        lemma_with_child(m, root, a);
        let n = path1(m, root, vpn);
        assert(n.pte(path1_table(m, root, vpn), b) == 0);
    }
}

/// In a tree, the way to every page lies in memory.
pub proof fn lemma_path_backed(m: MemView, root: u64, vpn: u64)
    requires
        tree_wf(m, root),
    ensures
        path_backed(m, root, vpn),
{
    assert(table1(m, root, vpn_index(vpn, 0)) is Some ==> m.backed(
        table1(m, root, vpn_index(vpn, 0))->0,
    ));
    assert(table2(m, root, vpn_index(vpn, 0), vpn_index(vpn, 1)) is Some ==> m.backed(
        table2(m, root, vpn_index(vpn, 0), vpn_index(vpn, 1))->0,
    ));
}

/// Memory `n` came from `m` by work on the tables under `root`: tables that are new
/// were free before, no frame became free, and a frame that was neither free nor a
/// table keeps its bytes.
pub open spec fn tables_only(m: MemView, n: MemView, root: u64) -> bool {
    &&& n.base == m.base
    &&& n.bytes.len() == m.bytes.len()
    &&& forall|t: u64| #[trigger] is_table(n, root, t) ==> is_table(m, root, t) || m.free.contains(t)
    &&& forall|t: u64| #[trigger] n.free.contains(t) ==> m.free.contains(t)
    &&& forall|t: u64|
        m.backed(t) && !is_table(m, root, t) && !m.free.contains(t) ==> #[trigger] n.frame(t)
            == m.frame(t)
}

/// The tables in `n` are those in `m` and the frames `new`.
pub open spec fn tables_added(m: MemView, n: MemView, root: u64, new: Seq<u64>) -> bool {
    forall|t: u64| #[trigger] is_table(n, root, t) == (is_table(m, root, t) || new.contains(t))
}

/// Frames that are added one after the other are added together.
pub proof fn lemma_tables_added(
    m: MemView,
    n: MemView,
    o: MemView,
    root: u64,
    a: Seq<u64>,
    b: Seq<u64>,
)
    requires
        tables_added(m, n, root, a),
        tables_added(n, o, root, b),
    ensures
        tables_added(m, o, root, a + b),
{
    assert forall|t: u64| #[trigger] is_table(o, root, t) == (is_table(m, root, t) || (a
        + b).contains(t)) by {
        assert(is_table(n, root, t) == (is_table(m, root, t) || a.contains(t)));
        if a.contains(t) {
            let x = choose|x: int| 0 <= x < a.len() && a[x] == t;
            assert((a + b)[x] == t);
        }
        if b.contains(t) {
            let x = choose|x: int| 0 <= x < b.len() && b[x] == t;
            assert((a + b)[a.len() + x] == t);
        }
        if (a + b).contains(t) {
            let x = choose|x: int| 0 <= x < (a + b).len() && (a + b)[x] == t;
            if x < a.len() {
                assert(a[x] == t);
            } else {
                assert(b[x - a.len()] == t);
            }
        }
    }
}

proof fn lemma_tables_only_trans(m: MemView, n: MemView, o: MemView, root: u64)
    requires
        tables_only(m, n, root),
        tables_only(n, o, root),
    ensures
        tables_only(m, o, root),
{
    assert forall|t: u64| m.backed(t) && !is_table(m, root, t) && !m.free.contains(
        t,
    ) implies #[trigger] o.frame(t) == m.frame(t) by {
        assert(!is_table(n, root, t));
        assert(!n.free.contains(t));
        assert(n.backed(t));
        assert(o.frame(t) == n.frame(t));
        assert(n.frame(t) == m.frame(t));
    }
}

proof fn lemma_grow1_only(m: MemView, root: u64, a: u64)
    requires
        tree_wf(m, root),
        a < 512,
        child_available(m, root, a),
    ensures
        tables_only(m, with_child(m, root, a), root),
        tables_added(m, with_child(m, root, a), root, new_child(m, root, a)),
{
    let n = with_child(m, root, a);
    lemma_grow1(m, root, a);
    lemma_with_child(m, root, a);
    assert(tables_added(m, n, root, new_child(m, root, a))) by {
        let c = m.free.last();
        if table1(m, root, a) is None {
            assert(new_child(m, root, a)[0] == c);
            assert(table1(n, root, a) == Some(c));
        }
        assert forall|t: u64| #[trigger] is_table(n, root, t) == (is_table(m, root, t)
            || new_child(m, root, a).contains(t)) by {
            if is_table(m, root, t) && t != root {
                if exists|i: u64| i < 512 && #[trigger] table1(m, root, i) == Some(t) {
                    let i = choose|i: u64| i < 512 && #[trigger] table1(m, root, i) == Some(t);
                    assert(table1(n, root, i) == Some(t));
                } else {
                    let (i, j) = choose|i: u64, j: u64|
                        i < 512 && j < 512 && #[trigger] table2(m, root, i, j) == Some(t);
                    assert(table2(n, root, i, j) == Some(t));
                }
            }
            if is_table(n, root, t) && t != root {
                if exists|i: u64| i < 512 && #[trigger] table1(n, root, i) == Some(t) {
                    let i = choose|i: u64| i < 512 && #[trigger] table1(n, root, i) == Some(t);
                    if i != a {
                        assert(table1(m, root, i) == Some(t));
                    }
                } else {
                    let (i, j) = choose|i: u64, j: u64|
                        i < 512 && j < 512 && #[trigger] table2(n, root, i, j) == Some(t);
                    assert(table2(m, root, i, j) == Some(t));
                }
            }
        }
    }
    if table1(m, root, a) is None {
        let c = m.free.last();
        assert forall|t: u64| #[trigger] is_table(n, root, t) implies is_table(m, root, t)
            || m.free.contains(t) by {
            if t != root {
                if exists|i: u64| i < 512 && #[trigger] table1(n, root, i) == Some(t) {
                    let i = choose|i: u64| i < 512 && #[trigger] table1(n, root, i) == Some(t);
                    if i != a {
                        assert(table1(m, root, i) == Some(t));
                    } else {
                        assert(t == c);
                    }
                } else {
                    let (i, j) = choose|i: u64, j: u64|
                        i < 512 && j < 512 && #[trigger] table2(n, root, i, j) == Some(t);
                    assert(i != a);
                    assert(table2(m, root, i, j) == Some(t));
                }
            }
        }
        assert forall|t: u64| #[trigger] n.free.contains(t) implies m.free.contains(t) by {
            let x = choose|x: int| 0 <= x < n.free.len() && n.free[x] == t;
            assert(m.free[x] == t);
        }
        assert forall|t: u64| m.backed(t) && !is_table(m, root, t) && !m.free.contains(
            t,
        ) implies #[trigger] n.frame(t) == m.frame(t) by {
            assert(t != root && t != c);
        }
    }
}

proof fn lemma_grow2_only(m: MemView, root: u64, a: u64, b: u64)
    requires
        tree_wf(m, root),
        a < 512,
        b < 512,
        table1(m, root, a) is Some,
        child_available(m, table1(m, root, a)->0, b),
    ensures
        tables_only(m, with_child(m, table1(m, root, a)->0, b), root),
        tables_added(
            m,
            with_child(m, table1(m, root, a)->0, b),
            root,
            new_child(m, table1(m, root, a)->0, b),
        ),
{
    let t1 = table1(m, root, a)->0;
    let n = with_child(m, t1, b);
    lemma_grow2(m, root, a, b);
    lemma_with_child(m, t1, b);
    assert(is_table(m, root, t1));
    assert(tables_added(m, n, root, new_child(m, t1, b))) by {
        let c = m.free.last();
        if table2(m, root, a, b) is None {
            assert(new_child(m, t1, b)[0] == c);
            assert(table2(n, root, a, b) == Some(c));
        }
        assert forall|t: u64| #[trigger] is_table(n, root, t) == (is_table(m, root, t)
            || new_child(m, t1, b).contains(t)) by {
            if is_table(m, root, t) && t != root {
                if exists|i: u64| i < 512 && #[trigger] table1(m, root, i) == Some(t) {
                    let i = choose|i: u64| i < 512 && #[trigger] table1(m, root, i) == Some(t);
                    assert(table1(n, root, i) == Some(t));
                } else {
                    let (i, j) = choose|i: u64, j: u64|
                        i < 512 && j < 512 && #[trigger] table2(m, root, i, j) == Some(t);
                    assert(table2(n, root, i, j) == Some(t));
                }
            }
            if is_table(n, root, t) && t != root {
                if exists|i: u64| i < 512 && #[trigger] table1(n, root, i) == Some(t) {
                    let i = choose|i: u64| i < 512 && #[trigger] table1(n, root, i) == Some(t);
                    assert(table1(m, root, i) == Some(t));
                } else {
                    let (i, j) = choose|i: u64, j: u64|
                        i < 512 && j < 512 && #[trigger] table2(n, root, i, j) == Some(t);
                    if !(i == a && j == b) {
                        assert(table2(m, root, i, j) == Some(t));
                    }
                }
            }
        }
    }
    if table2(m, root, a, b) is None {
        let c = m.free.last();
        assert forall|t: u64| #[trigger] is_table(n, root, t) implies is_table(m, root, t)
            || m.free.contains(t) by {
            if t != root {
                if exists|i: u64| i < 512 && #[trigger] table1(n, root, i) == Some(t) {
                    let i = choose|i: u64| i < 512 && #[trigger] table1(n, root, i) == Some(t);
                    assert(table1(m, root, i) == Some(t));
                } else {
                    let (i, j) = choose|i: u64, j: u64|
                        i < 512 && j < 512 && #[trigger] table2(n, root, i, j) == Some(t);
                    if i == a && j == b {
                        assert(t == c);
                    } else {
                        assert(table2(m, root, i, j) == Some(t));
                    }
                }
            }
        }
        assert forall|t: u64| #[trigger] n.free.contains(t) implies m.free.contains(t) by {
            let x = choose|x: int| 0 <= x < n.free.len() && n.free[x] == t;
            assert(m.free[x] == t);
        }
        assert forall|t: u64| m.backed(t) && !is_table(m, root, t) && !m.free.contains(
            t,
        ) implies #[trigger] n.frame(t) == m.frame(t) by {
            assert(t != t1 && t != c);
        }
    }
}

proof fn lemma_set_leaf_only(m: MemView, root: u64, a: u64, b: u64, c: u64, bits: u64)
    requires
        tree_wf(m, root),
        a < 512,
        b < 512,
        c < 512,
        table2(m, root, a, b) is Some,
    ensures
        ({
            let n = m.put_pte(table2(m, root, a, b)->0, c, bits);
            &&& tables_only(m, n, root)
            &&& n.free == m.free
            &&& forall|t: u64| #[trigger] is_table(n, root, t) == is_table(m, root, t)
        }),
{
    let t2 = table2(m, root, a, b)->0;
    let n = m.put_pte(t2, c, bits);
    lemma_set_leaf(m, root, a, b, c, bits);
    assert(m.backed(t2));
    lemma_put_pte(m, t2, c, bits);
    assert(is_table(m, root, t2));
    assert forall|t: u64| #[trigger] is_table(n, root, t) == is_table(m, root, t) by {
        if is_table(n, root, t) && t != root {
            if exists|i: u64| i < 512 && #[trigger] table1(n, root, i) == Some(t) {
                let i = choose|i: u64| i < 512 && #[trigger] table1(n, root, i) == Some(t);
                assert(table1(m, root, i) == Some(t));
            } else {
                let (i, j) = choose|i: u64, j: u64|
                    i < 512 && j < 512 && #[trigger] table2(n, root, i, j) == Some(t);
                assert(table2(m, root, i, j) == Some(t));
            }
        }
        if is_table(m, root, t) && t != root {
            if exists|i: u64| i < 512 && #[trigger] table1(m, root, i) == Some(t) {
                let i = choose|i: u64| i < 512 && #[trigger] table1(m, root, i) == Some(t);
                assert(table1(n, root, i) == Some(t));
            } else {
                let (i, j) = choose|i: u64, j: u64|
                    i < 512 && j < 512 && #[trigger] table2(m, root, i, j) == Some(t);
                assert(table2(n, root, i, j) == Some(t));
            }
        }
    }
}

/// Mapping a page works on the tables only.
pub proof fn lemma_map_only(m: MemView, root: u64, vpn: u64, bits: u64)
    requires
        tree_wf(m, root),
        path_available(m, root, vpn),
    ensures
        tables_only(m, map_entry(m, root, vpn, bits), root),
        tables_added(m, map_entry(m, root, vpn, bits), root, path_frames(m, root, vpn)),
{
    let a = vpn_index(vpn, 0);
    let b = vpn_index(vpn, 1);
    let m1 = path1(m, root, vpn);
    let m2 = path2(m, root, vpn);
    lemma_grow1(m, root, a);
    lemma_grow1_only(m, root, a);
    lemma_with_child(m, root, a);
    lemma_grow2_only(m1, root, a, b);
    lemma_tables_only_trans(m, m1, m2, root);
    lemma_path(m, root, vpn);
    lemma_set_leaf_only(m2, root, a, b, vpn_index(vpn, 2), bits);
    lemma_tables_only_trans(m, m2, map_entry(m, root, vpn, bits), root);
    lemma_tables_added(
        m,
        m1,
        m2,
        root,
        new_child(m, root, a),
        new_child(m1, path1_table(m, root, vpn), b),
    );
    assert forall|t: u64| #[trigger]
        is_table(map_entry(m, root, vpn, bits), root, t) == (is_table(m, root, t) || path_frames(
            m,
            root,
            vpn,
        ).contains(t)) by {
        assert(is_table(m2, root, t) == (is_table(m, root, t) || path_frames(
            m,
            root,
            vpn,
        ).contains(t)));
    }
}

/// Setting the entry of a page whose tables are in place works on the tables only,
/// which stay what they are.
pub proof fn lemma_set_only(m: MemView, root: u64, vpn: u64, bits: u64)
    requires
        tree_wf(m, root),
        leaf_table(m, root, vpn) is Some,
    ensures
        tables_only(m, set_entry(m, root, vpn, bits), root),
        set_entry(m, root, vpn, bits).free == m.free,
        forall|t: u64| #[trigger]
            is_table(set_entry(m, root, vpn, bits), root, t) == is_table(m, root, t),
{
    lemma_set_leaf_only(
        m,
        root,
        vpn_index(vpn, 0),
        vpn_index(vpn, 1),
        vpn_index(vpn, 2),
        bits,
    );
}

/// A change that leaves the tables alone and frees none of them keeps the tree and
/// what it maps.
pub proof fn lemma_same_tables(m: MemView, n: MemView, root: u64)
    requires
        tree_wf(m, root),
        n.wf(),
        n.base == m.base,
        n.bytes.len() == m.bytes.len(),
        forall|t: u64, k: u64|
            is_table(m, root, t) && k < 512 ==> #[trigger] n.pte(t, k) == m.pte(t, k),
        forall|t: u64| #[trigger] is_table(m, root, t) ==> !n.free.contains(t),
    ensures
        tree_wf(n, root),
        forall|t: u64| #[trigger] is_table(n, root, t) == is_table(m, root, t),
        forall|v: u64| #[trigger] mapping(n, root, v) == mapping(m, root, v),
{
    assert(is_table(m, root, root));
    assert forall|i: u64| i < 512 implies #[trigger] table1(n, root, i) == table1(m, root, i) by {
        assert(n.pte(root, i) == m.pte(root, i));
    }
    assert forall|i: u64, j: u64| i < 512 && j < 512 implies #[trigger] table2(n, root, i, j)
        == table2(m, root, i, j) by {
        assert(table1(n, root, i) == table1(m, root, i));
        if table1(m, root, i) is Some {
            let t = table1(m, root, i)->0;
            assert(is_table(m, root, t));
            assert(n.pte(t, j) == m.pte(t, j));
        }
    }
    assert forall|i: u64, j: u64, k: u64| i < 512 && j < 512 && k < 512 implies #[trigger] leaf(
        n,
        root,
        i,
        j,
        k,
    ) == leaf(m, root, i, j, k) by {
        assert(table2(n, root, i, j) == table2(m, root, i, j));
        if table2(m, root, i, j) is Some {
            let t = table2(m, root, i, j)->0;
            assert(is_table(m, root, t));
            assert(n.pte(t, k) == m.pte(t, k));
        }
    }
    assert forall|i: u64| i < 512 && (#[trigger] table1(n, root, i)) is Some implies {
        let t = table1(n, root, i)->0;
        n.backed(t) && t != root && !n.free.contains(t)
    } by {
        assert(table1(m, root, i) is Some);
        assert(is_table(m, root, table1(m, root, i)->0));
    }
    assert forall|i: u64, j: u64|
        i < 512 && j < 512 && (#[trigger] table2(n, root, i, j)) is Some implies {
        let t = table2(n, root, i, j)->0;
        n.backed(t) && t != root && !n.free.contains(t)
    } by {
        assert(table2(m, root, i, j) is Some);
        assert(is_table(m, root, table2(m, root, i, j)->0));
    }
    assert forall|t: u64| #[trigger] is_table(n, root, t) == is_table(m, root, t) by {
        if is_table(n, root, t) && t != root {
            if exists|i: u64| i < 512 && #[trigger] table1(n, root, i) == Some(t) {
                let i = choose|i: u64| i < 512 && #[trigger] table1(n, root, i) == Some(t);
                assert(table1(m, root, i) == Some(t));
            } else {
                let (i, j) = choose|i: u64, j: u64|
                    i < 512 && j < 512 && #[trigger] table2(n, root, i, j) == Some(t);
                assert(table2(m, root, i, j) == Some(t));
            }
        }
        if is_table(m, root, t) && t != root {
            if exists|i: u64| i < 512 && #[trigger] table1(m, root, i) == Some(t) {
                let i = choose|i: u64| i < 512 && #[trigger] table1(m, root, i) == Some(t);
                assert(table1(n, root, i) == Some(t));
            } else {
                let (i, j) = choose|i: u64, j: u64|
                    i < 512 && j < 512 && #[trigger] table2(m, root, i, j) == Some(t);
                assert(table2(n, root, i, j) == Some(t));
            }
        }
    }
    assert forall|v: u64| #[trigger] mapping(n, root, v) == mapping(m, root, v) by {
        assert(leaf(n, root, vpn_index(v, 0), vpn_index(v, 1), vpn_index(v, 2)) == leaf(
            m,
            root,
            vpn_index(v, 0),
            vpn_index(v, 1),
            vpn_index(v, 2),
        ));
    }
}

/// After a page is mapped, it maps to what was asked for; every other page maps
/// to what it mapped to before, and the tables still form a tree.
pub proof fn law_map_sets_one_page(m: MemView, root: u64, vpn: u64, ppn: u64, flags: u8)
    requires
        tree_wf(m, root),
        path_available(m, root, vpn),
        vpn < VPN_SPAN,
        ppn < PPN_SPAN,
    ensures
        ({
            let bits = pte_word(ppn, flags | PTE_V);
            let n = map_entry(m, root, vpn, bits);
            &&& tree_wf(n, root)
            &&& mapping(n, root, vpn) == Some(bits)
            &&& pte_ppn(bits) == ppn
            &&& forall|v: u64|
                v < VPN_SPAN && v != vpn ==> #[trigger] mapping(n, root, v) == mapping(m, root, v)
        }),
{
    let bits = pte_word(ppn, flags | PTE_V);
    let a = vpn_index(vpn, 0);
    let b = vpn_index(vpn, 1);
    let c = vpn_index(vpn, 2);
    let m2 = path2(m, root, vpn);
    let n = map_entry(m, root, vpn, bits);
    lemma_flags_valid(flags);
    lemma_pte_word(ppn, flags | PTE_V);
    lemma_path(m, root, vpn);
    lemma_set_leaf(m2, root, a, b, c, bits);
    assert(leaf(n, root, a, b, c) == Some(bits));
    assert forall|v: u64| v < VPN_SPAN && v != vpn implies #[trigger] mapping(n, root, v) == mapping(
        m,
        root,
        v,
    ) by {
        let i = vpn_index(v, 0);
        let j = vpn_index(v, 1);
        let k = vpn_index(v, 2);
        if i == a && j == b && k == c {
            lemma_indexes_determine_page(v, vpn);
        }
        assert(leaf(n, root, i, j, k) == leaf(m2, root, i, j, k));
        assert(mapping(m2, root, v) == mapping(m, root, v));
    }
}

/// After a page is unmapped it is not mapped; every other page maps to what it
/// mapped to before, and the tables still form a tree.
pub proof fn law_unmap_clears_one_page(m: MemView, root: u64, vpn: u64)
    requires
        tree_wf(m, root),
        vpn < VPN_SPAN,
        mapping(m, root, vpn) is Some,
    ensures
        ({
            let n = set_entry(m, root, vpn, 0);
            &&& tree_wf(n, root)
            &&& mapping(n, root, vpn) is None
            &&& forall|v: u64|
                v < VPN_SPAN && v != vpn ==> #[trigger] mapping(n, root, v) == mapping(m, root, v)
        }),
{
    let a = vpn_index(vpn, 0);
    let b = vpn_index(vpn, 1);
    let c = vpn_index(vpn, 2);
    let n = set_entry(m, root, vpn, 0);
    lemma_set_leaf(m, root, a, b, c, 0);
    assert(leaf(n, root, a, b, c) == Some(0u64));
    assert forall|v: u64| v < VPN_SPAN && v != vpn implies #[trigger] mapping(n, root, v) == mapping(
        m,
        root,
        v,
    ) by {
        let i = vpn_index(v, 0);
        let j = vpn_index(v, 1);
        let k = vpn_index(v, 2);
        if i == a && j == b && k == c {
            lemma_indexes_determine_page(v, vpn);
        }
        assert(leaf(n, root, i, j, k) == leaf(m, root, i, j, k));
    }
}

/// A page that is unmapped after it was mapped leaves every page mapped as it
/// was before.
pub proof fn law_unmap_undoes_map(m: MemView, root: u64, vpn: u64, ppn: u64, flags: u8)
    requires
        tree_wf(m, root),
        path_available(m, root, vpn),
        vpn < VPN_SPAN,
        ppn < PPN_SPAN,
        mapping(m, root, vpn) is None,
    ensures
        ({
            let n = map_entry(m, root, vpn, pte_word(ppn, flags | PTE_V));
            forall|v: u64|
                v < VPN_SPAN ==> #[trigger] mapping(set_entry(n, root, vpn, 0), root, v) == mapping(
                    m,
                    root,
                    v,
                )
        }),
{
    let n = map_entry(m, root, vpn, pte_word(ppn, flags | PTE_V));
    law_map_sets_one_page(m, root, vpn, ppn, flags);
    law_unmap_clears_one_page(n, root, vpn);
    assert forall|v: u64| v < VPN_SPAN implies #[trigger] mapping(
        set_entry(n, root, vpn, 0),
        root,
        v,
    ) == mapping(m, root, v) by {
        if v != vpn {
            assert(mapping(n, root, v) == mapping(m, root, v));
        }
    }
}

/// A new page table, made of one cleared frame, is a tree that maps nothing.
pub proof fn law_new_table_maps_nothing(m: MemView)
    requires
        m.wf(),
        m.free.len() > 0,
    ensures
        tree_wf(m.take_frame(), m.free.last()),
        forall|v: u64| #![trigger lookup(m.take_frame(), m.free.last(), v)]
            lookup(m.take_frame(), m.free.last(), v) is None,
{
    lemma_take_frame(m);
    let n = m.take_frame();
    let root = m.free.last();
    assert forall|i: u64| i < 512 implies (#[trigger] table1(n, root, i)) is None by {
        assert(n.pte(root, i) == 0);
    }
    assert forall|i: u64, j: u64| i < 512 && j < 512 implies (#[trigger] table2(n, root, i, j)) is None by {
        assert(table1(n, root, i) is None);
    }
    assert forall|v: u64| #![trigger lookup(n, root, v)] lookup(n, root, v) is None by {
        assert(table2(n, root, vpn_index(v, 0), vpn_index(v, 1)) is None);
    }
}

/// The digits of a page number are its indexes.
#[verifier::spinoff_prover]
proof fn lemma_digits_are_indexes(i: u64, j: u64, k: u64)
    requires
        i < 512,
        j < 512,
        k < 512,
    ensures
        vpn_index((i * 262144 + j * 512 + k) as u64, 0) == i,
        vpn_index((i * 262144 + j * 512 + k) as u64, 1) == j,
        vpn_index((i * 262144 + j * 512 + k) as u64, 2) == k,
{
    let v = (i * 262144 + j * 512 + k) as u64;
    assert((v / 262144) % 512 == i && (v / 512) % 512 == j && v % 512 == k) by (bit_vector)
        requires
            v == i * 262144 + j * 512 + k,
            i < 512,
            j < 512,
            k < 512,
    ;
}

/// A page is looked up through three tables, which are picked by the digits of its
/// number to the base 512: the entry of the first and of the second must be valid and
/// leads to the next table, and the entry of the third is what is found. A page is mapped
/// where that entry is valid.
#[verifier::spinoff_prover]
pub proof fn law_lookup_goes_through_three_tables(m: MemView, root: u64, i: u64, j: u64, k: u64)
    requires
        i < 512,
        j < 512,
        k < 512,
    ensures
        ({
            let vpn = (i * 262144 + j * 512 + k) as u64;
            let e1 = m.pte(root, i);
            let t1 = e1 / 1024 % 0x1000_0000_0000;
            let e2 = m.pte(t1, j);
            let t2 = e2 / 1024 % 0x1000_0000_0000;
            let e3 = m.pte(t2, k);
            &&& lookup(m, root, vpn) == if e1 % 2 == 1 && e2 % 2 == 1 {
                Some(e3)
            } else {
                None
            }
            &&& mapping(m, root, vpn) == if e1 % 2 == 1 && e2 % 2 == 1 && e3 % 2 == 1 {
                Some(e3)
            } else {
                None
            }
        }),
{
    lemma_digits_are_indexes(i, j, k);
}

/// The tables on the way to a page lie in memory where the root does and where each valid
/// entry on the way leads to a frame that does.
#[verifier::spinoff_prover]
pub proof fn law_way_to_a_page(m: MemView, root: u64, i: u64, j: u64, k: u64)
    requires
        i < 512,
        j < 512,
        k < 512,
    ensures
        ({
            let vpn = (i * 262144 + j * 512 + k) as u64;
            let e1 = m.pte(root, i);
            let t1 = e1 / 1024 % 0x1000_0000_0000;
            let e2 = m.pte(t1, j);
            let t2 = e2 / 1024 % 0x1000_0000_0000;
            path_backed(m, root, vpn) == {
                &&& m.backed(root)
                &&& e1 % 2 == 1 ==> m.backed(t1) && (e2 % 2 == 1 ==> m.backed(t2))
            }
        }),
{
    let vpn = (i * 262144 + j * 512 + k) as u64;
    lemma_digits_are_indexes(i, j, k);
    let e1 = m.pte(root, i);
    let t1 = e1 / 1024 % 0x1000_0000_0000;
    assert(table1(m, root, i) == if e1 % 2 == 1 {
        Some(t1)
    } else {
        None
    });
    assert(leaf_table(m, root, vpn) == table2(m, root, i, j));
}

/// A page that is not mapped can be mapped where there is a free frame for each table that
/// is missing on the way to it: two where the first table has no valid entry, one where only
/// the last table is missing, none where all are there.
#[verifier::spinoff_prover]
pub proof fn law_map_needs_frames_for_tables(m: MemView, root: u64, i: u64, j: u64, k: u64)
    requires
        tree_wf(m, root),
        i < 512,
        j < 512,
        k < 512,
    ensures
        ({
            let vpn = (i * 262144 + j * 512 + k) as u64;
            let needed: nat = if m.pte(root, i) % 2 == 0 {
                2
            } else if lookup(m, root, vpn) is None {
                1
            } else {
                0
            };
            &&& missing_tables(m, root, vpn) == needed
            &&& path_available(m, root, vpn) == (m.free.len() >= needed)
            &&& mapping(m, root, vpn) is None ==> can_map(m, root, vpn) == (m.free.len() >= needed)
            &&& can_map(m, root, vpn) ==> mapping(m, root, vpn) is None
        }),
{
    let vpn = (i * 262144 + j * 512 + k) as u64;
    lemma_digits_are_indexes(i, j, k);
    lemma_path_available(m, root, vpn);
    if path_available(m, root, vpn) {
        if mapping(m, root, vpn) is None {
            lemma_can_map(m, root, vpn);
        }
        lemma_path(m, root, vpn);
        assert(mapping(path2(m, root, vpn), root, vpn) == mapping(m, root, vpn));
    }
}

/// Mapping a page takes frames for the tables that are missing and no others, the last ones
/// that are free; the tables afterwards are those from before and these, and a frame that is
/// neither free nor a table keeps its bytes.
#[verifier::spinoff_prover]
pub proof fn law_map_takes_only_tables(m: MemView, root: u64, vpn: u64, bits: u64, t: u64)
    requires
        tree_wf(m, root),
        path_available(m, root, vpn),
    ensures
        ({
            let n = map_entry(m, root, vpn, bits);
            let new = path_frames(m, root, vpn);
            &&& new.len() == missing_tables(m, root, vpn)
            &&& n.free == m.free.take(m.free.len() - new.len())
            &&& forall|x: int|
                0 <= x < new.len() ==> #[trigger] new[x] == m.free[m.free.len() - 1 - x]
            &&& is_table(n, root, t) == (is_table(m, root, t) || new.contains(t))
            &&& m.backed(t) && !m.free.contains(t) && !is_table(m, root, t) ==> n.frame(t)
                == m.frame(t)
            &&& n.base == m.base
            &&& n.bytes.len() == m.bytes.len()
        }),
{
    let a = vpn_index(vpn, 0);
    let b = vpn_index(vpn, 1);
    lemma_map_only(m, root, vpn, bits);
    lemma_path_available(m, root, vpn);
    lemma_with_child(m, root, a);
    let m1 = path1(m, root, vpn);
    if table1(m, root, a) is None {
        assert(m1.pte(path1_table(m, root, vpn), b) == 0);
    }
    assert(map_entry(m, root, vpn, bits).free =~= m.free.take(
        m.free.len() - path_frames(m, root, vpn).len(),
    ));
}

/// The tables under a root are the root, the frames that its valid entries name, and the
/// frames that the valid entries of those name.
#[verifier::spinoff_prover]
pub proof fn law_tables_of_a_root(m: MemView, root: u64, t: u64)
    ensures
        is_table(m, root, t) == {
            ||| t == root
            ||| exists|i: u64|
                i < 512 && (#[trigger] m.pte(root, i)) % 2 == 1 && m.pte(root, i) / 1024
                    % 0x1000_0000_0000 == t
            ||| exists|i: u64, j: u64|
                i < 512 && j < 512 && (#[trigger] m.pte(root, i)) % 2 == 1 && (#[trigger] m.pte(
                    m.pte(root, i) / 1024 % 0x1000_0000_0000,
                    j,
                )) % 2 == 1 && m.pte(m.pte(root, i) / 1024 % 0x1000_0000_0000, j) / 1024
                    % 0x1000_0000_0000 == t
        },
{
    if exists|i: u64| i < 512 && #[trigger] table1(m, root, i) == Some(t) {
        let i = choose|i: u64| i < 512 && #[trigger] table1(m, root, i) == Some(t);
        assert(m.pte(root, i) % 2 == 1);
    }
    if exists|i: u64|
        i < 512 && (#[trigger] m.pte(root, i)) % 2 == 1 && m.pte(root, i) / 1024
            % 0x1000_0000_0000 == t {
        let i = choose|i: u64|
            i < 512 && (#[trigger] m.pte(root, i)) % 2 == 1 && m.pte(root, i) / 1024
                % 0x1000_0000_0000 == t;
        assert(table1(m, root, i) == Some(t));
    }
    if exists|i: u64, j: u64| i < 512 && j < 512 && #[trigger] table2(m, root, i, j) == Some(t) {
        let (i, j) = choose|i: u64, j: u64|
            i < 512 && j < 512 && #[trigger] table2(m, root, i, j) == Some(t);
        assert(m.pte(root, i) % 2 == 1);
        assert(m.pte(m.pte(root, i) / 1024 % 0x1000_0000_0000, j) % 2 == 1);
    }
    if exists|i: u64, j: u64|
        i < 512 && j < 512 && (#[trigger] m.pte(root, i)) % 2 == 1 && (#[trigger] m.pte(
            m.pte(root, i) / 1024 % 0x1000_0000_0000,
            j,
        )) % 2 == 1 && m.pte(m.pte(root, i) / 1024 % 0x1000_0000_0000, j) / 1024
            % 0x1000_0000_0000 == t {
        let (i, j) = choose|i: u64, j: u64|
            i < 512 && j < 512 && (#[trigger] m.pte(root, i)) % 2 == 1 && (#[trigger] m.pte(
                m.pte(root, i) / 1024 % 0x1000_0000_0000,
                j,
            )) % 2 == 1 && m.pte(m.pte(root, i) / 1024 % 0x1000_0000_0000, j) / 1024
                % 0x1000_0000_0000 == t;
        assert(table2(m, root, i, j) == Some(t));
    }
}

/// Unmapping a page frees no frame, makes no frame a table, and a frame that is neither free
/// nor a table keeps its bytes.
pub proof fn law_unmap_leaves_the_frames(m: MemView, root: u64, vpn: u64, t: u64)
    requires
        tree_wf(m, root),
        lookup(m, root, vpn) is Some,
    ensures
        ({
            let n = set_entry(m, root, vpn, 0);
            &&& n.free == m.free
            &&& is_table(n, root, t) == is_table(m, root, t)
            &&& m.backed(t) && !m.free.contains(t) && !is_table(m, root, t) ==> n.frame(t)
                == m.frame(t)
        }),
{
    lemma_set_only(m, root, vpn, 0);
}

} // verus!
