//! The meaning of a three-level Sv39 page table held in physical memory:
//! the walk that translates a virtual page number, the shape that makes
//! the tables a tree, and how creating tables and writing entries change
//! both.
use vstd::prelude::*;
use crate::address::{PhysPageNum, PPN_LIMIT, VPN_LIMIT, vpn_index};
use crate::frame::PhysMemory;
use crate::page_table::{
    pte_encode, pte_flags, pte_ppn, pte_valid, token_root, lemma_pte_encode_decode, lemma_clear_and_link_flags,
};

verus! {

/// The second-level table that entry `i0` of the root table points to.
pub open spec fn l1_table(m: PhysMemory, root: u64, i0: u64) -> u64 {
    pte_ppn(m.word(root, i0))
}

/// Whether entry `i0` of the root table is valid.
pub open spec fn has_l1(m: PhysMemory, root: u64, i0: u64) -> bool {
    i0 < 512 && pte_valid(m.word(root, i0))
}

/// The leaf table that entry `i1` of the second-level table under root
/// entry `i0` points to.
pub open spec fn l2_table(m: PhysMemory, root: u64, i0: u64, i1: u64) -> u64 {
    pte_ppn(m.word(l1_table(m, root, i0), i1))
}

/// Whether root entry `i0` and entry `i1` of the table under it are valid.
pub open spec fn has_l2(m: PhysMemory, root: u64, i0: u64, i1: u64) -> bool {
    has_l1(m, root, i0) && i1 < 512 && pte_valid(m.word(l1_table(m, root, i0), i1))
}

/// The leaf entry that the walk from `root` reaches for `vpn`, or `None`
/// when an entry on the way is not valid.
pub open spec fn walk(m: PhysMemory, root: u64, vpn: u64) -> Option<u64> {
    let i0 = vpn_index(vpn, 0);
    let i1 = vpn_index(vpn, 1);
    let i2 = vpn_index(vpn, 2);
    if !has_l1(m, root, i0) {
        None
    } else if !has_l2(m, root, i0, i1) {
        None
    } else {
        Some(m.word(l2_table(m, root, i0, i1), i2))
    }
}

/// The pages the table rooted at `root` maps: each page number of 27 bits
/// whose walk reaches a valid leaf entry, with that entry.
pub open spec fn mappings(m: PhysMemory, root: u64) -> Map<u64, u64> {
    Map::new(
        |v: u64| v < VPN_LIMIT && walk(m, root, v) is Some && pte_valid(walk(m, root, v)->0),
        |v: u64| walk(m, root, v)->0,
    )
}

/// Whether every table the walk can reach is a frame that has been handed out.
pub open spec fn walkable(m: PhysMemory, root: u64) -> bool {
    &&& m.wf()
    &&& m.allocated(root)
    &&& forall|i0: u64| #[trigger] has_l1(m, root, i0) ==> m.allocated(l1_table(m, root, i0))
    &&& forall|i0: u64, i1: u64|
        #[trigger] has_l2(m, root, i0, i1) ==> m.allocated(l2_table(m, root, i0, i1))
}

/// Whether the tables reachable from `root` form a tree: every table is
/// reachable along one path only, and no table serves at two levels.
pub open spec fn tree_shaped(m: PhysMemory, root: u64) -> bool {
    &&& walkable(m, root)
    &&& forall|i0: u64| #[trigger] has_l1(m, root, i0) ==> l1_table(m, root, i0) != root
    &&& forall|i0: u64, i1: u64|
        #[trigger] has_l2(m, root, i0, i1) ==> l2_table(m, root, i0, i1) != root
    &&& forall|i0: u64, j0: u64|
        #[trigger] has_l1(m, root, i0) && #[trigger] has_l1(m, root, j0) && i0 != j0
            ==> l1_table(m, root, i0) != l1_table(m, root, j0)
    &&& forall|i0: u64, i1: u64, j0: u64, j1: u64|
        #[trigger] has_l2(m, root, i0, i1) && #[trigger] has_l2(m, root, j0, j1) && (i0 != j0
            || i1 != j1) ==> l2_table(m, root, i0, i1) != l2_table(m, root, j0, j1)
    &&& forall|i0: u64, j0: u64, j1: u64|
        #[trigger] has_l1(m, root, i0) && #[trigger] has_l2(m, root, j0, j1) ==> l1_table(
            m,
            root,
            i0,
        ) != l2_table(m, root, j0, j1)
}

/// Whether frame `p` holds one of the tables reachable from `root`.
pub open spec fn is_table(m: PhysMemory, root: u64, p: u64) -> bool {
    ||| p == root
    ||| exists|i0: u64| #[trigger] has_l1(m, root, i0) && l1_table(m, root, i0) == p
    ||| exists|i0: u64, i1: u64| #[trigger] has_l2(m, root, i0, i1) && l2_table(m, root, i0, i1) == p
}

/// Whether no frame holds a table of both `root` and `other`.
pub open spec fn tables_disjoint(m: PhysMemory, root: u64, other: u64) -> bool {
    forall|p: u64| #[trigger] is_table(m, root, p) ==> !is_table(m, other, p)
}

/// Number of tables that must be created before `vpn` has a leaf entry.
pub open spec fn frames_needed(m: PhysMemory, root: u64, vpn: u64) -> int {
    if !has_l1(m, root, vpn_index(vpn, 0)) {
        2
    } else if !has_l2(m, root, vpn_index(vpn, 0), vpn_index(vpn, 1)) {
        1
    } else {
        0
    }
}

/// The tables created on the way to the leaf entry of `vpn` when going
/// from `m0` to `m`: the missing second-level table, then the missing leaf
/// table, as frames.
pub open spec fn created_tables(m0: PhysMemory, m: PhysMemory, root: u64, vpn: u64) -> Seq<PhysPageNum> {
    let i0 = vpn_index(vpn, 0);
    let i1 = vpn_index(vpn, 1);
    if !has_l1(m0, root, i0) {
        seq![PhysPageNum(l1_table(m, root, i0)), PhysPageNum(l2_table(m, root, i0, i1))]
    } else if !has_l2(m0, root, i0, i1) {
        seq![PhysPageNum(l2_table(m, root, i0, i1))]
    } else {
        seq![]
    }
}

/// The two upper entries on the walk for `vpn` in `m`: each one that was
/// valid in `m0` keeps its bits, and each one that was not now points to
/// its table with only the valid flag set.
pub open spec fn path_links(m0: PhysMemory, m: PhysMemory, root: u64, vpn: u64) -> bool {
    let i0 = vpn_index(vpn, 0);
    let i1 = vpn_index(vpn, 1);
    &&& has_l1(m0, root, i0) ==> m.word(root, i0) == m0.word(root, i0)
    &&& !has_l1(m0, root, i0) ==> m.word(root, i0) == pte_encode(l1_table(m, root, i0), 1u8)
    &&& has_l2(m0, root, i0, i1) ==> m.word(l1_table(m, root, i0), i1) == m0.word(l1_table(m0, root, i0), i1)
    &&& !has_l2(m0, root, i0, i1) ==> m.word(l1_table(m, root, i0), i1) == pte_encode(
        l2_table(m, root, i0, i1),
        1u8,
    )
}

/// Whether `v` and `w` select the same entries at every level.
pub open spec fn same_path(v: u64, w: u64) -> bool {
    &&& vpn_index(v, 0) == vpn_index(w, 0)
    &&& vpn_index(v, 1) == vpn_index(w, 1)
    &&& vpn_index(v, 2) == vpn_index(w, 2)
}

/// Whether word `k` of frame `p` is one of the first `n` entries on the
/// walk for `vpn`, root entry first.
pub open spec fn on_path(m: PhysMemory, root: u64, vpn: u64, p: u64, k: u64, n: int) -> bool {
    let i0 = vpn_index(vpn, 0);
    let i1 = vpn_index(vpn, 1);
    ||| n > 0 && p == root && k == i0
    ||| n > 1 && p == l1_table(m, root, i0) && k == i1
    ||| n > 2 && p == l2_table(m, root, i0, i1) && k == vpn_index(vpn, 2)
}

/// Every index is below 512, and two page numbers below `1 << 27` select
/// the same path only if they are equal; a page number selects the same
/// path as its low 27 bits.
pub proof fn lemma_vpn_index_facts(v: u64, w: u64)
    ensures
        vpn_index(v, 0) < 512,
        vpn_index(v, 1) < 512,
        vpn_index(v, 2) < 512,
        v < VPN_LIMIT && w < VPN_LIMIT && same_path(v, w) ==> v == w,
        same_path(v, v % VPN_LIMIT),
        v % VPN_LIMIT < VPN_LIMIT,
{
    assert((v >> 18u64) & 511u64 < 512 && (v >> 9u64) & 511u64 < 512 && v & 511u64 < 512) by (bit_vector);
    assert(v < 0x800_0000u64 && w < 0x800_0000u64 && (v >> 18u64) & 511u64 == (w >> 18u64)
        & 511u64 && (v >> 9u64) & 511u64 == (w >> 9u64) & 511u64 && v & 511u64 == w & 511u64
        ==> v == w) by (bit_vector);
    assert((v >> 18u64) & 511u64 == ((v % 0x800_0000u64) >> 18u64) & 511u64 && (v >> 9u64) & 511u64 == ((v
        % 0x800_0000u64) >> 9u64) & 511u64 && v & 511u64 == (v % 0x800_0000u64) & 511u64) by (bit_vector);
}

/// A root table whose entries are all clear is a tree that maps nothing,
/// and every walk from it stops at the root.
pub proof fn lemma_empty_root(m: PhysMemory, root: u64)
    requires
        m.wf(),
        m.allocated(root),
        forall|k: u64| k < 512 ==> #[trigger] m.word(root, k) == 0,
    ensures
        tree_shaped(m, root),
        forall|v: u64| #[trigger] walk(m, root, v) is None,
        mappings(m, root) == Map::<u64, u64>::empty(),
{
    lemma_clear_and_link_flags();
    assert forall|i0: u64| !has_l1(m, root, i0) by {
        if i0 < 512 {
            assert(m.word(root, i0) == 0);
        }
    }
    assert forall|v: u64| #[trigger] walk(m, root, v) is None by {
        assert(!has_l1(m, root, vpn_index(v, 0)));
    }
    assert(mappings(m, root) =~= Map::<u64, u64>::empty());
}

/// Creating a cleared second-level table `f` under root entry `i0`, which
/// was not valid, keeps the tree shape and every walk.
pub proof fn lemma_create_l1(m: PhysMemory, m2: PhysMemory, root: u64, i0: u64, f: u64)
    requires
        tree_shaped(m, root),
        i0 < 512,
        !has_l1(m, root, i0),
        m2.is_link_of(m, f, root, i0, pte_encode(f, 1u8)),
    ensures
        tree_shaped(m2, root),
        has_l1(m2, root, i0),
        l1_table(m2, root, i0) == f,
        !m.allocated(f),
        m2.allocated(f),
        forall|v: u64| #[trigger] walk(m2, root, v) == walk(m, root, v),
        forall|j0: u64|
            j0 != i0 && j0 < 512 ==> #[trigger] has_l1(m2, root, j0) == has_l1(m, root, j0) && l1_table(
                m2,
                root,
                j0,
            ) == l1_table(m, root, j0),
        forall|j0: u64, j1: u64| #[trigger]
            has_l2(m2, root, j0, j1) == has_l2(m, root, j0, j1) && (has_l2(m, root, j0, j1)
                ==> l2_table(m2, root, j0, j1) == l2_table(m, root, j0, j1)),
{
    m.lemma_wf_bounds();
    m2.lemma_wf_bounds();
    lemma_pte_encode_decode(f, 1u8);
    lemma_clear_and_link_flags();
    assert(m2.word(root, i0) == pte_encode(f, 1u8));
    // The old second-level tables are untouched: none is the root or `f`.
    assert forall|j0: u64| j0 != i0 && j0 < 512 implies #[trigger] has_l1(m2, root, j0) == has_l1(
        m,
        root,
        j0,
    ) && l1_table(m2, root, j0) == l1_table(m, root, j0) by {
        assert(m2.word(root, j0) == m.word(root, j0));
    }
    assert forall|j0: u64, j1: u64| #[trigger]
        has_l2(m2, root, j0, j1) == has_l2(m, root, j0, j1) && (has_l2(m, root, j0, j1)
            ==> l2_table(m2, root, j0, j1) == l2_table(m, root, j0, j1)) by {
        if j0 == i0 {
            if j1 < 512 {
                assert(m2.word(f, j1) == 0);
            }
            assert(!has_l2(m2, root, j0, j1));
        } else if has_l1(m, root, j0) && j1 < 512 {
            let t = l1_table(m, root, j0);
            assert(m.allocated(t));
            assert(t != root);
            assert(m2.word(t, j1) == m.word(t, j1));
        }
    }
    assert forall|v: u64| #[trigger] walk(m2, root, v) == walk(m, root, v) by {
        lemma_vpn_index_facts(v, v);
        let j0 = vpn_index(v, 0);
        let j1 = vpn_index(v, 1);
        if has_l2(m, root, j0, j1) {
            let t = l2_table(m, root, j0, j1);
            assert(m.allocated(t));
            assert(has_l1(m, root, j0));
            assert(t != root);
            assert(m2.word(t, vpn_index(v, 2)) == m.word(t, vpn_index(v, 2)));
        }
    }
    assert(walkable(m2, root));
}

/// Creating a cleared leaf table `f` under entry `i1` of the second-level
/// table under root entry `i0`, where entry `i1` was not valid, keeps the
/// tree shape; the walks through that entry now reach a clear leaf entry of
/// `f` instead of stopping, and every other walk is unchanged.
pub proof fn lemma_create_l2(m: PhysMemory, m2: PhysMemory, root: u64, i0: u64, i1: u64, f: u64)
    requires
        tree_shaped(m, root),
        has_l1(m, root, i0),
        i1 < 512,
        !has_l2(m, root, i0, i1),
        m2.is_link_of(m, f, l1_table(m, root, i0), i1, pte_encode(f, 1u8)),
    ensures
        tree_shaped(m2, root),
        has_l2(m2, root, i0, i1),
        l2_table(m2, root, i0, i1) == f,
        !m.allocated(f),
        m2.allocated(f),
        forall|j0: u64|
            j0 < 512 ==> #[trigger] has_l1(m2, root, j0) == has_l1(m, root, j0) && l1_table(
                m2,
                root,
                j0,
            ) == l1_table(m, root, j0),
        forall|j0: u64, j1: u64|
            (j0 != i0 || j1 != i1) ==> #[trigger] has_l2(m2, root, j0, j1) == has_l2(
                m,
                root,
                j0,
                j1,
            ) && (has_l2(m, root, j0, j1) ==> l2_table(m2, root, j0, j1) == l2_table(
                m,
                root,
                j0,
                j1,
            )),
        forall|v: u64| #[trigger]
            walk(m2, root, v) == (if vpn_index(v, 0) == i0 && vpn_index(v, 1) == i1 {
                Some(0u64)
            } else {
                walk(m, root, v)
            }),
{
    m.lemma_wf_bounds();
    m2.lemma_wf_bounds();
    lemma_pte_encode_decode(f, 1u8);
    lemma_clear_and_link_flags();
    let t1 = l1_table(m, root, i0);
    assert(m.allocated(t1));
    assert(t1 != root);
    assert forall|j0: u64| j0 < 512 implies #[trigger] has_l1(m2, root, j0) == has_l1(m, root, j0)
        && l1_table(m2, root, j0) == l1_table(m, root, j0) by {
        assert(m2.word(root, j0) == m.word(root, j0));
    }
    assert(m2.word(t1, i1) == pte_encode(f, 1u8));
    assert(has_l2(m2, root, i0, i1));
    assert forall|j0: u64, j1: u64| (j0 != i0 || j1 != i1) implies #[trigger] has_l2(
        m2,
        root,
        j0,
        j1,
    ) == has_l2(m, root, j0, j1) && (has_l2(m, root, j0, j1) ==> l2_table(m2, root, j0, j1)
        == l2_table(m, root, j0, j1)) by {
        if has_l1(m, root, j0) && j1 < 512 {
            let t = l1_table(m, root, j0);
            assert(m.allocated(t));
            assert(m2.word(t, j1) == m.word(t, j1));
        }
    }
    assert forall|v: u64| #[trigger]
        walk(m2, root, v) == (if vpn_index(v, 0) == i0 && vpn_index(v, 1) == i1 {
            Some(0u64)
        } else {
            walk(m, root, v)
        }) by {
        lemma_vpn_index_facts(v, v);
        let j0 = vpn_index(v, 0);
        let j1 = vpn_index(v, 1);
        let j2 = vpn_index(v, 2);
        if j0 == i0 && j1 == i1 {
            assert(m2.word(f, j2) == 0);
        } else if has_l2(m, root, j0, j1) {
            let t = l2_table(m, root, j0, j1);
            assert(m.allocated(t));
            assert(t != root);
            assert(t != t1);
            assert(m2.word(t, j2) == m.word(t, j2));
        }
    }
    assert forall|j0: u64| #[trigger] has_l1(m2, root, j0) implies m2.allocated(
        l1_table(m2, root, j0),
    ) by {
        assert(has_l1(m, root, j0));
    }
    assert forall|j0: u64, j1: u64| #[trigger] has_l2(m2, root, j0, j1) implies m2.allocated(
        l2_table(m2, root, j0, j1),
    ) by {
        if j0 != i0 || j1 != i1 {
            assert(has_l2(m, root, j0, j1));
        }
    }
    assert(walkable(m2, root));
}

/// Writing `val` into the leaf entry `i2` of the leaf table reached through
/// root entry `i0` and entry `i1` below it keeps every table and the tree
/// shape; only the walks along that path change, and they reach `val`.
pub proof fn lemma_write_leaf(
    m: PhysMemory,
    m2: PhysMemory,
    root: u64,
    i0: u64,
    i1: u64,
    i2: u64,
    val: u64,
)
    requires
        tree_shaped(m, root),
        has_l2(m, root, i0, i1),
        i2 < 512,
        m2.is_write_of(m, l2_table(m, root, i0, i1), i2, val),
    ensures
        tree_shaped(m2, root),
        forall|j0: u64|
            j0 < 512 ==> #[trigger] has_l1(m2, root, j0) == has_l1(m, root, j0) && l1_table(
                m2,
                root,
                j0,
            ) == l1_table(m, root, j0),
        forall|j0: u64, j1: u64| #[trigger]
            has_l2(m2, root, j0, j1) == has_l2(m, root, j0, j1) && (has_l2(m, root, j0, j1)
                ==> l2_table(m2, root, j0, j1) == l2_table(m, root, j0, j1)),
        forall|v: u64| #[trigger]
            walk(m2, root, v) == (if vpn_index(v, 0) == i0 && vpn_index(v, 1) == i1 && vpn_index(
                v,
                2,
            ) == i2 {
                Some(val)
            } else {
                walk(m, root, v)
            }),
{
    let t2 = l2_table(m, root, i0, i1);
    assert(has_l1(m, root, i0));
    assert(t2 != root);
    assert forall|j0: u64| j0 < 512 implies #[trigger] has_l1(m2, root, j0) == has_l1(m, root, j0)
        && l1_table(m2, root, j0) == l1_table(m, root, j0) by {
        assert(m2.word(root, j0) == m.word(root, j0));
    }
    assert forall|j0: u64, j1: u64| #[trigger]
        has_l2(m2, root, j0, j1) == has_l2(m, root, j0, j1) && (has_l2(m, root, j0, j1)
            ==> l2_table(m2, root, j0, j1) == l2_table(m, root, j0, j1)) by {
        if has_l1(m, root, j0) && j1 < 512 {
            let t = l1_table(m, root, j0);
            assert(t != t2);
            assert(m2.word(t, j1) == m.word(t, j1));
        }
    }
    assert forall|v: u64| #[trigger]
        walk(m2, root, v) == (if vpn_index(v, 0) == i0 && vpn_index(v, 1) == i1 && vpn_index(
            v,
            2,
        ) == i2 {
            Some(val)
        } else {
            walk(m, root, v)
        }) by {
        lemma_vpn_index_facts(v, v);
        let j0 = vpn_index(v, 0);
        let j1 = vpn_index(v, 1);
        let j2 = vpn_index(v, 2);
        if has_l2(m, root, j0, j1) {
            let t = l2_table(m, root, j0, j1);
            if j0 != i0 || j1 != i1 {
                assert(t != t2);
            }
            assert(m2.word(t, j2) == (if t == t2 && j2 == i2 {
                val
            } else {
                m.word(t, j2)
            }));
        }
    }
    assert forall|j0: u64| #[trigger] has_l1(m2, root, j0) implies m2.allocated(
        l1_table(m2, root, j0),
    ) by {
        assert(has_l1(m, root, j0));
    }
    assert forall|j0: u64, j1: u64| #[trigger] has_l2(m2, root, j0, j1) implies m2.allocated(
        l2_table(m2, root, j0, j1),
    ) by {
        assert(has_l2(m, root, j0, j1));
    }
    assert(walkable(m2, root));
}

/// The `satp` value of a table whose root frame has been handed out names
/// that root frame again: building a table from a table's token gives a
/// table with the same root.
pub proof fn lemma_token_round_trip(m: PhysMemory, root: u64)
    requires
        walkable(m, root),
    ensures
        token_root(0x8000_0000_0000_0000u64 | root) == root,
{
    m.lemma_wf_bounds();
    assert(root < 0x1000_0000_0000u64 ==> (0x8000_0000_0000_0000u64 | root) % 0x1000_0000_0000u64
        == root) by (bit_vector);
}

/// After a page is mapped, its walk reaches an entry that gives back the
/// physical page and the flags, with the valid bit added.
pub proof fn lemma_translate_after_map(m: PhysMemory, root: u64, vpn: u64, ppn: u64, flags: u8)
    requires
        walk(m, root, vpn) == Some(pte_encode(ppn, flags | 1u8)),
        ppn < PPN_LIMIT,
    ensures
        pte_ppn(walk(m, root, vpn)->0) == ppn,
        pte_flags(walk(m, root, vpn)->0) == flags | 1u8,
        pte_valid(walk(m, root, vpn)->0),
{
    lemma_pte_encode_decode(ppn, flags | 1u8);
    assert((flags | 1u8) & 1u8 == 1u8) by (bit_vector);
}

/// Unmapping a page that mapping had just added gives back the mappings
/// from before the mapping.
pub proof fn lemma_unmap_undoes_map(
    m0: PhysMemory,
    m1: PhysMemory,
    m2: PhysMemory,
    root: u64,
    key: u64,
    entry: u64,
)
    requires
        !mappings(m0, root).contains_key(key),
        mappings(m1, root) == mappings(m0, root).insert(key, entry),
        mappings(m2, root) == mappings(m1, root).remove(key),
    ensures
        mappings(m2, root) == mappings(m0, root),
{
    assert(mappings(m2, root) =~= mappings(m0, root));
}

/// When every valid entry of the two upper levels of `m2` is one of `m1`
/// pointing to the same table, or points to `f`, every table of `m2` is a
/// table of `m1` or `f`.
pub proof fn lemma_tables_grow(m1: PhysMemory, m2: PhysMemory, root: u64, f: u64)
    requires
        forall|j0: u64| #[trigger]
            has_l1(m2, root, j0) ==> (has_l1(m1, root, j0) && l1_table(m2, root, j0) == l1_table(
                m1,
                root,
                j0,
            )) || l1_table(m2, root, j0) == f,
        forall|j0: u64, j1: u64| #[trigger]
            has_l2(m2, root, j0, j1) ==> (has_l2(m1, root, j0, j1) && l2_table(m2, root, j0, j1)
                == l2_table(m1, root, j0, j1)) || l2_table(m2, root, j0, j1) == f,
    ensures
        forall|p: u64| #[trigger] is_table(m2, root, p) ==> is_table(m1, root, p) || p == f,
{
    assert forall|p: u64| #[trigger] is_table(m2, root, p) implies is_table(m1, root, p) || p == f by {
        if p != root && p != f {
            if exists|i0: u64| #[trigger] has_l1(m2, root, i0) && l1_table(m2, root, i0) == p {
                let i0 = choose|i0: u64| #[trigger] has_l1(m2, root, i0) && l1_table(m2, root, i0) == p;
                assert(has_l1(m1, root, i0) && l1_table(m1, root, i0) == p);
            } else {
                let (i0, i1) = choose|i0: u64, i1: u64| #[trigger]
                    has_l2(m2, root, i0, i1) && l2_table(m2, root, i0, i1) == p;
                assert(has_l2(m1, root, i0, i1) && l2_table(m1, root, i0, i1) == p);
            }
        }
    }
}

/// Changing only words outside the tables of `other`, and only in frames
/// handed out already, leaves every walk from `other` as it was.
pub proof fn lemma_walks_unchanged_outside_tables(m: PhysMemory, m2: PhysMemory, other: u64)
    requires
        walkable(m, other),
        forall|p: u64, k: u64|
            k < 512 && is_table(m, other, p) ==> #[trigger] m2.word(p, k) == m.word(p, k),
    ensures
        forall|v: u64| #[trigger] walk(m2, other, v) == walk(m, other, v),
        mappings(m2, other) == mappings(m, other),
{
    assert forall|v: u64| #[trigger] walk(m2, other, v) == walk(m, other, v) by {
        lemma_vpn_index_facts(v, v);
        let i0 = vpn_index(v, 0);
        let i1 = vpn_index(v, 1);
        let i2 = vpn_index(v, 2);
        assert(is_table(m, other, other));
        assert(m2.word(other, i0) == m.word(other, i0));
        if has_l1(m, other, i0) {
            let t1 = l1_table(m, other, i0);
            assert(is_table(m, other, t1));
            assert(m2.word(t1, i1) == m.word(t1, i1));
            if has_l2(m, other, i0, i1) {
                let t2 = l2_table(m, other, i0, i1);
                assert(is_table(m, other, t2));
                assert(m2.word(t2, i2) == m.word(t2, i2));
            }
        }
    }
    assert(mappings(m2, other) =~= mappings(m, other));
}

/// Address spaces are isolated: mapping a page in the table rooted at
/// `root` (which gives `m2` from `m`) leaves the walks and mappings of every
/// table rooted at `other` whose tables are disjoint from those of `root`
/// unchanged.
pub proof fn lemma_map_isolated(m: PhysMemory, m2: PhysMemory, root: u64, vpn: u64, other: u64)
    requires
        walkable(m, other),
        tables_disjoint(m, root, other),
        m2.base() == m.base(),
        m2.used() >= m.used(),
        has_l2(m2, root, vpn_index(vpn, 0), vpn_index(vpn, 1)),
        forall|p: u64| #[trigger] is_table(m2, root, p) ==> is_table(m, root, p) || !m.allocated(p),
        forall|p: u64, k: u64|
            k < 512 && !on_path(m2, root, vpn, p, k, 3) ==> #[trigger] m2.word(p, k) == (if m.allocated(p)
                || !m2.allocated(p) {
                m.word(p, k)
            } else {
                0
            }),
    ensures
        forall|v: u64| #[trigger] walk(m2, other, v) == walk(m, other, v),
        mappings(m2, other) == mappings(m, other),
{
    let i0 = vpn_index(vpn, 0);
    let i1 = vpn_index(vpn, 1);
    assert(is_table(m2, root, root));
    assert(is_table(m2, root, l1_table(m2, root, i0)));
    assert(is_table(m2, root, l2_table(m2, root, i0, i1)));
    assert forall|p: u64, k: u64| k < 512 && is_table(m, other, p) implies #[trigger] m2.word(p, k)
        == m.word(p, k) by {
        assert(m.allocated(p)) by {
            if p != other {
                if exists|j0: u64| #[trigger] has_l1(m, other, j0) && l1_table(m, other, j0) == p {
                    let j0 = choose|j0: u64| #[trigger] has_l1(m, other, j0) && l1_table(m, other, j0) == p;
                } else {
                    let (j0, j1) = choose|j0: u64, j1: u64| #[trigger]
                        has_l2(m, other, j0, j1) && l2_table(m, other, j0, j1) == p;
                }
            }
        }
        assert(!is_table(m, root, p));
        assert(!on_path(m2, root, vpn, p, k, 3));
    }
    lemma_walks_unchanged_outside_tables(m, m2, other);
}

/// Address spaces are isolated: unmapping a page of the table rooted at
/// `root` (which gives `m2` from `m`) leaves the walks and mappings of every
/// table rooted at `other` whose tables are disjoint from those of `root`
/// unchanged.
pub proof fn lemma_unmap_isolated(m: PhysMemory, m2: PhysMemory, root: u64, vpn: u64, other: u64)
    requires
        walkable(m, other),
        tables_disjoint(m, root, other),
        has_l2(m, root, vpn_index(vpn, 0), vpn_index(vpn, 1)),
        m2.is_write_of(m, l2_table(m, root, vpn_index(vpn, 0), vpn_index(vpn, 1)), vpn_index(vpn, 2), 0),
    ensures
        forall|v: u64| #[trigger] walk(m2, other, v) == walk(m, other, v),
        mappings(m2, other) == mappings(m, other),
{
    let t = l2_table(m, root, vpn_index(vpn, 0), vpn_index(vpn, 1));
    assert(is_table(m, root, t));
    assert(!is_table(m, other, t));
    lemma_walks_unchanged_outside_tables(m, m2, other);
}

} // verus!
