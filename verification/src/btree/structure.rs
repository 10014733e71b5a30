//! How a tree's pages fit together: every page at a level above the leaves, internal
//! nodes pointing one level down, leaves chained in order, and how a search descends.
use crate::btree::internal::{child_for, child_id};
use crate::btree::key::lex_lt;
use crate::btree::split::split_position;
use crate::page::layout::{keys_sorted, lemma_rank_sorted, Entry};
use crate::page::page::Page;
use crate::page::view::{law_put_then_lookup, put_all, PageView};
use vstd::prelude::*;

verus! {

/// The child that internal page `id` routes `key` to.
pub open spec fn route(pages: Map<u32, Page>, id: u32, key: Seq<u8>) -> u32 {
    child_for(pages[id]@, key) as u32
}

/// The leaf reached from page `id`, `h` levels above the leaves, when searching for `key`.
pub open spec fn leaf_for(pages: Map<u32, Page>, id: u32, h: nat, key: Seq<u8>) -> u32
    decreases h,
{
    if h <= 1 {
        id
    } else {
        leaf_for(pages, route(pages, id, key), (h - 1) as nat, key)
    }
}

/// The internal pages visited from page `id`, `h` levels above the leaves, when searching
/// for `key`, from the top down.
pub open spec fn path_for(pages: Map<u32, Page>, id: u32, h: nat, key: Seq<u8>) -> Seq<u32>
    decreases h,
{
    if h <= 1 {
        Seq::empty()
    } else {
        seq![id] + path_for(pages, route(pages, id, key), (h - 1) as nat, key)
    }
}

/// The leftmost leaf below page `id`, `h` levels above the leaves.
pub open spec fn leftmost_leaf(pages: Map<u32, Page>, id: u32, h: nat) -> u32
    decreases h,
{
    if h <= 1 {
        id
    } else {
        leftmost_leaf(pages, pages[id]@.next_leaf as u32, (h - 1) as nat)
    }
}

/// `c` is the ID of a stored page at level `l`.
pub open spec fn child_ok(levels: Map<u32, nat>, c: int, l: nat) -> bool {
    &&& 0 <= c < 0x1_0000_0000
    &&& levels.contains_key(c as u32)
    &&& levels[c as u32] == l
}

/// Every entry of `es` holds the 4-byte ID of a stored page at level `l`.
pub open spec fn entries_point_to(levels: Map<u32, nat>, es: Seq<Entry>, l: nat) -> bool {
    forall|i: int|
        0 <= i < es.len() ==> (#[trigger] es[i]).1.len() == 4 && child_ok(levels, child_id(es[i].1), l)
}

/// Every page is well formed, stored under its own ID, and has an ID in `1..next_id`.
pub open spec fn pages_ok(pages: Map<u32, Page>, next_id: u32) -> bool {
    &&& 1 <= next_id
    &&& forall|id: u32|
        #![trigger pages[id]]
        pages.contains_key(id) ==> {
            &&& pages[id].wf()
            &&& pages[id]@.page_id == id
            &&& 1 <= id < next_id
        }
}

/// Page `id` at level `levels[id]` above the leaves: an internal node's children (its
/// leftmost child and the child of each separator) are stored one level below it.
pub open spec fn node_ok(pages: Map<u32, Page>, levels: Map<u32, nat>, id: u32) -> bool {
    &&& levels[id] >= 1
    &&& levels[id] > 1 ==> {
        &&& child_ok(levels, pages[id]@.next_leaf, (levels[id] - 1) as nat)
        &&& entries_point_to(levels, pages[id]@.entries, (levels[id] - 1) as nat)
    }
}

/// The leaves, in chain order: exactly the pages of level 1, each pointing to the next and
/// the last pointing nowhere.
pub open spec fn chain_ok(pages: Map<u32, Page>, levels: Map<u32, nat>, leaves: Seq<u32>) -> bool {
    &&& leaves.no_duplicates()
    &&& forall|id: u32| #[trigger]
        leaves.contains(id) <==> levels.contains_key(id) && levels[id] == 1
    &&& forall|i: int|
        0 <= i < leaves.len() ==> #[trigger] pages[leaves[i]]@.next_leaf == if i + 1 < leaves.len() {
            leaves[i + 1] as int
        } else {
            0
        }
}

/// An internal node routes every key to one of its children.
pub proof fn lemma_route_is_child(v: PageView, levels: Map<u32, nat>, key: Seq<u8>, l: nat)
    requires
        v.valid(),
        child_ok(levels, v.next_leaf, l),
        entries_point_to(levels, v.entries, l),
    ensures
        child_ok(levels, child_for(v, key), l),
{
    lemma_rank_sorted(v.entries, key);
    let k = split_position(v, key);
    if k > 0 {
        assert(child_ok(levels, child_id(v.entries[k - 1].1), l));
    }
}

/// Searching from a page at level `h` passes through internal pages at levels
/// `h, h - 1, ..., 2` and ends at a leaf.
#[verifier::spinoff_prover]
pub proof fn lemma_descend(pages: Map<u32, Page>, next_id: u32, levels: Map<u32, nat>, id: u32, h: nat, key: Seq<u8>)
    requires
        pages_ok(pages, next_id),
        levels.dom() == pages.dom(),
        forall|x: u32| #[trigger] levels.contains_key(x) ==> node_ok(pages, levels, x),
        levels.contains_key(id),
        levels[id] == h,
    ensures
        levels.contains_key(leaf_for(pages, id, h, key)),
        levels[leaf_for(pages, id, h, key)] == 1,
        path_for(pages, id, h, key).len() == h - 1,
        forall|i: int|
            0 <= i < h - 1 ==> levels.contains_key(#[trigger] path_for(pages, id, h, key)[i])
                && levels[path_for(pages, id, h, key)[i]] == h - i,
    decreases h,
{
    assert(node_ok(pages, levels, id));
    if h > 1 {
        let v = pages[id]@;
        pages[id].lemma_view_valid();
        lemma_route_is_child(v, levels, key, (h - 1) as nat);
        let c = route(pages, id, key);
        lemma_descend(pages, next_id, levels, c, (h - 1) as nat, key);
        let p = path_for(pages, id, h, key);
        let p1 = path_for(pages, c, (h - 1) as nat, key);
        assert(p == seq![id] + p1);
        assert forall|i: int| 0 <= i < h - 1 implies levels.contains_key(#[trigger] p[i]) && levels[p[i]]
            == h - i by {
            if i > 0 {
                assert(p[i] == p1[i - 1]);
            }
        }
    }
}

/// Searches route the same way through two page maps that agree on every internal page.
#[verifier::spinoff_prover]
pub proof fn lemma_same_routing(
    pages: Map<u32, Page>,
    pages2: Map<u32, Page>,
    next_id: u32,
    levels: Map<u32, nat>,
    id: u32,
    h: nat,
    key: Seq<u8>,
)
    requires
        pages_ok(pages, next_id),
        levels.dom() == pages.dom(),
        forall|x: u32| #[trigger] levels.contains_key(x) ==> node_ok(pages, levels, x),
        forall|x: u32| levels.contains_key(x) && levels[x] > 1 ==> #[trigger] pages2[x] == pages[x],
        levels.contains_key(id),
        levels[id] == h,
    ensures
        leaf_for(pages2, id, h, key) == leaf_for(pages, id, h, key),
        path_for(pages2, id, h, key) == path_for(pages, id, h, key),
    decreases h,
{
    assert(node_ok(pages, levels, id));
    if h > 1 {
        assert(pages2[id] == pages[id]);
        let v = pages[id]@;
        pages[id].lemma_view_valid();
        lemma_route_is_child(v, levels, key, (h - 1) as nat);
        let c = route(pages, id, key);
        lemma_same_routing(pages, pages2, next_id, levels, c, (h - 1) as nat, key);
    }
}

/// Following leftmost children from a page at level `h` ends at a leaf.
pub proof fn lemma_descend_leftmost(pages: Map<u32, Page>, next_id: u32, levels: Map<u32, nat>, id: u32, h: nat)
    requires
        pages_ok(pages, next_id),
        levels.dom() == pages.dom(),
        forall|x: u32| #[trigger] levels.contains_key(x) ==> node_ok(pages, levels, x),
        levels.contains_key(id),
        levels[id] == h,
    ensures
        levels.contains_key(leftmost_leaf(pages, id, h)),
        levels[leftmost_leaf(pages, id, h)] == 1,
    decreases h,
{
    assert(node_ok(pages, levels, id));
    if h > 1 {
        let v = pages[id]@;
        lemma_descend_leftmost(pages, next_id, levels, v.next_leaf as u32, (h - 1) as nat);
    }
}

/// Replacing a leaf by a well-formed page with the same ID and sibling pointer keeps
/// every part of the tree's invariant, and leaves every internal page as it was.
#[verifier::spinoff_prover]
pub proof fn lemma_replace_leaf(
    pages: Map<u32, Page>,
    next_id: u32,
    levels: Map<u32, nat>,
    leaves: Seq<u32>,
    leaf: u32,
    p: Page,
)
    requires
        pages_ok(pages, next_id),
        levels.dom() == pages.dom(),
        forall|x: u32| #[trigger] levels.contains_key(x) ==> node_ok(pages, levels, x),
        chain_ok(pages, levels, leaves),
        levels.contains_key(leaf),
        levels[leaf] == 1,
        p.wf(),
        p@.page_id == leaf,
        p@.next_leaf == pages[leaf]@.next_leaf,
    ensures
        pages_ok(pages.insert(leaf, p), next_id),
        levels.dom() == pages.insert(leaf, p).dom(),
        forall|x: u32| #[trigger] levels.contains_key(x) ==> node_ok(pages.insert(leaf, p), levels, x),
        chain_ok(pages.insert(leaf, p), levels, leaves),
        forall|x: u32| levels.contains_key(x) && levels[x] > 1 ==> #[trigger] pages.insert(leaf, p)[x] == pages[x],
{
    let pages2 = pages.insert(leaf, p);
    assert(pages.contains_key(leaf));
    assert(levels.dom() =~= pages2.dom());
    assert forall|x: u32| #[trigger] levels.contains_key(x) implies node_ok(pages2, levels, x) by {
        assert(node_ok(pages, levels, x));
        if x != leaf {
            assert(pages2[x] == pages[x]);
        }
    }
    assert forall|i: int| 0 <= i < leaves.len() implies #[trigger] pages2[leaves[i]]@.next_leaf == if i + 1 < leaves.len() {
        leaves[i + 1] as int
    } else {
        0
    } by {
        assert(pages[leaves[i]]@.next_leaf == if i + 1 < leaves.len() {
            leaves[i + 1] as int
        } else {
            0
        });
    }
}

/// A put whose value points to level `l` keeps every entry pointing to level `l`.
#[verifier::spinoff_prover]
pub proof fn lemma_put_points_to(v: PageView, levels: Map<u32, nat>, k: Seq<u8>, val: Seq<u8>, l: nat)
    requires
        keys_sorted(v.entries),
        entries_point_to(levels, v.entries, l),
        val.len() == 4,
        child_ok(levels, child_id(val), l),
    ensures
        entries_point_to(levels, v.put_state(k, val).entries, l),
{
    lemma_rank_sorted(v.entries, k);
    let w = v.put_state(k, val);
    let r = v.rank(k);
    assert forall|i: int| 0 <= i < w.entries.len() implies (#[trigger] w.entries[i]).1.len() == 4
        && child_ok(levels, child_id(w.entries[i].1), l) by {
        if v.put_fits(k, val) {
            if v.contains(k) {
                if i != r {
                    assert(w.entries[i] == v.entries[i]);
                }
            } else {
                if i < r {
                    assert(w.entries[i] == v.entries[i]);
                } else if i > r {
                    assert(w.entries[i] == v.entries[i - 1]);
                }
            }
        } else {
            assert(w.entries[i] == v.entries[i]);
        }
    }
}

/// Putting entries that point to level `l` into a page whose entries point to level `l`
/// keeps every entry pointing to level `l`.
#[verifier::spinoff_prover]
pub proof fn lemma_put_all_points_to(v: PageView, es: Seq<Entry>, levels: Map<u32, nat>, l: nat)
    requires
        keys_sorted(v.entries),
        entries_point_to(levels, v.entries, l),
        entries_point_to(levels, es, l),
        put_all(v, es) is Some,
    ensures
        keys_sorted(put_all(v, es).unwrap().entries),
        entries_point_to(levels, put_all(v, es).unwrap().entries, l),
    decreases es.len(),
{
    if es.len() > 0 {
        let d = es.drop_last();
        assert(entries_point_to(levels, d, l)) by {
            assert forall|i: int| 0 <= i < d.len() implies (#[trigger] d[i]).1.len() == 4
                && child_ok(levels, child_id(d[i].1), l) by {
                assert(d[i] == es[i]);
            }
        }
        lemma_put_all_points_to(v, d, levels, l);
        let u = put_all(v, d).unwrap();
        let (k, val) = es.last();
        assert(es.last() == es[es.len() - 1]);
        lemma_put_points_to(u, levels, k, val, l);
        law_put_then_lookup(u, k, val, k.push(0));
    }
}

/// Entries that point to level `l` still do once a page ID not yet stored gets a level.
pub proof fn lemma_points_to_grow(levels: Map<u32, nat>, es: Seq<Entry>, l: nat, id: u32, lvl: nat)
    requires
        entries_point_to(levels, es, l),
        !levels.contains_key(id),
    ensures
        entries_point_to(levels.insert(id, lvl), es, l),
{
    assert forall|i: int| 0 <= i < es.len() implies (#[trigger] es[i]).1.len() == 4 && child_ok(
        levels.insert(id, lvl),
        child_id(es[i].1),
        l,
    ) by {
        assert(child_ok(levels, child_id(es[i].1), l));
    }
}

/// The parts of the tree's invariant that concern its pages: stored pages well formed
/// under their own IDs, every page at a level with its children one level below, and the
/// leaves chained in order.
pub open spec fn parts_ok(pages: Map<u32, Page>, next_id: u32, levels: Map<u32, nat>, leaves: Seq<u32>) -> bool {
    &&& pages_ok(pages, next_id)
    &&& levels.dom() == pages.dom()
    &&& forall|x: u32| #[trigger] levels.contains_key(x) ==> node_ok(pages, levels, x)
    &&& chain_ok(pages, levels, leaves)
}

/// Entries pointing to level `l` still do after dropping some from either end.
pub proof fn lemma_points_to_sub(levels: Map<u32, nat>, es: Seq<Entry>, l: nat, a: int, b: int)
    requires
        entries_point_to(levels, es, l),
        0 <= a <= b <= es.len(),
    ensures
        entries_point_to(levels, es.subrange(a, b), l),
{
    let t = es.subrange(a, b);
    assert forall|i: int| 0 <= i < t.len() implies (#[trigger] t[i]).1.len() == 4 && child_ok(
        levels,
        child_id(t[i].1),
        l,
    ) by {
        assert(t[i] == es[a + i]);
    }
}

/// The invariant's parts survive a larger next page ID.
pub proof fn lemma_grow_next_id(pages: Map<u32, Page>, n: u32, n2: u32, levels: Map<u32, nat>, leaves: Seq<u32>)
    requires
        parts_ok(pages, n, levels, leaves),
        n <= n2,
    ensures
        parts_ok(pages, n2, levels, leaves),
{
}

/// Replacing an internal page by a well-formed page with the same ID whose children are
/// one level below it keeps the invariant's parts.
#[verifier::spinoff_prover]
pub proof fn lemma_replace_node(
    pages: Map<u32, Page>,
    n: u32,
    levels: Map<u32, nat>,
    leaves: Seq<u32>,
    x: u32,
    p: Page,
)
    requires
        parts_ok(pages, n, levels, leaves),
        levels.contains_key(x),
        levels[x] > 1,
        p.wf(),
        p@.page_id == x,
        child_ok(levels, p@.next_leaf, (levels[x] - 1) as nat),
        entries_point_to(levels, p@.entries, (levels[x] - 1) as nat),
    ensures
        parts_ok(pages.insert(x, p), n, levels, leaves),
{
    let pages2 = pages.insert(x, p);
    assert(levels.dom() =~= pages2.dom());
    assert forall|y: u32| #[trigger] levels.contains_key(y) implies node_ok(pages2, levels, y) by {
        assert(node_ok(pages, levels, y));
    }
    assert forall|i: int| 0 <= i < leaves.len() implies #[trigger] pages2[leaves[i]]@.next_leaf == if i + 1 < leaves.len() {
        leaves[i + 1] as int
    } else {
        0
    } by {
        assert(leaves.contains(leaves[i]));
        assert(pages[leaves[i]]@.next_leaf == if i + 1 < leaves.len() {
            leaves[i + 1] as int
        } else {
            0
        });
    }
}

/// Storing a new internal page at level `lvl`, under an ID not yet used, whose children
/// are one level below it keeps the invariant's parts.
#[verifier::spinoff_prover]
pub proof fn lemma_add_node(
    pages: Map<u32, Page>,
    n: u32,
    levels: Map<u32, nat>,
    leaves: Seq<u32>,
    x: u32,
    p: Page,
    lvl: nat,
)
    requires
        parts_ok(pages, n, levels, leaves),
        !pages.contains_key(x),
        1 <= x < n,
        lvl > 1,
        p.wf(),
        p@.page_id == x,
        child_ok(levels, p@.next_leaf, (lvl - 1) as nat),
        entries_point_to(levels, p@.entries, (lvl - 1) as nat),
    ensures
        parts_ok(pages.insert(x, p), n, levels.insert(x, lvl), leaves),
{
    let pages2 = pages.insert(x, p);
    let levels2 = levels.insert(x, lvl);
    assert(levels2.dom() =~= pages2.dom());
    lemma_points_to_grow(levels, p@.entries, (lvl - 1) as nat, x, lvl);
    assert forall|y: u32| #[trigger] levels2.contains_key(y) implies node_ok(pages2, levels2, y) by {
        if y != x {
            assert(node_ok(pages, levels, y));
            if levels[y] > 1 {
                lemma_points_to_grow(levels, pages[y]@.entries, (levels[y] - 1) as nat, x, lvl);
            }
        }
    }
    assert forall|id: u32| #[trigger] leaves.contains(id) <==> levels2.contains_key(id) && levels2[id] == 1 by {
        assert(leaves.contains(id) <==> levels.contains_key(id) && levels[id] == 1);
    }
    assert forall|i: int| 0 <= i < leaves.len() implies #[trigger] pages2[leaves[i]]@.next_leaf == if i + 1 < leaves.len() {
        leaves[i + 1] as int
    } else {
        0
    } by {
        assert(leaves.contains(leaves[i]));
        assert(pages[leaves[i]]@.next_leaf == if i + 1 < leaves.len() {
            leaves[i + 1] as int
        } else {
            0
        });
    }
}

/// Splitting leaf `leaf` into itself and a new leaf `r` placed right after it in the chain
/// keeps the invariant's parts, and leaves every internal page as it was.
#[verifier::spinoff_prover]
pub proof fn lemma_split_leaf(
    pages: Map<u32, Page>,
    n: u32,
    levels: Map<u32, nat>,
    leaves: Seq<u32>,
    leaf: u32,
    pl: Page,
    r: u32,
    pr: Page,
)
    requires
        parts_ok(pages, n, levels, leaves),
        levels.contains_key(leaf),
        levels[leaf] == 1,
        !pages.contains_key(r),
        1 <= r < n,
        pl.wf(),
        pl@.page_id == leaf,
        pl@.next_leaf == r,
        pr.wf(),
        pr@.page_id == r,
        pr@.next_leaf == pages[leaf]@.next_leaf,
    ensures
        parts_ok(
            pages.insert(leaf, pl).insert(r, pr),
            n,
            levels.insert(r, 1),
            leaves.insert(leaves.index_of(leaf) + 1, r),
        ),
        forall|x: u32| levels.contains_key(x) && levels[x] > 1 ==> #[trigger] pages.insert(leaf, pl).insert(r, pr)[x] == pages[x],
{
    let pages2 = pages.insert(leaf, pl).insert(r, pr);
    let levels2 = levels.insert(r, 1);
    assert(leaves.contains(leaf));
    let k = leaves.index_of(leaf);
    let leaves2 = leaves.insert(k + 1, r);
    assert(levels2.dom() =~= pages2.dom());
    assert forall|y: u32| #[trigger] levels2.contains_key(y) implies node_ok(pages2, levels2, y) by {
        if y != r && y != leaf {
            assert(node_ok(pages, levels, y));
            if levels[y] > 1 {
                lemma_points_to_grow(levels, pages[y]@.entries, (levels[y] - 1) as nat, r, 1);
            }
        }
    }
    assert(!leaves.contains(r));
    assert(leaves2.no_duplicates()) by {
        assert forall|i: int, j: int| 0 <= i < j < leaves2.len() implies leaves2[i] != leaves2[j] by {
            if i != k + 1 && j != k + 1 {
                let ii = if i < k + 1 { i } else { i - 1 };
                let jj = if j < k + 1 { j } else { j - 1 };
                assert(leaves2[i] == leaves[ii] && leaves2[j] == leaves[jj]);
            } else if i == k + 1 {
                assert(leaves2[j] == leaves[j - 1]);
            } else {
                assert(leaves2[i] == leaves[i]);
            }
        }
    }
    assert forall|id: u32| #[trigger] leaves2.contains(id) <==> levels2.contains_key(id) && levels2[id] == 1 by {
        if leaves2.contains(id) && id != r {
            let i = choose|i: int| 0 <= i < leaves2.len() && leaves2[i] == id;
            let ii = if i < k + 1 { i } else { i - 1 };
            assert(leaves[ii] == id);
            assert(leaves.contains(id));
        }
        if levels2.contains_key(id) && levels2[id] == 1 && id != r {
            assert(leaves.contains(id));
            let i = choose|i: int| 0 <= i < leaves.len() && leaves[i] == id;
            let ii = if i < k + 1 { i } else { i + 1 };
            assert(leaves2[ii] == id);
        }
        if id == r {
            assert(leaves2[k + 1] == r);
        }
    }
    assert forall|i: int| 0 <= i < leaves2.len() implies #[trigger] pages2[leaves2[i]]@.next_leaf == if i + 1 < leaves2.len() {
        leaves2[i + 1] as int
    } else {
        0
    } by {
        if i < k {
            assert(leaves2[i] == leaves[i] && leaves2[i + 1] == leaves[i + 1]);
            assert(leaves[i] != leaf);
            assert(pages[leaves[i]]@.next_leaf == leaves[i + 1] as int);
        } else if i == k {
            assert(leaves2[i] == leaf);
        } else if i == k + 1 {
            assert(pages[leaves[k]]@.next_leaf == if k + 1 < leaves.len() {
                leaves[k + 1] as int
            } else {
                0
            });
            if i + 1 < leaves2.len() {
                assert(leaves2[i + 1] == leaves[k + 1]);
            }
        } else {
            assert(leaves2[i] == leaves[i - 1]);
            assert(leaves[i - 1] != leaf);
            assert(pages[leaves[i - 1]]@.next_leaf == if i < leaves.len() {
                leaves[i] as int
            } else {
                0
            });
            if i + 1 < leaves2.len() {
                assert(leaves2[i + 1] == leaves[i]);
            }
        }
    }
    assert(pages_ok(pages2, n));
    assert(chain_ok(pages2, levels2, leaves2));
}

/// The entries along a chain of leaves: those of the first leaf from slot `from` on, then
/// every entry of the leaves after it.
pub open spec fn chain_entries(pages: Map<u32, Page>, chain: Seq<u32>, from: int) -> Seq<Entry>
    decreases chain.len(),
{
    if chain.len() == 0 {
        Seq::empty()
    } else {
        pages[chain[0]]@.entries.skip(from) + chain_entries(pages, chain.drop_first(), 0)
    }
}

/// `es` without its leading entries whose keys sort before `start`.
pub open spec fn drop_below(es: Seq<Entry>, start: Seq<u8>) -> Seq<Entry>
    decreases es.len(),
{
    if es.len() > 0 && lex_lt(es[0].0, start) {
        drop_below(es.drop_first(), start)
    } else {
        es
    }
}

/// `chain` is a run of stored, well-formed leaves, each pointing to the next and the
/// last pointing nowhere.
pub open spec fn chain_linked(pages: Map<u32, Page>, chain: Seq<u32>) -> bool {
    forall|i: int|
        0 <= i < chain.len() ==> {
            &&& 1 <= #[trigger] chain[i]
            &&& pages.contains_key(chain[i])
            &&& pages[chain[i]].wf()
            &&& pages[chain[i]]@.next_leaf == if i + 1 < chain.len() {
                chain[i + 1] as int
            } else {
                0
            }
        }
}

} // verus!
