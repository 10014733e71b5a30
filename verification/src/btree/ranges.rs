//! Key ranges: each page of a tree covers a range of keys, its children split that range
//! at the separators, and pages of one level never overlap. A search for a key then ends
//! at the one leaf whose range holds the key.
use crate::btree::internal::{child_bytes, child_for, child_id};
use crate::btree::key::{lemma_lex_irreflexive, lemma_lex_total, lemma_lex_transitive, lex_lt};
use crate::btree::leaf::law_leaf_split;
use crate::btree::split::{split_entries, split_position};
use crate::btree::structure::{child_ok, entries_point_to, leaf_for, leftmost_leaf, node_ok, parts_ok, path_for, route};
use crate::page::layout::{keys_sorted, lemma_rank_sorted, Entry};
use crate::page::page::Page;
use crate::page::view::{lemma_lookup_entry, put_all, PageView};
use vstd::prelude::*;

verus! {

/// A range of keys: an optional inclusive lower bound and an optional exclusive upper
/// bound.
pub type KeyRange = (Option<Seq<u8>>, Option<Seq<u8>>);

/// `q` lies in range `r`.
pub open spec fn in_range(q: Seq<u8>, r: KeyRange) -> bool {
    &&& r.0 matches Some(lo) ==> (lo == q || lex_lt(lo, q))
    &&& r.1 matches Some(hi) ==> lex_lt(q, hi)
}

/// `q` lies in range `r` and strictly above its lower bound.
pub open spec fn strictly_inside(q: Seq<u8>, r: KeyRange) -> bool {
    &&& r.0 matches Some(lo) ==> lex_lt(lo, q)
    &&& r.1 matches Some(hi) ==> lex_lt(q, hi)
}

/// The range of slot `j` of an internal node with separators `es` and range `r`: slot 0
/// (the leftmost child) starts at the node's lower bound, slot `j > 0` at separator
/// `j - 1`, and each slot ends at the next separator or at the node's upper bound.
pub open spec fn slot_range(es: Seq<Entry>, r: KeyRange, j: int) -> KeyRange {
    (
        if j == 0 {
            r.0
        } else {
            Some(es[j - 1].0)
        },
        if j < es.len() {
            Some(es[j].0)
        } else {
            r.1
        },
    )
}

/// The child in slot `j` of an internal node.
pub open spec fn slot_child(v: PageView, j: int) -> int {
    if j == 0 {
        v.next_leaf
    } else {
        child_id(v.entries[j - 1].1)
    }
}

/// An internal node with range `r`: its separators lie strictly inside `r`, and each
/// child covers the range of its slot.
pub open spec fn node_ranges_ok(v: PageView, r: KeyRange, ranges: Map<u32, KeyRange>) -> bool {
    &&& forall|i: int| 0 <= i < v.entries.len() ==> strictly_inside(#[trigger] v.entries[i].0, r)
    &&& forall|j: int|
        0 <= j <= v.entries.len() ==> ranges[#[trigger] slot_child(v, j) as u32] == slot_range(
            v.entries,
            r,
            j,
        )
}

/// Pages of one level cover disjoint ranges.
pub open spec fn ranges_disjoint(levels: Map<u32, nat>, ranges: Map<u32, KeyRange>) -> bool {
    forall|x: u32, y: u32, q: Seq<u8>|
        #![trigger in_range(q, ranges[x]), in_range(q, ranges[y])]
        levels.contains_key(x) && levels.contains_key(y) && x != y && levels[x] == levels[y]
            && in_range(q, ranges[x]) ==> !in_range(q, ranges[y])
}

/// The ranges fit the tree with root `root` at height `h`: the root covers every key,
/// every internal node's children cover the ranges of their slots, and pages of one level
/// do not overlap.
pub open spec fn ranges_ok(
    pages: Map<u32, Page>,
    levels: Map<u32, nat>,
    ranges: Map<u32, KeyRange>,
    root: u32,
    h: nat,
) -> bool {
    &&& ranges.dom() == levels.dom()
    &&& h >= 1 ==> ranges[root] == (None::<Seq<u8>>, None::<Seq<u8>>)
    &&& forall|x: u32|
        #![trigger levels[x]]
        levels.contains_key(x) ==> levels[x] <= h && (levels[x] > 1 ==> node_ranges_ok(
            pages[x]@,
            ranges[x],
            ranges,
        ))
    &&& ranges_disjoint(levels, ranges)
}

/// Every leaf holds only keys of its range.
pub open spec fn leaves_in_range(pages: Map<u32, Page>, levels: Map<u32, nat>, ranges: Map<u32, KeyRange>) -> bool {
    forall|x: u32, i: int|
        #![trigger pages[x]@.entries[i]]
        levels.contains_key(x) && levels[x] == 1 && 0 <= i < pages[x]@.entries.len() ==> in_range(
            pages[x]@.entries[i].0,
            ranges[x],
        )
}

/// An internal node routes a key of its range to the child whose slot range holds it.
pub proof fn lemma_route_in_range(v: PageView, r: KeyRange, q: Seq<u8>)
    requires
        v.valid(),
        in_range(q, r),
    ensures
        0 <= split_position(v, q) <= v.entries.len(),
        child_for(v, q) == slot_child(v, split_position(v, q)),
        in_range(q, slot_range(v.entries, r, split_position(v, q))),
{
    let es = v.entries;
    let k = split_position(v, q);
    lemma_rank_sorted(es, q);
    lemma_lookup_entry(v, q);
    let rk = v.rank(q);
    if k > 0 {
        // Separator k - 1 does not sort after q.
        if v.contains(q) {
            assert(es[k - 1].0 == q);
        } else {
            assert(lex_lt(es[k - 1].0, q));
        }
    }
    if k < es.len() {
        // Separator k sorts after q.
        if v.contains(q) {
            assert(lex_lt(es[rk].0, es[k].0));
        } else {
            assert(!lex_lt(es[k].0, q));
            lemma_lex_total(es[k].0, q);
        }
    }
}

/// From a page whose range holds `q`, a search for `q` ends at a leaf whose range holds
/// `q`.
pub proof fn lemma_descend_in_range(
    pages: Map<u32, Page>,
    next_id: u32,
    levels: Map<u32, nat>,
    leaves: Seq<u32>,
    ranges: Map<u32, KeyRange>,
    root: u32,
    h: nat,
    id: u32,
    l: nat,
    q: Seq<u8>,
)
    requires
        parts_ok(pages, next_id, levels, leaves),
        ranges_ok(pages, levels, ranges, root, h),
        levels.contains_key(id),
        levels[id] == l,
        in_range(q, ranges[id]),
    ensures
        levels.contains_key(leaf_for(pages, id, l, q)),
        levels[leaf_for(pages, id, l, q)] == 1,
        in_range(q, ranges[leaf_for(pages, id, l, q)]),
    decreases l,
{
    assert(node_ok(pages, levels, id));
    if l > 1 {
        let v = pages[id]@;
        pages[id].lemma_view_valid();
        lemma_route_in_range(v, ranges[id], q);
        let k = split_position(v, q);
        assert(node_ranges_ok(v, ranges[id], ranges));
        assert(ranges[slot_child(v, k) as u32] == slot_range(v.entries, ranges[id], k));
        let c = route(pages, id, q);
        assert(child_ok(levels, slot_child(v, k), (l - 1) as nat)) by {
            if k > 0 {
                assert(entries_point_to(levels, v.entries, (l - 1) as nat));
                assert(child_ok(levels, child_id(v.entries[k - 1].1), (l - 1) as nat));
            }
        }
        lemma_descend_in_range(pages, next_id, levels, leaves, ranges, root, h, c, (l - 1) as nat, q);
    }
}

/// From a page whose range is open below, the leftmost leaf's range is open below.
pub proof fn lemma_leftmost_open(
    pages: Map<u32, Page>,
    next_id: u32,
    levels: Map<u32, nat>,
    leaves: Seq<u32>,
    ranges: Map<u32, KeyRange>,
    root: u32,
    h: nat,
    id: u32,
    l: nat,
)
    requires
        parts_ok(pages, next_id, levels, leaves),
        ranges_ok(pages, levels, ranges, root, h),
        levels.contains_key(id),
        levels[id] == l,
        ranges[id].0 is None,
    ensures
        ranges[leftmost_leaf(pages, id, l)].0 is None,
    decreases l,
{
    assert(node_ok(pages, levels, id));
    if l > 1 {
        let v = pages[id]@;
        assert(node_ranges_ok(v, ranges[id], ranges));
        assert(ranges[slot_child(v, 0) as u32] == slot_range(v.entries, ranges[id], 0));
        lemma_leftmost_open(pages, next_id, levels, leaves, ranges, root, h, v.next_leaf as u32, (l - 1) as nat);
    }
}

/// A search for `q` from the root ends at the leaf whose range holds `q`.
pub proof fn lemma_leaf_of_range(
    pages: Map<u32, Page>,
    next_id: u32,
    levels: Map<u32, nat>,
    leaves: Seq<u32>,
    ranges: Map<u32, KeyRange>,
    root: u32,
    h: nat,
    y: u32,
    q: Seq<u8>,
)
    requires
        parts_ok(pages, next_id, levels, leaves),
        ranges_ok(pages, levels, ranges, root, h),
        h >= 1,
        levels.contains_key(root),
        levels[root] == h,
        levels.contains_key(y),
        levels[y] == 1,
        in_range(q, ranges[y]),
    ensures
        leaf_for(pages, root, h, q) == y,
{
    lemma_descend_in_range(pages, next_id, levels, leaves, ranges, root, h, root, h, q);
    let x = leaf_for(pages, root, h, q);
    if x != y {
        assert(in_range(q, ranges[x]) && in_range(q, ranges[y]));
    }
}

/// Slot ranges lie inside the node's range, and distinct slots do not overlap.
pub proof fn lemma_slot_ranges(es: Seq<Entry>, r: KeyRange, j: int, k: int, q: Seq<u8>)
    requires
        keys_sorted(es),
        forall|i: int| 0 <= i < es.len() ==> strictly_inside(#[trigger] es[i].0, r),
        0 <= j <= es.len(),
        0 <= k <= es.len(),
        in_range(q, slot_range(es, r, j)),
    ensures
        in_range(q, r),
        j != k ==> !in_range(q, slot_range(es, r, k)),
{
    // Inside the node's range.
    if j > 0 {
        if let Some(lo) = r.0 {
            assert(strictly_inside(es[j - 1].0, r));
            if es[j - 1].0 != q {
                lemma_lex_transitive(lo, es[j - 1].0, q);
            }
        }
    }
    if j < es.len() {
        if let Some(hi) = r.1 {
            assert(strictly_inside(es[j].0, r));
            lemma_lex_transitive(q, es[j].0, hi);
        }
    }
    // Not in another slot.
    if j != k && in_range(q, slot_range(es, r, k)) {
        let (a, b) = if j < k { (j, k) } else { (k, j) };
        // q sorts before separator a (upper end of slot a) and not before separator b - 1.
        assert(lex_lt(q, es[a].0));
        assert(es[b - 1].0 == q || lex_lt(es[b - 1].0, q));
        if a < b - 1 {
            assert(lex_lt(es[a].0, es[b - 1].0));
            lemma_lex_transitive(q, es[a].0, es[b - 1].0);
        }
        if es[b - 1].0 == q {
            lemma_lex_irreflexive(q);
        } else {
            lemma_lex_transitive(q, es[b - 1].0, q);
            lemma_lex_irreflexive(q);
        }
    }
}

/// A key strictly inside slot `k`, and not at the slot's lower bound, has rank `k` and is
/// not a separator.
pub proof fn lemma_rank_in_slot(v: PageView, r: KeyRange, k: int, sep: Seq<u8>)
    requires
        keys_sorted(v.entries),
        0 <= k <= v.entries.len(),
        strictly_inside(sep, slot_range(v.entries, r, k)),
    ensures
        v.rank(sep) == k,
        !v.contains(sep),
{
    let es = v.entries;
    lemma_rank_sorted(es, sep);
    assert forall|i: int| 0 <= i < k implies lex_lt(#[trigger] es[i].0, sep) by {
        if i < k - 1 {
            lemma_lex_transitive(es[i].0, es[k - 1].0, sep);
        }
    }
    assert forall|i: int| k <= i < es.len() implies !lex_lt(#[trigger] es[i].0, sep) by {
        assert(lex_lt(sep, es[k].0));
        if i > k {
            lemma_lex_transitive(sep, es[k].0, es[i].0);
        }
        if lex_lt(es[i].0, sep) {
            lemma_lex_transitive(sep, es[i].0, sep);
            lemma_lex_irreflexive(sep);
        }
    }
    crate::page::layout::lemma_rank_unique(es, sep, k);
    if v.contains(sep) {
        assert(es[k].0 == sep);
        lemma_lex_irreflexive(sep);
    }
}

/// `v` with separator `sep` and child `c` added at the separator's position.
pub open spec fn with_sep(v: PageView, sep: Seq<u8>, c: int) -> PageView {
    PageView { entries: v.entries.insert(v.rank(sep), (sep, child_bytes(c))), ..v }
}

/// The ranges fit the tree except at internal node `p`, which has yet to take separator
/// `sep` with child `c`; once it has, they fit there too.
pub open spec fn ranges_pending(
    pages: Map<u32, Page>,
    levels: Map<u32, nat>,
    ranges: Map<u32, KeyRange>,
    root: u32,
    h: nat,
    p: u32,
    sep: Seq<u8>,
    c: u32,
) -> bool {
    &&& ranges.dom() == levels.dom()
    &&& h >= 1
    &&& ranges[root] == (None::<Seq<u8>>, None::<Seq<u8>>)
    &&& levels.contains_key(p)
    &&& levels[p] > 1
    &&& forall|x: u32|
        #![trigger levels[x]]
        levels.contains_key(x) ==> levels[x] <= h && (levels[x] > 1 && x != p ==> node_ranges_ok(
            pages[x]@,
            ranges[x],
            ranges,
        ))
    &&& !pages[p]@.contains(sep)
    &&& node_ranges_ok(with_sep(pages[p]@, sep, c as int), ranges[p], ranges)
    &&& ranges_disjoint(levels, ranges)
}

/// The ranges fit the tree except that its root has split: the root now covers the keys
/// below `sep`, and page `c`, at the root's level, the keys from `sep` on.
pub open spec fn ranges_root_pending(
    pages: Map<u32, Page>,
    levels: Map<u32, nat>,
    ranges: Map<u32, KeyRange>,
    root: u32,
    h: nat,
    sep: Seq<u8>,
    c: u32,
) -> bool {
    &&& ranges.dom() == levels.dom()
    &&& h >= 1
    &&& ranges[root] == (None::<Seq<u8>>, Some(sep))
    &&& levels.contains_key(root)
    &&& levels[root] == h
    &&& levels.contains_key(c)
    &&& levels[c] == h
    &&& c != root
    &&& ranges[c] == (Some(sep), None::<Seq<u8>>)
    &&& forall|x: u32|
        #![trigger levels[x]]
        levels.contains_key(x) ==> levels[x] <= h && (levels[x] > 1 ==> node_ranges_ok(
            pages[x]@,
            ranges[x],
            ranges,
        ))
    &&& ranges_disjoint(levels, ranges)
}

/// Replacing a leaf leaves the ranges fitting.
pub proof fn lemma_ranges_keep_leaf(
    pages: Map<u32, Page>,
    levels: Map<u32, nat>,
    ranges: Map<u32, KeyRange>,
    root: u32,
    h: nat,
    leaf: u32,
    p: Page,
)
    requires
        ranges_ok(pages, levels, ranges, root, h),
        levels.contains_key(leaf),
        levels[leaf] == 1,
    ensures
        ranges_ok(pages.insert(leaf, p), levels, ranges, root, h),
{
    let pages2 = pages.insert(leaf, p);
    assert forall|x: u32| #![trigger levels[x]] levels.contains_key(x) implies levels[x] <= h && (levels[x]
        > 1 ==> node_ranges_ok(pages2[x]@, ranges[x], ranges)) by {
        if levels[x] > 1 {
            assert(pages2[x] == pages[x]);
        }
    }
}

/// Cutting range `r` at a key strictly inside it gives two ranges inside `r` that do not
/// overlap.
pub proof fn lemma_cut_range(r: KeyRange, sep: Seq<u8>, q: Seq<u8>)
    requires
        strictly_inside(sep, r),
    ensures
        in_range(q, (r.0, Some(sep))) ==> in_range(q, r),
        in_range(q, (Some(sep), r.1)) ==> in_range(q, r),
        !(in_range(q, (r.0, Some(sep))) && in_range(q, (Some(sep), r.1))),
{
    if in_range(q, (r.0, Some(sep))) {
        if let Some(hi) = r.1 {
            lemma_lex_transitive(q, sep, hi);
        }
        if in_range(q, (Some(sep), r.1)) {
            if sep == q {
                lemma_lex_irreflexive(q);
            } else {
                lemma_lex_transitive(q, sep, q);
                lemma_lex_irreflexive(q);
            }
        }
    }
    if in_range(q, (Some(sep), r.1)) {
        if let Some(lo) = r.0 {
            if sep != q {
                lemma_lex_transitive(lo, sep, q);
            }
        }
    }
}

/// A key strictly inside a slot's range is strictly inside the node's range.
pub proof fn lemma_slot_inside(es: Seq<Entry>, r: KeyRange, k: int, sep: Seq<u8>)
    requires
        forall|i: int| 0 <= i < es.len() ==> strictly_inside(#[trigger] es[i].0, r),
        0 <= k <= es.len(),
        strictly_inside(sep, slot_range(es, r, k)),
    ensures
        strictly_inside(sep, r),
{
    if k > 0 {
        if let Some(lo) = r.0 {
            assert(strictly_inside(es[k - 1].0, r));
            lemma_lex_transitive(lo, es[k - 1].0, sep);
        }
    }
    if k < es.len() {
        if let Some(hi) = r.1 {
            assert(strictly_inside(es[k].0, r));
            lemma_lex_transitive(sep, es[k].0, hi);
        }
    }
}

/// After a leaf splits at `sep` into itself (below `sep`) and new leaf `r` (from `sep`
/// on), the ranges fit the tree except at the leaf's parent `p`, which has yet to take
/// `sep` with child `r`.
#[verifier::spinoff_prover]
pub proof fn lemma_ranges_split_leaf(
    pages: Map<u32, Page>,
    next_id: u32,
    levels: Map<u32, nat>,
    leaves: Seq<u32>,
    ranges: Map<u32, KeyRange>,
    root: u32,
    h: nat,
    p: u32,
    key: Seq<u8>,
    leaf: u32,
    pl: Page,
    r: u32,
    pr: Page,
    sep: Seq<u8>,
)
    requires
        parts_ok(pages, next_id, levels, leaves),
        ranges_ok(pages, levels, ranges, root, h),
        levels.contains_key(root),
        levels[root] == h,
        levels.contains_key(p),
        levels[p] == 2,
        in_range(key, ranges[p]),
        leaf == route(pages, p, key),
        strictly_inside(sep, ranges[leaf]),
        !levels.contains_key(r),
    ensures
        ranges_pending(
            pages.insert(leaf, pl).insert(r, pr),
            levels.insert(r, 1),
            ranges.insert(leaf, (ranges[leaf].0, Some(sep))).insert(r, (Some(sep), ranges[leaf].1)),
            root,
            h,
            p,
            sep,
            r,
        ),
{
    let pages2 = pages.insert(leaf, pl).insert(r, pr);
    let levels2 = levels.insert(r, 1);
    let rl = ranges[leaf];
    let ranges2 = ranges.insert(leaf, (rl.0, Some(sep))).insert(r, (Some(sep), rl.1));
    let vp = pages[p]@;
    let es = vp.entries;
    let rp = ranges[p];
    assert(node_ok(pages, levels, p));
    pages[p].lemma_view_valid();
    lemma_route_in_range(vp, rp, key);
    let k = split_position(vp, key);
    assert(levels[p] > 1);
    assert(node_ranges_ok(vp, rp, ranges));
    assert(ranges[slot_child(vp, k) as u32] == slot_range(es, rp, k));
    assert(rl == slot_range(es, rp, k));
    lemma_rank_in_slot(vp, rp, k, sep);
    lemma_slot_inside(es, rp, k, sep);
    assert(pages2[p] == pages[p]);
    // The leaf is no other slot's child, here or in any other node.
    assert forall|x: u32, j: int|
        levels.contains_key(x) && levels[x] > 1 && 0 <= j <= pages[x]@.entries.len() && (x != p || j
            != k) implies #[trigger] slot_child(pages[x]@, j) as u32 != leaf by {
        let vx = pages[x]@;
        assert(node_ranges_ok(vx, ranges[x], ranges));
        assert(ranges[slot_child(vx, j) as u32] == slot_range(vx.entries, ranges[x], j));
        pages[x].lemma_view_valid();
        if slot_child(vx, j) as u32 == leaf {
            lemma_slot_ranges(vx.entries, ranges[x], j, j, key);
            if x == p {
                lemma_slot_ranges(es, rp, k, j, key);
            } else {
                assert(node_ok(pages, levels, x));
                if j > 0 {
                    assert(entries_point_to(levels, vx.entries, (levels[x] - 1) as nat));
                    assert(child_ok(levels, child_id(vx.entries[j - 1].1), (levels[x] - 1) as nat));
                }
                assert(levels[x] == 2);
                assert(in_range(key, ranges[x]) && in_range(key, ranges[p]));
            }
        }
    }
    // Children of stored nodes are stored, so none is the new leaf.
    assert forall|x: u32, j: int|
        levels.contains_key(x) && levels[x] > 1 && 0 <= j <= pages[x]@.entries.len() implies #[trigger] levels.contains_key(
        slot_child(pages[x]@, j) as u32,
    ) by {
        assert(node_ok(pages, levels, x));
        if j > 0 {
            let vx = pages[x]@;
            assert(entries_point_to(levels, vx.entries, (levels[x] - 1) as nat));
            assert(child_ok(levels, child_id(vx.entries[j - 1].1), (levels[x] - 1) as nat));
        }
    }
    // Nodes other than the parent keep fitting.
    assert forall|x: u32| #![trigger levels2[x]] levels2.contains_key(x) implies levels2[x] <= h && (levels2[x]
        > 1 && x != p ==> node_ranges_ok(pages2[x]@, ranges2[x], ranges2)) by {
        if x != r && levels[x] > 1 && x != p {
            let vx = pages[x]@;
            assert(pages2[x] == pages[x]);
            assert(node_ranges_ok(vx, ranges[x], ranges));
            assert forall|j: int| 0 <= j <= vx.entries.len() implies ranges2[#[trigger] slot_child(vx, j) as u32]
                == slot_range(vx.entries, ranges2[x], j) by {
                assert(ranges[slot_child(vx, j) as u32] == slot_range(vx.entries, ranges[x], j));
                assert(levels.contains_key(slot_child(vx, j) as u32));
            }
        }
    }
    // The parent fits once it takes the separator.
    let v2 = with_sep(vp, sep, r as int);
    let es2 = v2.entries;
    crate::btree::internal::lemma_child_id_of_bytes(r);
    assert(es2 == es.insert(k, (sep, child_bytes(r as int))));
    assert forall|i: int| 0 <= i < es2.len() implies strictly_inside(#[trigger] es2[i].0, rp) by {
        if i < k {
            assert(es2[i] == es[i]);
        } else if i > k {
            assert(es2[i] == es[i - 1]);
        }
    }
    assert forall|j: int| 0 <= j <= es2.len() implies ranges2[#[trigger] slot_child(v2, j) as u32]
        == slot_range(es2, rp, j) by {
        if j < k {
            assert(slot_child(v2, j) == slot_child(vp, j));
            assert(levels.contains_key(slot_child(vp, j) as u32));
            assert(ranges[slot_child(vp, j) as u32] == slot_range(es, rp, j));
            if j > 0 {
                assert(es2[j - 1] == es[j - 1]);
            }
            assert(es2[j] == es[j]);
        } else if j == k {
            if k > 0 {
                assert(es2[k - 1] == es[k - 1]);
            }
            assert(slot_child(v2, j) == slot_child(vp, k));
        } else if j == k + 1 {
            assert(slot_child(v2, j) == r as int);
            if j < es2.len() {
                assert(es2[j] == es[k]);
            }
        } else {
            assert(es2[j - 1] == es[j - 2]);
            assert(slot_child(v2, j) == slot_child(vp, j - 1));
            assert(levels.contains_key(slot_child(vp, j - 1) as u32));
            assert(ranges[slot_child(vp, j - 1) as u32] == slot_range(es, rp, j - 1));
            if j < es2.len() {
                assert(es2[j] == es[j - 1]);
            }
        }
    }
    // No two pages of a level overlap.
    assert forall|x: u32, y: u32, q: Seq<u8>|
        #![trigger in_range(q, ranges2[x]), in_range(q, ranges2[y])]
        levels2.contains_key(x) && levels2.contains_key(y) && x != y && levels2[x] == levels2[y]
            && in_range(q, ranges2[x]) implies !in_range(q, ranges2[y]) by {
        lemma_cut_range(rl, sep, q);
        if x != leaf && x != r && y != leaf && y != r {
            assert(in_range(q, ranges[x]) ==> !in_range(q, ranges[y]));
        } else if (x == leaf || x == r) && y != leaf && y != r {
            assert(in_range(q, rl));
            assert(in_range(q, ranges[leaf]) ==> !in_range(q, ranges[y]));
        } else if (y == leaf || y == r) && x != leaf && x != r {
            assert(in_range(q, ranges[x]) ==> !in_range(q, ranges[leaf]));
        }
    }
    assert(levels2.contains_key(p));
    assert(ranges2.dom() =~= levels2.dom());
}

/// When the root is a leaf and splits at `sep` into itself and new leaf `r`, the ranges
/// fit the tree except that the root has split.
pub proof fn lemma_ranges_split_root_leaf(
    pages: Map<u32, Page>,
    levels: Map<u32, nat>,
    ranges: Map<u32, KeyRange>,
    root: u32,
    pl: Page,
    r: u32,
    pr: Page,
    sep: Seq<u8>,
)
    requires
        ranges_ok(pages, levels, ranges, root, 1),
        levels.contains_key(root),
        levels[root] == 1,
        !levels.contains_key(r),
    ensures
        ranges_root_pending(
            pages.insert(root, pl).insert(r, pr),
            levels.insert(r, 1),
            ranges.insert(root, (None::<Seq<u8>>, Some(sep))).insert(r, (Some(sep), None::<Seq<u8>>)),
            root,
            1,
            sep,
            r,
        ),
{
    let levels2 = levels.insert(r, 1);
    let ranges2 = ranges.insert(root, (None::<Seq<u8>>, Some(sep))).insert(r, (Some(sep), None::<Seq<u8>>));
    assert(ranges2.dom() =~= levels2.dom());
    assert forall|x: u32, y: u32, q: Seq<u8>|
        #![trigger in_range(q, ranges2[x]), in_range(q, ranges2[y])]
        levels2.contains_key(x) && levels2.contains_key(y) && x != y && levels2[x] == levels2[y]
            && in_range(q, ranges2[x]) implies !in_range(q, ranges2[y]) by {
        lemma_cut_range((None::<Seq<u8>>, None::<Seq<u8>>), sep, q);
        if x != root && x != r && y != root && y != r {
            assert(in_range(q, ranges[x]) ==> !in_range(q, ranges[y]));
        } else if x == root || x == r {
            if y != root && y != r {
                assert(in_range(q, ranges[root]) ==> !in_range(q, ranges[y]));
            }
        } else {
            assert(in_range(q, ranges[x]) ==> !in_range(q, ranges[root]));
        }
    }
}

/// Once the pending node takes its separator, the ranges fit the tree.
pub proof fn lemma_ranges_absorb(
    pages: Map<u32, Page>,
    levels: Map<u32, nat>,
    ranges: Map<u32, KeyRange>,
    root: u32,
    h: nat,
    p: u32,
    sep: Seq<u8>,
    c: u32,
    np: Page,
)
    requires
        ranges_pending(pages, levels, ranges, root, h, p, sep, c),
        np@.entries == with_sep(pages[p]@, sep, c as int).entries,
        np@.next_leaf == pages[p]@.next_leaf,
    ensures
        ranges_ok(pages.insert(p, np), levels, ranges, root, h),
{
    let pages2 = pages.insert(p, np);
    let v2 = with_sep(pages[p]@, sep, c as int);
    assert forall|j: int| 0 <= j <= np@.entries.len() implies #[trigger] slot_child(np@, j) == slot_child(v2, j) by {}
    assert forall|x: u32| #![trigger levels[x]] levels.contains_key(x) implies levels[x] <= h && (levels[x]
        > 1 ==> node_ranges_ok(pages2[x]@, ranges[x], ranges)) by {
        if x == p {
            assert(node_ranges_ok(v2, ranges[p], ranges));
            assert forall|j: int| 0 <= j <= np@.entries.len() implies ranges[#[trigger] slot_child(np@, j) as u32]
                == slot_range(np@.entries, ranges[p], j) by {
                assert(slot_child(np@, j) == slot_child(v2, j));
            }
        }
    }
}

/// When the pending node `p` is too full to take its separator and splits instead, with
/// the middle separator `pushed` going up, the ranges fit the tree except at `p`'s parent
/// `g`, which has yet to take `pushed` with the new node `q2` — or, when `p` is the root,
/// except that the root has split.
#[verifier::spinoff_prover]
#[verifier::rlimit(40)]
pub proof fn lemma_ranges_split_node(
    pages: Map<u32, Page>,
    next_id: u32,
    levels: Map<u32, nat>,
    leaves: Seq<u32>,
    ranges: Map<u32, KeyRange>,
    root: u32,
    h: nat,
    p: u32,
    sep: Seq<u8>,
    c: u32,
    g: u32,
    key: Seq<u8>,
    q2: u32,
    pl: Page,
    qr: Page,
)
    requires
        parts_ok(pages, next_id, levels, leaves),
        ranges_pending(pages, levels, ranges, root, h, p, sep, c),
        child_ok(levels, c as int, (levels[p] - 1) as nat),
        levels.contains_key(root),
        levels[root] == h,
        p != root ==> {
            &&& levels.contains_key(g)
            &&& levels[g] == levels[p] + 1
            &&& p == route(pages, g, key)
            &&& in_range(key, ranges[g])
        },
        !levels.contains_key(q2),
        ({
            let v = with_sep(pages[p]@, sep, c as int);
            let mid = (v.entries.len() / 2) as int;
            &&& pl@.entries == v.entries.take(mid)
            &&& pl@.next_leaf == v.next_leaf
            &&& qr@.entries == v.entries.skip(mid + 1)
            &&& qr@.next_leaf == child_id(v.entries[mid].1)
        }),
    ensures
        ({
            let v = with_sep(pages[p]@, sep, c as int);
            let mid = (v.entries.len() / 2) as int;
            let pushed = v.entries[mid].0;
            let rp = ranges[p];
            let pages2 = pages.insert(p, pl).insert(q2, qr);
            let levels2 = levels.insert(q2, levels[p]);
            let ranges2 = ranges.insert(p, (rp.0, Some(pushed))).insert(q2, (Some(pushed), rp.1));
            &&& p == root ==> ranges_root_pending(pages2, levels2, ranges2, root, h, pushed, q2)
            &&& p != root ==> ranges_pending(pages2, levels2, ranges2, root, h, g, pushed, q2)
        }),
{
    let vp = pages[p]@;
    let v = with_sep(vp, sep, c as int);
    let all = v.entries;
    let mid = (all.len() / 2) as int;
    let pushed = all[mid].0;
    let rp = ranges[p];
    let lp = levels[p];
    let pages2 = pages.insert(p, pl).insert(q2, qr);
    let levels2 = levels.insert(q2, lp);
    let ranges2 = ranges.insert(p, (rp.0, Some(pushed))).insert(q2, (Some(pushed), rp.1));
    let rl = (rp.0, Some(pushed));
    let rr = (Some(pushed), rp.1);
    pages[p].lemma_view_valid();
    crate::page::layout::lemma_sorted_insert(vp.entries, (sep, child_bytes(c as int)));
    assert(keys_sorted(all));
    assert(node_ranges_ok(v, rp, ranges));
    assert(strictly_inside(pushed, rp));
    // Every child of the pending node is stored one level below it.
    assert forall|j: int| 0 <= j <= all.len() implies #[trigger] levels.contains_key(slot_child(v, j) as u32)
        && levels[slot_child(v, j) as u32] == lp - 1 by {
        assert(node_ok(pages, levels, p));
        if j > 0 {
            let pos = vp.rank(sep);
            crate::page::layout::lemma_rank_sorted(vp.entries, sep);
            if j - 1 < pos {
                assert(all[j - 1] == vp.entries[j - 1]);
                assert(entries_point_to(levels, vp.entries, (lp - 1) as nat));
                assert(child_ok(levels, child_id(vp.entries[j - 1].1), (lp - 1) as nat));
            } else if j - 1 == pos {
                crate::btree::internal::lemma_child_id_of_bytes(c);
            } else {
                assert(all[j - 1] == vp.entries[j - 2]);
                assert(entries_point_to(levels, vp.entries, (lp - 1) as nat));
                assert(child_ok(levels, child_id(vp.entries[j - 2].1), (lp - 1) as nat));
            }
        }
    }
    // The left node fits the lower part of p's range.
    assert(node_ranges_ok(pl@, rl, ranges2)) by {
        assert forall|i: int| 0 <= i < pl@.entries.len() implies strictly_inside(#[trigger] pl@.entries[i].0, rl) by {
            assert(pl@.entries[i] == all[i]);
            assert(strictly_inside(all[i].0, rp));
            assert(lex_lt(all[i].0, all[mid].0));
        }
        assert forall|j: int| 0 <= j <= pl@.entries.len() implies ranges2[#[trigger] slot_child(pl@, j) as u32]
            == slot_range(pl@.entries, rl, j) by {
            assert(slot_child(pl@, j) == slot_child(v, j)) by {
                if j > 0 {
                    assert(pl@.entries[j - 1] == all[j - 1]);
                }
            }
            assert(ranges[slot_child(v, j) as u32] == slot_range(all, rp, j));
            if j > 0 {
                assert(pl@.entries[j - 1] == all[j - 1]);
            }
            if j < mid {
                assert(pl@.entries[j] == all[j]);
            }
        }
    }
    // The right node fits the upper part.
    assert(node_ranges_ok(qr@, rr, ranges2)) by {
        assert forall|i: int| 0 <= i < qr@.entries.len() implies strictly_inside(#[trigger] qr@.entries[i].0, rr) by {
            assert(qr@.entries[i] == all[mid + 1 + i]);
            assert(strictly_inside(all[mid + 1 + i].0, rp));
            assert(lex_lt(all[mid].0, all[mid + 1 + i].0));
        }
        assert forall|j: int| 0 <= j <= qr@.entries.len() implies ranges2[#[trigger] slot_child(qr@, j) as u32]
            == slot_range(qr@.entries, rr, j) by {
            assert(slot_child(qr@, j) == slot_child(v, mid + 1 + j)) by {
                if j > 0 {
                    assert(qr@.entries[j - 1] == all[mid + j]);
                }
            }
            assert(ranges[slot_child(v, mid + 1 + j) as u32] == slot_range(all, rp, mid + 1 + j));
            if j > 0 {
                assert(qr@.entries[j - 1] == all[mid + j]);
            }
            if j < qr@.entries.len() {
                assert(qr@.entries[j] == all[mid + 1 + j]);
            }
        }
    }
    // A witness inside p's range, when p has a parent.
    if p != root {
        let vg = pages[g]@;
        assert(node_ok(pages, levels, g));
        pages[g].lemma_view_valid();
        lemma_route_in_range(vg, ranges[g], key);
        let kg = split_position(vg, key);
        assert(node_ranges_ok(vg, ranges[g], ranges));
        assert(ranges[slot_child(vg, kg) as u32] == slot_range(vg.entries, ranges[g], kg));
        assert(in_range(key, rp));
    }
    // p is no other node's child (and no other slot's child of g).
    assert forall|x: u32, j: int|
        levels.contains_key(x) && levels[x] > 1 && 0 <= j <= pages[x]@.entries.len() && x != p && slot_child(
            pages[x]@,
            j,
        ) as u32 == p implies x == g && j == split_position(pages[g]@, key) && p != root by {
        let vx = pages[x]@;
        assert(node_ok(pages, levels, x));
        pages[x].lemma_view_valid();
        assert(node_ranges_ok(vx, ranges[x], ranges));
        assert(ranges[slot_child(vx, j) as u32] == slot_range(vx.entries, ranges[x], j));
        if j > 0 {
            assert(entries_point_to(levels, vx.entries, (levels[x] - 1) as nat));
            assert(child_ok(levels, child_id(vx.entries[j - 1].1), (levels[x] - 1) as nat));
        }
        assert(levels[x] == lp + 1);
        if p == root {
            assert(levels[x] <= h);
        } else {
            lemma_slot_ranges(vx.entries, ranges[x], j, j, key);
            if x != g {
                assert(in_range(key, ranges[x]) && in_range(key, ranges[g]));
            } else {
                let kg = split_position(pages[g]@, key);
                lemma_slot_ranges(vx.entries, ranges[x], j, kg, key);
            }
        }
    }
    // Nodes other than p and its parent keep fitting.
    assert forall|x: u32| #![trigger levels2[x]] levels2.contains_key(x) && x != g && x != p && x != q2 && levels2[x] > 1 implies node_ranges_ok(
        pages2[x]@,
        ranges2[x],
        ranges2,
    ) by {
        let vx = pages[x]@;
        assert(pages2[x] == pages[x]);
        assert(levels[x] <= h);
        assert(node_ranges_ok(vx, ranges[x], ranges));
        assert forall|j: int| 0 <= j <= vx.entries.len() implies ranges2[#[trigger] slot_child(vx, j) as u32]
            == slot_range(vx.entries, ranges2[x], j) by {
            assert(ranges[slot_child(vx, j) as u32] == slot_range(vx.entries, ranges[x], j));
            assert(node_ok(pages, levels, x));
            if j > 0 {
                assert(entries_point_to(levels, vx.entries, (levels[x] - 1) as nat));
                assert(child_ok(levels, child_id(vx.entries[j - 1].1), (levels[x] - 1) as nat));
            }
        }
    }
    // No two pages of a level overlap.
    assert forall|x: u32, y: u32, q: Seq<u8>|
        #![trigger in_range(q, ranges2[x]), in_range(q, ranges2[y])]
        levels2.contains_key(x) && levels2.contains_key(y) && x != y && levels2[x] == levels2[y]
            && in_range(q, ranges2[x]) implies !in_range(q, ranges2[y]) by {
        lemma_cut_range(rp, pushed, q);
        if x != p && x != q2 && y != p && y != q2 {
            assert(in_range(q, ranges[x]) ==> !in_range(q, ranges[y]));
        } else if (x == p || x == q2) && y != p && y != q2 {
            assert(in_range(q, ranges[p]) ==> !in_range(q, ranges[y]));
        } else if (y == p || y == q2) && x != p && x != q2 {
            assert(in_range(q, ranges[x]) ==> !in_range(q, ranges[p]));
        }
    }
    assert(ranges2.dom() =~= levels2.dom());
    if p != root {
        // The parent fits once it takes the pushed separator.
        let vg = pages[g]@;
        let es = vg.entries;
        let rg = ranges[g];
        let k = split_position(vg, key);
        lemma_route_in_range(vg, rg, key);
        assert(ranges[slot_child(vg, k) as u32] == slot_range(es, rg, k));
        lemma_rank_in_slot(vg, rg, k, pushed);
        assert(pages2[g] == pages[g]);
        let v2 = with_sep(vg, pushed, q2 as int);
        let es2 = v2.entries;
        crate::btree::internal::lemma_child_id_of_bytes(q2);
        assert(es2 == es.insert(k, (pushed, child_bytes(q2 as int))));
        lemma_slot_inside(es, rg, k, pushed);
        assert forall|i: int| 0 <= i < es2.len() implies strictly_inside(#[trigger] es2[i].0, rg) by {
            if i < k {
                assert(es2[i] == es[i]);
            } else if i > k {
                assert(es2[i] == es[i - 1]);
            }
        }
        assert forall|j: int| 0 <= j <= es2.len() implies ranges2[#[trigger] slot_child(v2, j) as u32]
            == slot_range(es2, rg, j) by {
            assert(node_ok(pages, levels, g));
            if j < k {
                assert(slot_child(v2, j) == slot_child(vg, j));
                if j > 0 {
                    assert(es2[j - 1] == es[j - 1]);
                    assert(entries_point_to(levels, es, (levels[g] - 1) as nat));
                    assert(child_ok(levels, child_id(es[j - 1].1), (levels[g] - 1) as nat));
                }
                assert(ranges[slot_child(vg, j) as u32] == slot_range(es, rg, j));
                assert(es2[j] == es[j]);
            } else if j == k {
                if k > 0 {
                    assert(es2[k - 1] == es[k - 1]);
                }
                assert(slot_child(v2, j) == slot_child(vg, k));
            } else if j == k + 1 {
                assert(slot_child(v2, j) == q2 as int);
                if j < es2.len() {
                    assert(es2[j] == es[k]);
                }
            } else {
                assert(es2[j - 1] == es[j - 2]);
                assert(slot_child(v2, j) == slot_child(vg, j - 1));
                assert(entries_point_to(levels, es, (levels[g] - 1) as nat));
                assert(child_ok(levels, child_id(es[j - 2].1), (levels[g] - 1) as nat));
                assert(ranges[slot_child(vg, j - 1) as u32] == slot_range(es, rg, j - 1));
                if j < es2.len() {
                    assert(es2[j] == es[j - 1]);
                }
            }
        }
        assert(levels2.contains_key(g));
        assert forall|x: u32| #![trigger levels2[x]] levels2.contains_key(x) implies levels2[x] <= h && (levels2[x]
            > 1 && x != g ==> node_ranges_ok(pages2[x]@, ranges2[x], ranges2)) by {
            if x == p {
                assert(pages2[p] == pl);
            } else if x == q2 {
                assert(pages2[q2] == qr);
            }
        }
    } else {
        assert forall|x: u32| #![trigger levels2[x]] levels2.contains_key(x) implies levels2[x] <= h && (levels2[x]
            > 1 ==> node_ranges_ok(pages2[x]@, ranges2[x], ranges2)) by {
            if x == p {
                assert(pages2[p] == pl);
            } else if x == q2 {
                assert(pages2[q2] == qr);
            }
        }
    }
}

/// The children of a stored internal node are stored one level below it.
pub proof fn lemma_slot_child_stored(
    pages: Map<u32, Page>,
    next_id: u32,
    levels: Map<u32, nat>,
    leaves: Seq<u32>,
    x: u32,
    j: int,
)
    requires
        parts_ok(pages, next_id, levels, leaves),
        levels.contains_key(x),
        levels[x] > 1,
        0 <= j <= pages[x]@.entries.len(),
    ensures
        child_ok(levels, slot_child(pages[x]@, j), (levels[x] - 1) as nat),
{
    assert(node_ok(pages, levels, x));
    if j > 0 {
        let vx = pages[x]@;
        assert(entries_point_to(levels, vx.entries, (levels[x] - 1) as nat));
        assert(child_ok(levels, child_id(vx.entries[j - 1].1), (levels[x] - 1) as nat));
    }
}

/// A new root above a split root, with the old root as its leftmost child and `c` as
/// the child of its one separator `sep`, makes the ranges fit the taller tree.
pub proof fn lemma_ranges_new_root(
    pages: Map<u32, Page>,
    next_id: u32,
    levels: Map<u32, nat>,
    leaves: Seq<u32>,
    ranges: Map<u32, KeyRange>,
    root: u32,
    h: nat,
    sep: Seq<u8>,
    c: u32,
    nr: u32,
    np: Page,
)
    requires
        parts_ok(pages, next_id, levels, leaves),
        ranges_root_pending(pages, levels, ranges, root, h, sep, c),
        !levels.contains_key(nr),
        np@.next_leaf == root,
        np@.entries == seq![(sep, child_bytes(c as int))],
    ensures
        ranges_ok(
            pages.insert(nr, np),
            levels.insert(nr, h + 1),
            ranges.insert(nr, (None::<Seq<u8>>, None::<Seq<u8>>)),
            nr,
            h + 1,
        ),
{
    let pages2 = pages.insert(nr, np);
    let levels2 = levels.insert(nr, h + 1);
    let ranges2 = ranges.insert(nr, (None::<Seq<u8>>, None::<Seq<u8>>));
    crate::btree::internal::lemma_child_id_of_bytes(c);
    assert(ranges2.dom() =~= levels2.dom());
    assert(node_ranges_ok(np@, ranges2[nr], ranges2)) by {
        assert(slot_child(np@, 0) == root as int);
        assert(slot_child(np@, 1) == c as int);
    }
    assert forall|x: u32| #![trigger levels2[x]] levels2.contains_key(x) implies levels2[x] <= h + 1 && (levels2[x]
        > 1 ==> node_ranges_ok(pages2[x]@, ranges2[x], ranges2)) by {
        if x != nr && levels[x] > 1 {
            let vx = pages[x]@;
            assert(node_ranges_ok(vx, ranges[x], ranges));
            assert forall|j: int| 0 <= j <= vx.entries.len() implies ranges2[#[trigger] slot_child(vx, j) as u32]
                == slot_range(vx.entries, ranges2[x], j) by {
                assert(ranges[slot_child(vx, j) as u32] == slot_range(vx.entries, ranges[x], j));
                lemma_slot_child_stored(pages, next_id, levels, leaves, x, j);
            }
        }
    }
}

/// The keys a page holds after a remove are among those it held.
pub proof fn lemma_remove_keys_in_range(v: PageView, key: Seq<u8>, r: KeyRange)
    requires
        keys_sorted(v.entries),
        forall|i: int| 0 <= i < v.entries.len() ==> in_range(#[trigger] v.entries[i].0, r),
    ensures
        forall|i: int|
            0 <= i < v.remove_state(key).entries.len() ==> in_range(#[trigger] v.remove_state(key).entries[i].0, r),
{
    let w = v.remove_state(key);
    let k = v.rank(key);
    assert forall|i: int| 0 <= i < w.entries.len() implies in_range(#[trigger] w.entries[i].0, r) by {
        if v.contains(key) {
            if i < k {
                assert(w.entries[i] == v.entries[i]);
            } else {
                assert(w.entries[i] == v.entries[i + 1]);
            }
        }
    }
}

/// The keys a page holds after a put are among those it held and the put key.
pub proof fn lemma_put_keys_in_range(v: PageView, key: Seq<u8>, val: Seq<u8>, r: KeyRange)
    requires
        keys_sorted(v.entries),
        forall|i: int| 0 <= i < v.entries.len() ==> in_range(#[trigger] v.entries[i].0, r),
        in_range(key, r),
    ensures
        forall|i: int|
            0 <= i < v.put_state(key, val).entries.len() ==> in_range(#[trigger] v.put_state(key, val).entries[i].0, r),
{
    let w = v.put_state(key, val);
    let k = v.rank(key);
    lemma_rank_sorted(v.entries, key);
    assert forall|i: int| 0 <= i < w.entries.len() implies in_range(#[trigger] w.entries[i].0, r) by {
        if v.put_fits(key, val) && !v.contains(key) {
            if i < k {
                assert(w.entries[i] == v.entries[i]);
            } else if i > k {
                assert(w.entries[i] == v.entries[i - 1]);
            }
        } else if v.put_fits(key, val) {
            if i != k {
                assert(w.entries[i] == v.entries[i]);
            }
        } else {
            assert(w.entries[i] == v.entries[i]);
        }
    }
}

/// Replacing a leaf by one whose keys lie in its range keeps every leaf in range.
pub proof fn lemma_leaves_in_range_replace(
    pages: Map<u32, Page>,
    levels: Map<u32, nat>,
    ranges: Map<u32, KeyRange>,
    leaf: u32,
    p: Page,
)
    requires
        leaves_in_range(pages, levels, ranges),
        forall|i: int| 0 <= i < p@.entries.len() ==> in_range(#[trigger] p@.entries[i].0, ranges[leaf]),
    ensures
        leaves_in_range(pages.insert(leaf, p), levels, ranges),
{
    let pages2 = pages.insert(leaf, p);
    assert forall|x: u32, i: int|
        levels.contains_key(x) && levels[x] == 1 && 0 <= i < pages2[x]@.entries.len() implies in_range(
        #[trigger] pages2[x]@.entries[i].0,
        ranges[x],
    ) by {
        if x != leaf {
            assert(pages2[x] == pages[x]);
            assert(in_range(pages[x]@.entries[i].0, ranges[x]));
        }
    }
}

/// The internal pages a search for `key` passes hold `key` in their ranges, each routes
/// it to the next, and the last routes it to the leaf the search ends at.
#[verifier::spinoff_prover]
pub proof fn lemma_path_facts(
    pages: Map<u32, Page>,
    next_id: u32,
    levels: Map<u32, nat>,
    leaves: Seq<u32>,
    ranges: Map<u32, KeyRange>,
    root: u32,
    h: nat,
    id: u32,
    l: nat,
    key: Seq<u8>,
)
    requires
        parts_ok(pages, next_id, levels, leaves),
        ranges_ok(pages, levels, ranges, root, h),
        levels.contains_key(id),
        levels[id] == l,
        in_range(key, ranges[id]),
    ensures
        path_for(pages, id, l, key).len() == l - 1,
        l >= 2 ==> path_for(pages, id, l, key)[0] == id,
        forall|i: int|
            0 <= i < l - 1 ==> in_range(key, ranges[#[trigger] path_for(pages, id, l, key)[i]]),
        forall|i: int|
            0 <= i < l - 2 ==> route(pages, #[trigger] path_for(pages, id, l, key)[i], key) == path_for(
                pages,
                id,
                l,
                key,
            )[i + 1],
        l >= 2 ==> route(pages, path_for(pages, id, l, key)[l - 2], key) == leaf_for(pages, id, l, key),
    decreases l,
{
    crate::btree::structure::lemma_descend(pages, next_id, levels, id, l, key);
    if l > 1 {
        let v = pages[id]@;
        assert(node_ok(pages, levels, id));
        pages[id].lemma_view_valid();
        lemma_route_in_range(v, ranges[id], key);
        let k = split_position(v, key);
        assert(node_ranges_ok(v, ranges[id], ranges));
        assert(ranges[slot_child(v, k) as u32] == slot_range(v.entries, ranges[id], k));
        let c = route(pages, id, key);
        lemma_slot_child_stored(pages, next_id, levels, leaves, id, k);
        lemma_path_facts(pages, next_id, levels, leaves, ranges, root, h, c, (l - 1) as nat, key);
        let p = path_for(pages, id, l, key);
        let p1 = path_for(pages, c, (l - 1) as nat, key);
        assert(p == seq![id] + p1);
        assert forall|i: int| 0 <= i < l - 1 implies in_range(key, ranges[#[trigger] p[i]]) by {
            if i > 0 {
                assert(p[i] == p1[i - 1]);
            }
        }
        assert forall|i: int| 0 <= i < l - 2 implies route(pages, #[trigger] p[i], key) == p[i + 1] by {
            if i > 0 {
                assert(p[i] == p1[i - 1]);
                assert(p[i + 1] == p1[i]);
            } else {
                assert(p[1] == p1[0]);
            }
        }
        assert(leaf_for(pages, id, l, key) == leaf_for(pages, c, (l - 1) as nat, key));
        if l >= 3 {
            assert(p[l - 2] == p1[l - 3]);
        } else {
            assert(leaf_for(pages, c, 1, key) == c);
            assert(p[0] == id);
        }
    }
}

/// The leaves of one tree state are those of another, with the same pages and ranges.
pub open spec fn leaves_kept(
    pages0: Map<u32, Page>,
    levels0: Map<u32, nat>,
    ranges0: Map<u32, KeyRange>,
    pages1: Map<u32, Page>,
    levels1: Map<u32, nat>,
    ranges1: Map<u32, KeyRange>,
) -> bool {
    &&& forall|x: u32|
        #![trigger levels1.contains_key(x)]
        #![trigger levels0.contains_key(x)]
        (levels1.contains_key(x) && levels1[x] == 1) <==> (levels0.contains_key(x) && levels0[x] == 1)
    &&& forall|x: u32|
        #![trigger pages1[x]]
        levels0.contains_key(x) && levels0[x] == 1 ==> pages1[x] == pages0[x] && ranges1[x] == ranges0[x]
}

/// The halves of a leaf split whose keys, old and new, lie in range `r`: the separator
/// lies strictly inside `r`, the lower half keeps keys below it and the upper half keys
/// from it on, and in its part of `r` each half finds for every key what the leaf finds
/// after the put.
#[verifier::spinoff_prover]
pub proof fn lemma_split_halves(
    v: PageView,
    key: Seq<u8>,
    val: Seq<u8>,
    right_id: int,
    r: KeyRange,
    pl: PageView,
    pr: PageView,
)
    requires
        v.valid(),
        !v.put_fits(key, val),
        split_entries(v, key, val).len() >= 2,
        forall|i: int| 0 <= i < v.entries.len() ==> in_range(#[trigger] v.entries[i].0, r),
        in_range(key, r),
        ({
            let all = split_entries(v, key, val);
            let mid = (all.len() / 2) as int;
            let left = put_all(PageView::fresh(v.page_id), all.take(mid));
            let right = put_all(PageView::fresh(right_id), all.skip(mid));
            &&& left is Some
            &&& right is Some
            &&& pl.entries == left.unwrap().entries
            &&& pr.entries == right.unwrap().entries
        }),
        keys_sorted(pl.entries),
        keys_sorted(pr.entries),
    ensures
        ({
            let all = split_entries(v, key, val);
            let sep = all[(all.len() / 2) as int].0;
            &&& strictly_inside(sep, r)
            &&& forall|i: int| 0 <= i < pl.entries.len() ==> in_range(#[trigger] pl.entries[i].0, (r.0, Some(sep)))
            &&& forall|i: int| 0 <= i < pr.entries.len() ==> in_range(#[trigger] pr.entries[i].0, (Some(sep), r.1))
            &&& forall|q: Seq<u8>|
                #[trigger] in_range(q, (r.0, Some(sep))) ==> pl.lookup(q) == if q == key {
                    Some(val)
                } else {
                    v.lookup(q)
                }
            &&& forall|q: Seq<u8>|
                #[trigger] in_range(q, (Some(sep), r.1)) ==> pr.lookup(q) == if q == key {
                    Some(val)
                } else {
                    v.lookup(q)
                }
        }),
{
    let all = split_entries(v, key, val);
    let mid = (all.len() / 2) as int;
    let left = put_all(PageView::fresh(v.page_id), all.take(mid)).unwrap();
    let right = put_all(PageView::fresh(right_id), all.skip(mid)).unwrap();
    let sep = all[mid].0;
    let rk = v.rank(key);
    law_leaf_split(v, key, val, right_id, key);
    lemma_rank_sorted(v.entries, key);
    assert forall|i: int| 0 <= i < all.len() implies in_range(#[trigger] all[i].0, r) by {
        if v.contains(key) {
            if i != rk {
                assert(all[i] == v.entries[i]);
            }
        } else if i < rk {
            assert(all[i] == v.entries[i]);
        } else if i > rk {
            assert(all[i] == v.entries[i - 1]);
        }
    }
    assert forall|a: int| 0 <= a < pl.entries.len() implies in_range(#[trigger] pl.entries[a].0, (r.0, Some(sep))) by {
        assert(pl.entries[a] == left.entries[a]);
        let i = choose|i: int| 0 <= i < mid && all[i].0 == #[trigger] left.entries[a].0;
        assert(in_range(all[i].0, r));
        assert(lex_lt(left.entries[a].0, right.entries[0].0));
    }
    assert forall|b: int| 0 <= b < pr.entries.len() implies in_range(#[trigger] pr.entries[b].0, (Some(sep), r.1)) by {
        assert(pr.entries[b] == right.entries[b]);
        let j = choose|j: int| mid <= j < all.len() && all[j].0 == #[trigger] right.entries[b].0;
        assert(in_range(all[j].0, r));
        if b > 0 {
            assert(lex_lt(pr.entries[0].0, pr.entries[b].0));
        }
    }
    assert(strictly_inside(sep, r)) by {
        let j = choose|j: int| mid <= j < all.len() && all[j].0 == #[trigger] right.entries[0].0;
        assert(in_range(all[j].0, r));
        let i = choose|i: int| 0 <= i < mid && all[i].0 == #[trigger] left.entries[0].0;
        assert(in_range(all[i].0, r));
        assert(lex_lt(left.entries[0].0, right.entries[0].0));
        if let Some(lo) = r.0 {
            if lo != left.entries[0].0 {
                lemma_lex_transitive(lo, left.entries[0].0, sep);
            }
        }
    }
    assert forall|q: Seq<u8>| #[trigger] in_range(q, (r.0, Some(sep))) implies pl.lookup(q) == if q == key {
        Some(val)
    } else {
        v.lookup(q)
    } by {
        law_leaf_split(v, key, val, right_id, q);
        lemma_lookup_entry(pr, q);
        if pr.contains(q) {
            let b = choose|b: int| 0 <= b < pr.entries.len() && #[trigger] pr.entries[b].0 == q;
            assert(in_range(pr.entries[b].0, (Some(sep), r.1)));
            lemma_lex_irreflexive(q);
            if sep != q {
                lemma_lex_transitive(sep, q, sep);
                lemma_lex_irreflexive(sep);
            }
        }
    }
    assert forall|q: Seq<u8>| #[trigger] in_range(q, (Some(sep), r.1)) implies pr.lookup(q) == if q == key {
        Some(val)
    } else {
        v.lookup(q)
    } by {
        law_leaf_split(v, key, val, right_id, q);
        lemma_lookup_entry(pl, q);
        lemma_lookup_entry(pr, q);
        if pl.contains(q) {
            let a = choose|a: int| 0 <= a < pl.entries.len() && #[trigger] pl.entries[a].0 == q;
            assert(in_range(pl.entries[a].0, (r.0, Some(sep))));
            lemma_lex_irreflexive(q);
            if sep != q {
                lemma_lex_transitive(q, sep, q);
            }
        }
    }
}

/// A leaf whose entries with the pair put are a lone entry, rebuilt onto a fresh page
/// holding it alone: the page finds `val` for `key` and for every other key what the leaf
/// found, and its keys lie in range `r` when the leaf's and `key` do.
pub proof fn lemma_lone_rebuild(v: PageView, key: Seq<u8>, val: Seq<u8>, np: PageView, r: KeyRange)
    requires
        v.valid(),
        split_entries(v, key, val).len() < 2,
        put_all(PageView::fresh(v.page_id), split_entries(v, key, val)) is Some,
        np == put_all(PageView::fresh(v.page_id), split_entries(v, key, val)).unwrap().with_next_leaf(v.next_leaf),
        forall|i: int| 0 <= i < v.entries.len() ==> in_range(#[trigger] v.entries[i].0, r),
        in_range(key, r),
    ensures
        np.lookup(key) == Some(val),
        forall|q: Seq<u8>| q != key ==> #[trigger] np.lookup(q) == v.lookup(q),
        forall|i: int| 0 <= i < np.entries.len() ==> in_range(#[trigger] np.entries[i].0, r),
{
    let all = split_entries(v, key, val);
    let f = PageView::fresh(v.page_id);
    crate::btree::split::lemma_put_all_from_empty(f, all);
    let w = put_all(f, all).unwrap();
    crate::btree::split::lemma_split_entries_values(v, key, val, key);
    assert(np.lookup(key) == w.lookup(key));
    assert forall|q: Seq<u8>| q != key implies #[trigger] np.lookup(q) == v.lookup(q) by {
        crate::btree::split::lemma_split_entries_values(v, key, val, q);
        assert(np.lookup(q) == w.lookup(q));
    }
    assert forall|i: int| 0 <= i < np.entries.len() implies in_range(#[trigger] np.entries[i].0, r) by {
        let k = np.entries[i].0;
        lemma_lookup_entry(np, k);
        lemma_lookup_entry(v, k);
        crate::btree::split::lemma_split_entries_values(v, key, val, k);
        assert(np.lookup(k) == w.lookup(k));
        if k != key {
            let j = choose|j: int| 0 <= j < v.entries.len() && #[trigger] v.entries[j].0 == k;
            assert(in_range(v.entries[j].0, r));
        }
    }
}

/// Storing page `pa` at `a`, at level `la` above the leaves and with range `ra`, keeps the
/// leaves of an earlier state when `a` is no leaf.
pub proof fn lemma_leaves_kept_node(
    pages0: Map<u32, Page>,
    levels0: Map<u32, nat>,
    ranges0: Map<u32, KeyRange>,
    pages1: Map<u32, Page>,
    levels1: Map<u32, nat>,
    ranges1: Map<u32, KeyRange>,
    a: u32,
    pa: Page,
    la: nat,
    ra: KeyRange,
)
    requires
        leaves_kept(pages0, levels0, ranges0, pages1, levels1, ranges1),
        la > 1,
        levels1.contains_key(a) ==> levels1[a] > 1,
    ensures
        leaves_kept(pages0, levels0, ranges0, pages1.insert(a, pa), levels1.insert(a, la), ranges1.insert(a, ra)),
{
    let pages2 = pages1.insert(a, pa);
    let levels2 = levels1.insert(a, la);
    let ranges2 = ranges1.insert(a, ra);
    assert forall|x: u32|
        #![trigger levels2.contains_key(x)]
        #![trigger levels0.contains_key(x)]
        (levels2.contains_key(x) && levels2[x] == 1) <==> (levels0.contains_key(x) && levels0[x] == 1) by {
        assert(levels1.contains_key(x) ==> levels1[x] == levels1[x]);
    }
    assert forall|x: u32|
        #![trigger pages2[x]]
        levels0.contains_key(x) && levels0[x] == 1 implies pages2[x] == pages0[x] && ranges2[x] == ranges0[x] by {
        assert(levels1.contains_key(x) && levels1[x] == 1);
        assert(pages1[x] == pages0[x]);
    }
}

/// Splitting a leaf at `sep` into itself, with keys below `sep`, and a new leaf `r`, with
/// keys from `sep` on, keeps every leaf in range.
pub proof fn lemma_leaves_in_range_split(
    pages: Map<u32, Page>,
    levels: Map<u32, nat>,
    ranges: Map<u32, KeyRange>,
    leaf: u32,
    pl: Page,
    r: u32,
    pr: Page,
    sep: Seq<u8>,
)
    requires
        leaves_in_range(pages, levels, ranges),
        levels.contains_key(leaf),
        levels[leaf] == 1,
        !levels.contains_key(r),
        forall|i: int| 0 <= i < pl@.entries.len() ==> in_range(#[trigger] pl@.entries[i].0, (ranges[leaf].0, Some(sep))),
        forall|i: int| 0 <= i < pr@.entries.len() ==> in_range(#[trigger] pr@.entries[i].0, (Some(sep), ranges[leaf].1)),
    ensures
        leaves_in_range(
            pages.insert(leaf, pl).insert(r, pr),
            levels.insert(r, 1),
            ranges.insert(leaf, (ranges[leaf].0, Some(sep))).insert(r, (Some(sep), ranges[leaf].1)),
        ),
{
    let pages2 = pages.insert(leaf, pl).insert(r, pr);
    let levels2 = levels.insert(r, 1);
    let ranges2 = ranges.insert(leaf, (ranges[leaf].0, Some(sep))).insert(r, (Some(sep), ranges[leaf].1));
    assert forall|x: u32, i: int|
        levels2.contains_key(x) && levels2[x] == 1 && 0 <= i < pages2[x]@.entries.len() implies in_range(
        #[trigger] pages2[x]@.entries[i].0,
        ranges2[x],
    ) by {
        if x == r {
            assert(in_range(pr@.entries[i].0, (Some(sep), ranges[leaf].1)));
        } else if x == leaf {
            assert(in_range(pl@.entries[i].0, (ranges[leaf].0, Some(sep))));
        } else {
            assert(pages2[x] == pages[x]);
            assert(in_range(pages[x]@.entries[i].0, ranges[x]));
        }
    }
}

/// Leaves kept from a state whose leaves are in range are in range.
pub proof fn lemma_leaves_in_range_kept(
    pages0: Map<u32, Page>,
    levels0: Map<u32, nat>,
    ranges0: Map<u32, KeyRange>,
    pages1: Map<u32, Page>,
    levels1: Map<u32, nat>,
    ranges1: Map<u32, KeyRange>,
)
    requires
        leaves_in_range(pages0, levels0, ranges0),
        leaves_kept(pages0, levels0, ranges0, pages1, levels1, ranges1),
    ensures
        leaves_in_range(pages1, levels1, ranges1),
{
    assert forall|x: u32, i: int|
        levels1.contains_key(x) && levels1[x] == 1 && 0 <= i < pages1[x]@.entries.len() implies in_range(
        #[trigger] pages1[x]@.entries[i].0,
        ranges1[x],
    ) by {
        assert(levels0.contains_key(x) && levels0[x] == 1);
        assert(pages1[x] == pages0[x]);
        assert(in_range(pages0[x]@.entries[i].0, ranges0[x]));
    }
}

/// After a leaf split at `sep`, carried up until the ranges fit again, a search finds for
/// each key what the leaf halves hold for it, and elsewhere what it found before.
#[verifier::spinoff_prover]
pub proof fn lemma_split_lookups(
    pages0: Map<u32, Page>,
    next0: u32,
    levels0: Map<u32, nat>,
    leaves0: Seq<u32>,
    ranges0: Map<u32, KeyRange>,
    root0: u32,
    h0: nat,
    pages2: Map<u32, Page>,
    next2: u32,
    levels2: Map<u32, nat>,
    leaves2: Seq<u32>,
    ranges2: Map<u32, KeyRange>,
    root2: u32,
    h2: nat,
    leaf: u32,
    r: u32,
    pl: Page,
    pr: Page,
    sep: Seq<u8>,
    key: Seq<u8>,
    val: Seq<u8>,
    q: Seq<u8>,
)
    requires
        parts_ok(pages0, next0, levels0, leaves0),
        ranges_ok(pages0, levels0, ranges0, root0, h0),
        h0 >= 1,
        levels0.contains_key(root0),
        levels0[root0] == h0,
        levels0.contains_key(leaf),
        levels0[leaf] == 1,
        in_range(key, ranges0[leaf]),
        !levels0.contains_key(r),
        strictly_inside(sep, ranges0[leaf]),
        parts_ok(pages2, next2, levels2, leaves2),
        ranges_ok(pages2, levels2, ranges2, root2, h2),
        h2 >= 1,
        levels2.contains_key(root2),
        levels2[root2] == h2,
        leaves_kept(
            pages0.insert(leaf, pl).insert(r, pr),
            levels0.insert(r, 1),
            ranges0.insert(leaf, (ranges0[leaf].0, Some(sep))).insert(r, (Some(sep), ranges0[leaf].1)),
            pages2,
            levels2,
            ranges2,
        ),
        in_range(q, (ranges0[leaf].0, Some(sep))) ==> pl@.lookup(q) == if q == key {
            Some(val)
        } else {
            pages0[leaf]@.lookup(q)
        },
        in_range(q, (Some(sep), ranges0[leaf].1)) ==> pr@.lookup(q) == if q == key {
            Some(val)
        } else {
            pages0[leaf]@.lookup(q)
        },
    ensures
        pages2[leaf_for(pages2, root2, h2, q)]@.lookup(q) == if q == key {
            Some(val)
        } else {
            pages0[leaf_for(pages0, root0, h0, q)]@.lookup(q)
        },
{
    let rl = ranges0[leaf];
    let pages1 = pages0.insert(leaf, pl).insert(r, pr);
    let levels1 = levels0.insert(r, 1);
    let ranges1 = ranges0.insert(leaf, (rl.0, Some(sep))).insert(r, (Some(sep), rl.1));
    assert(ranges2[root2] == (None::<Seq<u8>>, None::<Seq<u8>>));
    lemma_descend_in_range(pages2, next2, levels2, leaves2, ranges2, root2, h2, root2, h2, q);
    let y = leaf_for(pages2, root2, h2, q);
    assert(levels2.contains_key(y) && levels2[y] == 1);
    assert(levels1.contains_key(y) && levels1[y] == 1);
    assert(pages2[y] == pages1[y] && ranges2[y] == ranges1[y]);
    lemma_cut_range(rl, sep, q);
    lemma_leaf_of_range(pages0, next0, levels0, leaves0, ranges0, root0, h0, leaf, key);
    if y == leaf || y == r {
        assert(in_range(q, rl));
        lemma_leaf_of_range(pages0, next0, levels0, leaves0, ranges0, root0, h0, leaf, q);
    } else {
        assert(levels0.contains_key(y) && levels0[y] == 1);
        assert(pages1[y] == pages0[y] && ranges1[y] == ranges0[y]);
        lemma_leaf_of_range(pages0, next0, levels0, leaves0, ranges0, root0, h0, y, q);
        if q == key {
            assert(in_range(key, ranges0[leaf]) && in_range(key, ranges0[y]));
        }
    }
}

} // verus!
