//! The B+ tree: a root page, a height, and the pager that holds every page.
//!
//! Height 0 is the empty tree; height 1 a single leaf; each further level adds a layer of
//! internal nodes. Leaves are chained left to right through their sibling pointers.
use crate::btree::chain::{
    bound_below, chain_ranges, lemma_chain_entries_sorted, lemma_chain_entry_position, lemma_chain_entry_source,
    lemma_chain_keys_ordered, lemma_chain_ranges_kept, lemma_chain_ranges_split, lemma_drop_below,
};
use crate::btree::internal::{child_bytes, child_id, InternalPage, InternalPageMut, InternalSplit};
use crate::btree::leaf::{leaf_rejects, LeafPageMut, LeafSplit};
use crate::page::page::Page;
use crate::btree::key::{compare_bytes, lex_lt, KeyOrder};
use crate::btree::split::{split_entries, split_position};
use crate::page::layout::{keys_sorted, lemma_rank_sorted, Entry};
use crate::page::view::{lemma_alike_put, lemma_alike_put_all, same_shape, law_put_then_lookup, law_remove_then_lookup, lemma_failed_put, lemma_lookup_entry, put_all, PageView};
use crate::btree::structure::{
    route, leaf_for, path_for, leftmost_leaf, child_ok, entries_point_to, node_ok,
    lemma_route_is_child, lemma_descend, lemma_same_routing, lemma_descend_leftmost,
    lemma_replace_leaf, lemma_put_points_to, lemma_put_all_points_to, lemma_points_to_grow,
    parts_ok, lemma_points_to_sub, lemma_grow_next_id, lemma_replace_node, lemma_add_node,
    lemma_split_leaf, chain_entries, drop_below, chain_linked,
};
use crate::btree::ranges::{
    in_range, leaves_in_range, lemma_descend_in_range, lemma_leaf_of_range, lemma_ranges_absorb,
    lemma_ranges_keep_leaf, lemma_ranges_new_root, lemma_ranges_split_leaf, lemma_ranges_split_node,
    lemma_ranges_split_root_leaf, lemma_remove_keys_in_range, lemma_leaves_in_range_replace,
    lemma_put_keys_in_range, leaves_kept, lemma_leaves_kept_node, lemma_split_lookups, ranges_ok, ranges_pending,
    ranges_root_pending, with_sep, KeyRange, lemma_split_halves, lemma_leaves_in_range_split,
    lemma_leaves_in_range_kept, lemma_lone_rebuild,
    lemma_path_facts, strictly_inside, lemma_leftmost_open,
};
use crate::pager::pager::Pager;
use vstd::prelude::*;

verus! {
/// Where carrying a split up `path` (from its last page to its first) ends, when the
/// pages on it are those of `pages`, the separator `sep` with child `c` goes into the last
/// page, and `nid` is the next page ID to hand out: `Some(false)` when a page takes its
/// separator; `Some(true)` when every page splits and a new root, with ID `nid` by then,
/// takes the last separator; `None` when a page can neither take its separator nor split
/// into halves that fit, or the new root cannot hold its separator. A page that splits
/// hands its middle separator, with its new right page (ID `nid`) as child, to the page
/// before it.
pub open spec fn cascade_end(pages: Map<u32, Page>, path: Seq<u32>, sep: Seq<u8>, c: int, nid: int) -> Option<bool>
    decreases path.len(),
{
    let cb = child_bytes(c);
    if path.len() == 0 {
        if PageView::fresh(nid).put_fits(sep, cb) {
            Some(true)
        } else {
            None
        }
    } else {
        let v = pages[path.last()]@;
        let all = split_entries(v, sep, cb);
        let mid = (all.len() / 2) as int;
        if v.put_fits(sep, cb) {
            Some(false)
        } else if put_all(PageView::fresh(v.page_id).with_next_leaf(v.next_leaf), all.take(mid)) is None
            || put_all(PageView::fresh(nid).with_next_leaf(child_id(all[mid].1)), all.skip(mid + 1)) is None {
            None
        } else {
            cascade_end(pages, path.drop_last(), all[mid].0, nid, nid + 1)
        }
    }
}

/// Where a split cascade ends depends only on the pages along its path.
pub proof fn lemma_cascade_same(p1: Map<u32, Page>, p2: Map<u32, Page>, path: Seq<u32>, sep: Seq<u8>, c: int, nid: int)
    requires
        forall|i: int| 0 <= i < path.len() ==> #[trigger] p1[path[i]] == p2[path[i]],
    ensures
        cascade_end(p1, path, sep, c, nid) == cascade_end(p2, path, sep, c, nid),
    decreases path.len(),
{
    if path.len() > 0 {
        let d = path.drop_last();
        assert(p1[path[path.len() - 1]] == p2[path[path.len() - 1]]);
        assert forall|i: int| 0 <= i < d.len() implies #[trigger] p1[d[i]] == p2[d[i]] by {
            assert(d[i] == path[i]);
            assert(p1[path[i]] == p2[path[i]]);
        }
        let v = p1[path.last()]@;
        let all = split_entries(v, sep, child_bytes(c));
        let mid = (all.len() / 2) as int;
        lemma_cascade_same(p1, p2, d, all[mid].0, nid, nid + 1);
    }
}

/// How a split cascade goes, one page at a time. On an empty path a new root takes the
/// separator and the tree grows, unless even a fresh page cannot hold it. Otherwise the
/// last page on the path takes the separator and the cascade stops there; if it cannot,
/// and one of the halves of its split would not fit on a page, the cascade fails; and
/// else it goes on at the page before, which gets the middle separator of the split with
/// the new right page as its child, the next page ID having been handed out to that page.
pub proof fn law_cascade_step(pages: Map<u32, Page>, path: Seq<u32>, sep: Seq<u8>, c: int, nid: int)
    ensures
        path.len() == 0 ==> cascade_end(pages, path, sep, c, nid) == if PageView::fresh(nid).put_fits(
            sep,
            child_bytes(c),
        ) {
            Some(true)
        } else {
            None::<bool>
        },
        path.len() > 0 ==> ({
            let v = pages[path.last()]@;
            let all = split_entries(v, sep, child_bytes(c));
            let mid = (all.len() / 2) as int;
            &&& v.put_fits(sep, child_bytes(c)) ==> cascade_end(pages, path, sep, c, nid) == Some(false)
            &&& !v.put_fits(sep, child_bytes(c)) && (put_all(
                PageView::fresh(v.page_id).with_next_leaf(v.next_leaf),
                all.take(mid),
            ) is None || put_all(
                PageView::fresh(nid).with_next_leaf(child_id(all[mid].1)),
                all.skip(mid + 1),
            ) is None) ==> cascade_end(pages, path, sep, c, nid) is None
            &&& !v.put_fits(sep, child_bytes(c)) && put_all(
                PageView::fresh(v.page_id).with_next_leaf(v.next_leaf),
                all.take(mid),
            ) is Some && put_all(
                PageView::fresh(nid).with_next_leaf(child_id(all[mid].1)),
                all.skip(mid + 1),
            ) is Some ==> cascade_end(pages, path, sep, c, nid) == cascade_end(
                pages,
                path.drop_last(),
                all[mid].0,
                nid,
                nid + 1,
            )
        }),
{
}

/// Whether a split cascade succeeds, and whether it ends in a new root, depends neither on
/// the child ID handed to the last page on the path nor on the page IDs handed out on the
/// way: only on the pages along the path and the separator. (Child IDs are stored as four
/// bytes whatever their value, and page IDs do not take up room on a page.)
pub proof fn law_cascade_ignores_ids(
    pages: Map<u32, Page>,
    path: Seq<u32>,
    sep: Seq<u8>,
    c1: int,
    n1: int,
    c2: int,
    n2: int,
)
    ensures
        cascade_end(pages, path, sep, c1, n1) == cascade_end(pages, path, sep, c2, n2),
    decreases path.len(),
{
    let cb1 = child_bytes(c1);
    let cb2 = child_bytes(c2);
    if path.len() == 0 {
        let f1 = PageView::fresh(n1);
        let f2 = PageView::fresh(n2);
        assert(same_shape(f1.entries, f2.entries));
        lemma_alike_put(f1, f2, sep, cb1, cb2);
    } else {
        let v = pages[path.last()]@;
        assert(same_shape(v.entries, v.entries));
        lemma_alike_put(v, v, sep, cb1, cb2);
        let all1 = split_entries(v, sep, cb1);
        let all2 = split_entries(v, sep, cb2);
        let r = v.rank(sep);
        crate::page::view::lemma_shape_size_rank(v.entries, v.entries, sep);
        assert forall|i: int| 0 <= i < all1.len() implies (#[trigger] all1[i]).0 == all2[i].0 && all1[i].1.len()
            == all2[i].1.len() by {
            if v.contains(sep) {
                if i != r {
                    assert(all1[i] == v.entries[i] && all2[i] == v.entries[i]);
                }
            } else if i < r {
                assert(all1[i] == v.entries[i] && all2[i] == v.entries[i]);
            } else if i > r {
                assert(all1[i] == v.entries[i - 1] && all2[i] == v.entries[i - 1]);
            }
        }
        assert(all1.len() == all2.len());
        let mid = (all1.len() / 2) as int;
        let t1 = all1.take(mid);
        let t2 = all2.take(mid);
        assert forall|i: int| 0 <= i < t1.len() implies (#[trigger] t1[i]).0 == t2[i].0 && t1[i].1.len() == t2[i].1.len() by {
            assert(t1[i] == all1[i] && t2[i] == all2[i]);
        }
        let k1 = all1.skip(mid + 1);
        let k2 = all2.skip(mid + 1);
        assert forall|i: int| 0 <= i < k1.len() implies (#[trigger] k1[i]).0 == k2[i].0 && k1[i].1.len() == k2[i].1.len() by {
            assert(k1[i] == all1[mid + 1 + i] && k2[i] == all2[mid + 1 + i]);
        }
        let l0 = PageView::fresh(v.page_id).with_next_leaf(v.next_leaf);
        assert(same_shape(l0.entries, l0.entries));
        lemma_alike_put_all(l0, l0, t1, t2);
        let r1 = PageView::fresh(n1).with_next_leaf(child_id(all1[mid].1));
        let r2 = PageView::fresh(n2).with_next_leaf(child_id(all2[mid].1));
        assert(same_shape(r1.entries, r2.entries));
        lemma_alike_put_all(r1, r2, k1, k2);
        if all1.len() > 0 {
            assert(all1[mid].0 == all2[mid].0);
        }
        law_cascade_ignores_ids(pages, path.drop_last(), all1[mid].0, n1, n1 + 1, n2, n2 + 1);
    }
}

/// A B+ tree over an in-memory pager.
pub struct BTree {
    root_page_id: u32,
    height: u32,
    pager: Pager,
    /// Each page's level above the leaves (leaves are at level 1).
    levels: Ghost<Map<u32, nat>>,
    /// The leaves in chain order.
    leaves: Ghost<Seq<u32>>,
    /// The range of keys each page covers.
    ranges: Ghost<Map<u32, KeyRange>>,
}

impl BTree {
    /// The stored pages.
    pub closed spec fn pages(&self) -> Map<u32, Page> {
        self.pager.pages()
    }

    /// The root page's ID.
    pub closed spec fn root(&self) -> u32 {
        self.root_page_id
    }

    /// The number of levels.
    pub closed spec fn height(&self) -> nat {
        self.height as nat
    }

    /// The next page ID the pager hands out.
    pub closed spec fn next_id(&self) -> u32 {
        self.pager.next_id()
    }

    /// The leaves in chain order.
    pub closed spec fn leaves(&self) -> Seq<u32> {
        self.leaves@
    }

    /// The tree's structural invariant: stored pages well formed under their own IDs,
    /// every page at a level, internal nodes pointing to children one level down from a
    /// root at the top level, and the leaves chained in order.
    pub closed spec fn wf(&self) -> bool {
        &&& parts_ok(self.pager.pages(), self.pager.next_id(), self.levels@, self.leaves@)
        &&& self.height == 0 ==> self.levels@.dom().is_empty()
        &&& self.height >= 1 ==> self.levels@.contains_key(self.root_page_id) && self.levels@[self.root_page_id] == self.height
    }

    /// Searches are routed by key ranges: each page covers a range of keys, an internal
    /// node divides its range among its children at its separators, the root covers every
    /// key, and pages of one level never overlap.
    pub closed spec fn routed(&self) -> bool {
        &&& self.wf()
        &&& ranges_ok(self.pager.pages(), self.levels@, self.ranges@, self.root_page_id, self.height as nat)
    }

    /// Routed, every leaf holds only keys of its range, and the leaf ranges follow the
    /// leaf chain.
    pub closed spec fn bounded(&self) -> bool {
        &&& self.routed()
        &&& leaves_in_range(self.pager.pages(), self.levels@, self.ranges@)
        &&& chain_ranges(self.leaves@, self.ranges@)
    }

    /// The value a search for `key` finds.
    pub closed spec fn lookup(&self, key: Seq<u8>) -> Option<Seq<u8>> {
        if self.height == 0 {
            None
        } else {
            self.pager.pages()[leaf_for(self.pager.pages(), self.root_page_id, self.height as nat, key)]@.lookup(key)
        }
    }

    /// An empty tree.
    pub fn new() -> (r: Self)
        ensures
            r.wf(),
            r.bounded(),
            r.height() == 0,
            r.next_id() == 1,
            forall|key: Seq<u8>| r.lookup(key) is None,
    {
        let t = Self {
            root_page_id: 0,
            height: 0,
            pager: Pager::new(),
            levels: Ghost(Map::empty()),
            leaves: Ghost(Seq::empty()),
            ranges: Ghost(Map::empty()),
        };
        proof {
            assert(t.levels@.dom() =~= t.pager.pages().dom());
            assert(t.ranges@.dom() =~= t.levels@.dom());
        }
        t
    }

    /// Descends to the leaf that should hold `key`. Returns the leaf's ID and the IDs of
    /// the internal pages visited, from the root down to the leaf's parent.
    fn find_leaf(&self, key: &[u8]) -> (r: (u32, Vec<u32>))
        requires
            self.wf(),
            self.height >= 1,
        ensures
            r.0 == leaf_for(self.pages(), self.root(), self.height(), key@),
            r.1@ == path_for(self.pages(), self.root(), self.height(), key@),
    {
        let ghost pages = self.pager.pages();
        let ghost levels = self.levels@;
        let ghost h = self.height as nat;
        let mut path: Vec<u32> = Vec::new();
        let mut current = self.root_page_id;
        let mut i: u32 = 1;
        while i < self.height
            invariant
                self.wf(),
                pages == self.pager.pages(),
                levels == self.levels@,
                h == self.height,
                1 <= i <= h,
                levels.contains_key(current),
                levels[current] == h - i + 1,
                leaf_for(pages, current, (h - i + 1) as nat, key@) == leaf_for(pages, self.root_page_id, h, key@),
                path@ + path_for(pages, current, (h - i + 1) as nat, key@) == path_for(pages, self.root_page_id, h, key@),
            decreases h - i,
        {
            proof {
                assert(node_ok(pages, levels, current));
                assert(pages[current].wf());
                let rest = path_for(pages, current, (h - i + 1) as nat, key@);
                let c = route(pages, current, key@);
                assert(rest == seq![current] + path_for(pages, c, (h - i) as nat, key@));
                assert(path@.push(current) + path_for(pages, c, (h - i) as nat, key@) =~= path@ + rest);
                let v = pages[current]@;
                pages[current].lemma_view_valid();
                lemma_route_is_child(v, levels, key@, (h - i) as nat);
                lemma_rank_sorted(v.entries, key@);
                let k = split_position(v, key@);
                if k > 0 {
                    assert(entries_point_to(levels, v.entries, (h - i) as nat));
                    assert(v.entries[k - 1].1.len() == 4);
                }
            }
            path.push(current);
            let page = self.pager.get(current).unwrap().clone();
            let node = InternalPage::from_page(page);
            current = node.find_child(key);
            i = i + 1;
        }
        proof {
            assert(path_for(pages, current, 1, key@) =~= Seq::<u32>::empty());
            assert(path@ + Seq::<u32>::empty() =~= path@);
        }
        (current, path)
    }

    /// The ID of the leftmost leaf, where a full scan starts; `None` for the empty tree.
    fn find_leftmost_leaf(&self) -> (r: Option<u32>)
        requires
            self.wf(),
        ensures
            self.height() == 0 ==> r is None,
            self.height() >= 1 ==> r == Some(leftmost_leaf(self.pages(), self.root(), self.height())),
    {
        if self.height == 0 {
            return None;
        }
        let ghost pages = self.pager.pages();
        let ghost levels = self.levels@;
        let ghost h = self.height as nat;
        let mut current = self.root_page_id;
        let mut i: u32 = 1;
        while i < self.height
            invariant
                self.wf(),
                pages == self.pager.pages(),
                levels == self.levels@,
                h == self.height,
                1 <= i <= h,
                levels.contains_key(current),
                levels[current] == h - i + 1,
                leftmost_leaf(pages, current, (h - i + 1) as nat) == leftmost_leaf(pages, self.root_page_id, h),
            decreases h - i,
        {
            proof {
                assert(node_ok(pages, levels, current));
            }
            let page = self.pager.get(current).unwrap().clone();
            let node = InternalPage::from_page(page);
            current = node.leftmost_child();
            i = i + 1;
        }
        Some(current)
    }

    /// The value stored under `key`, if any.
    pub fn get(&self, key: &[u8]) -> (r: Option<&[u8]>)
        requires
            self.wf(),
        ensures
            match r {
                Some(v) => self.lookup(key@) == Some(v@),
                None => self.lookup(key@) is None,
            },
    {
        if self.height == 0 {
            return None;
        }
        let (leaf_id, _) = self.find_leaf(key);
        proof {
            lemma_descend(self.pager.pages(), self.pager.next_id(), self.levels@, self.root_page_id, self.height as nat, key@);
        }
        match self.pager.get(leaf_id) {
            Some(page) => page.get(key),
            None => None,
        }
    }

    /// Removes `key` and returns its old value, or `None` when it is absent. Pages are not
    /// rebalanced: a leaf that runs low stays sparse.
    pub fn remove(&mut self, key: &[u8]) -> (r: Option<Vec<u8>>)
        requires
            old(self).wf(),
        ensures
            final(self).wf(),
            final(self).height() == old(self).height(),
            final(self).next_id() == old(self).next_id(),
            final(self).leaves() == old(self).leaves(),
            match r {
                Some(v) => old(self).lookup(key@) == Some(v@),
                None => old(self).lookup(key@) is None,
            },
            final(self).lookup(key@) is None,
            forall|q: Seq<u8>| q != key@ ==> #[trigger] final(self).lookup(q) == old(self).lookup(q),
            old(self).bounded() ==> final(self).bounded(),
    {
        if self.height == 0 {
            return None;
        }
        let ghost pages = self.pager.pages();
        let ghost levels = self.levels@;
        let ghost h = self.height as nat;
        let ghost root = self.root_page_id;
        let (leaf_id, _) = self.find_leaf(key);
        proof {
            lemma_descend(pages, self.pager.next_id(), levels, root, h, key@);
        }
        let page = match self.pager.get_mut(leaf_id) {
            Some(p) => p,
            None => {
                return None;
            },
        };
        let ghost old_page = *page;
        let r = LeafPageMut::new(page).remove(key);
        proof {
            let new_page = self.pager.pages()[leaf_id];
            assert(self.pager.pages() == pages.insert(leaf_id, new_page));
            assert(new_page@ == old_page@.remove_state(key@));
            old_page.lemma_view_valid();
            lemma_replace_leaf(pages, self.pager.next_id(), levels, self.leaves@, leaf_id, new_page);
            let pages2 = self.pager.pages();
            assert forall|q: Seq<u8>| q != key@ implies #[trigger] self.lookup(q) == old(self).lookup(q) by {
                lemma_same_routing(pages, pages2, self.pager.next_id(), levels, root, h, q);
                law_remove_then_lookup(old_page@, key@, q);
            }
            lemma_same_routing(pages, pages2, self.pager.next_id(), levels, root, h, key@);
            law_remove_then_lookup(old_page@, key@, key@.push(0));
            if old(self).bounded() {
                lemma_ranges_keep_leaf(pages, levels, self.ranges@, root, h, leaf_id, new_page);
                lemma_remove_keys_in_range(old_page@, key@, self.ranges@[leaf_id]);
                lemma_leaves_in_range_replace(pages, levels, self.ranges@, leaf_id, new_page);
            }
        }
        r
    }

    /// Inserts or updates `key`. A leaf that is full splits, and the split is carried up
    /// the visited path; when it reaches the root, a new root grows the tree by one level.
    /// Fails with `"page full"` when a node cannot hold its half of a split.
    ///
    /// On a bounded tree a successful insert maps `key` to `val`, leaves every other key's
    /// value as it was, and keeps the tree bounded.
    #[verifier::spinoff_prover]
    #[verifier::rlimit(60)]
    pub fn insert(&mut self, key: &[u8], val: &[u8]) -> (r: Result<(), &'static str>)
        requires
            old(self).wf(),
            old(self).next_id() + old(self).height() + 3 <= u32::MAX,
        ensures
            final(self).wf(),
            final(self).height() >= 1,
            final(self).next_id() <= old(self).next_id() + old(self).height() + 3,
            r matches Err(e) ==> e == "page full",
            old(self).height() == 0 ==> (r is Ok <==> PageView::fresh(old(self).next_id() as int).put_fits(key@, val@)),
            old(self).height() == 0 ==> final(self).height() == 1,
            old(self).height() >= 1 ==> ({
                let v = old(self).pages()[leaf_for(old(self).pages(), old(self).root(), old(self).height(), key@)]@;
                let all = split_entries(v, key@, val@);
                let end = cascade_end(
                    old(self).pages(),
                    path_for(old(self).pages(), old(self).root(), old(self).height(), key@),
                    all[(all.len() / 2) as int].0,
                    old(self).next_id() as int,
                    old(self).next_id() + 1,
                );
                &&& v.put_fits(key@, val@) || (all.len() < 2 && !leaf_rejects(v, key@, val@, old(self).next_id() as int))
                    ==> r is Ok && final(self).height() == old(self).height()
                &&& leaf_rejects(v, key@, val@, old(self).next_id() as int) ==> r is Err && final(self).height()
                    == old(self).height()
                &&& !v.put_fits(key@, val@) && all.len() >= 2 && !leaf_rejects(v, key@, val@, old(self).next_id() as int) ==> {
                    &&& r is Ok <==> end is Some
                    &&& final(self).height() == old(self).height() + if end == Some(true) {
                        1nat
                    } else {
                        0nat
                    }
                }
                &&& old(self).bounded() && leaf_rejects(v, key@, val@, old(self).next_id() as int) ==> {
                    &&& final(self).bounded()
                    &&& forall|q: Seq<u8>| #[trigger] final(self).lookup(q) == old(self).lookup(q)
                }
            }),
            old(self).height() == 0 && old(self).bounded() && r is Err ==> {
                &&& final(self).bounded()
                &&& forall|q: Seq<u8>| #[trigger] final(self).lookup(q) == old(self).lookup(q)
            },
            old(self).bounded() && r is Ok ==> {
                &&& final(self).bounded()
                &&& final(self).lookup(key@) == Some(val@)
                &&& forall|q: Seq<u8>| q != key@ ==> #[trigger] final(self).lookup(q) == old(self).lookup(q)
            },
    {
        let ghost track = old(self).bounded();
        if self.height == 0 {
            let ghost pages0 = self.pager.pages();
            self.root_page_id = self.pager.new_page();
            self.height = 1;
            proof {
                let root = self.root_page_id;
                self.levels@ = Map::<u32, nat>::empty().insert(root, 1);
                self.leaves@ = seq![root];
                self.ranges@ = Map::<u32, KeyRange>::empty().insert(root, (None::<Seq<u8>>, None::<Seq<u8>>));
                assert(pages0.dom().is_empty());
                assert(self.levels@.dom() =~= self.pager.pages().dom());
                assert(self.ranges@.dom() =~= self.levels@.dom());
                assert(self.leaves@.no_duplicates());
                assert forall|id: u32| #[trigger] self.leaves@.contains(id) <==> self.levels@.contains_key(id)
                    && self.levels@[id] == 1 by {
                    if self.leaves@.contains(id) {
                        assert(self.leaves@[0] == root);
                    }
                    if id == root {
                        assert(self.leaves@[0] == root);
                    }
                }
                assert(self.pager.pages()[root]@.entries.len() == 0);
            }
        }
        let ghost pages = self.pager.pages();
        let ghost levels = self.levels@;
        let ghost leaves = self.leaves@;
        let ghost ranges = self.ranges@;
        let ghost root = self.root_page_id;
        let ghost next0 = self.pager.next_id();
        let ghost h = self.height as nat;
        proof {
            assert forall|q: Seq<u8>| #[trigger] pages[leaf_for(pages, root, h, q)]@.lookup(q) == old(self).lookup(q) by {
                if old(self).height == 0 {
                    assert(leaf_for(pages, root, h, q) == root);
                }
            }
            if track {
                assert(self.bounded());
            }
        }
        let (leaf_id, path) = self.find_leaf(key);
        proof {
            lemma_descend(pages, self.pager.next_id(), levels, root, h, key@);
            if track {
                lemma_descend_in_range(pages, next0, levels, leaves, ranges, root, h, root, h, key@);
            }
        }
        let new_right_leaf_id = self.pager.alloc_page_id();
        proof {
            lemma_grow_next_id(pages, (self.pager.next_id() - 1) as u32, self.pager.next_id(), levels, leaves);
        }
        let page = self.pager.get_mut(leaf_id).unwrap();
        let ghost old_leaf = *page;
        let mut leaf = LeafPageMut::new(page);
        let res = leaf.insert_or_split(key, val, new_right_leaf_id);
        proof {
            old_leaf.lemma_view_valid();
        }
        let split = match res {
            Ok(s) => s,
            Err(e) => {
                proof {
                    let new_page = self.pager.pages()[leaf_id];
                    lemma_replace_leaf(pages, self.pager.next_id(), levels, leaves, leaf_id, new_page);
                    assert(self.pager.pages() == pages.insert(leaf_id, new_page));
                    lemma_failed_put(old_leaf@, key@, val@);
                    if track {
                        let pages2 = self.pager.pages();
                        assert(new_page@.entries == old_leaf@.entries);
                        assert forall|q: Seq<u8>| #[trigger] self.lookup(q) == old(self).lookup(q) by {
                            lemma_same_routing(pages, pages2, self.pager.next_id(), levels, root, h, q);
                        }
                        lemma_ranges_keep_leaf(pages, levels, ranges, root, h, leaf_id, new_page);
                        assert forall|i: int| 0 <= i < new_page@.entries.len() implies in_range(
                            #[trigger] new_page@.entries[i].0,
                            ranges[leaf_id],
                        ) by {
                            assert(in_range(pages[leaf_id]@.entries[i].0, ranges[leaf_id]));
                        }
                        lemma_leaves_in_range_replace(pages, levels, ranges, leaf_id, new_page);
                    }
                }
                return Err(e);
            },
        };
        let LeafSplit { separator_key, right_page } = match split {
            Some(sp) => sp,
            None => {
                proof {
                    let new_page = self.pager.pages()[leaf_id];
                    let fits = old_leaf@.put_fits(key@, val@);
                    let all = split_entries(old_leaf@, key@, val@);
                    if !fits {
                        crate::page::view::lemma_put_all_keeps_header(PageView::fresh(old_leaf@.page_id), all);
                    }
                    lemma_replace_leaf(pages, self.pager.next_id(), levels, leaves, leaf_id, new_page);
                    assert(self.pager.pages() == pages.insert(leaf_id, new_page));
                    if track && !fits {
                        let pages2 = self.pager.pages();
                        assert forall|i: int| 0 <= i < old_leaf@.entries.len() implies in_range(
                            #[trigger] old_leaf@.entries[i].0,
                            ranges[leaf_id],
                        ) by {
                            assert(in_range(pages[leaf_id]@.entries[i].0, ranges[leaf_id]));
                        }
                        lemma_lone_rebuild(old_leaf@, key@, val@, new_page@, ranges[leaf_id]);
                        assert forall|q: Seq<u8>| q != key@ implies #[trigger] self.lookup(q) == old(self).lookup(q) by {
                            lemma_same_routing(pages, pages2, self.pager.next_id(), levels, root, h, q);
                        }
                        lemma_same_routing(pages, pages2, self.pager.next_id(), levels, root, h, key@);
                        lemma_ranges_keep_leaf(pages, levels, ranges, root, h, leaf_id, new_page);
                        lemma_leaves_in_range_replace(pages, levels, ranges, leaf_id, new_page);
                    }
                    if track && fits {
                        let pages2 = self.pager.pages();
                        assert(new_page@ == old_leaf@.put_state(key@, val@));
                        assert forall|q: Seq<u8>| q != key@ implies #[trigger] self.lookup(q) == old(self).lookup(q) by {
                            lemma_same_routing(pages, pages2, self.pager.next_id(), levels, root, h, q);
                            law_put_then_lookup(old_leaf@, key@, val@, q);
                        }
                        lemma_same_routing(pages, pages2, self.pager.next_id(), levels, root, h, key@);
                        law_put_then_lookup(old_leaf@, key@, val@, key@.push(0));
                        lemma_ranges_keep_leaf(pages, levels, ranges, root, h, leaf_id, new_page);
                        assert forall|i: int| 0 <= i < old_leaf@.entries.len() implies in_range(
                            #[trigger] old_leaf@.entries[i].0,
                            ranges[leaf_id],
                        ) by {
                            assert(in_range(pages[leaf_id]@.entries[i].0, ranges[leaf_id]));
                        }
                        lemma_put_keys_in_range(old_leaf@, key@, val@, ranges[leaf_id]);
                        lemma_leaves_in_range_replace(pages, levels, ranges, leaf_id, new_page);
                    }
                }
                return Ok(());
            },
        };
        let ghost left_page = self.pager.pages()[leaf_id];
        proof {
            crate::page::view::lemma_put_all_keeps_header(
                PageView::fresh(old_leaf@.page_id),
                crate::btree::split::split_entries(old_leaf@, key@, val@).take(
                    (crate::btree::split::split_entries(old_leaf@, key@, val@).len() / 2) as int,
                ),
            );
            crate::page::view::lemma_put_all_keeps_header(
                PageView::fresh(new_right_leaf_id as int),
                crate::btree::split::split_entries(old_leaf@, key@, val@).skip(
                    (crate::btree::split::split_entries(old_leaf@, key@, val@).len() / 2) as int,
                ),
            );
            if pages.contains_key(new_right_leaf_id) {
                assert(pages[new_right_leaf_id]@.page_id == new_right_leaf_id);
            }
        }
        let ghost right = right_page.inner();
        self.pager.insert_page(right_page.into_page());
        let ghost sep = separator_key@;
        let ghost rl = ranges[leaf_id];
        proof {
            lemma_split_leaf(pages, self.pager.next_id(), levels, leaves, leaf_id, left_page, new_right_leaf_id, right);
            assert(self.pager.pages() == pages.insert(leaf_id, left_page).insert(new_right_leaf_id, right));
            self.levels@ = levels.insert(new_right_leaf_id, 1);
            self.leaves@ = leaves.insert(leaves.index_of(leaf_id) + 1, new_right_leaf_id);
            self.ranges@ = ranges.insert(leaf_id, (rl.0, Some(sep))).insert(new_right_leaf_id, (Some(sep), rl.1));
            let p = path_for(pages, root, h, key@);
            assert forall|i: int| 0 <= i < path@.len() implies self.levels@.contains_key(#[trigger] path@[i]) && self.levels@[path@[i]] == h - i by {
                assert(levels.contains_key(p[i]) && levels[p[i]] == h - i);
            }
            if track {
                self.split_leaf_ranges(pages, next0, levels, leaves, ranges, root, h, key@, val@, leaf_id, old_leaf, left_page,
                    new_right_leaf_id, right, path@);
                assert(leaves.contains(leaf_id));
                lemma_chain_ranges_split(leaves, ranges, leaf_id, new_right_leaf_id, sep);
            }
        }
        let ghost pages1 = self.pager.pages();
        let ghost levels1 = self.levels@;
        let ghost ranges1 = self.ranges@;
        let ghost leaves1 = self.leaves@;
        proof {
            let p = path_for(pages, root, h, key@);
            assert forall|i: int| 0 <= i < path@.len() implies #[trigger] pages1[path@[i]] == pages[path@[i]] by {
                assert(levels.contains_key(p[i]) && levels[p[i]] == h - i);
                assert(pages.contains_key(p[i]));
            }
            lemma_cascade_same(pages1, pages, path@, separator_key@, new_right_leaf_id as int, self.pager.next_id() as int);
        }
        let r = self.propagate_split(path, separator_key, new_right_leaf_id, Ghost(key@), Ghost(track));
        proof {
            if track && r is Ok {
                lemma_leaves_in_range_kept(pages1, levels1, ranges1, self.pager.pages(), self.levels@, self.ranges@);
                assert forall|x: u32| self.leaves@.contains(x) implies #[trigger] self.ranges@[x] == ranges1[x] by {
                    assert(leaves1.contains(x));
                    assert(levels1.contains_key(x) && levels1[x] == 1);
                    assert(self.pager.pages()[x] == pages1[x]);
                }
                lemma_chain_ranges_kept(self.leaves@, ranges1, self.ranges@);
                assert forall|q: Seq<u8>| true implies #[trigger] self.lookup(q) == if q == key@ {
                    Some(val@)
                } else {
                    old(self).lookup(q)
                } by {
                    lemma_split_lookups(pages, next0, levels, leaves, ranges, root, h, self.pager.pages(), self.pager.next_id(),
                        self.levels@, self.leaves@, self.ranges@, self.root_page_id, self.height as nat, leaf_id,
                        new_right_leaf_id, left_page, right, sep, key@, val@, q);
                }
            }
        }
        r
    }

    /// After the leaf that a search for `key` reaches splits, in a tree whose leaves are in
    /// range, the ranges fit the tree except where the split has yet to be carried up.
    #[verifier::spinoff_prover]
    proof fn split_leaf_ranges(
        &self,
        pages: Map<u32, Page>,
        next0: u32,
        levels: Map<u32, nat>,
        leaves: Seq<u32>,
        ranges: Map<u32, KeyRange>,
        root: u32,
        h: nat,
        key: Seq<u8>,
        val: Seq<u8>,
        leaf_id: u32,
        old_leaf: Page,
        left_page: Page,
        r: u32,
        right: Page,
        path: Seq<u32>,
    )
        requires
            parts_ok(pages, next0, levels, leaves),
            ranges_ok(pages, levels, ranges, root, h),
            leaves_in_range(pages, levels, ranges),
            h >= 1,
            levels.contains_key(root),
            levels[root] == h,
            leaf_id == leaf_for(pages, root, h, key),
            path == path_for(pages, root, h, key),
            levels.contains_key(leaf_id),
            levels[leaf_id] == 1,
            in_range(key, ranges[leaf_id]),
            !levels.contains_key(r),
            old_leaf == pages[leaf_id],
            old_leaf.wf(),
            left_page.wf(),
            right.wf(),
            ({
                let v = old_leaf@;
                let all = split_entries(v, key, val);
                let mid = (all.len() / 2) as int;
                let left = put_all(PageView::fresh(v.page_id), all.take(mid));
                let rt = put_all(PageView::fresh(r as int), all.skip(mid));
                &&& !v.put_fits(key, val)
                &&& all.len() >= 2
                &&& left is Some
                &&& rt is Some
                &&& right@ == rt.unwrap().with_next_leaf(v.next_leaf)
                &&& left_page@ == left.unwrap().with_next_leaf(r as int)
            }),
            self.height == h,
            self.root_page_id == root,
            self.pager.pages() == pages.insert(leaf_id, left_page).insert(r, right),
            self.levels@ == levels.insert(r, 1),
            ({
                let all = split_entries(old_leaf@, key, val);
                let sep = all[(all.len() / 2) as int].0;
                self.ranges@ == ranges.insert(leaf_id, (ranges[leaf_id].0, Some(sep))).insert(r, (Some(sep), ranges[leaf_id].1))
            }),
        ensures
            ({
                let v = old_leaf@;
                let all = split_entries(v, key, val);
                let sep = all[(all.len() / 2) as int].0;
                let rl = ranges[leaf_id];
                &&& strictly_inside(sep, rl)
                &&& leaves_in_range(self.pager.pages(), self.levels@, self.ranges@)
                &&& forall|q: Seq<u8>|
                    #[trigger] in_range(q, (rl.0, Some(sep))) ==> left_page@.lookup(q) == if q == key {
                        Some(val)
                    } else {
                        v.lookup(q)
                    }
                &&& forall|q: Seq<u8>|
                    #[trigger] in_range(q, (Some(sep), rl.1)) ==> right@.lookup(q) == if q == key {
                        Some(val)
                    } else {
                        v.lookup(q)
                    }
                &&& path.len() > 0 ==> ranges_pending(
                    self.pager.pages(),
                    self.levels@,
                    self.ranges@,
                    root,
                    h,
                    path.last(),
                    sep,
                    r,
                )
                &&& path.len() == 0 ==> ranges_root_pending(self.pager.pages(), self.levels@, self.ranges@, root, h, sep, r)
                &&& path.len() > 0 ==> path[0] == root
                &&& forall|i: int| 0 <= i < path.len() ==> in_range(key, self.ranges@[#[trigger] path[i]])
                &&& forall|i: int| 0 <= i < path.len() - 1 ==> route(self.pager.pages(), #[trigger] path[i], key) == path[i + 1]
            }),
    {
        let v = old_leaf@;
        let all = split_entries(v, key, val);
        let mid = (all.len() / 2) as int;
        let sep = all[mid].0;
        let rl = ranges[leaf_id];
        old_leaf.lemma_view_valid();
        left_page.lemma_view_valid();
        right.lemma_view_valid();
        assert forall|i: int| 0 <= i < v.entries.len() implies in_range(#[trigger] v.entries[i].0, rl) by {
            assert(in_range(pages[leaf_id]@.entries[i].0, ranges[leaf_id]));
        }
        lemma_split_halves(v, key, val, r as int, rl, left_page@, right@);
        lemma_leaves_in_range_split(pages, levels, ranges, leaf_id, left_page, r, right, sep);
        lemma_descend(pages, next0, levels, root, h, key);
        if h == 1 {
            assert(leaf_id == root);
            lemma_ranges_split_root_leaf(pages, levels, ranges, root, left_page, r, right, sep);
        } else {
            lemma_path_facts(pages, next0, levels, leaves, ranges, root, h, root, h, key);
            let p = path.last();
            assert(path[h - 2] == p);
            assert(levels[p] == 2);
            lemma_ranges_split_leaf(pages, next0, levels, leaves, ranges, root, h, p, key, leaf_id, left_page, r, right, sep);
            assert forall|i: int| 0 <= i < path.len() implies in_range(key, self.ranges@[#[trigger] path[i]]) by {
                assert(levels[path[i]] == h - i);
            }
            assert forall|i: int| 0 <= i < path.len() - 1 implies route(self.pager.pages(), #[trigger] path[i], key) == path[i + 1] by {
                assert(levels[path[i]] == h - i);
                assert(self.pager.pages()[path[i]] == pages[path[i]]);
            }
        }
    }

    /// Carries a split up the path, bottom up: each parent takes the new separator and
    /// right child, and a parent that is full splits in turn. When the path runs out, the
    /// old root has split and a new root is created above it.
    #[verifier::spinoff_prover]
    #[verifier::rlimit(40)]
    fn propagate_split(
        &mut self,
        path: Vec<u32>,
        sep_key: Vec<u8>,
        right_child: u32,
        Ghost(key): Ghost<Seq<u8>>,
        Ghost(track): Ghost<bool>,
    ) -> (r: Result<(), &'static str>)
        requires
            parts_ok(old(self).pages(), old(self).next_id(), old(self).levels@, old(self).leaves@),
            old(self).height >= 1,
            old(self).levels@.contains_key(old(self).root_page_id),
            old(self).levels@[old(self).root_page_id] == old(self).height,
            path@.len() + 1 == old(self).height,
            forall|i: int| 0 <= i < path@.len() ==> old(self).levels@.contains_key(#[trigger] path@[i]) && old(self).levels@[path@[i]] == old(self).height - i,
            child_ok(old(self).levels@, right_child as int, (old(self).height - path@.len()) as nat),
            old(self).next_id() + path@.len() + 1 <= u32::MAX,
            track ==> {
                &&& path@.len() > 0 ==> ranges_pending(
                    old(self).pages(),
                    old(self).levels@,
                    old(self).ranges@,
                    old(self).root_page_id,
                    old(self).height as nat,
                    path@.last(),
                    sep_key@,
                    right_child,
                )
                &&& path@.len() == 0 ==> ranges_root_pending(
                    old(self).pages(),
                    old(self).levels@,
                    old(self).ranges@,
                    old(self).root_page_id,
                    old(self).height as nat,
                    sep_key@,
                    right_child,
                )
                &&& path@.len() > 0 ==> path@[0] == old(self).root_page_id
                &&& forall|i: int| 0 <= i < path@.len() ==> in_range(key, old(self).ranges@[#[trigger] path@[i]])
                &&& forall|i: int|
                    0 <= i < path@.len() - 1 ==> route(old(self).pages(), #[trigger] path@[i], key) == path@[i + 1]
            },
        ensures
            final(self).wf(),
            final(self).height() >= 1,
            final(self).next_id() <= old(self).next_id() + old(self).height(),
            final(self).leaves@ == old(self).leaves@,
            r matches Err(e) ==> e == "page full",
            r is Ok <==> cascade_end(old(self).pages(), path@, sep_key@, right_child as int, old(self).next_id() as int) is Some,
            final(self).height() == old(self).height() + if cascade_end(
                old(self).pages(),
                path@,
                sep_key@,
                right_child as int,
                old(self).next_id() as int,
            ) == Some(true) {
                1nat
            } else {
                0nat
            },
            track && r is Ok ==> {
                &&& ranges_ok(final(self).pages(), final(self).levels@, final(self).ranges@, final(self).root_page_id, final(self).height as nat)
                &&& leaves_kept(old(self).pages(), old(self).levels@, old(self).ranges@, final(self).pages(), final(self).levels@, final(self).ranges@)
            },
    {
        let ghost end0 = cascade_end(self.pager.pages(), path@, sep_key@, right_child as int, self.pager.next_id() as int);
        let mut path = path;
        let mut sep_key = sep_key;
        let mut right_child = right_child;
        let ghost h = self.height as nat;
        let ghost n0 = self.pager.next_id();
        let ghost len0 = path@.len();
        let ghost pages0 = self.pager.pages();
        let ghost levels0 = self.levels@;
        let ghost ranges0 = self.ranges@;
        #[verifier::loop_isolation(false)]
        while path.len() > 0
            invariant
                parts_ok(self.pager.pages(), self.pager.next_id(), self.levels@, self.leaves@),
                forall|i: int| 0 <= i < path@.len() ==> #[trigger] self.pager.pages()[path@[i]] == pages0[path@[i]],
                cascade_end(pages0, path@, sep_key@, right_child as int, self.pager.next_id() as int) == end0,
                self.height == h,
                h >= 1,
                self.levels@.contains_key(self.root_page_id),
                self.levels@[self.root_page_id] == h,
                path@.len() + 1 <= h,
                forall|i: int| 0 <= i < path@.len() ==> self.levels@.contains_key(#[trigger] path@[i]) && self.levels@[path@[i]] == h - i,
                child_ok(self.levels@, right_child as int, (h - path@.len()) as nat),
                self.pager.next_id() + path@.len() + 1 <= n0 + len0 + 1,
                n0 + len0 + 1 <= u32::MAX,
                n0 == old(self).next_id(),
                len0 + 1 == old(self).height(),
                pages0 == old(self).pages(),
                levels0 == old(self).levels@,
                ranges0 == old(self).ranges@,
                self.root_page_id == old(self).root_page_id,
                self.leaves@ == old(self).leaves@,
                track ==> {
                    &&& path@.len() > 0 ==> ranges_pending(
                        self.pager.pages(),
                        self.levels@,
                        self.ranges@,
                        self.root_page_id,
                        h,
                        path@.last(),
                        sep_key@,
                        right_child,
                    )
                    &&& path@.len() == 0 ==> ranges_root_pending(
                        self.pager.pages(),
                        self.levels@,
                        self.ranges@,
                        self.root_page_id,
                        h,
                        sep_key@,
                        right_child,
                    )
                    &&& path@.len() > 0 ==> path@[0] == self.root_page_id
                    &&& forall|i: int| 0 <= i < path@.len() ==> in_range(key, self.ranges@[#[trigger] path@[i]])
                    &&& forall|i: int|
                        0 <= i < path@.len() - 1 ==> route(self.pager.pages(), #[trigger] path@[i], key) == path@[i + 1]
                    &&& leaves_kept(pages0, levels0, ranges0, self.pager.pages(), self.levels@, self.ranges@)
                },
            decreases path@.len(),
        {
            let ghost pages = self.pager.pages();
            let ghost levels = self.levels@;
            let ghost leaves = self.leaves@;
            let ghost ranges = self.ranges@;
            let ghost path_before = path@;
            let parent_id = path.pop().unwrap();
            let ghost lp = levels[parent_id];
            proof {
                assert(parent_id == path_before.last());
                assert(path@ == path_before.drop_last());
                assert(lp == h - path@.len());
                assert(lp > 1);
            }
            let new_right_id = self.pager.alloc_page_id();
            proof {
                lemma_grow_next_id(pages, (self.pager.next_id() - 1) as u32, self.pager.next_id(), levels, leaves);
                assert(node_ok(pages, levels, parent_id));
                pages[parent_id].lemma_view_valid();
            }
            let page = self.pager.get_mut(parent_id).unwrap();
            let ghost old_node = *page;
            let mut node = InternalPageMut::new(page);
            let res = node.insert_or_split(sep_key.as_slice(), right_child, new_right_id);
            let ghost cb = crate::btree::internal::child_bytes(right_child as int);
            proof {
                crate::btree::internal::lemma_child_id_of_bytes(right_child);
            }
            let split = match res {
                Ok(s) => s,
                Err(e) => {
                    proof {
                        let np = self.pager.pages()[parent_id];
                        assert(self.pager.pages() == pages.insert(parent_id, np));
                        lemma_replace_node(pages, self.pager.next_id(), levels, leaves, parent_id, np);
                        assert(path_before[path_before.len() - 1] == parent_id);
                        assert(old_node == pages0[parent_id]);
                        assert(cascade_end(pages0, path_before, sep_key@, right_child as int, new_right_id as int) is None);
                    }
                    return Err(e);
                },
            };
            let InternalSplit { separator_key, right_page } = match split {
                Some(sp) => sp,
                None => {
                    proof {
                        let np = self.pager.pages()[parent_id];
                        assert(self.pager.pages() == pages.insert(parent_id, np));
                        lemma_put_points_to(old_node@, levels, sep_key@, cb, (lp - 1) as nat);
                        lemma_replace_node(pages, self.pager.next_id(), levels, leaves, parent_id, np);
                        assert(path_before[path_before.len() - 1] == parent_id);
                        assert(old_node == pages0[parent_id]);
                        assert(cascade_end(pages0, path_before, sep_key@, right_child as int, new_right_id as int) == Some(false));
                        if track {
                            let v = old_node@;
                            lemma_rank_sorted(v.entries, sep_key@);
                            assert(np@.entries == with_sep(v, sep_key@, right_child as int).entries);
                            lemma_ranges_absorb(pages, levels, ranges, self.root_page_id, h, parent_id, sep_key@, right_child, np);
                            lemma_leaves_kept_node(pages0, levels0, ranges0, pages, levels, ranges, parent_id, np, lp, ranges[parent_id]);
                            assert(levels.insert(parent_id, lp) =~= levels);
                            assert(ranges.insert(parent_id, ranges[parent_id]) =~= ranges);
                        }
                    }
                    return Ok(());
                },
            };
            proof {
                let v = old_node@;
                let all = crate::btree::split::split_entries(v, sep_key@, cb);
                let mid = (all.len() / 2) as int;
                let l0 = PageView::fresh(v.page_id).with_next_leaf(v.next_leaf);
                let r0 = PageView::fresh(new_right_id as int).with_next_leaf(child_id(all[mid].1));
                lemma_rank_sorted(v.entries, sep_key@);
                assert(entries_point_to(levels, all, (lp - 1) as nat)) by {
                    let rk = v.rank(sep_key@);
                    assert forall|i: int| 0 <= i < all.len() implies (#[trigger] all[i]).1.len() == 4
                        && child_ok(levels, child_id(all[i].1), (lp - 1) as nat) by {
                        if v.contains(sep_key@) {
                            if i != rk {
                                assert(all[i] == v.entries[i]);
                            }
                        } else if i < rk {
                            assert(all[i] == v.entries[i]);
                        } else if i > rk {
                            assert(all[i] == v.entries[i - 1]);
                        }
                    }
                }
                lemma_points_to_sub(levels, all, (lp - 1) as nat, 0, mid);
                assert(all.subrange(0, mid) =~= all.take(mid));
                lemma_points_to_sub(levels, all, (lp - 1) as nat, mid + 1, all.len() as int);
                assert(all.subrange(mid + 1, all.len() as int) =~= all.skip(mid + 1));
                assert(l0.entries =~= Seq::<Entry>::empty());
                assert(r0.entries =~= Seq::<Entry>::empty());
                lemma_put_all_points_to(l0, all.take(mid), levels, (lp - 1) as nat);
                lemma_put_all_points_to(r0, all.skip(mid + 1), levels, (lp - 1) as nat);
                crate::page::view::lemma_put_all_keeps_header(l0, all.take(mid));
                crate::page::view::lemma_put_all_keeps_header(r0, all.skip(mid + 1));
                let np = self.pager.pages()[parent_id];
                assert(self.pager.pages() == pages.insert(parent_id, np));
                lemma_replace_node(pages, self.pager.next_id(), levels, leaves, parent_id, np);
                if pages.contains_key(new_right_id) {
                    assert(pages[new_right_id]@.page_id == new_right_id);
                }
                assert(child_ok(levels, child_id(all[mid].1), (lp - 1) as nat));
            }
            let ghost right = right_page.inner();
            let ghost pages1 = self.pager.pages();
            self.pager.insert_page(right_page.into_page());
            let ghost pushed = separator_key@;
            proof {
                lemma_add_node(pages1, self.pager.next_id(), levels, leaves, new_right_id, right, lp);
                self.levels@ = levels.insert(new_right_id, lp);
                let rp = ranges[parent_id];
                self.ranges@ = ranges.insert(parent_id, (rp.0, Some(pushed))).insert(new_right_id, (Some(pushed), rp.1));
                assert forall|i: int| 0 <= i < path@.len() implies self.levels@.contains_key(#[trigger] path@[i]) && self.levels@[path@[i]] == h - i by {
                    assert(path@[i] == path_before[i]);
                    assert(levels.contains_key(path@[i]));
                }
                if track {
                    let v = old_node@;
                    let vs = with_sep(v, sep_key@, right_child as int);
                    let all = crate::btree::split::split_entries(v, sep_key@, cb);
                    let mid = (all.len() / 2) as int;
                    lemma_rank_sorted(v.entries, sep_key@);
                    assert(all == vs.entries);
                    crate::page::layout::lemma_sorted_insert(v.entries, (sep_key@, cb));
                    crate::page::layout::lemma_sorted_take(all, mid);
                    assert(keys_sorted(all.skip(mid + 1))) by {
                        let t = all.skip(mid + 1);
                        assert forall|i: int, j: int| 0 <= i < j < t.len() implies lex_lt(#[trigger] t[i].0, #[trigger] t[j].0) by {
                            assert(t[i] == all[mid + 1 + i] && t[j] == all[mid + 1 + j]);
                        }
                    }
                    let l0 = PageView::fresh(v.page_id).with_next_leaf(v.next_leaf);
                    let r0 = PageView::fresh(new_right_id as int).with_next_leaf(child_id(all[mid].1));
                    crate::btree::split::lemma_put_all_sorted_exact(l0, all.take(mid));
                    crate::btree::split::lemma_put_all_sorted_exact(r0, all.skip(mid + 1));
                    let pl = pages1[parent_id];
                    let g = if path@.len() > 0 { path@.last() } else { 0u32 };
                    if path@.len() > 0 {
                        assert(path_before[path@.len() - 1] == g);
                        assert(route(pages, path_before[path@.len() - 1], key) == path_before[path@.len() as int]);
                    }
                    lemma_ranges_split_node(pages, self.pager.next_id(), levels, leaves, ranges, self.root_page_id, h,
                        parent_id, sep_key@, right_child, g, key, new_right_id, pl, right);
                    assert(self.pager.pages() == pages.insert(parent_id, pl).insert(new_right_id, right));
                    assert forall|i: int| 0 <= i < path@.len() implies in_range(key, self.ranges@[#[trigger] path@[i]]) by {
                        assert(path@[i] == path_before[i]);
                        assert(levels[path@[i]] == h - i);
                    }
                    assert forall|i: int| 0 <= i < path@.len() - 1 implies route(self.pager.pages(), #[trigger] path@[i], key) == path@[i + 1] by {
                        assert(path@[i] == path_before[i]);
                        assert(path@[i + 1] == path_before[i + 1]);
                        assert(levels[path@[i]] == h - i);
                    }
                    if path@.len() > 0 {
                        assert(path@[0] == path_before[0]);
                    } else {
                        assert(path_before[0] == parent_id);
                    }
                    let rp = ranges[parent_id];
                    lemma_leaves_kept_node(pages0, levels0, ranges0, pages, levels, ranges, parent_id, pl, lp, (rp.0, Some(pushed)));
                    lemma_leaves_kept_node(pages0, levels0, ranges0, pages.insert(parent_id, pl), levels.insert(parent_id, lp),
                        ranges.insert(parent_id, (rp.0, Some(pushed))), new_right_id, right, lp, (Some(pushed), rp.1));
                    assert(levels.insert(parent_id, lp) =~= levels);
                }
            }
            let ghost sep_before = sep_key@;
            let ghost c_before = right_child;
            sep_key = separator_key;
            right_child = new_right_id;
            proof {
                assert(path_before[path_before.len() - 1] == parent_id);
                assert(old_node == pages0[parent_id]);
                assert(path@ == path_before.drop_last());
                assert(cascade_end(pages0, path_before, sep_before, c_before as int, new_right_id as int) == cascade_end(
                    pages0,
                    path@,
                    sep_key@,
                    right_child as int,
                    new_right_id + 1,
                ));
                assert forall|i: int| 0 <= i < path@.len() implies #[trigger] self.pager.pages()[path@[i]] == pages0[path@[i]] by {
                    assert(path@[i] == path_before[i]);
                    assert(levels[path_before[i]] == h - i);
                    assert(pages.contains_key(path_before[i]));
                    assert(self.pager.pages()[path@[i]] == pages[path_before[i]]);
                }
            }
        }
        // The split reached the root: grow the tree by one level.
        let ghost pages = self.pager.pages();
        let ghost levels = self.levels@;
        let ghost leaves = self.leaves@;
        let ghost ranges = self.ranges@;
        let new_root_id = self.pager.new_page();
        let ghost n1 = self.pager.next_id();
        let old_root_id = self.root_page_id;
        let page = self.pager.get_mut(new_root_id).unwrap();
        let mut root = InternalPageMut::new(page);
        root.set_leftmost_child(old_root_id);
        let ghost p0 = *root.page;
        proof {
            if pages.contains_key(new_root_id) {
                assert(pages[new_root_id]@.page_id == new_root_id);
            }
            assert(p0@.entries =~= Seq::<Entry>::empty());
            lemma_grow_next_id(pages, (n1 - 1) as u32, n1, levels, leaves);
            lemma_add_node(pages, n1, levels, leaves, new_root_id, p0, h + 1);
        }
        let res = root.insert(sep_key.as_slice(), right_child);
        proof {
            let levels2 = levels.insert(new_root_id, h + 1);
            let pages2 = pages.insert(new_root_id, p0);
            self.levels@ = levels2;
            self.ranges@ = ranges.insert(new_root_id, (None::<Seq<u8>>, None::<Seq<u8>>));
            let np = self.pager.pages()[new_root_id];
            assert(self.pager.pages() == pages2.insert(new_root_id, np));
            crate::btree::internal::lemma_child_id_of_bytes(right_child);
            p0.lemma_view_valid();
            lemma_points_to_grow(levels, Seq::<Entry>::empty(), h, new_root_id, h + 1);
            assert(child_ok(levels2, right_child as int, h));
            lemma_put_points_to(p0@, levels2, sep_key@, crate::btree::internal::child_bytes(right_child as int), h);
            lemma_replace_node(pages2, self.pager.next_id(), levels2, leaves, new_root_id, np);
            if track && res is Ok {
                assert(p0@.rank(sep_key@) == 0);
                assert(np@.entries =~= seq![(sep_key@, crate::btree::internal::child_bytes(right_child as int))]);
                if levels.contains_key(new_root_id) {
                    assert(pages.contains_key(new_root_id));
                }
                lemma_ranges_new_root(pages, n1, levels, leaves, ranges, self.root_page_id, h, sep_key@, right_child, new_root_id, np);
                assert(pages.insert(new_root_id, np) == self.pager.pages());
                lemma_leaves_kept_node(pages0, levels0, ranges0, pages, levels, ranges, new_root_id, np, h + 1,
                    (None::<Seq<u8>>, None::<Seq<u8>>));
            }
        }
        match res {
            Ok(_) => {},
            Err(e) => {
                proof {
                    assert(p0@ == PageView::fresh(new_root_id as int).with_next_leaf(old_root_id as int));
                    assert(!PageView::fresh(new_root_id as int).put_fits(sep_key@, crate::btree::internal::child_bytes(right_child as int)));
                }
                return Err(e);
            },
        }
        self.root_page_id = new_root_id;
        self.height = self.height + 1;
        Ok(())
    }

    /// The entries a scan from `start` yields: those along the leaf chain from the leaf a
    /// search for `start` reaches (from the leftmost leaf when `start` is `None`), less
    /// the leading ones that sort before `start`.
    pub closed spec fn scan_entries(&self, start: Option<Seq<u8>>) -> Seq<Entry> {
        let pages = self.pager.pages();
        let h = self.height as nat;
        if self.height == 0 {
            Seq::empty()
        } else {
            match start {
                Some(s) => drop_below(
                    chain_entries(pages, self.leaves@.skip(self.leaves@.index_of(leaf_for(pages, self.root_page_id, h, s))), 0),
                    s,
                ),
                None => chain_entries(
                    pages,
                    self.leaves@.skip(self.leaves@.index_of(leftmost_leaf(pages, self.root_page_id, h))),
                    0,
                ),
            }
        }
    }

    /// The leaf a scan from `start` begins at, as an index into the leaf chain: the first
    /// leaf for a full scan, and the leaf whose range holds `start` otherwise.
    proof fn scan_start(&self, start: Option<Seq<u8>>) -> (i0: int)
        requires
            self.bounded(),
            self.height >= 1,
        ensures
            0 <= i0 < self.leaves@.len(),
            start is None ==> i0 == 0,
            start matches Some(s) ==> in_range(s, self.ranges@[self.leaves@[i0]]),
            self.scan_entries(start) == match start {
                Some(s) => drop_below(chain_entries(self.pager.pages(), self.leaves@.skip(i0), 0), s),
                None => chain_entries(self.pager.pages(), self.leaves@.skip(i0), 0),
            },
    {
        let pages = self.pager.pages();
        let levels = self.levels@;
        let leaves = self.leaves@;
        let ranges = self.ranges@;
        let root = self.root_page_id;
        let h = self.height as nat;
        let next = self.pager.next_id();
        let first = match start {
            Some(s) => leaf_for(pages, root, h, s),
            None => leftmost_leaf(pages, root, h),
        };
        match start {
            Some(s) => {
                lemma_descend_in_range(pages, next, levels, leaves, ranges, root, h, root, h, s);
            },
            None => {
                lemma_descend_leftmost(pages, next, levels, root, h);
                lemma_leftmost_open(pages, next, levels, leaves, ranges, root, h, root, h);
            },
        }
        assert(leaves.contains(first));
        let i0 = leaves.index_of(first);
        assert(leaves[i0] == first);
        if start is None && i0 > 0 {
            assert(bound_below(ranges[leaves[0]].1, ranges[leaves[i0]].0));
        }
        i0
    }

    /// The leaves in chain order are sorted, hold only keys of their ranges, and a search
    /// for any key a leaf holds ends at that leaf.
    proof fn leaf_facts(&self, j: int)
        requires
            self.bounded(),
            self.height >= 1,
            0 <= j < self.leaves@.len(),
        ensures
            keys_sorted(self.pager.pages()[self.leaves@[j]]@.entries),
            forall|m: int|
                0 <= m < self.pager.pages()[self.leaves@[j]]@.entries.len() ==> {
                    &&& in_range(
                        #[trigger] self.pager.pages()[self.leaves@[j]]@.entries[m].0,
                        self.ranges@[self.leaves@[j]],
                    )
                    &&& self.lookup(self.pager.pages()[self.leaves@[j]]@.entries[m].0) == Some(
                        self.pager.pages()[self.leaves@[j]]@.entries[m].1,
                    )
                },
    {
        let pages = self.pager.pages();
        let levels = self.levels@;
        let leaves = self.leaves@;
        let ranges = self.ranges@;
        let x = leaves[j];
        assert(leaves.contains(x));
        assert(levels.contains_key(x) && levels[x] == 1);
        pages[x].lemma_view_valid();
        assert forall|m: int| 0 <= m < pages[x]@.entries.len() implies {
            &&& in_range(#[trigger] pages[x]@.entries[m].0, ranges[x])
            &&& self.lookup(pages[x]@.entries[m].0) == Some(pages[x]@.entries[m].1)
        } by {
            let k = pages[x]@.entries[m].0;
            assert(in_range(k, ranges[x]));
            lemma_leaf_of_range(pages, self.pager.next_id(), levels, leaves, ranges, self.root_page_id, self.height as nat, x, k);
            lemma_lookup_entry(pages[x]@, k);
        }
    }

    /// A scan yields, in strictly increasing key order, exactly the stored pairs whose keys
    /// do not sort below `start` (every pair when `start` is `None`): each with the value a
    /// search finds for its key, and every key that a search finds, from `start` on.
    #[verifier::spinoff_prover]
    pub proof fn law_scan(&self, start: Option<Seq<u8>>)
        requires
            self.bounded(),
        ensures
            keys_sorted(self.scan_entries(start)),
            forall|i: int|
                0 <= i < self.scan_entries(start).len() ==> {
                    &&& self.lookup(#[trigger] self.scan_entries(start)[i].0) == Some(self.scan_entries(start)[i].1)
                    &&& start matches Some(s) ==> !lex_lt(self.scan_entries(start)[i].0, s)
                },
            forall|k: Seq<u8>|
                #[trigger] self.lookup(k) is Some && (start matches Some(s) ==> !lex_lt(k, s)) ==> exists|i: int|
                    0 <= i < self.scan_entries(start).len() && self.scan_entries(start)[i].0 == k,
    {
        if self.height >= 1 {
            let pages = self.pager.pages();
            let levels = self.levels@;
            let leaves = self.leaves@;
            let ranges = self.ranges@;
            let root = self.root_page_id;
            let h = self.height as nat;
            let next = self.pager.next_id();
            let i0 = self.scan_start(start);
            let c = leaves.skip(i0);
            let raw = chain_entries(pages, c, 0);
            let es = self.scan_entries(start);
            assert forall|j: int| 0 <= j < c.len() implies keys_sorted(#[trigger] pages[c[j]]@.entries) by {
                self.leaf_facts(i0 + j);
            }
            assert forall|j1: int, j2: int, m1: int, m2: int|
                0 <= j1 < j2 < c.len() && 0 <= m1 < pages[c[j1]]@.entries.len() && 0 <= m2 < pages[c[j2]]@.entries.len()
                    implies lex_lt(#[trigger] pages[c[j1]]@.entries[m1].0, #[trigger] pages[c[j2]]@.entries[m2].0) by {
                self.leaf_facts(i0 + j1);
                self.leaf_facts(i0 + j2);
                lemma_chain_keys_ordered(leaves, ranges, i0 + j1, i0 + j2, pages[c[j1]]@.entries[m1].0, pages[c[j2]]@.entries[m2].0);
            }
            lemma_chain_entries_sorted(pages, c);
            let d = match start {
                Some(s) => lemma_drop_below(raw, s),
                None => 0,
            };
            assert(es == raw.skip(d));
            assert forall|a: int, b: int| 0 <= a < b < es.len() implies lex_lt(#[trigger] es[a].0, #[trigger] es[b].0) by {
                assert(es[a] == raw[a + d] && es[b] == raw[b + d]);
            }
            assert forall|i: int| 0 <= i < es.len() implies {
                &&& self.lookup(#[trigger] es[i].0) == Some(es[i].1)
                &&& start matches Some(s) ==> !lex_lt(es[i].0, s)
            } by {
                assert(es[i] == raw[i + d]);
                let (j, m) = lemma_chain_entry_source(pages, c, i + d);
                self.leaf_facts(i0 + j);
                assert(c[j] == leaves[i0 + j]);
            }
            assert forall|k: Seq<u8>| #[trigger] self.lookup(k) is Some && (start matches Some(s) ==> !lex_lt(k, s)) implies exists|i: int|
                0 <= i < es.len() && es[i].0 == k by {
                lemma_descend_in_range(pages, next, levels, leaves, ranges, root, h, root, h, k);
                let y = leaf_for(pages, root, h, k);
                assert(leaves.contains(y));
                let jy = leaves.index_of(y);
                assert(leaves[jy] == y);
                pages[y].lemma_view_valid();
                lemma_lookup_entry(pages[y]@, k);
                let m = choose|m: int| 0 <= m < pages[y]@.entries.len() && #[trigger] pages[y]@.entries[m].0 == k;
                if jy < i0 {
                    if let Some(s) = start {
                        lemma_chain_keys_ordered(leaves, ranges, jy, i0, k, s);
                    }
                }
                assert(c[jy - i0] == y);
                let n = lemma_chain_entry_position(pages, c, jy - i0, m);
                if n < d {
                    assert(lex_lt(raw[n].0, start.unwrap()));
                }
                assert(es[n - d] == raw[n]);
            }
        }
    }

    /// A forward scan over the entries with keys from `start` on (all entries when `start`
    /// is `None`), in key order.
    pub fn scan(&self, start: Option<&[u8]>) -> (r: Scan<'_>)
        requires
            self.wf(),
        ensures
            r.scan_ok(),
            r.remaining() == self.scan_entries(match start {
                Some(s) => Some(s@),
                None => None,
            }),
    {
        let ghost pages = self.pager.pages();
        let ghost leaves = self.leaves@;
        if self.height == 0 {
            return Scan {
                pager: &self.pager,
                current_page_id: None,
                slot_idx: 0,
                skip_before: None,
                chain: Ghost(Seq::empty()),
            };
        }
        let (first_leaf_id, skip_before) = match start {
            Some(key) => {
                let (leaf_id, _) = self.find_leaf(key);
                proof {
                    lemma_descend(pages, self.pager.next_id(), self.levels@, self.root_page_id, self.height as nat, key@);
                }
                (Some(leaf_id), Some(vstd::slice::slice_to_vec(key)))
            },
            None => {
                let leaf = self.find_leftmost_leaf();
                proof {
                    lemma_descend_leftmost(pages, self.pager.next_id(), self.levels@, self.root_page_id, self.height as nat);
                }
                (leaf, None)
            },
        };
        let ghost first = first_leaf_id.unwrap();
        let ghost chain = leaves.skip(leaves.index_of(first));
        proof {
            assert(leaves.contains(first));
            let k = leaves.index_of(first);
            assert forall|i: int| 0 <= i < chain.len() implies {
                &&& 1 <= #[trigger] chain[i]
                &&& pages.contains_key(chain[i])
                &&& pages[chain[i]].wf()
                &&& pages[chain[i]]@.next_leaf == if i + 1 < chain.len() {
                    chain[i + 1] as int
                } else {
                    0
                }
            } by {
                assert(chain[i] == leaves[k + i]);
                assert(leaves.contains(leaves[k + i]));
                assert(pages[leaves[k + i]]@.next_leaf == if k + i + 1 < leaves.len() {
                    leaves[k + i + 1] as int
                } else {
                    0
                });
            }
        }
        Scan {
            pager: &self.pager,
            current_page_id: first_leaf_id,
            slot_idx: 0,
            skip_before,
            chain: Ghost(chain),
        }
    }
}

impl Default for BTree {
    fn default() -> (r: Self)
        ensures
            r.wf(),
            r.bounded(),
            r.height() == 0,
            r.next_id() == 1,
            forall|key: Seq<u8>| r.lookup(key) is None,
    {
        Self::new()
    }
}


/// A forward scan over the tree's entries in key order, following the leaf chain.
pub struct Scan<'a> {
    pager: &'a Pager,
    current_page_id: Option<u32>,
    slot_idx: usize,
    skip_before: Option<Vec<u8>>,
    /// The leaves still to visit, starting with the current one.
    chain: Ghost<Seq<u32>>,
}

impl<'a> Scan<'a> {
    /// The scan's position is consistent: it stands in a linked run of leaves, at a slot
    /// of the current one.
    pub closed spec fn scan_ok(&self) -> bool {
        let chain = self.chain@;
        let pages = self.pager.pages();
        &&& self.current_page_id is None <==> chain.len() == 0
        &&& self.current_page_id matches Some(id) ==> chain[0] == id
        &&& chain_linked(pages, chain)
        &&& chain.len() > 0 ==> self.slot_idx <= pages[chain[0]]@.entries.len()
    }

    /// The entries the scan has yet to yield, in order.
    pub closed spec fn remaining(&self) -> Seq<Entry> {
        let raw = chain_entries(self.pager.pages(), self.chain@, self.slot_idx as int);
        match self.skip_before {
            Some(s) => drop_below(raw, s@),
            None => raw,
        }
    }

    /// The next entry, or `None` when the scan is done.
    pub fn next(&mut self) -> (r: Option<(&'a [u8], &'a [u8])>)
        requires
            old(self).scan_ok(),
        ensures
            final(self).scan_ok(),
            old(self).remaining().len() == 0 ==> r is None && final(self).remaining().len() == 0,
            old(self).remaining().len() > 0 ==> (r matches Some(kv) && (kv.0@, kv.1@) == old(self).remaining()[0]
                && final(self).remaining() == old(self).remaining().drop_first()),
    {
        loop
            invariant
                self.scan_ok(),
                self.remaining() == old(self).remaining(),
            decreases self.chain@.len(), (if self.chain@.len() > 0 {
                self.pager.pages()[self.chain@[0]]@.entries.len() as int
            } else {
                0int
            }) - self.slot_idx,
        {
            let ghost pages = self.pager.pages();
            let ghost chain = self.chain@;
            let page_id = match self.current_page_id {
                Some(id) => id,
                None => {
                    return None;
                },
            };
            let page: &'a Page = match self.pager.get(page_id) {
                Some(p) => p,
                None => {
                    return None;
                },
            };
            if self.slot_idx < page.slot_count() as usize {
                let ghost raw = chain_entries(pages, chain, self.slot_idx as int);
                proof {
                    assert(raw[0] == page@.entries[self.slot_idx as int]);
                    assert(chain_entries(pages, chain, self.slot_idx + 1) =~= raw.drop_first());
                }
                self.slot_idx = self.slot_idx + 1;
                let (k, v) = match page.get_key_value_at_slot(self.slot_idx - 1) {
                    Some(kv) => kv,
                    None => {
                        continue;
                    },
                };
                let before_start = match &self.skip_before {
                    Some(s) => compare_bytes(k, s.as_slice()) == KeyOrder::Less,
                    None => false,
                };
                if before_start {
                    continue;
                }
                self.skip_before = None;
                return Some((k, v));
            } else {
                proof {
                    assert(page@.entries.skip(self.slot_idx as int) =~= Seq::<Entry>::empty());
                    let rest = chain.drop_first();
                    assert(chain_entries(pages, chain, self.slot_idx as int) =~= chain_entries(pages, rest, 0));
                    assert forall|i: int| 0 <= i < rest.len() implies {
                        &&& 1 <= #[trigger] rest[i]
                        &&& pages.contains_key(rest[i])
                        &&& pages[rest[i]].wf()
                        &&& pages[rest[i]]@.next_leaf == if i + 1 < rest.len() {
                            rest[i + 1] as int
                        } else {
                            0
                        }
                    } by {
                        assert(rest[i] == chain[i + 1]);
                    }
                }
                self.current_page_id = page.next_leaf_page_id();
                self.slot_idx = 0;
                proof {
                    self.chain@ = chain.drop_first();
                }
            }
        }
    }
}

} // verus!
