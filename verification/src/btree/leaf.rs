//! B+ tree leaf nodes: the pages that hold the key-value pairs themselves.
use crate::btree::key::{
    compare_bytes, lemma_lex_asymmetric, lemma_lex_irreflexive, lex_lt,
    KeyOrder,
};
use crate::page::layout::{keys_sorted, lemma_rank_sorted, Entry};
use crate::page::page::Page;
use crate::btree::split::{
    last_value, lemma_last_value_concat, lemma_last_value_some, lemma_put_all_from_empty,
    lemma_split_entries_order, lemma_split_entries_sorted, lemma_split_entries_values,
    lemma_split_position, split_entries,
};
use crate::page::view::{
    lemma_lookup_entry, lemma_put_all_none_extends, lemma_put_all_step, put_all, PageView,
};
use vstd::prelude::*;

verus! {

/// Owned key-value pairs, seen as entries.
pub open spec fn pairs_view(v: Seq<(Vec<u8>, Vec<u8>)>) -> Seq<Entry> {
    Seq::new(v.len(), |i: int| (v[i].0@, v[i].1@))
}

/// A leaf node that owns its page.
pub struct LeafPage {
    page: Page,
}

/// A leaf node over a page borrowed mutably, typically from the pager.
pub struct LeafPageMut<'a> {
    /// The borrowed page.
    pub page: &'a mut Page,
}

/// The outcome of a leaf split: the first key of the new right page, and that page.
pub struct LeafSplit {
    pub separator_key: Vec<u8>,
    pub right_page: LeafPage,
}

/// Puts the pairs `all[lo..hi]` into `page`, in order, stopping at the first that does not
/// fit.
fn put_entries(page: &mut Page, all: &Vec<(Vec<u8>, Vec<u8>)>, lo: usize, hi: usize) -> (r: Result<
    (),
    &'static str,
>)
    requires
        old(page).wf(),
        lo <= hi <= all@.len(),
    ensures
        final(page).wf(),
        r is Ok <==> put_all(old(page)@, pairs_view(all@).subrange(lo as int, hi as int)) is Some,
        r is Ok ==> Some(final(page)@) == put_all(
            old(page)@,
            pairs_view(all@).subrange(lo as int, hi as int),
        ),
        r matches Err(e) ==> e == "page full",
{
    let ghost v0 = page@;
    let ghost sub = pairs_view(all@).subrange(lo as int, hi as int);
    proof {
        assert(sub.take(0) =~= Seq::<Entry>::empty());
    }
    let mut i: usize = lo;
    while i < hi
        invariant
            lo <= i <= hi <= all@.len(),
            sub == pairs_view(all@).subrange(lo as int, hi as int),
            v0 == old(page)@,
            page.wf(),
            put_all(v0, sub.take(i - lo)) == Some(page@),
        decreases hi - i,
    {
        proof {
            assert(sub[i - lo] == (all@[i as int].0@, all@[i as int].1@));
            lemma_put_all_step(v0, sub, i - lo);
        }
        match page.put(all[i].0.as_slice(), all[i].1.as_slice()) {
            Ok(_) => {},
            Err(e) => {
                proof {
                    lemma_put_all_none_extends(v0, sub, i - lo + 1, sub.len() as int);
                    assert(sub.take(sub.len() as int) =~= sub);
                }
                return Err(e);
            },
        }
        i = i + 1;
    }
    proof {
        assert(sub.take(sub.len() as int) =~= sub);
    }
    Ok(())
}

impl LeafPage {
    /// The wrapped page.
    pub closed spec fn inner(&self) -> Page {
        self.page
    }

    /// The wrapped page is well formed.
    pub open spec fn wf(&self) -> bool {
        self.inner().wf()
    }

    /// A fresh, empty leaf.
    pub fn new(page_id: u32) -> (r: Self)
        ensures
            r.wf(),
            r@ == PageView::fresh(page_id as int),
    {
        Self { page: Page::new(page_id) }
    }

    /// Wraps an existing page as a leaf.
    pub fn from_page(p: Page) -> (r: Self)
        ensures
            r.inner() == p,
    {
        Self { page: p }
    }

    /// Unwraps the leaf back into its page.
    pub fn into_page(self) -> (r: Page)
        ensures
            r == self.inner(),
    {
        self.page
    }

    /// Looks up `key` (see `Page::get`).
    pub fn get(&self, key: &[u8]) -> (r: Option<&[u8]>)
        requires
            self.wf(),
        ensures
            match r {
                Some(v) => self@.lookup(key@) == Some(v@),
                None => self@.lookup(key@) == None::<Seq<u8>>,
            },
    {
        self.page.get(key)
    }

    /// Number of entries on the leaf.
    pub fn slot_count(&self) -> (r: u16)
        ensures
            r == self@.entries.len(),
    {
        self.page.slot_count()
    }

    /// Free bytes on the leaf's page.
    pub fn free_space_byte(&self) -> (r: usize)
        requires
            self.wf(),
        ensures
            r == self@.free_space(),
    {
        proof {
            crate::page::layout::lemma_wf_header(self.page.bytes());
        }
        self.page.free_space_bytes()
    }

    /// The key and value at slot `slot_id` (see `Page::get_key_value_at_slot`).
    pub fn key_val_at(&self, slot_id: usize) -> (r: Option<(&[u8], &[u8])>)
        requires
            self.wf(),
        ensures
            match r {
                Some(kv) => slot_id < self@.entries.len() && self@.entries[slot_id as int] == (
                kv.0@, kv.1@),
                None => slot_id >= self@.entries.len(),
            },
    {
        self.page.get_key_value_at_slot(slot_id)
    }

    /// Copies out every entry, in key order.
    pub fn entries(&self) -> (r: Vec<(Vec<u8>, Vec<u8>)>)
        requires
            self.wf(),
        ensures
            pairs_view(r@) == self@.entries,
    {
        let cnt = self.slot_count() as usize;
        let mut out: Vec<(Vec<u8>, Vec<u8>)> = Vec::with_capacity(cnt);
        let mut i: usize = 0;
        while i < cnt
            invariant
                self.wf(),
                cnt == self@.entries.len(),
                i <= cnt,
                out@.len() == i,
                forall|j: int| 0 <= j < i ==> (#[trigger] out@[j].0@, out@[j].1@) == self@.entries[j],
            decreases cnt - i,
        {
            if let Some((k, v)) = self.key_val_at(i) {
                out.push((vstd::slice::slice_to_vec(k), vstd::slice::slice_to_vec(v)));
            }
            i = i + 1;
        }
        assert(pairs_view(out@) =~= self@.entries);
        out
    }
}

impl View for LeafPage {
    type V = PageView;

    open spec fn view(&self) -> PageView {
        self.inner()@
    }
}

impl<'a> LeafPageMut<'a> {
    /// Wraps a borrowed page as a leaf.
    pub fn new(page: &'a mut Page) -> (r: Self)
        ensures
            *r.page == *old(page),
            *final(page) == *final(r.page),
    {
        Self { page }
    }

    /// The borrowed page.
    pub fn page(&self) -> (r: &Page)
        ensures
            *r == *old(self.page),
    {
        self.page
    }

    /// The borrowed page, mutably.
    pub fn page_mut(&mut self) -> (r: &mut Page)
        ensures
            *r == *old(self).page,
            *final(r) == *final(self).page,
            *final(final(self).page) == *final(old(self).page),
    {
        self.page
    }

    /// Looks up `key` (see `Page::get`).
    pub fn get(&self, key: &[u8]) -> (r: Option<&[u8]>)
        requires
            self.page.wf(),
        ensures
            match r {
                Some(v) => old(self.page)@.lookup(key@) == Some(v@),
                None => old(self.page)@.lookup(key@) == None::<Seq<u8>>,
            },
    {
        self.page.get(key)
    }

    /// Inserts or updates `key` (see `Page::put`).
    pub fn insert(&mut self, key: &[u8], val: &[u8]) -> (r: Result<Option<Vec<u8>>, &'static str>)
        requires
            old(self).page.wf(),
        ensures
            final(self).page.wf(),
            final(self).page@ == old(self).page@.put_state(key@, val@),
            *final(final(self).page) == *final(old(self).page),
            r is Err <==> !old(self).page@.put_fits(key@, val@),
            r matches Err(e) ==> e == "page full",
            r matches Ok(o) ==> match o {
                Some(v) => old(self).page@.lookup(key@) == Some(v@),
                None => !old(self).page@.contains(key@),
            },
    {
        self.page.put(key, val)
    }

    /// Removes `key` (see `Page::remove`).
    pub fn remove(&mut self, key: &[u8]) -> (r: Option<Vec<u8>>)
        requires
            old(self).page.wf(),
        ensures
            final(self).page.wf(),
            final(self).page@ == old(self).page@.remove_state(key@),
            *final(final(self).page) == *final(old(self).page),
            match r {
                Some(v) => old(self).page@.lookup(key@) == Some(v@),
                None => old(self).page@.lookup(key@) == None::<Seq<u8>>,
            },
    {
        self.page.remove(key)
    }

    /// Number of entries on the leaf.
    pub fn slot_count(&self) -> (r: u16)
        ensures
            r == old(self.page)@.entries.len(),
    {
        self.page.slot_count()
    }

    /// Free bytes on the leaf's page.
    pub fn free_space_bytes(&self) -> (r: usize)
        requires
            self.page.wf(),
        ensures
            r == old(self.page)@.free_space(),
    {
        proof {
            crate::page::layout::lemma_wf_header(self.page.bytes());
        }
        self.page.free_space_bytes()
    }

    /// The key and value at slot `slot_idx` (see `Page::get_key_value_at_slot`).
    pub fn key_value_at(&self, slot_idx: usize) -> (r: Option<(&[u8], &[u8])>)
        requires
            self.page.wf(),
        ensures
            match r {
                Some(kv) => slot_idx < old(self.page)@.entries.len() && old(self.page)@.entries[slot_idx as int]
                    == (kv.0@, kv.1@),
                None => slot_idx >= old(self.page)@.entries.len(),
            },
    {
        self.page.get_key_value_at_slot(slot_idx)
    }

    /// Copies out every entry, in key order.
    pub fn entries(&self) -> (r: Vec<(Vec<u8>, Vec<u8>)>)
        requires
            self.page.wf(),
        ensures
            pairs_view(r@) == old(self.page)@.entries,
    {
        let cnt = self.slot_count() as usize;
        let mut out: Vec<(Vec<u8>, Vec<u8>)> = Vec::with_capacity(cnt);
        let mut i: usize = 0;
        while i < cnt
            invariant
                self.page.wf(),
                cnt == self.page@.entries.len(),
                i <= cnt,
                out@.len() == i,
                forall|j: int| 0 <= j < i ==> (#[trigger] out@[j].0@, out@[j].1@) == self.page@.entries[j],
            decreases cnt - i,
        {
            if let Some((k, v)) = self.key_value_at(i) {
                out.push((vstd::slice::slice_to_vec(k), vstd::slice::slice_to_vec(v)));
            }
            i = i + 1;
        }
        assert(pairs_view(out@) =~= self.page@.entries);
        out
    }

    /// Inserts `key`/`val`; when the page is full, splits it.
    ///
    /// The page's entries and the new pair, in key order and with the pair replacing the
    /// key's old entry, are divided at the middle: the lower half is rebuilt into this page
    /// (same ID), the upper half into a new page with ID `new_right_page_id`, whose first
    /// key is returned as the separator. This page then points to the new page, which
    /// points to this page's old right sibling. When there is only one entry to divide, the
    /// page is instead rebuilt holding that entry alone. Fails with `"page full"`, leaving
    /// the page as the put left it, when a half (or the lone entry) does not fit.
    #[verifier::spinoff_prover]
    pub fn insert_or_split(&mut self, key: &[u8], val: &[u8], new_right_page_id: u32) -> (r: Result<
        Option<LeafSplit>,
        &'static str,
    >)
        requires
            old(self).page.wf(),
        ensures
            final(self).page.wf(),
            *final(final(self).page) == *final(old(self).page),
            ({
                let v = old(self).page@;
                let all = split_entries(v, key@, val@);
                let mid = (all.len() / 2) as int;
                let left = put_all(PageView::fresh(v.page_id), all.take(mid));
                let right = put_all(PageView::fresh(new_right_page_id as int), all.skip(mid));
                if v.put_fits(key@, val@) {
                    r == Ok::<Option<LeafSplit>, &'static str>(None) && final(self).page@ == v.put_state(
                        key@,
                        val@,
                    )
                } else if all.len() < 2 {
                    if put_all(PageView::fresh(v.page_id), all) is Some {
                        r == Ok::<Option<LeafSplit>, &'static str>(None) && final(self).page@ == put_all(
                            PageView::fresh(v.page_id),
                            all,
                        ).unwrap().with_next_leaf(v.next_leaf)
                    } else {
                        r == Err::<Option<LeafSplit>, &'static str>("page full") && final(self).page@
                            == v.put_state(key@, val@)
                    }
                } else if left is None || right is None {
                    r == Err::<Option<LeafSplit>, &'static str>("page full") && final(self).page@
                        == v.put_state(key@, val@)
                } else {
                    &&& r matches Ok(Some(split))
                    &&& split.separator_key@ == all[mid].0
                    &&& split.right_page.wf()
                    &&& split.right_page@ == right.unwrap().with_next_leaf(v.next_leaf)
                    &&& final(self).page@ == left.unwrap().with_next_leaf(new_right_page_id as int)
                }
            }),
    {
        let ghost v = self.page@;
        let ghost pid = v.page_id;
        let ghost rid = new_right_page_id as int;
        match self.insert(key, val) {
            Ok(_) => {
                return Ok(None);
            },
            Err(_) => {},
        }
        let ghost v1 = self.page@;
        proof {
            assert(v1.entries == v.entries);
            assert(v1.page_id == v.page_id && v1.next_leaf == v.next_leaf);
            crate::page::layout::lemma_wf_header(self.page.bytes());
        }
        let mut all = self.entries();
        // The entries are in key order: the new pair replaces the old entry for its key,
        // or else goes after every key that sorts before it.
        let mut pos: usize = 0;
        while pos < all.len() && compare_bytes(key, all[pos].0.as_slice()) != KeyOrder::Less
            invariant
                keys_sorted(v.entries),
                pairs_view(all@) == v.entries,
                pos <= all@.len(),
                forall|j: int| 0 <= j < pos ==> !lex_lt(key@, #[trigger] v.entries[j].0),
            decreases all@.len() - pos,
        {
            proof {
                assert(pairs_view(all@)[pos as int] == v.entries[pos as int]);
            }
            pos = pos + 1;
        }
        proof {
            if pos < all@.len() {
                assert(pairs_view(all@)[pos as int] == v.entries[pos as int]);
            }
            lemma_split_position(v, key@, pos as int);
            lemma_rank_sorted(v.entries, key@);
            if pos > 0 {
                assert(pairs_view(all@)[pos - 1] == v.entries[pos - 1]);
            }
        }
        let ghost es = split_entries(v, key@, val@);
        if pos > 0 && compare_bytes(key, all[pos - 1].0.as_slice()) == KeyOrder::Equal {
            proof {
                if !v.contains(key@) {
                    assert(lex_lt(v.entries[pos - 1].0, key@));
                    lemma_lex_irreflexive(key@);
                }
            }
            all.set(pos - 1, (vstd::slice::slice_to_vec(key), vstd::slice::slice_to_vec(val)));
            proof {
                assert(pairs_view(all@) =~= es);
            }
        } else {
            all.insert(pos, (vstd::slice::slice_to_vec(key), vstd::slice::slice_to_vec(val)));
            proof {
                assert(pairs_view(all@) =~= es);
            }
        }
        let old_next = self.page.next_leaf_page_id();
        proof {
            crate::utils::byte::lemma_u32_at_range(self.page.bytes(), 16);
            assert(crate::page::page::sibling_id(old_next) == v.next_leaf);
        }
        // A lone entry cannot be split: the page is rebuilt holding it alone.
        if all.len() < 2 {
            let mut single = Page::new(self.page.page_id());
            proof {
                assert(es.subrange(0, all@.len() as int) =~= es);
            }
            if let Err(e) = put_entries(&mut single, &all, 0, all.len()) {
                return Err(e);
            }
            single.set_next_leaf_page_id(old_next);
            *self.page = single;
            return Ok(None);
        }
        let mid = all.len() / 2;
        let separator_key = vstd::slice::slice_to_vec(all[mid].0.as_slice());
        let mut new_left = Page::new(self.page.page_id());
        let mut new_right = Page::new(new_right_page_id);
        proof {
            assert(es.subrange(0, mid as int) =~= es.take(mid as int));
            assert(es.subrange(mid as int, es.len() as int) =~= es.skip(mid as int));
        }
        if let Err(e) = put_entries(&mut new_left, &all, 0, mid) {
            return Err(e);
        }
        if let Err(e) = put_entries(&mut new_right, &all, mid, all.len()) {
            return Err(e);
        }
        proof {
            assert(pairs_view(all@)[mid as int] == es[mid as int]);
        }
        new_left.set_next_leaf_page_id(Some(new_right_page_id));
        new_right.set_next_leaf_page_id(old_next);
        *self.page = new_left;
        Ok(Some(LeafSplit { separator_key, right_page: LeafPage::from_page(new_right) }))
    }
}

/// Leaf `v` turns `key`/`val` away: the page cannot hold the pair, and either its
/// entries with the pair are a lone entry that does not fit on a fresh page, or a split of
/// them has a half that does not fit on a page (the upper half going to page `right_id`).
pub open spec fn leaf_rejects(v: PageView, key: Seq<u8>, val: Seq<u8>, right_id: int) -> bool {
    let all = split_entries(v, key, val);
    let mid = (all.len() / 2) as int;
    &&& !v.put_fits(key, val)
    &&& if all.len() < 2 {
        put_all(PageView::fresh(v.page_id), all) is None
    } else {
        put_all(PageView::fresh(v.page_id), all.take(mid)) is None || put_all(
            PageView::fresh(right_id),
            all.skip(mid),
        ) is None
    }
}

/// A leaf split loses and duplicates nothing. When a valid page `v` cannot take
/// `key`/`val`, the split has an entry for each half and both halves fit, then: every key
/// maps, in the right page if it is there and else in the left page, to its value on `v`
/// (`key` to `val`); no key is on both pages; every left key sorts before every right key; the separator is the right
/// page's first key; and neither page is empty.
#[verifier::spinoff_prover]
pub proof fn law_leaf_split(v: PageView, key: Seq<u8>, val: Seq<u8>, right_id: int, q: Seq<u8>)
    requires
        v.valid(),
        !v.put_fits(key, val),
        put_all(
            PageView::fresh(v.page_id),
            split_entries(v, key, val).take((split_entries(v, key, val).len() / 2) as int),
        ) is Some,
        put_all(
            PageView::fresh(right_id),
            split_entries(v, key, val).skip((split_entries(v, key, val).len() / 2) as int),
        ) is Some,
        split_entries(v, key, val).len() >= 2,
    ensures
        ({
            let all = split_entries(v, key, val);
            let mid = (all.len() / 2) as int;
            let left = put_all(PageView::fresh(v.page_id), all.take(mid)).unwrap();
            let right = put_all(PageView::fresh(right_id), all.skip(mid)).unwrap();
            &&& (if right.contains(q) {
                right.lookup(q)
            } else {
                left.lookup(q)
            }) == (if q == key {
                Some(val)
            } else {
                v.lookup(q)
            })
            &&& !(left.contains(q) && right.contains(q))
            &&& forall|a: int, b: int|
                0 <= a < left.entries.len() && 0 <= b < right.entries.len() ==> lex_lt(
                    #[trigger] left.entries[a].0,
                    #[trigger] right.entries[b].0,
                )
            &&& left.entries.len() > 0
            &&& right.entries.len() > 0
            &&& right.entries[0].0 == all[mid].0
            &&& forall|a: int|
                0 <= a < left.entries.len() ==> exists|i: int|
                    0 <= i < mid && all[i].0 == #[trigger] left.entries[a].0
            &&& forall|b: int|
                0 <= b < right.entries.len() ==> exists|j: int|
                    mid <= j < all.len() && all[j].0 == #[trigger] right.entries[b].0
        }),
{
    let all = split_entries(v, key, val);
    let mid = (all.len() / 2) as int;
    let lo = all.take(mid);
    let hi = all.skip(mid);
    let left = put_all(PageView::fresh(v.page_id), lo).unwrap();
    let right = put_all(PageView::fresh(right_id), hi).unwrap();
    lemma_rank_sorted(v.entries, key);
    lemma_split_entries_sorted(v, key, val);
    lemma_put_all_from_empty(PageView::fresh(v.page_id), lo);
    lemma_put_all_from_empty(PageView::fresh(right_id), hi);
    // Keys on the left come from the lower half, keys on the right from the upper half.
    assert forall|x: Seq<u8>| #[trigger] left.contains(x) implies exists|i: int|
        0 <= i < mid && all[i].0 == x by {
        lemma_lookup_entry(left, x);
        assert(left.lookup(x) == last_value(lo, x));
        lemma_last_value_some(lo, x);
        let i = choose|i: int| 0 <= i < lo.len() && (#[trigger] lo[i]).0 == x;
        assert(lo[i] == all[i]);
    }
    assert forall|y: Seq<u8>| #[trigger] right.contains(y) implies exists|j: int|
        mid <= j < all.len() && all[j].0 == y by {
        lemma_lookup_entry(right, y);
        assert(right.lookup(y) == last_value(hi, y));
        lemma_last_value_some(hi, y);
        let j = choose|j: int| 0 <= j < hi.len() && (#[trigger] hi[j]).0 == y;
        assert(hi[j] == all[mid + j]);
    }
    // Any key of the lower half sorts before any key of the upper half.
    assert forall|i: int, j: int| 0 <= i < mid <= j < all.len() implies lex_lt(
        #[trigger] all[i].0,
        #[trigger] all[j].0,
    ) by {
        lemma_split_entries_order(v, key, val, i, j);
    }
    // Values.
    assert(lo + hi =~= all);
    lemma_last_value_concat(lo, hi, q);
    lemma_split_entries_values(v, key, val, q);
    lemma_lookup_entry(left, q);
    lemma_lookup_entry(right, q);
    // No key on both pages.
    if left.contains(q) && right.contains(q) {
        let i = choose|i: int| 0 <= i < mid && all[i].0 == q;
        let j = choose|j: int| mid <= j < all.len() && all[j].0 == q;
        lemma_lex_irreflexive(q);
    }
    assert forall|a: int| 0 <= a < left.entries.len() implies exists|i: int|
        0 <= i < mid && all[i].0 == #[trigger] left.entries[a].0 by {
        lemma_lookup_entry(left, left.entries[a].0);
        assert(left.contains(left.entries[a].0));
    }
    assert forall|b: int| 0 <= b < right.entries.len() implies exists|j: int|
        mid <= j < all.len() && all[j].0 == #[trigger] right.entries[b].0 by {
        lemma_lookup_entry(right, right.entries[b].0);
        assert(right.contains(right.entries[b].0));
    }
    // Left keys before right keys.
    assert forall|a: int, b: int|
        0 <= a < left.entries.len() && 0 <= b < right.entries.len() implies lex_lt(
        #[trigger] left.entries[a].0,
        #[trigger] right.entries[b].0,
    ) by {
        let x = left.entries[a].0;
        let y = right.entries[b].0;
        lemma_lookup_entry(left, x);
        lemma_lookup_entry(right, y);
        assert(left.contains(x));
        assert(right.contains(y));
        let i = choose|i: int| 0 <= i < mid && all[i].0 == x;
        let j = choose|j: int| mid <= j < all.len() && all[j].0 == y;
        assert(lex_lt(all[i].0, all[j].0));
    }
    // Neither page is empty.
    let k0 = all[0].0;
    assert(lo[0] == all[0]);
    lemma_last_value_some(lo, k0);
    assert(left.lookup(k0) == last_value(lo, k0));
    lemma_lookup_entry(left, k0);
    let km = all[mid].0;
    assert(hi[0] == all[mid]);
    lemma_last_value_some(hi, km);
    assert(right.lookup(km) == last_value(hi, km));
    lemma_lookup_entry(right, km);
    // The separator is the right page's first key.
    let y0 = right.entries[0].0;
    lemma_lookup_entry(right, y0);
    assert(right.contains(y0));
    let j0 = choose|j: int| mid <= j < all.len() && all[j].0 == y0;
    if y0 != km {
        if j0 > mid {
            lemma_split_entries_order(v, key, val, mid, j0);
        }
        let a = right.rank(km);
        assert(right.entries[a].0 == km);
        assert(a != 0);
        assert(lex_lt(y0, km));
        lemma_lex_asymmetric(y0, km);
    }
}

} // verus!
