//! B+ tree internal (branch) nodes.
//!
//! Each entry maps a separator key to the page ID of the child to its right, stored as a
//! 4-byte little-endian value. The leftmost child, for keys below the first separator,
//! lives in the page's sibling-pointer header field, which internal nodes do not otherwise
//! need. A search for `k` follows the child of the last separator that does not sort
//! after `k`, or the leftmost child when every separator sorts after `k`.
use crate::btree::key::{compare_bytes, lemma_lex_irreflexive, lemma_lex_transitive, lex_lt, KeyOrder};
use crate::btree::split::{
    last_value, lemma_last_value_concat, lemma_last_value_index, lemma_last_value_some,
    lemma_put_all_from_empty, lemma_split_entries_order, lemma_split_entries_values,
    lemma_split_position, split_entries, split_position,
};
use crate::page::layout::{keys_sorted, lemma_rank_sorted, lemma_wf_header, lemma_wf_slot, Entry};
use crate::page::page::Page;
use crate::page::view::{
    lemma_lookup_entry, lemma_put_all_keeps_header, lemma_put_all_none_extends, lemma_put_all_step,
    put_all, PageView,
};
use crate::utils::byte::{lemma_u32_round_trip, put_u32, read_u32, u32_at, write_u32};
use vstd::prelude::*;

verus! {

broadcast use crate::utils::byte::group_stored_int_range;

/// The child page ID that a 4-byte little-endian value holds.
pub open spec fn child_id(val: Seq<u8>) -> int {
    u32_at(val, 0)
}

/// The 4-byte little-endian encoding of child page ID `c`.
pub open spec fn child_bytes(c: int) -> Seq<u8> {
    seq![
        (c % 256) as u8,
        ((c / 256) % 256) as u8,
        ((c / 65536) % 256) as u8,
        ((c / 16777216) % 256) as u8,
    ]
}

/// Every entry of `v` holds a 4-byte child ID.
pub open spec fn children_valid(v: PageView) -> bool {
    forall|i: int| 0 <= i < v.entries.len() ==> (#[trigger] v.entries[i]).1.len() == 4
}

/// The child that a search for `key` follows: the child of the last separator that does
/// not sort after `key`, or the leftmost child when there is none.
pub open spec fn child_for(v: PageView, key: Seq<u8>) -> int {
    let c = split_position(v, key);
    if c == 0 {
        v.next_leaf
    } else {
        child_id(v.entries[c - 1].1)
    }
}

/// The child a search for `key` follows is stored as a 4-byte ID (or is the leftmost
/// child).
pub open spec fn picked_child_valid(v: PageView, key: Seq<u8>) -> bool {
    split_position(v, key) == 0 || v.entries[split_position(v, key) - 1].1.len() == 4
}

/// Separator-child pairs, seen as entries.
pub open spec fn child_pairs_view(v: Seq<(Vec<u8>, u32)>) -> Seq<Entry> {
    Seq::new(v.len(), |i: int| (v[i].0@, child_bytes(v[i].1 as int)))
}

/// Encoding a child ID and reading it back gives the ID.
pub proof fn lemma_child_id_of_bytes(c: u32)
    ensures
        child_id(child_bytes(c as int)) == c,
        child_bytes(c as int).len() == 4,
{
    let zeros = seq![0u8, 0u8, 0u8, 0u8];
    lemma_u32_round_trip(zeros, 0, c);
    assert(put_u32(zeros, 0, c as int) =~= child_bytes(c as int));
}

/// A 4-byte value is the encoding of the child ID it holds.
pub proof fn lemma_child_bytes_of_id(val: Seq<u8>)
    requires
        val.len() == 4,
    ensures
        child_bytes(child_id(val)) == val,
{
    reveal(u32_at);
    let (b0, b1, b2, b3) = (val[0] as int, val[1] as int, val[2] as int, val[3] as int);
    let c = child_id(val);
    assert(c == b0 + 256 * b1 + 65536 * b2 + 16777216 * b3);
    assert(c % 256 == b0 && (c / 256) % 256 == b1 && (c / 65536) % 256 == b2 && (c / 16777216)
        % 256 == b3) by (nonlinear_arith)
        requires
            c == b0 + 256 * b1 + 65536 * b2 + 16777216 * b3,
            0 <= b0 < 256,
            0 <= b1 < 256,
            0 <= b2 < 256,
            0 <= b3 < 256,
    ;
    assert(child_bytes(c) =~= val);
}

/// The 4-byte little-endian encoding of `c`.
fn child_to_bytes(c: u32) -> (r: [u8; 4])
    ensures
        r@ == child_bytes(c as int),
{
    let mut b = [0u8; 4];
    write_u32(&mut b, 0, c);
    assert(b@ =~= child_bytes(c as int));
    b
}

/// The separator key of entry `i`.
fn node_key_at(page: &Page, i: usize) -> (r: &[u8])
    requires
        page.wf(),
        i < page@.entries.len(),
    ensures
        r@ == page@.entries[i as int].0,
{
    proof {
        lemma_wf_header(page.bytes());
        lemma_wf_slot(page.bytes(), i as int);
    }
    let off = page.read_slot(i) as usize;
    page.read_key(off)
}

/// The child ID of entry `i`.
fn node_child_at(page: &Page, i: usize) -> (r: u32)
    requires
        page.wf(),
        i < page@.entries.len(),
        page@.entries[i as int].1.len() == 4,
    ensures
        r == child_id(page@.entries[i as int].1),
{
    proof {
        lemma_wf_header(page.bytes());
        lemma_wf_slot(page.bytes(), i as int);
    }
    let off = page.read_slot(i) as usize;
    let bytes = page.read_tuple_val(off);
    read_u32(bytes, 0)
}

/// The leftmost child ID.
fn node_leftmost_child(page: &Page) -> (r: u32)
    ensures
        r == page@.next_leaf,
{
    match page.next_leaf_page_id() {
        Some(c) => c,
        None => 0,
    }
}

/// The child a search for `key` follows.
fn node_find_child(page: &Page, key: &[u8]) -> (r: u32)
    requires
        page.wf(),
        picked_child_valid(page@, key@),
    ensures
        r == child_for(page@, key@),
{
    let ghost v = page@;
    let ghost es = v.entries;
    proof {
        page.lemma_view_valid();
    }
    let n = page.slot_count() as usize;
    let mut lo: usize = 0;
    let mut hi: usize = n;
    while lo < hi
        invariant
            page.wf(),
            v == page@,
            es == v.entries,
            keys_sorted(es),
            n == es.len(),
            lo <= hi <= n,
            forall|j: int| 0 <= j < lo ==> !lex_lt(key@, #[trigger] es[j].0),
            forall|j: int| hi <= j < n ==> lex_lt(key@, #[trigger] es[j].0),
        decreases hi - lo,
    {
        let mid = (lo + hi) / 2;
        if compare_bytes(node_key_at(page, mid), key) != KeyOrder::Greater {
            proof {
                assert forall|j: int| 0 <= j < mid + 1 implies !lex_lt(key@, #[trigger] es[j].0) by {
                    if j < mid && lex_lt(key@, es[j].0) {
                        lemma_lex_transitive(key@, es[j].0, es[mid as int].0);
                    }
                }
            }
            lo = mid + 1;
        } else {
            proof {
                assert forall|j: int| mid <= j < n implies lex_lt(key@, #[trigger] es[j].0) by {
                    if j > mid {
                        lemma_lex_transitive(key@, es[mid as int].0, es[j].0);
                    }
                }
            }
            hi = mid;
        }
    }
    proof {
        lemma_split_position(v, key@, lo as int);
    }
    if lo == 0 {
        node_leftmost_child(page)
    } else {
        node_child_at(page, lo - 1)
    }
}

/// Every separator with its child ID, in key order.
fn node_entries(page: &Page) -> (r: Vec<(Vec<u8>, u32)>)
    requires
        page.wf(),
        children_valid(page@),
    ensures
        child_pairs_view(r@) == page@.entries,
{
    let cnt = page.slot_count() as usize;
    let mut out: Vec<(Vec<u8>, u32)> = Vec::with_capacity(cnt);
    let mut i: usize = 0;
    while i < cnt
        invariant
            page.wf(),
            children_valid(page@),
            cnt == page@.entries.len(),
            i <= cnt,
            out@.len() == i,
            forall|j: int| 0 <= j < i ==> (#[trigger] child_pairs_view(out@)[j]) == page@.entries[j],
        decreases cnt - i,
    {
        let key = vstd::slice::slice_to_vec(node_key_at(page, i));
        let child = node_child_at(page, i);
        proof {
            lemma_child_bytes_of_id(page@.entries[i as int].1);
        }
        let ghost before = out@;
        out.push((key, child));
        proof {
            assert forall|j: int| 0 <= j < i + 1 implies (#[trigger] child_pairs_view(out@)[j])
                == page@.entries[j] by {
                if j < i {
                    assert(child_pairs_view(out@)[j] == child_pairs_view(before)[j]);
                }
            }
        }
        i = i + 1;
    }
    assert(child_pairs_view(out@) =~= page@.entries);
    out
}

/// Puts the separator-child pairs `all[lo..hi]` into `page`, in order, stopping at the
/// first that does not fit.
fn put_children(page: &mut Page, all: &Vec<(Vec<u8>, u32)>, lo: usize, hi: usize) -> (r: Result<
    (),
    &'static str,
>)
    requires
        old(page).wf(),
        lo <= hi <= all@.len(),
    ensures
        final(page).wf(),
        r is Ok <==> put_all(old(page)@, child_pairs_view(all@).subrange(lo as int, hi as int)) is Some,
        r is Ok ==> Some(final(page)@) == put_all(
            old(page)@,
            child_pairs_view(all@).subrange(lo as int, hi as int),
        ),
        r matches Err(e) ==> e == "page full",
{
    let ghost v0 = page@;
    let ghost sub = child_pairs_view(all@).subrange(lo as int, hi as int);
    proof {
        assert(sub.take(0) =~= Seq::<Entry>::empty());
    }
    let mut i: usize = lo;
    while i < hi
        invariant
            lo <= i <= hi <= all@.len(),
            sub == child_pairs_view(all@).subrange(lo as int, hi as int),
            v0 == old(page)@,
            page.wf(),
            put_all(v0, sub.take(i - lo)) == Some(page@),
        decreases hi - i,
    {
        proof {
            assert(sub[i - lo] == (all@[i as int].0@, child_bytes(all@[i as int].1 as int)));
            lemma_put_all_step(v0, sub, i - lo);
        }
        let bytes = child_to_bytes(all[i].1);
        match page.put(all[i].0.as_slice(), bytes.as_slice()) {
            Ok(_) => {},
            Err(e) => {
                proof {
                    lemma_put_all_none_extends(v0, sub, i - lo + 1, sub.len() as int);
                    assert(sub.take(sub.len() as int) =~= sub);
                }
                return Err(e);
            },
        }
        i = i + 1;
    }
    proof {
        assert(sub.take(sub.len() as int) =~= sub);
    }
    Ok(())
}

/// An internal node that owns its page.
pub struct InternalPage {
    page: Page,
}

/// The outcome of an internal split: the middle separator, pushed up to the parent, and
/// the new right node.
pub struct InternalSplit {
    pub separator_key: Vec<u8>,
    pub right_page: InternalPage,
}

/// An internal node over a page borrowed mutably, typically from the pager.
pub struct InternalPageMut<'a> {
    /// The borrowed page.
    pub page: &'a mut Page,
}

impl View for InternalPage {
    type V = PageView;

    open spec fn view(&self) -> PageView {
        self.inner()@
    }
}

impl InternalPage {
    /// The wrapped page.
    pub closed spec fn inner(&self) -> Page {
        self.page
    }

    /// The wrapped page is well formed.
    pub open spec fn wf(&self) -> bool {
        self.inner().wf()
    }

    /// A fresh, empty node whose leftmost child is `leftmost_child`.
    pub fn new(page_id: u32, leftmost_child: u32) -> (r: Self)
        ensures
            r.wf(),
            r@ == PageView::fresh(page_id as int).with_next_leaf(leftmost_child as int),
    {
        let mut page = Page::new(page_id);
        page.set_next_leaf_page_id(Some(leftmost_child));
        Self { page }
    }

    /// Wraps an existing page as an internal node.
    pub fn from_page(p: Page) -> (r: Self)
        ensures
            r.inner() == p,
    {
        Self { page: p }
    }

    /// Unwraps the node back into its page.
    pub fn into_page(self) -> (r: Page)
        ensures
            r == self.inner(),
    {
        self.page
    }

    /// The node's page ID.
    pub fn page_id(&self) -> (r: u32)
        ensures
            r == self@.page_id,
    {
        self.page.page_id()
    }

    /// Number of separators.
    pub fn slot_count(&self) -> (r: u16)
        ensures
            r == self@.entries.len(),
    {
        self.page.slot_count()
    }

    /// Free bytes on the node's page.
    pub fn free_space_bytes(&self) -> (r: usize)
        requires
            self.wf(),
        ensures
            r == self@.free_space(),
    {
        proof {
            lemma_wf_header(self.page.bytes());
        }
        self.page.free_space_bytes()
    }

    /// The child for keys below the first separator.
    pub fn leftmost_child(&self) -> (r: u32)
        ensures
            r == self@.next_leaf,
    {
        node_leftmost_child(&self.page)
    }

    /// The separator key at index `i`.
    pub fn key_at(&self, i: usize) -> (r: &[u8])
        requires
            self.wf(),
            i < self@.entries.len(),
        ensures
            r@ == self@.entries[i as int].0,
    {
        node_key_at(&self.page, i)
    }

    /// The child to the right of separator `i`.
    pub fn child_at(&self, i: usize) -> (r: u32)
        requires
            self.wf(),
            i < self@.entries.len(),
            self@.entries[i as int].1.len() == 4,
        ensures
            r == child_id(self@.entries[i as int].1),
    {
        node_child_at(&self.page, i)
    }

    /// The child to follow when searching for `key`.
    pub fn find_child(&self, key: &[u8]) -> (r: u32)
        requires
            self.wf(),
            picked_child_valid(self@, key@),
        ensures
            r == child_for(self@, key@),
    {
        node_find_child(&self.page, key)
    }

    /// Every separator with its child, in key order.
    pub fn entries(&self) -> (r: Vec<(Vec<u8>, u32)>)
        requires
            self.wf(),
            children_valid(self@),
        ensures
            child_pairs_view(r@) == self@.entries,
    {
        node_entries(&self.page)
    }
}

impl<'a> InternalPageMut<'a> {
    /// Wraps a borrowed page as an internal node.
    pub fn new(page: &'a mut Page) -> (r: Self)
        ensures
            *r.page == *old(page),
            *final(page) == *final(r.page),
    {
        Self { page }
    }

    /// The borrowed page.
    pub fn page(&self) -> (r: &Page)
        ensures
            *r == *old(self.page),
    {
        self.page
    }

    /// The borrowed page, mutably.
    pub fn page_mut(&mut self) -> (r: &mut Page)
        ensures
            *r == *old(self).page,
            *final(r) == *final(self).page,
            *final(final(self).page) == *final(old(self).page),
    {
        self.page
    }

    /// The node's page ID.
    pub fn page_id(&self) -> (r: u32)
        ensures
            r == old(self.page)@.page_id,
    {
        self.page.page_id()
    }

    /// Number of separators.
    pub fn slot_count(&self) -> (r: u16)
        ensures
            r == old(self.page)@.entries.len(),
    {
        self.page.slot_count()
    }

    /// Free bytes on the node's page.
    pub fn free_space_bytes(&self) -> (r: usize)
        requires
            self.page.wf(),
        ensures
            r == old(self.page)@.free_space(),
    {
        proof {
            lemma_wf_header(self.page.bytes());
        }
        self.page.free_space_bytes()
    }

    /// The child for keys below the first separator.
    pub fn leftmost_child(&self) -> (r: u32)
        ensures
            r == old(self.page)@.next_leaf,
    {
        node_leftmost_child(self.page)
    }

    /// Sets the child for keys below the first separator.
    pub fn set_leftmost_child(&mut self, child_id: u32)
        requires
            old(self).page.wf(),
        ensures
            final(self).page.wf(),
            final(self).page@ == old(self).page@.with_next_leaf(child_id as int),
            *final(final(self).page) == *final(old(self).page),
    {
        self.page.set_next_leaf_page_id(Some(child_id));
    }

    /// The separator key at index `i`.
    pub fn key_at(&self, i: usize) -> (r: &[u8])
        requires
            self.page.wf(),
            i < self.page@.entries.len(),
        ensures
            r@ == old(self.page)@.entries[i as int].0,
    {
        node_key_at(self.page, i)
    }

    /// The child to the right of separator `i`.
    pub fn child_at(&self, i: usize) -> (r: u32)
        requires
            self.page.wf(),
            i < self.page@.entries.len(),
            self.page@.entries[i as int].1.len() == 4,
        ensures
            r == child_id(old(self.page)@.entries[i as int].1),
    {
        node_child_at(self.page, i)
    }

    /// The child to follow when searching for `key`.
    pub fn find_child(&self, key: &[u8]) -> (r: u32)
        requires
            self.page.wf(),
            picked_child_valid(self.page@, key@),
        ensures
            r == child_for(old(self.page)@, key@),
    {
        node_find_child(self.page, key)
    }

    /// Every separator with its child, in key order.
    pub fn entries(&self) -> (r: Vec<(Vec<u8>, u32)>)
        requires
            self.page.wf(),
            children_valid(self.page@),
        ensures
            child_pairs_view(r@) == old(self.page)@.entries,
    {
        node_entries(self.page)
    }

    /// Inserts or updates separator `sep_key` with child `right_child` (see `Page::put`).
    pub fn insert(&mut self, sep_key: &[u8], right_child: u32) -> (r: Result<
        Option<Vec<u8>>,
        &'static str,
    >)
        requires
            old(self).page.wf(),
        ensures
            final(self).page.wf(),
            final(self).page@ == old(self).page@.put_state(sep_key@, child_bytes(right_child as int)),
            *final(final(self).page) == *final(old(self).page),
            r is Err <==> !old(self).page@.put_fits(sep_key@, child_bytes(right_child as int)),
            r matches Err(e) ==> e == "page full",
            r matches Ok(o) ==> match o {
                Some(v) => old(self).page@.lookup(sep_key@) == Some(v@),
                None => !old(self).page@.contains(sep_key@),
            },
    {
        let bytes = child_to_bytes(right_child);
        self.page.put(sep_key, bytes.as_slice())
    }

    /// Inserts separator `sep_key` with child `right_child`; when the page is full, splits
    /// the node.
    ///
    /// The node's separators and the new one, in key order and with the new one replacing
    /// an old entry for the same key, are divided at the middle one, which is pushed up: its child becomes the new right node's leftmost child, the
    /// separators below it are rebuilt into this page (keeping its leftmost child) and the
    /// ones above it into a new page with ID `new_right_page_id`.
    #[verifier::spinoff_prover]
    pub fn insert_or_split(&mut self, sep_key: &[u8], right_child: u32, new_right_page_id: u32) -> (r:
        Result<Option<InternalSplit>, &'static str>)
        requires
            old(self).page.wf(),
            children_valid(old(self).page@),
        ensures
            final(self).page.wf(),
            *final(final(self).page) == *final(old(self).page),
            ({
                let v = old(self).page@;
                let cb = child_bytes(right_child as int);
                let all = split_entries(v, sep_key@, cb);
                let mid = (all.len() / 2) as int;
                let left = put_all(PageView::fresh(v.page_id).with_next_leaf(v.next_leaf), all.take(mid));
                let right = put_all(
                    PageView::fresh(new_right_page_id as int).with_next_leaf(child_id(all[mid].1)),
                    all.skip(mid + 1),
                );
                if v.put_fits(sep_key@, cb) {
                    r == Ok::<Option<InternalSplit>, &'static str>(None) && final(self).page@
                        == v.put_state(sep_key@, cb)
                } else if left is None || right is None {
                    r == Err::<Option<InternalSplit>, &'static str>("page full") && final(self).page@
                        == v.put_state(sep_key@, cb)
                } else {
                    &&& r matches Ok(Some(split))
                    &&& split.separator_key@ == all[mid].0
                    &&& split.right_page.wf()
                    &&& split.right_page@ == right.unwrap()
                    &&& final(self).page@ == left.unwrap()
                }
            }),
    {
        let ghost v = self.page@;
        let ghost cb = child_bytes(right_child as int);
        proof {
            lemma_child_id_of_bytes(right_child);
        }
        match self.insert(sep_key, right_child) {
            Ok(_) => {
                return Ok(None);
            },
            Err(_) => {},
        }
        proof {
            lemma_wf_header(self.page.bytes());
            assert(self.page@.entries == v.entries);
            self.page.lemma_view_valid();
        }
        let mut all = node_entries(self.page);
        // The separators are in key order: the new one replaces the old entry for its key,
        // or else goes after every separator that sorts before it.
        let mut pos: usize = 0;
        while pos < all.len() && compare_bytes(sep_key, all[pos].0.as_slice()) != KeyOrder::Less
            invariant
                keys_sorted(v.entries),
                child_pairs_view(all@) == v.entries,
                pos <= all@.len(),
                forall|j: int| 0 <= j < pos ==> !lex_lt(sep_key@, #[trigger] v.entries[j].0),
            decreases all@.len() - pos,
        {
            proof {
                assert(child_pairs_view(all@)[pos as int] == v.entries[pos as int]);
            }
            pos = pos + 1;
        }
        proof {
            if pos < all@.len() {
                assert(child_pairs_view(all@)[pos as int] == v.entries[pos as int]);
            }
            lemma_split_position(v, sep_key@, pos as int);
            lemma_rank_sorted(v.entries, sep_key@);
            if pos > 0 {
                assert(child_pairs_view(all@)[pos - 1] == v.entries[pos - 1]);
            }
        }
        let ghost es = split_entries(v, sep_key@, cb);
        if pos > 0 && compare_bytes(sep_key, all[pos - 1].0.as_slice()) == KeyOrder::Equal {
            proof {
                if !v.contains(sep_key@) {
                    assert(lex_lt(v.entries[pos - 1].0, sep_key@));
                    lemma_lex_irreflexive(sep_key@);
                }
            }
            all.set(pos - 1, (vstd::slice::slice_to_vec(sep_key), right_child));
            proof {
                assert(child_pairs_view(all@) =~= es);
            }
        } else {
            all.insert(pos, (vstd::slice::slice_to_vec(sep_key), right_child));
            proof {
                assert(child_pairs_view(all@) =~= es);
            }
        }
        let mid = all.len() / 2;
        let separator_key = vstd::slice::slice_to_vec(all[mid].0.as_slice());
        let right_leftmost = all[mid].1;
        let old_leftmost = node_leftmost_child(self.page);
        proof {
            assert(child_pairs_view(all@)[mid as int] == es[mid as int]);
            lemma_child_id_of_bytes(right_leftmost);
            assert(es.subrange(0, mid as int) =~= es.take(mid as int));
            assert(es.subrange(mid + 1, es.len() as int) =~= es.skip(mid + 1));
        }
        let mut new_left = Page::new(self.page.page_id());
        new_left.set_next_leaf_page_id(Some(old_leftmost));
        if let Err(e) = put_children(&mut new_left, &all, 0, mid) {
            return Err(e);
        }
        let mut new_right = Page::new(new_right_page_id);
        new_right.set_next_leaf_page_id(Some(right_leftmost));
        if let Err(e) = put_children(&mut new_right, &all, mid + 1, all.len()) {
            return Err(e);
        }
        *self.page = new_left;
        Ok(Some(InternalSplit { separator_key, right_page: InternalPage::from_page(new_right) }))
    }
}

/// An internal split loses and duplicates nothing. When a valid node `v` whose entries
/// all hold child IDs cannot take separator `sep` with child `child`, and both halves fit,
/// then with `pushed` the middle separator: `pushed` is on neither page, and it maps on
/// `v` (with `sep` mapped to `child`) to the new right page's leftmost child; every other
/// key maps, on the right page if it is there and else on the left page, to its value on
/// `v`; no key is on both pages; left keys sort before `pushed` and `pushed` before right
/// keys; and the left page keeps the leftmost child of `v`.
pub proof fn law_internal_split(v: PageView, sep: Seq<u8>, child: u32, right_id: int, q: Seq<u8>)
    requires
        v.valid(),
        children_valid(v),
        !v.put_fits(sep, child_bytes(child as int)),
        put_all(
            PageView::fresh(v.page_id).with_next_leaf(v.next_leaf),
            split_entries(v, sep, child_bytes(child as int)).take(
                (split_entries(v, sep, child_bytes(child as int)).len() / 2) as int,
            ),
        ) is Some,
        put_all(
            PageView::fresh(right_id).with_next_leaf(
                child_id(
                    split_entries(v, sep, child_bytes(child as int))[(split_entries(
                        v,
                        sep,
                        child_bytes(child as int),
                    ).len() / 2) as int].1,
                ),
            ),
            split_entries(v, sep, child_bytes(child as int)).skip(
                (split_entries(v, sep, child_bytes(child as int)).len() / 2) as int + 1,
            ),
        ) is Some,
    ensures
        ({
            let cb = child_bytes(child as int);
            let all = split_entries(v, sep, cb);
            let mid = (all.len() / 2) as int;
            let pushed = all[mid].0;
            let left = put_all(PageView::fresh(v.page_id).with_next_leaf(v.next_leaf), all.take(mid)).unwrap();
            let right = put_all(
                PageView::fresh(right_id).with_next_leaf(child_id(all[mid].1)),
                all.skip(mid + 1),
            ).unwrap();
            let expected = |k: Seq<u8>| if k == sep {
                Some(cb)
            } else {
                v.lookup(k)
            };
            &&& !left.contains(pushed)
            &&& !right.contains(pushed)
            &&& expected(pushed) == Some(child_bytes(right.next_leaf))
            &&& q != pushed ==> (if right.contains(q) {
                right.lookup(q)
            } else {
                left.lookup(q)
            }) == expected(q)
            &&& !(left.contains(q) && right.contains(q))
            &&& forall|a: int| 0 <= a < left.entries.len() ==> lex_lt(#[trigger] left.entries[a].0, pushed)
            &&& forall|b: int| 0 <= b < right.entries.len() ==> lex_lt(pushed, #[trigger] right.entries[b].0)
            &&& left.next_leaf == v.next_leaf
        }),
{
    let cb = child_bytes(child as int);
    let all = split_entries(v, sep, cb);
    let mid = (all.len() / 2) as int;
    let pushed = all[mid].0;
    let lo = all.take(mid);
    let hi = all.skip(mid + 1);
    let l0 = PageView::fresh(v.page_id).with_next_leaf(v.next_leaf);
    let r0 = PageView::fresh(right_id).with_next_leaf(child_id(all[mid].1));
    let left = put_all(l0, lo).unwrap();
    let right = put_all(r0, hi).unwrap();
    lemma_rank_sorted(v.entries, sep);
    lemma_put_all_from_empty(l0, lo);
    lemma_put_all_from_empty(r0, hi);
    lemma_put_all_keeps_header(l0, lo);
    lemma_put_all_keeps_header(r0, hi);
    // Keys on the left come from below the middle, keys on the right from above it.
    assert forall|x: Seq<u8>| #[trigger] left.contains(x) implies exists|i: int|
        0 <= i < mid && all[i].0 == x by {
        lemma_lookup_entry(left, x);
        assert(left.lookup(x) == last_value(lo, x));
        lemma_last_value_some(lo, x);
        let i = choose|i: int| 0 <= i < lo.len() && (#[trigger] lo[i]).0 == x;
        assert(lo[i] == all[i]);
    }
    assert forall|y: Seq<u8>| #[trigger] right.contains(y) implies exists|j: int|
        mid < j < all.len() && all[j].0 == y by {
        lemma_lookup_entry(right, y);
        assert(right.lookup(y) == last_value(hi, y));
        lemma_last_value_some(hi, y);
        let j = choose|j: int| 0 <= j < hi.len() && (#[trigger] hi[j]).0 == y;
        assert(hi[j] == all[mid + 1 + j]);
    }
    assert forall|i: int| 0 <= i < mid implies lex_lt(#[trigger] all[i].0, pushed) by {
        lemma_split_entries_order(v, sep, cb, i, mid);
    }
    assert forall|j: int| mid < j < all.len() implies lex_lt(pushed, #[trigger] all[j].0) by {
        lemma_split_entries_order(v, sep, cb, mid, j);
    }
    lemma_lex_irreflexive(pushed);
    // Left keys before the pushed key, right keys after it.
    assert forall|a: int| 0 <= a < left.entries.len() implies lex_lt(
        #[trigger] left.entries[a].0,
        pushed,
    ) by {
        let x = left.entries[a].0;
        lemma_lookup_entry(left, x);
        assert(left.contains(x));
        let i = choose|i: int| 0 <= i < mid && all[i].0 == x;
        assert(lex_lt(all[i].0, pushed));
    }
    assert forall|b: int| 0 <= b < right.entries.len() implies lex_lt(
        pushed,
        #[trigger] right.entries[b].0,
    ) by {
        let y = right.entries[b].0;
        lemma_lookup_entry(right, y);
        assert(right.contains(y));
        let j = choose|j: int| mid < j < all.len() && all[j].0 == y;
        assert(lex_lt(pushed, all[j].0));
    }
    // The pushed key is on neither page.
    if left.contains(pushed) {
        let i = choose|i: int| 0 <= i < mid && all[i].0 == pushed;
        assert(lex_lt(all[i].0, pushed));
    }
    if right.contains(pushed) {
        let j = choose|j: int| mid < j < all.len() && all[j].0 == pushed;
        assert(lex_lt(pushed, all[j].0));
    }
    // No key on both pages.
    if left.contains(q) && right.contains(q) {
        let i = choose|i: int| 0 <= i < mid && all[i].0 == q;
        let j = choose|j: int| mid < j < all.len() && all[j].0 == q;
        assert(lex_lt(q, pushed) && lex_lt(pushed, q));
        lemma_lex_transitive(q, pushed, q);
        lemma_lex_irreflexive(q);
    }
    // The pushed key's value is the new right page's leftmost child.
    assert forall|j: int| mid < j < all.len() implies (#[trigger] all[j]).0 != pushed by {
        assert(lex_lt(pushed, all[j].0));
    }
    lemma_last_value_index(all, pushed, mid);
    lemma_split_entries_values(v, sep, cb, pushed);
    lemma_child_id_of_bytes(child);
    if all[mid].1 != cb {
        let r = v.rank(sep);
        let k = if v.contains(sep) || mid < r { mid } else { mid - 1 };
        assert(all[mid] == v.entries[k]);
    }
    lemma_child_bytes_of_id(all[mid].1);
    // Every other key keeps its value.
    let m1 = all.skip(mid);
    assert(lo + m1 =~= all);
    assert(seq![all[mid]] + hi =~= m1);
    lemma_last_value_concat(lo, m1, q);
    lemma_last_value_concat(seq![all[mid]], hi, q);
    if q != pushed {
        let single = seq![all[mid]];
        assert(single.drop_last() =~= Seq::<Entry>::empty());
        assert(single.len() == 1 && single.last() == all[mid]);
        assert(last_value(Seq::<Entry>::empty(), q) is None);
        assert(last_value(single, q) is None);
    }
    lemma_split_entries_values(v, sep, cb, q);
    lemma_lookup_entry(left, q);
    lemma_lookup_entry(right, q);
}

} // verus!
