//! The abstract state of a page and the effect of each page operation on it.
use crate::page::layout::{
    entries_size, entry_size, hdr_dead_bytes, hdr_free_end, hdr_next_leaf, hdr_page_id, header_size,
    key_rank, keys_sorted, lemma_rank_of_present, lemma_rank_sorted, lemma_sorted_insert,
    lemma_sorted_remove, lemma_sorted_update_value, page_size, slot_entries, Entry,
};
use crate::btree::key::lex_lt;
use vstd::prelude::*;

verus! {

broadcast use crate::utils::byte::group_stored_int_range;

/// What a page holds, abstracted from its byte layout: its header fields, the live
/// entries in key order, and the compaction threshold.
pub struct PageView {
    pub page_id: int,
    pub next_leaf: int,
    pub free_end: int,
    pub dead_bytes: int,
    pub compact_percent: u8,
    pub entries: Seq<Entry>,
}

/// The abstract state held by the page image `s` with compaction threshold `pct`.
pub open spec fn page_view(s: Seq<u8>, pct: u8) -> PageView {
    PageView {
        page_id: hdr_page_id(s),
        next_leaf: hdr_next_leaf(s),
        free_end: hdr_free_end(s),
        dead_bytes: hdr_dead_bytes(s),
        compact_percent: pct,
        entries: slot_entries(s),
    }
}

impl PageView {
    /// The state of a freshly created page.
    pub open spec fn fresh(page_id: int) -> PageView {
        PageView {
            page_id,
            next_leaf: 0,
            free_end: page_size(),
            dead_bytes: 0,
            compact_percent: 75,
            entries: Seq::empty(),
        }
    }

    /// The same page with a different sibling pointer.
    pub open spec fn with_next_leaf(self, next: int) -> PageView {
        PageView { next_leaf: next, ..self }
    }

    /// The view of a well-formed page: keys strictly increase, the slot array and the
    /// tuple region fit the page, dead bytes make up the part of the tuple region that
    /// live tuples do not, and the threshold lies in 1..=100.
    pub open spec fn valid(self) -> bool {
        &&& keys_sorted(self.entries)
        &&& header_size() + 2 * self.entries.len() <= self.free_end <= page_size()
        &&& 0 <= self.dead_bytes
        &&& self.dead_bytes + entries_size(self.entries) == page_size() - self.free_end
        &&& 1 <= self.compact_percent <= 100
    }

    pub open spec fn slot_count(self) -> nat {
        self.entries.len()
    }

    /// Where free space starts: right after the slot array.
    pub open spec fn free_start(self) -> int {
        header_size() + 2 * self.entries.len()
    }

    pub open spec fn free_space(self) -> int {
        self.free_end - self.free_start()
    }

    /// Bytes of the tuple region, live or dead.
    pub open spec fn used_bytes(self) -> int {
        page_size() - self.free_end
    }

    /// Whether dead bytes have reached the compaction threshold.
    pub open spec fn should_compact(self) -> bool {
        self.used_bytes() != 0 && self.dead_bytes * 100 >= self.used_bytes()
            * self.compact_percent
    }

    /// The page rebuilt from its live entries alone.
    pub open spec fn compacted(self) -> PageView {
        PageView { free_end: page_size() - entries_size(self.entries), dead_bytes: 0, ..self }
    }

    /// The page after a compaction check.
    pub open spec fn maybe_compacted(self) -> PageView {
        if self.should_compact() {
            self.compacted()
        } else {
            self
        }
    }

    /// Position of `key` among the entries (the number of keys that sort before it).
    pub open spec fn rank(self, key: Seq<u8>) -> int {
        key_rank(self.entries, key) as int
    }

    /// Whether the page holds `key`.
    pub open spec fn contains(self, key: Seq<u8>) -> bool {
        self.rank(key) < self.entries.len() && self.entries[self.rank(key)].0 == key
    }

    /// The value stored under `key`, if any.
    pub open spec fn lookup(self, key: Seq<u8>) -> Option<Seq<u8>> {
        if self.contains(key) {
            Some(self.entries[self.rank(key)].1)
        } else {
            None
        }
    }

    /// Free bytes a put of `key`/`val` needs: the tuple, plus a slot for a new key.
    pub open spec fn put_needed(self, key: Seq<u8>, val: Seq<u8>) -> int {
        entry_size((key, val)) + if self.contains(key) {
            0int
        } else {
            2int
        }
    }

    /// The page a put works on: compacted first when the free space is short.
    pub open spec fn put_prepared(self, key: Seq<u8>, val: Seq<u8>) -> PageView {
        if self.free_space() < self.put_needed(key, val) {
            self.maybe_compacted()
        } else {
            self
        }
    }

    /// Whether a put of `key`/`val` succeeds.
    pub open spec fn put_fits(self, key: Seq<u8>, val: Seq<u8>) -> bool {
        self.put_prepared(key, val).free_space() >= self.put_needed(key, val)
    }

    /// The page after a put of `key`/`val`. A put that does not fit leaves the entries
    /// alone (though a compaction may have run). An overwrite tombstones the old tuple,
    /// appends the new one and then checks for compaction; an insert appends the tuple
    /// and adds a slot at the key's sorted position.
    pub open spec fn put_state(self, key: Seq<u8>, val: Seq<u8>) -> PageView {
        let p = self.put_prepared(key, val);
        let r = self.rank(key);
        if !self.put_fits(key, val) {
            p
        } else if self.contains(key) {
            PageView {
                entries: p.entries.update(r, (key, val)),
                dead_bytes: p.dead_bytes + entry_size(p.entries[r]),
                free_end: p.free_end - entry_size((key, val)),
                ..p
            }.maybe_compacted()
        } else {
            PageView {
                entries: p.entries.insert(r, (key, val)),
                free_end: p.free_end - entry_size((key, val)),
                ..p
            }
        }
    }

    /// The page after removing `key`: the tuple is tombstoned, its slot removed, and a
    /// compaction check follows.
    pub open spec fn remove_state(self, key: Seq<u8>) -> PageView {
        let r = self.rank(key);
        if self.contains(key) {
            PageView {
                entries: self.entries.remove(r),
                dead_bytes: self.dead_bytes + entry_size(self.entries[r]),
                ..self
            }.maybe_compacted()
        } else {
            self
        }
    }
}

/// In sorted entries, `key` is present exactly when some entry carries it, and then its
/// value is that entry's value.
pub proof fn lemma_lookup_entry(v: PageView, key: Seq<u8>)
    requires
        keys_sorted(v.entries),
    ensures
        v.contains(key) <==> exists|i: int| 0 <= i < v.entries.len() && #[trigger] v.entries[i].0 == key,
        forall|i: int|
            0 <= i < v.entries.len() && #[trigger] v.entries[i].0 == key ==> v.rank(key) == i
                && v.lookup(key) == Some(v.entries[i].1),
        !v.contains(key) ==> v.lookup(key) is None,
{
    lemma_rank_sorted(v.entries, key);
    assert forall|i: int|
        0 <= i < v.entries.len() && #[trigger] v.entries[i].0 == key implies v.rank(key) == i
            && v.lookup(key) == Some(v.entries[i].1) by {
        lemma_rank_of_present(v.entries, i);
    }
    if v.contains(key) {
        assert(v.entries[v.rank(key)].0 == key);
    }
}

/// Two pages with the same entries answer every lookup alike.
proof fn lemma_lookup_same_entries(a: PageView, b: PageView, key: Seq<u8>)
    requires
        a.entries == b.entries,
    ensures
        a.lookup(key) == b.lookup(key),
        a.contains(key) == b.contains(key),
{
}

/// The keys a lookup finds on page `v`.
pub open spec fn key_set(v: PageView) -> Set<Seq<u8>> {
    Set::new(|k: Seq<u8>| v.contains(k))
}

/// Each slot of a well-formed page holds a live key of its own: the slot count is the
/// number of keys a lookup finds.
pub proof fn law_slot_count_is_key_count(v: PageView)
    requires
        v.valid(),
    ensures
        key_set(v).finite(),
        key_set(v).len() == v.slot_count(),
{
    let ks = v.entries.map_values(|e: Entry| e.0);
    assert forall|i: int, j: int| 0 <= i < ks.len() && 0 <= j < ks.len() && i != j implies ks[i] != ks[j] by {
        crate::btree::key::lemma_lex_irreflexive(ks[i]);
        if i < j {
            assert(lex_lt(v.entries[i].0, v.entries[j].0));
        } else {
            assert(lex_lt(v.entries[j].0, v.entries[i].0));
        }
    }
    assert(ks.no_duplicates());
    ks.unique_seq_to_set();
    assert forall|k: Seq<u8>| ks.to_set().contains(k) <==> key_set(v).contains(k) by {
        lemma_lookup_entry(v, k);
        if ks.contains(k) {
            let i = choose|i: int| 0 <= i < ks.len() && ks[i] == k;
            assert(v.entries[i].0 == k);
        }
        if v.contains(k) {
            let i = choose|i: int| 0 <= i < v.entries.len() && #[trigger] v.entries[i].0 == k;
            assert(ks[i] == k);
        }
    }
    assert(ks.to_set() =~= key_set(v));
    vstd::seq_lib::seq_to_set_is_finite(ks);
}

/// The compaction threshold stays with a page through puts and removes, and a compaction
/// check compacts (dropping the dead bytes and keeping the entries) exactly when the tuple
/// region is in use and its dead bytes reach the threshold percentage of it.
pub proof fn law_compaction_threshold(v: PageView, key: Seq<u8>, val: Seq<u8>)
    requires
        v.valid(),
    ensures
        v.put_state(key, val).compact_percent == v.compact_percent,
        v.remove_state(key).compact_percent == v.compact_percent,
        v.maybe_compacted() == if v.used_bytes() > 0 && v.dead_bytes * 100 >= v.used_bytes()
            * v.compact_percent {
            v.compacted()
        } else {
            v
        },
        v.compacted().dead_bytes == 0,
        v.compacted().entries == v.entries,
        v.compacted().compact_percent == v.compact_percent,
{
}

/// Dead bytes are none, or below the compaction threshold percentage of the tuple region.
pub open spec fn dead_below_threshold(v: PageView) -> bool {
    v.dead_bytes == 0 || v.dead_bytes * 100 < v.used_bytes() * v.compact_percent
}

/// After a compaction check, dead bytes are below the threshold.
proof fn lemma_check_below_threshold(w: PageView)
    requires
        0 <= w.dead_bytes <= w.used_bytes(),
    ensures
        dead_below_threshold(w.maybe_compacted()),
{
}

/// Dead bytes stay below the compaction threshold: a fresh page has none, and a page
/// where they are below it keeps them below it through every put and remove.
pub proof fn law_dead_bytes_below_threshold(v: PageView, key: Seq<u8>, val: Seq<u8>)
    requires
        v.valid(),
        dead_below_threshold(v),
    ensures
        dead_below_threshold(PageView::fresh(v.page_id)),
        dead_below_threshold(v.put_state(key, val)),
        dead_below_threshold(v.remove_state(key)),
{
    let es = v.entries;
    let r = v.rank(key);
    crate::page::layout::lemma_entries_size_nonneg(es);
    crate::page::layout::lemma_rank_sorted(es, key);
    lemma_check_below_threshold(v);
    let p = v.put_prepared(key, val);
    assert(dead_below_threshold(p));
    assert(p.entries == es && p.dead_bytes + entries_size(es) == p.used_bytes());
    if v.put_fits(key, val) {
        if v.contains(key) {
            crate::page::layout::lemma_entries_size_update(es, r, (key, val));
            crate::page::layout::lemma_entries_size_nonneg(es.update(r, (key, val)));
            let w = PageView {
                entries: p.entries.update(r, (key, val)),
                dead_bytes: p.dead_bytes + entry_size(p.entries[r]),
                free_end: p.free_end - entry_size((key, val)),
                ..p
            };
            lemma_check_below_threshold(w);
        } else {
            let w = PageView {
                entries: p.entries.insert(r, (key, val)),
                free_end: p.free_end - entry_size((key, val)),
                ..p
            };
            let pct = p.compact_percent as int;
            let u0 = p.used_bytes();
            let u1 = w.used_bytes();
            assert(u0 * pct <= u1 * pct) by (nonlinear_arith)
                requires
                    u0 <= u1,
                    pct >= 0,
            ;
        }
    }
    if v.contains(key) {
        crate::page::layout::lemma_entries_size_remove(es, r);
        crate::page::layout::lemma_entries_size_nonneg(es.remove(r));
        let w = PageView { entries: es.remove(r), dead_bytes: v.dead_bytes + entry_size(es[r]), ..v };
        lemma_check_below_threshold(w);
    }
}

/// A put that does not fit leaves the entries, the page ID and the sibling pointer as
/// they were, and the same put still does not fit afterwards.
pub proof fn lemma_failed_put(v: PageView, key: Seq<u8>, val: Seq<u8>)
    requires
        v.valid(),
        !v.put_fits(key, val),
    ensures
        v.put_state(key, val).entries == v.entries,
        v.put_state(key, val).page_id == v.page_id,
        v.put_state(key, val).next_leaf == v.next_leaf,
        !v.put_state(key, val).put_fits(key, val),
{
    let p = v.put_state(key, val);
    if v.should_compact() {
        let used = p.used_bytes();
        let pct = p.compact_percent as int;
        crate::page::layout::lemma_entries_size_nonneg(v.entries);
        if used != 0 {
            assert(used * pct > 0) by (nonlinear_arith)
                requires
                    used != 0,
                    used >= 0,
                    pct >= 1,
            ;
        }
        assert(!p.should_compact());
    }
}

/// After a put that fits, the page maps `key` to `val`; every other key keeps its value
/// whether or not the put fits, and the entries stay sorted.
pub proof fn law_put_then_lookup(v: PageView, key: Seq<u8>, val: Seq<u8>, other: Seq<u8>)
    requires
        keys_sorted(v.entries),
        other != key,
    ensures
        keys_sorted(v.put_state(key, val).entries),
        v.put_fits(key, val) ==> v.put_state(key, val).lookup(key) == Some(val),
        v.put_state(key, val).lookup(other) == v.lookup(other),
{
    let w = v.put_state(key, val);
    let es = v.entries;
    let r = v.rank(key);
    lemma_lookup_entry(v, key);
    lemma_lookup_entry(v, other);
    lemma_rank_sorted(es, key);
    if !v.put_fits(key, val) {
        assert(w.entries == es);
        lemma_lookup_same_entries(w, v, other);
    } else if v.contains(key) {
        lemma_sorted_update_value(es, r, val);
        assert(w.entries == es.update(r, (key, val)));
        lemma_lookup_entry(w, key);
        lemma_lookup_entry(w, other);
        assert(w.entries[r].0 == key);
        if v.contains(other) {
            let j = v.rank(other);
            assert(es[j].0 == other);
            assert(j != r);
            assert(w.entries[j] == es[j]);
        } else if w.contains(other) {
            let j = w.rank(other);
            assert(w.entries[j].0 == other);
            assert(j != r);
            assert(es[j].0 == other);
        }
    } else {
        lemma_sorted_insert(es, (key, val));
        assert(w.entries == es.insert(r, (key, val)));
        lemma_lookup_entry(w, key);
        lemma_lookup_entry(w, other);
        assert(w.entries[r].0 == key);
        if v.contains(other) {
            let j = v.rank(other);
            assert(es[j].0 == other);
            if j < r {
                assert(w.entries[j] == es[j]);
            } else {
                assert(w.entries[j + 1] == es[j]);
            }
        } else if w.contains(other) {
            let j = w.rank(other);
            assert(w.entries[j].0 == other);
            assert(j != r);
            if j < r {
                assert(es[j].0 == other);
            } else {
                assert(es[j - 1].0 == other);
            }
        }
    }
}

/// After a remove, the page no longer maps `key`; every other key keeps its value, and
/// the entries stay sorted.
pub proof fn law_remove_then_lookup(v: PageView, key: Seq<u8>, other: Seq<u8>)
    requires
        keys_sorted(v.entries),
        other != key,
    ensures
        keys_sorted(v.remove_state(key).entries),
        v.remove_state(key).lookup(key) is None,
        v.remove_state(key).lookup(other) == v.lookup(other),
{
    let w = v.remove_state(key);
    let es = v.entries;
    let r = v.rank(key);
    lemma_lookup_entry(v, key);
    lemma_lookup_entry(v, other);
    if v.contains(key) {
        lemma_sorted_remove(es, r);
        assert(w.entries == es.remove(r));
        lemma_lookup_entry(w, key);
        lemma_lookup_entry(w, other);
        if w.contains(key) {
            let j = w.rank(key);
            assert(w.entries[j].0 == key);
            if j < r {
                assert(es[j].0 == key);
            } else {
                assert(es[j + 1].0 == key);
            }
        }
        if v.contains(other) {
            let j = v.rank(other);
            assert(es[j].0 == other);
            assert(j != r);
            if j < r {
                assert(w.entries[j] == es[j]);
            } else {
                assert(w.entries[j - 1] == es[j]);
            }
        } else if w.contains(other) {
            let j = w.rank(other);
            assert(w.entries[j].0 == other);
            if j < r {
                assert(es[j].0 == other);
            } else {
                assert(es[j + 1].0 == other);
            }
        }
    } else {
        assert(w == v);
    }
}

/// A put changes the number of entries by one exactly when it inserts a new key; a
/// remove by one exactly when the key was present. Compaction never changes the entries.
pub proof fn law_entry_counts(v: PageView, key: Seq<u8>, val: Seq<u8>)
    requires
        keys_sorted(v.entries),
    ensures
        v.put_state(key, val).entries.len() == v.entries.len() + if v.put_fits(key, val)
            && !v.contains(key) {
            1int
        } else {
            0int
        },
        v.remove_state(key).entries.len() == v.entries.len() - if v.contains(key) {
            1int
        } else {
            0int
        },
        v.maybe_compacted().entries == v.entries,
        v.should_compact() ==> v.maybe_compacted().dead_bytes == 0,
{
    lemma_rank_sorted(v.entries, key);
}

/// The page after putting each entry of `es` in turn, or `None` when one of the puts
/// does not fit.
pub open spec fn put_all(v: PageView, es: Seq<Entry>) -> Option<PageView>
    decreases es.len(),
{
    if es.len() == 0 {
        Some(v)
    } else {
        match put_all(v, es.drop_last()) {
            Some(w) => if w.put_fits(es.last().0, es.last().1) {
                Some(w.put_state(es.last().0, es.last().1))
            } else {
                None
            },
            None => None,
        }
    }
}

/// Putting one more entry extends `put_all` by one step.
pub proof fn lemma_put_all_step(v: PageView, es: Seq<Entry>, i: int)
    requires
        0 <= i < es.len(),
    ensures
        put_all(v, es.take(i + 1)) == match put_all(v, es.take(i)) {
            Some(w) => if w.put_fits(es[i].0, es[i].1) {
                Some(w.put_state(es[i].0, es[i].1))
            } else {
                None
            },
            None => None,
        },
{
    assert(es.take(i + 1).drop_last() =~= es.take(i));
    assert(es.take(i + 1).last() == es[i]);
}

/// Once a put fails, putting more entries still fails.
pub proof fn lemma_put_all_none_extends(v: PageView, es: Seq<Entry>, i: int, j: int)
    requires
        0 <= i <= j <= es.len(),
        put_all(v, es.take(i)) is None,
    ensures
        put_all(v, es.take(j)) is None,
    decreases j - i,
{
    if i < j {
        lemma_put_all_step(v, es, i);
        lemma_put_all_none_extends(v, es, i + 1, j);
    }
}

/// Puts change neither the page ID nor the sibling pointer.
pub proof fn lemma_put_all_keeps_header(v: PageView, es: Seq<Entry>)
    requires
        put_all(v, es) is Some,
    ensures
        put_all(v, es).unwrap().page_id == v.page_id,
        put_all(v, es).unwrap().next_leaf == v.next_leaf,
    decreases es.len(),
{
    if es.len() > 0 {
        lemma_put_all_keeps_header(v, es.drop_last());
    }
}

/// Entry lists alike in all that a page's space accounting looks at: the same keys in the
/// same order, with values of the same lengths.
pub open spec fn same_shape(a: Seq<Entry>, b: Seq<Entry>) -> bool {
    &&& a.len() == b.len()
    &&& forall|i: int| 0 <= i < a.len() ==> (#[trigger] a[i]).0 == b[i].0 && a[i].1.len() == b[i].1.len()
}

/// Pages alike in all that decides whether puts fit: entries of the same shape and the
/// same free end, dead bytes and compaction threshold (page IDs, sibling pointers and the
/// bytes of values may differ).
pub open spec fn alike(v: PageView, w: PageView) -> bool {
    &&& same_shape(v.entries, w.entries)
    &&& v.free_end == w.free_end
    &&& v.dead_bytes == w.dead_bytes
    &&& v.compact_percent == w.compact_percent
}

/// Entry lists of the same shape occupy the same bytes and rank every key alike.
pub proof fn lemma_shape_size_rank(a: Seq<Entry>, b: Seq<Entry>, key: Seq<u8>)
    requires
        same_shape(a, b),
    ensures
        entries_size(a) == entries_size(b),
        key_rank(a, key) == key_rank(b, key),
        key_rank(a, key) <= a.len(),
    decreases a.len(),
{
    if a.len() > 0 {
        let a1 = a.drop_last();
        let b1 = b.drop_last();
        assert forall|i: int| 0 <= i < a1.len() implies (#[trigger] a1[i]).0 == b1[i].0 && a1[i].1.len() == b1[i].1.len() by {
            assert(a1[i] == a[i] && b1[i] == b[i]);
        }
        lemma_shape_size_rank(a1, b1, key);
        assert(a.last() == a[a.len() - 1] && b.last() == b[b.len() - 1]);
    }
}

/// Compaction checks on pages alike give pages alike.
proof fn lemma_alike_compacted(v: PageView, w: PageView)
    requires
        alike(v, w),
    ensures
        v.should_compact() == w.should_compact(),
        alike(v.maybe_compacted(), w.maybe_compacted()),
{
    lemma_shape_size_rank(v.entries, w.entries, Seq::empty());
}

/// Putting the same key, with values of the same length, into pages alike fits on both
/// or on neither, and leaves pages alike.
pub proof fn lemma_alike_put(v: PageView, w: PageView, key: Seq<u8>, val1: Seq<u8>, val2: Seq<u8>)
    requires
        alike(v, w),
        val1.len() == val2.len(),
    ensures
        v.put_fits(key, val1) == w.put_fits(key, val2),
        alike(v.put_state(key, val1), w.put_state(key, val2)),
{
    lemma_shape_size_rank(v.entries, w.entries, key);
    let r = v.rank(key);
    assert(r == w.rank(key));
    if r < v.entries.len() {
        assert(v.entries[r].0 == w.entries[r].0);
    }
    assert(v.contains(key) == w.contains(key));
    assert(v.put_needed(key, val1) == w.put_needed(key, val2));
    lemma_alike_compacted(v, w);
    let p = v.put_prepared(key, val1);
    let q = w.put_prepared(key, val2);
    assert(alike(p, q));
    if v.put_fits(key, val1) {
        if v.contains(key) {
            let pe = p.entries.update(r, (key, val1));
            let qe = q.entries.update(r, (key, val2));
            assert(same_shape(pe, qe));
            assert(p.entries[r].1.len() == q.entries[r].1.len());
            let p1 = PageView {
                entries: pe,
                dead_bytes: p.dead_bytes + entry_size(p.entries[r]),
                free_end: p.free_end - entry_size((key, val1)),
                ..p
            };
            let q1 = PageView {
                entries: qe,
                dead_bytes: q.dead_bytes + entry_size(q.entries[r]),
                free_end: q.free_end - entry_size((key, val2)),
                ..q
            };
            lemma_alike_compacted(p1, q1);
        } else {
            let pe = p.entries.insert(r, (key, val1));
            let qe = q.entries.insert(r, (key, val2));
            assert forall|i: int| 0 <= i < pe.len() implies (#[trigger] pe[i]).0 == qe[i].0 && pe[i].1.len() == qe[i].1.len() by {
                if i < r {
                    assert(pe[i] == p.entries[i] && qe[i] == q.entries[i]);
                } else if i > r {
                    assert(pe[i] == p.entries[i - 1] && qe[i] == q.entries[i - 1]);
                }
            }
        }
    }
}

/// Putting lists of the same shape into pages alike succeeds on both or on neither, and
/// leaves pages alike.
pub proof fn lemma_alike_put_all(v: PageView, w: PageView, es1: Seq<Entry>, es2: Seq<Entry>)
    requires
        alike(v, w),
        same_shape(es1, es2),
    ensures
        (put_all(v, es1) is Some) == (put_all(w, es2) is Some),
        put_all(v, es1) is Some ==> alike(put_all(v, es1).unwrap(), put_all(w, es2).unwrap()),
    decreases es1.len(),
{
    if es1.len() > 0 {
        let d1 = es1.drop_last();
        let d2 = es2.drop_last();
        assert forall|i: int| 0 <= i < d1.len() implies (#[trigger] d1[i]).0 == d2[i].0 && d1[i].1.len() == d2[i].1.len() by {
            assert(d1[i] == es1[i] && d2[i] == es2[i]);
        }
        lemma_alike_put_all(v, w, d1, d2);
        assert(es1.last() == es1[es1.len() - 1] && es2.last() == es2[es2.len() - 1]);
        if put_all(v, d1) is Some {
            lemma_alike_put(put_all(v, d1).unwrap(), put_all(w, d2).unwrap(), es1.last().0, es1.last().1, es2.last().1);
        }
    }
}

} // verus!
