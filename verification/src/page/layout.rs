//! The byte layout of a slotted page and its well-formedness invariant.
//!
//! ```text
//! [ header: magic u32 | page_id u32 | slot_count u16 | free_start u16 | free_end u16 |
//!           dead_bytes u16 | next_leaf_page_id u32 ]
//! [ slot array: u16 tuple offsets, sorted by key ] [ free ] [ tuple region ]
//! ```
//! Every integer field is little-endian. A tuple is `tombstone u8 | key_len u16 |
//! val_len u16 | key | value`.
use crate::btree::key::{lex_lt, lemma_lex_transitive, lemma_lex_irreflexive, lemma_lex_total};
use crate::utils::byte::{u16_at, u32_at};
use vstd::prelude::*;

verus! {

broadcast use crate::utils::byte::group_stored_int_range;

/// Page size in bytes.
pub open spec fn page_size() -> int {
    8192
}

/// Header size in bytes; the slot array starts here.
pub open spec fn header_size() -> int {
    20
}

/// The magic number that every page header starts with ("PNUT").
pub open spec fn page_magic() -> int {
    0x504E5554
}

/// A key-value entry.
pub type Entry = (Seq<u8>, Seq<u8>);

pub open spec fn hdr_magic(s: Seq<u8>) -> int {
    u32_at(s, 0)
}

pub open spec fn hdr_page_id(s: Seq<u8>) -> int {
    u32_at(s, 4)
}

pub open spec fn hdr_slot_count(s: Seq<u8>) -> int {
    u16_at(s, 8)
}

pub open spec fn hdr_free_start(s: Seq<u8>) -> int {
    u16_at(s, 10)
}

pub open spec fn hdr_free_end(s: Seq<u8>) -> int {
    u16_at(s, 12)
}

pub open spec fn hdr_dead_bytes(s: Seq<u8>) -> int {
    u16_at(s, 14)
}

pub open spec fn hdr_next_leaf(s: Seq<u8>) -> int {
    u32_at(s, 16)
}

/// Byte position of slot `i`.
pub open spec fn slot_pos(i: int) -> int {
    20 + 2 * i
}

/// The tuple offset stored in slot `i`.
pub open spec fn slot_off(s: Seq<u8>, i: int) -> int {
    u16_at(s, slot_pos(i))
}

pub open spec fn tup_klen(s: Seq<u8>, o: int) -> int {
    u16_at(s, o + 1)
}

pub open spec fn tup_vlen(s: Seq<u8>, o: int) -> int {
    u16_at(s, o + 3)
}

/// One past the last byte of the tuple at `o`.
pub open spec fn tup_end(s: Seq<u8>, o: int) -> int {
    o + 5 + tup_klen(s, o) + tup_vlen(s, o)
}

pub open spec fn tup_key(s: Seq<u8>, o: int) -> Seq<u8> {
    s.subrange(o + 5, o + 5 + tup_klen(s, o))
}

pub open spec fn tup_val(s: Seq<u8>, o: int) -> Seq<u8> {
    s.subrange(o + 5 + tup_klen(s, o), tup_end(s, o))
}

/// The entry that slot `i` points to.
pub open spec fn slot_entry(s: Seq<u8>, i: int) -> Entry {
    (tup_key(s, slot_off(s, i)), tup_val(s, slot_off(s, i)))
}

/// The entries the slot array points to, in slot order.
pub open spec fn slot_entries(s: Seq<u8>) -> Seq<Entry> {
    Seq::new(hdr_slot_count(s) as nat, |i: int| slot_entry(s, i))
}

/// Bytes a tuple holding `e` occupies.
pub open spec fn entry_size(e: Entry) -> int {
    5 + e.0.len() + e.1.len() as int
}

/// Total bytes the tuples of `es` occupy.
pub open spec fn entries_size(es: Seq<Entry>) -> int
    decreases es.len(),
{
    if es.len() == 0 {
        0
    } else {
        entries_size(es.drop_last()) + entry_size(es.last())
    }
}

/// Keys strictly increase along `es`.
pub open spec fn keys_sorted(es: Seq<Entry>) -> bool {
    forall|i: int, j: int| 0 <= i < j < es.len() ==> lex_lt(#[trigger] es[i].0, #[trigger] es[j].0)
}

/// Slot `i` points to a live tuple that lies inside the tuple region.
pub open spec fn slot_ok(s: Seq<u8>, i: int) -> bool {
    let o = slot_off(s, i);
    &&& hdr_free_end(s) <= o
    &&& tup_end(s, o) <= page_size()
    &&& s[o] == 0
}

/// The tuples of slots `i` and `j` do not overlap.
pub open spec fn slots_disjoint(s: Seq<u8>, i: int, j: int) -> bool {
    tup_end(s, slot_off(s, i)) <= slot_off(s, j) || tup_end(s, slot_off(s, j)) <= slot_off(s, i)
}

/// The invariant of a page built through the page API: a valid header, a slot array
/// that ends where free space starts, live and pairwise disjoint tuples inside the tuple
/// region, strictly increasing keys, and dead bytes that account for every byte of the
/// tuple region not held by a live tuple.
#[verifier::opaque]
pub open spec fn layout_wf(s: Seq<u8>) -> bool {
    &&& s.len() == page_size()
    &&& hdr_magic(s) == page_magic()
    &&& hdr_free_start(s) == header_size() + 2 * hdr_slot_count(s)
    &&& hdr_free_start(s) <= hdr_free_end(s) <= page_size()
    &&& forall|i: int| 0 <= i < hdr_slot_count(s) ==> #[trigger] slot_ok(s, i)
    &&& forall|i: int, j: int|
        0 <= i < j < hdr_slot_count(s) ==> #[trigger] slots_disjoint(s, i, j)
    &&& keys_sorted(slot_entries(s))
    &&& hdr_dead_bytes(s) + entries_size(slot_entries(s)) == page_size() - hdr_free_end(s)
}

/// What well-formedness says of slot `k`.
pub proof fn lemma_wf_slot(s: Seq<u8>, k: int)
    requires
        layout_wf(s),
        0 <= k < hdr_slot_count(s),
    ensures
        hdr_free_end(s) <= slot_off(s, k),
        slot_off(s, k) + 5 <= tup_end(s, slot_off(s, k)) <= page_size(),
        s[slot_off(s, k)] == 0,
        slot_entries(s)[k] == slot_entry(s, k),
{
    reveal(layout_wf);
    assert(slot_ok(s, k));
}

/// What well-formedness says of two distinct slots.
pub proof fn lemma_wf_disjoint(s: Seq<u8>, i: int, j: int)
    requires
        layout_wf(s),
        0 <= i < hdr_slot_count(s),
        0 <= j < hdr_slot_count(s),
        i != j,
    ensures
        tup_end(s, slot_off(s, i)) <= slot_off(s, j) || tup_end(s, slot_off(s, j)) <= slot_off(s, i),
{
    reveal(layout_wf);
    if i < j {
        assert(slots_disjoint(s, i, j));
    } else {
        assert(slots_disjoint(s, j, i));
    }
}

/// What well-formedness says of the header and of the entries as a whole.
pub proof fn lemma_wf_header(s: Seq<u8>)
    requires
        layout_wf(s),
    ensures
        s.len() == page_size(),
        hdr_magic(s) == page_magic(),
        hdr_free_start(s) == header_size() + 2 * hdr_slot_count(s),
        hdr_free_start(s) <= hdr_free_end(s) <= page_size(),
        keys_sorted(slot_entries(s)),
        hdr_dead_bytes(s) + entries_size(slot_entries(s)) == page_size() - hdr_free_end(s),
        slot_entries(s).len() == hdr_slot_count(s),
{
    reveal(layout_wf);
}

/// The parts of well-formedness, put together.
pub proof fn lemma_wf_intro(s: Seq<u8>)
    requires
        s.len() == page_size(),
        hdr_magic(s) == page_magic(),
        hdr_free_start(s) == header_size() + 2 * hdr_slot_count(s),
        hdr_free_start(s) <= hdr_free_end(s) <= page_size(),
        forall|i: int| 0 <= i < hdr_slot_count(s) ==> #[trigger] slot_ok(s, i),
        forall|i: int, j: int| 0 <= i < j < hdr_slot_count(s) ==> #[trigger] slots_disjoint(s, i, j),
        keys_sorted(slot_entries(s)),
        hdr_dead_bytes(s) + entries_size(slot_entries(s)) == page_size() - hdr_free_end(s),
    ensures
        layout_wf(s),
{
    reveal(layout_wf);
}

/// Number of entries whose key sorts before `key`.
pub open spec fn key_rank(es: Seq<Entry>, key: Seq<u8>) -> nat
    decreases es.len(),
{
    if es.len() == 0 {
        0
    } else {
        key_rank(es.drop_last(), key) + if lex_lt(es.last().0, key) {
            1nat
        } else {
            0nat
        }
    }
}

// ---------------------------------------------------------------------------
// Lemmas about sizes
// ---------------------------------------------------------------------------

pub proof fn lemma_entries_size_nonneg(es: Seq<Entry>)
    ensures
        entries_size(es) >= 0,
    decreases es.len(),
{
    if es.len() > 0 {
        lemma_entries_size_nonneg(es.drop_last());
    }
}

pub proof fn lemma_entries_size_concat(a: Seq<Entry>, b: Seq<Entry>)
    ensures
        entries_size(a + b) == entries_size(a) + entries_size(b),
    decreases b.len(),
{
    if b.len() == 0 {
        assert(a + b =~= a);
    } else {
        lemma_entries_size_concat(a, b.drop_last());
        assert((a + b).drop_last() =~= a + b.drop_last());
    }
}

pub proof fn lemma_entries_size_split(es: Seq<Entry>, k: int)
    requires
        0 <= k <= es.len(),
    ensures
        entries_size(es) == entries_size(es.take(k)) + entries_size(es.skip(k)),
{
    lemma_entries_size_concat(es.take(k), es.skip(k));
    assert(es.take(k) + es.skip(k) =~= es);
}

pub proof fn lemma_entries_size_prefix(es: Seq<Entry>, k: int)
    requires
        0 <= k <= es.len(),
    ensures
        entries_size(es.take(k)) <= entries_size(es),
{
    lemma_entries_size_split(es, k);
    lemma_entries_size_nonneg(es.skip(k));
}

pub proof fn lemma_entries_size_insert(es: Seq<Entry>, p: int, e: Entry)
    requires
        0 <= p <= es.len(),
    ensures
        entries_size(es.insert(p, e)) == entries_size(es) + entry_size(e),
{
    let t = es.insert(p, e);
    lemma_entries_size_split(es, p);
    lemma_entries_size_split(t, p);
    assert(t.take(p) =~= es.take(p));
    assert(t.skip(p) =~= seq![e] + es.skip(p));
    lemma_entries_size_concat(seq![e], es.skip(p));
    assert(seq![e].drop_last() =~= Seq::<Entry>::empty());
    assert(entries_size(Seq::<Entry>::empty()) == 0);
    assert(entries_size(seq![e]) == entry_size(e));
}

pub proof fn lemma_entries_size_remove(es: Seq<Entry>, p: int)
    requires
        0 <= p < es.len(),
    ensures
        entries_size(es.remove(p)) == entries_size(es) - entry_size(es[p]),
{
    lemma_entries_size_insert(es.remove(p), p, es[p]);
    assert(es.remove(p).insert(p, es[p]) =~= es);
}

pub proof fn lemma_entries_size_update(es: Seq<Entry>, p: int, e: Entry)
    requires
        0 <= p < es.len(),
    ensures
        entries_size(es.update(p, e)) == entries_size(es) - entry_size(es[p]) + entry_size(e),
{
    lemma_entries_size_remove(es, p);
    lemma_entries_size_insert(es.remove(p), p, e);
    assert(es.remove(p).insert(p, e) =~= es.update(p, e));
}

// ---------------------------------------------------------------------------
// Lemmas about ranks
// ---------------------------------------------------------------------------

/// In a sorted sequence, the rank of `key` splits the entries into those that sort before
/// `key` and those that do not.
pub proof fn lemma_rank_sorted(es: Seq<Entry>, key: Seq<u8>)
    requires
        keys_sorted(es),
    ensures
        key_rank(es, key) <= es.len(),
        forall|i: int| 0 <= i < key_rank(es, key) ==> lex_lt(#[trigger] es[i].0, key),
        forall|i: int| key_rank(es, key) <= i < es.len() ==> !lex_lt(#[trigger] es[i].0, key),
    decreases es.len(),
{
    if es.len() > 0 {
        let d = es.drop_last();
        assert(keys_sorted(d)) by {
            assert forall|i: int, j: int| 0 <= i < j < d.len() implies lex_lt(
                #[trigger] d[i].0,
                #[trigger] d[j].0,
            ) by {
                assert(d[i] == es[i] && d[j] == es[j]);
            }
        }
        lemma_rank_sorted(d, key);
        let r = key_rank(d, key);
        let n = es.len() - 1;
        if lex_lt(es.last().0, key) {
            assert forall|i: int| 0 <= i < n implies lex_lt(#[trigger] es[i].0, key) by {
                assert(lex_lt(es[i].0, es[n].0));
                lemma_lex_transitive(es[i].0, es[n].0, key);
                assert(d[i] == es[i]);
                if i >= r {
                    assert(!lex_lt(d[i].0, key));
                }
            }
            assert forall|i: int| 0 <= i < key_rank(es, key) implies lex_lt(
                #[trigger] es[i].0,
                key,
            ) by {
                if i < n {
                    assert(lex_lt(es[i].0, es[n].0));
                    lemma_lex_transitive(es[i].0, es[n].0, key);
                }
            }
        } else {
            assert forall|i: int| 0 <= i < key_rank(es, key) implies lex_lt(
                #[trigger] es[i].0,
                key,
            ) by {
                assert(d[i] == es[i]);
            }
            assert forall|i: int| key_rank(es, key) <= i < es.len() implies !lex_lt(
                #[trigger] es[i].0,
                key,
            ) by {
                if i < n {
                    assert(d[i] == es[i]);
                }
            }
        }
    }
}

/// In a sorted sequence, any position that splits the entries into those before `key` and
/// those not before it is the rank of `key`.
pub proof fn lemma_rank_unique(es: Seq<Entry>, key: Seq<u8>, p: int)
    requires
        keys_sorted(es),
        0 <= p <= es.len(),
        forall|i: int| 0 <= i < p ==> lex_lt(#[trigger] es[i].0, key),
        forall|i: int| p <= i < es.len() ==> !lex_lt(#[trigger] es[i].0, key),
    ensures
        key_rank(es, key) == p,
{
    lemma_rank_sorted(es, key);
    let r = key_rank(es, key) as int;
    if r < p {
        assert(lex_lt(es[r].0, key));
    } else if r > p {
        assert(lex_lt(es[p].0, key));
    }
}

/// If the entry at `i` has key `key` in a sorted sequence, the rank of `key` is `i`.
pub proof fn lemma_rank_of_present(es: Seq<Entry>, i: int)
    requires
        keys_sorted(es),
        0 <= i < es.len(),
    ensures
        key_rank(es, es[i].0) == i,
{
    let key = es[i].0;
    assert forall|j: int| 0 <= j < i implies lex_lt(#[trigger] es[j].0, key) by {}
    assert forall|j: int| i <= j < es.len() implies !lex_lt(#[trigger] es[j].0, key) by {
        if j == i {
            lemma_lex_irreflexive(key);
        } else {
            assert(lex_lt(key, es[j].0));
            if lex_lt(es[j].0, key) {
                lemma_lex_transitive(key, es[j].0, key);
                lemma_lex_irreflexive(key);
            }
        }
    }
    lemma_rank_unique(es, key, i);
}

/// Inserting `key` at its rank into a sorted sequence that lacks it keeps it sorted.
pub proof fn lemma_sorted_insert(es: Seq<Entry>, e: Entry)
    requires
        keys_sorted(es),
        !(key_rank(es, e.0) < es.len() && es[key_rank(es, e.0) as int].0 == e.0),
    ensures
        keys_sorted(es.insert(key_rank(es, e.0) as int, e)),
{
    lemma_rank_sorted(es, e.0);
    let p = key_rank(es, e.0) as int;
    let t = es.insert(p, e);
    assert forall|i: int, j: int| 0 <= i < j < t.len() implies lex_lt(
        #[trigger] t[i].0,
        #[trigger] t[j].0,
    ) by {
        if j < p {
        } else if j == p {
        } else if i < p {
            assert(t[j] == es[j - 1]);
            assert(!lex_lt(es[j - 1].0, e.0));
            lemma_lex_total(es[j - 1].0, e.0);
            if j - 1 == p {
                assert(es[p].0 != e.0);
            } else {
                assert(lex_lt(es[p].0, es[j - 1].0));
                assert(!lex_lt(es[p].0, e.0));
                lemma_lex_total(es[p].0, e.0);
                if es[p].0 == e.0 {
                } else {
                    lemma_lex_transitive(e.0, es[p].0, es[j - 1].0);
                }
            }
            lemma_lex_transitive(es[i].0, e.0, es[j - 1].0);
        } else if i == p {
            assert(t[j] == es[j - 1]);
            assert(!lex_lt(es[j - 1].0, e.0));
            lemma_lex_total(es[j - 1].0, e.0);
            if j - 1 > p {
                assert(lex_lt(es[p].0, es[j - 1].0));
                assert(!lex_lt(es[p].0, e.0));
                lemma_lex_total(es[p].0, e.0);
                if es[p].0 == e.0 {
                } else {
                    lemma_lex_transitive(e.0, es[p].0, es[j - 1].0);
                }
            } else {
                assert(es[p].0 != e.0);
            }
        } else {
            assert(t[i] == es[i - 1] && t[j] == es[j - 1]);
        }
    }
}

/// Replacing the value at a position keeps the keys sorted.
pub proof fn lemma_sorted_update_value(es: Seq<Entry>, p: int, v: Seq<u8>)
    requires
        keys_sorted(es),
        0 <= p < es.len(),
    ensures
        keys_sorted(es.update(p, (es[p].0, v))),
{
    let t = es.update(p, (es[p].0, v));
    assert forall|i: int, j: int| 0 <= i < j < t.len() implies lex_lt(
        #[trigger] t[i].0,
        #[trigger] t[j].0,
    ) by {
        assert(t[i].0 == es[i].0 && t[j].0 == es[j].0);
    }
}

/// Removing an entry keeps the keys sorted.
pub proof fn lemma_sorted_remove(es: Seq<Entry>, p: int)
    requires
        keys_sorted(es),
        0 <= p < es.len(),
    ensures
        keys_sorted(es.remove(p)),
{
    let t = es.remove(p);
    assert forall|i: int, j: int| 0 <= i < j < t.len() implies lex_lt(
        #[trigger] t[i].0,
        #[trigger] t[j].0,
    ) by {
        let ii = if i < p {
            i
        } else {
            i + 1
        };
        let jj = if j < p {
            j
        } else {
            j + 1
        };
        assert(t[i] == es[ii] && t[j] == es[jj]);
    }
}

/// A prefix of a sorted sequence is sorted.
pub proof fn lemma_sorted_take(es: Seq<Entry>, k: int)
    requires
        keys_sorted(es),
        0 <= k <= es.len(),
    ensures
        keys_sorted(es.take(k)),
{
    let t = es.take(k);
    assert forall|i: int, j: int| 0 <= i < j < t.len() implies lex_lt(
        #[trigger] t[i].0,
        #[trigger] t[j].0,
    ) by {
        assert(t[i] == es[i] && t[j] == es[j]);
    }
}

// ---------------------------------------------------------------------------
// Lemmas about bytes that do not change
// ---------------------------------------------------------------------------

/// A tuple whose bytes are untouched reads back the same.
pub proof fn lemma_tuple_frame(s0: Seq<u8>, s1: Seq<u8>, o: int)
    requires
        0 <= o,
        tup_end(s0, o) <= s0.len(),
        s1.len() == s0.len(),
        forall|idx: int| o <= idx < tup_end(s0, o) ==> s1[idx] == s0[idx],
    ensures
        tup_klen(s1, o) == tup_klen(s0, o),
        tup_vlen(s1, o) == tup_vlen(s0, o),
        tup_end(s1, o) == tup_end(s0, o),
        tup_key(s1, o) == tup_key(s0, o),
        tup_val(s1, o) == tup_val(s0, o),
        s1[o] == s0[o],
{
    reveal(u16_at);
    reveal(u32_at);
    assert(s1[o + 1] == s0[o + 1] && s1[o + 2] == s0[o + 2]);
    assert(s1[o + 3] == s0[o + 3] && s1[o + 4] == s0[o + 4]);
    assert(tup_key(s1, o) =~= tup_key(s0, o));
    assert(tup_val(s1, o) =~= tup_val(s0, o));
}

/// Two page images that agree from the start of the slot array onward and on the
/// slot-count, free-space and dead-byte fields hold the same entries, and one is
/// well-formed when the other is, provided both carry the magic number.
pub proof fn lemma_same_body(s0: Seq<u8>, s1: Seq<u8>)
    requires
        layout_wf(s0),
        s1.len() == s0.len(),
        hdr_magic(s1) == page_magic(),
        forall|idx: int| 8 <= idx < 16 ==> s1[idx] == s0[idx],
        forall|idx: int| 20 <= idx < s0.len() ==> s1[idx] == s0[idx],
    ensures
        layout_wf(s1),
        slot_entries(s1) == slot_entries(s0),
{
    reveal(u16_at);
    reveal(u32_at);
    reveal(layout_wf);
    let n = hdr_slot_count(s0);
    assert(hdr_slot_count(s1) == n);
    assert(hdr_free_start(s1) == hdr_free_start(s0));
    assert(hdr_free_end(s1) == hdr_free_end(s0));
    assert(hdr_dead_bytes(s1) == hdr_dead_bytes(s0));
    assert forall|i: int| 0 <= i < n implies slot_off(s1, i) == slot_off(s0, i) && slot_entry(
        s1,
        i,
    ) == slot_entry(s0, i) && tup_end(s1, slot_off(s1, i)) == tup_end(s0, slot_off(s0, i))
        && s1[slot_off(s1, i)] == s0[slot_off(s0, i)] by {
        assert(s1[slot_pos(i)] == s0[slot_pos(i)]);
        assert(s1[slot_pos(i) + 1] == s0[slot_pos(i) + 1]);
        assert(slot_ok(s0, i));
        lemma_tuple_frame(s0, s1, slot_off(s0, i));
    }
    assert(slot_entries(s1) =~= slot_entries(s0));
    assert forall|i: int| 0 <= i < hdr_slot_count(s1) implies #[trigger] slot_ok(s1, i) by {
        assert(slot_ok(s0, i));
    }
    assert forall|i: int, j: int| 0 <= i < j < hdr_slot_count(s1) implies #[trigger] slots_disjoint(
        s1,
        i,
        j,
    ) by {
        assert(slots_disjoint(s0, i, j));
    }
}

} // verus!
