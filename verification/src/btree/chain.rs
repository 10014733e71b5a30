//! The leaf chain in key order: the ranges of the leaves follow the chain, so reading the
//! leaves one after another yields their entries sorted by key.
use crate::btree::key::{lemma_lex_transitive, lex_lt};
use crate::btree::ranges::{in_range, strictly_inside, KeyRange};
use crate::btree::structure::{chain_entries, drop_below};
use crate::page::layout::{keys_sorted, Entry};
use crate::page::page::Page;
use vstd::prelude::*;

verus! {

/// The upper bound `hi` of one range lies at or below the lower bound `lo` of another;
/// both are bounded.
pub open spec fn bound_below(hi: Option<Seq<u8>>, lo: Option<Seq<u8>>) -> bool {
    match (hi, lo) {
        (Some(a), Some(b)) => a == b || lex_lt(a, b),
        _ => false,
    }
}

/// The leaf ranges follow the chain: the first leaf's range is open below, the last one's
/// open above, and each leaf's range ends at or below where every later leaf's begins.
pub open spec fn chain_ranges(leaves: Seq<u32>, ranges: Map<u32, KeyRange>) -> bool {
    &&& leaves.len() > 0 ==> ranges[leaves[0]].0 is None
    &&& leaves.len() > 0 ==> ranges[leaves.last()].1 is None
    &&& forall|i: int, j: int|
        #![trigger leaves[i], leaves[j]]
        0 <= i < j < leaves.len() ==> bound_below(ranges[leaves[i]].1, ranges[leaves[j]].0)
}

/// `a` lies at or below `b`, and `b` below `c`: then `a` lies below `c`.
proof fn lemma_le_lt(a: Seq<u8>, b: Seq<u8>, c: Seq<u8>)
    requires
        a == b || lex_lt(a, b),
        lex_lt(b, c),
    ensures
        lex_lt(a, c),
{
    if a != b {
        lemma_lex_transitive(a, b, c);
    }
}

/// `a` lies below `b`, and `b` at or below `c`: then `a` lies below `c`.
proof fn lemma_lt_le(a: Seq<u8>, b: Seq<u8>, c: Seq<u8>)
    requires
        lex_lt(a, b),
        b == c || lex_lt(b, c),
    ensures
        lex_lt(a, c),
{
    if b != c {
        lemma_lex_transitive(a, b, c);
    }
}

/// Splitting leaf `leaf` at `sep`, strictly inside its range, into itself (below `sep`)
/// and a new leaf `r` right after it in the chain (from `sep` on) keeps the ranges
/// following the chain.
pub proof fn lemma_chain_ranges_split(leaves: Seq<u32>, ranges: Map<u32, KeyRange>, leaf: u32, r: u32, sep: Seq<u8>)
    requires
        chain_ranges(leaves, ranges),
        leaves.no_duplicates(),
        leaves.contains(leaf),
        !leaves.contains(r),
        strictly_inside(sep, ranges[leaf]),
    ensures
        chain_ranges(
            leaves.insert(leaves.index_of(leaf) + 1, r),
            ranges.insert(leaf, (ranges[leaf].0, Some(sep))).insert(r, (Some(sep), ranges[leaf].1)),
        ),
{
    let p = leaves.index_of(leaf);
    let l2 = leaves.insert(p + 1, r);
    let rl = ranges[leaf];
    let rg2 = ranges.insert(leaf, (rl.0, Some(sep))).insert(r, (Some(sep), rl.1));
    assert(leaves[p] == leaf);
    assert forall|k: int| 0 <= k < leaves.len() && k != p implies #[trigger] leaves[k] != leaf && leaves[k] != r by {
        assert(leaves.contains(leaves[k]));
    }
    assert forall|i: int, j: int| #![trigger l2[i], l2[j]] 0 <= i < j < l2.len() implies bound_below(
        rg2[l2[i]].1,
        rg2[l2[j]].0,
    ) by {
        let oi = if i <= p { i } else { i - 1 };
        let oj = if j <= p { j } else { j - 1 };
        if i == p + 1 {
            assert(l2[i] == r);
            assert(l2[j] == leaves[oj] && oj > p);
            assert(bound_below(ranges[leaves[p]].1, ranges[leaves[oj]].0));
        } else if j == p + 1 {
            assert(l2[j] == r);
            assert(l2[i] == leaves[i]);
            if i < p {
                assert(bound_below(ranges[leaves[i]].1, ranges[leaves[p]].0));
                lemma_le_lt(ranges[leaves[i]].1.unwrap(), rl.0.unwrap(), sep);
            }
        } else {
            assert(l2[i] == leaves[oi] && l2[j] == leaves[oj] && oi < oj);
            assert(bound_below(ranges[leaves[oi]].1, ranges[leaves[oj]].0));
            if oi == p {
                lemma_lt_le(sep, rl.1.unwrap(), ranges[leaves[oj]].0.unwrap());
            }
        }
    }
    if leaves.len() > 0 {
        if p == leaves.len() - 1 {
            assert(l2.last() == r);
        } else {
            assert(l2.last() == leaves.last());
        }
        assert(l2[0] == leaves[0]);
    }
}

/// Ranges that agree on every leaf of the chain follow it alike.
pub proof fn lemma_chain_ranges_kept(leaves: Seq<u32>, ranges: Map<u32, KeyRange>, ranges2: Map<u32, KeyRange>)
    requires
        chain_ranges(leaves, ranges),
        forall|x: u32| leaves.contains(x) ==> #[trigger] ranges2[x] == ranges[x],
    ensures
        chain_ranges(leaves, ranges2),
{
    assert forall|k: int| 0 <= k < leaves.len() implies #[trigger] ranges2[leaves[k]] == ranges[leaves[k]] by {
        assert(leaves.contains(leaves[k]));
    }
    if leaves.len() > 0 {
        assert(ranges2[leaves[0]] == ranges[leaves[0]]);
        assert(ranges2[leaves[leaves.len() - 1]] == ranges[leaves[leaves.len() - 1]]);
    }
}

/// A key in the range of an earlier leaf of the chain sorts below a key in the range of a
/// later one.
pub proof fn lemma_chain_keys_ordered(leaves: Seq<u32>, ranges: Map<u32, KeyRange>, j1: int, j2: int, a: Seq<u8>, b: Seq<u8>)
    requires
        chain_ranges(leaves, ranges),
        0 <= j1 < j2 < leaves.len(),
        in_range(a, ranges[leaves[j1]]),
        in_range(b, ranges[leaves[j2]]),
    ensures
        lex_lt(a, b),
{
    assert(bound_below(ranges[leaves[j1]].1, ranges[leaves[j2]].0));
    let hi = ranges[leaves[j1]].1.unwrap();
    let lo = ranges[leaves[j2]].0.unwrap();
    lemma_lt_le(a, hi, lo);
    lemma_lt_le(a, lo, b);
}

/// Every entry a run of leaves yields is an entry of one of them: this returns which leaf
/// and which slot.
pub proof fn lemma_chain_entry_source(pages: Map<u32, Page>, chain: Seq<u32>, n: int) -> (jm: (int, int))
    requires
        0 <= n < chain_entries(pages, chain, 0).len(),
    ensures
        0 <= jm.0 < chain.len(),
        0 <= jm.1 < pages[chain[jm.0]]@.entries.len(),
        chain_entries(pages, chain, 0)[n] == pages[chain[jm.0]]@.entries[jm.1],
    decreases chain.len(),
{
    let e0 = pages[chain[0]]@.entries;
    let rest = chain.drop_first();
    assert(e0.skip(0) =~= e0);
    if n < e0.len() {
        (0, n)
    } else {
        let (j, m) = lemma_chain_entry_source(pages, rest, n - e0.len());
        assert(rest[j] == chain[j + 1]);
        (j + 1, m)
    }
}

/// Every entry of every leaf of a run is among those the run yields: this returns where.
pub proof fn lemma_chain_entry_position(pages: Map<u32, Page>, chain: Seq<u32>, j: int, m: int) -> (n: int)
    requires
        0 <= j < chain.len(),
        0 <= m < pages[chain[j]]@.entries.len(),
    ensures
        0 <= n < chain_entries(pages, chain, 0).len(),
        chain_entries(pages, chain, 0)[n] == pages[chain[j]]@.entries[m],
    decreases chain.len(),
{
    let e0 = pages[chain[0]]@.entries;
    let rest = chain.drop_first();
    assert(e0.skip(0) =~= e0);
    if j == 0 {
        m
    } else {
        assert(rest[j - 1] == chain[j]);
        let n1 = lemma_chain_entry_position(pages, rest, j - 1, m);
        n1 + e0.len()
    }
}

/// A run of leaves, each sorted and each holding only keys below those of every later
/// one, yields its entries sorted by key.
pub proof fn lemma_chain_entries_sorted(pages: Map<u32, Page>, chain: Seq<u32>)
    requires
        forall|j: int| 0 <= j < chain.len() ==> keys_sorted(#[trigger] pages[chain[j]]@.entries),
        forall|j1: int, j2: int, m1: int, m2: int|
            0 <= j1 < j2 < chain.len() && 0 <= m1 < pages[chain[j1]]@.entries.len() && 0 <= m2
                < pages[chain[j2]]@.entries.len() ==> lex_lt(
                #[trigger] pages[chain[j1]]@.entries[m1].0,
                #[trigger] pages[chain[j2]]@.entries[m2].0,
            ),
    ensures
        keys_sorted(chain_entries(pages, chain, 0)),
    decreases chain.len(),
{
    if chain.len() > 0 {
        let e0 = pages[chain[0]]@.entries;
        let rest = chain.drop_first();
        assert(e0.skip(0) =~= e0);
        assert(keys_sorted(pages[chain[0]]@.entries));
        assert forall|j: int| 0 <= j < rest.len() implies keys_sorted(#[trigger] pages[rest[j]]@.entries) by {
            assert(rest[j] == chain[j + 1]);
        }
        assert forall|j1: int, j2: int, m1: int, m2: int|
            0 <= j1 < j2 < rest.len() && 0 <= m1 < pages[rest[j1]]@.entries.len() && 0 <= m2
                < pages[rest[j2]]@.entries.len() implies lex_lt(
            #[trigger] pages[rest[j1]]@.entries[m1].0,
            #[trigger] pages[rest[j2]]@.entries[m2].0,
        ) by {
            assert(rest[j1] == chain[j1 + 1] && rest[j2] == chain[j2 + 1]);
            assert(lex_lt(pages[chain[j1 + 1]]@.entries[m1].0, pages[chain[j2 + 1]]@.entries[m2].0));
        }
        lemma_chain_entries_sorted(pages, rest);
        let tail = chain_entries(pages, rest, 0);
        let all = chain_entries(pages, chain, 0);
        assert(all == e0 + tail);
        assert forall|a: int, b: int| 0 <= a < b < all.len() implies lex_lt(#[trigger] all[a].0, #[trigger] all[b].0) by {
            if b < e0.len() {
                assert(all[a] == e0[a] && all[b] == e0[b]);
            } else if a >= e0.len() {
                assert(all[a] == tail[a - e0.len()] && all[b] == tail[b - e0.len()]);
            } else {
                assert(all[a] == e0[a] && all[b] == tail[b - e0.len()]);
                let (j, m) = lemma_chain_entry_source(pages, rest, b - e0.len());
                assert(rest[j] == chain[j + 1]);
                assert(lex_lt(pages[chain[0]]@.entries[a].0, pages[chain[j + 1]]@.entries[m].0));
            }
        }
    }
}

/// In sorted entries, dropping the leading ones below `start` drops exactly the first
/// `d` entries, those with keys below `start`; this returns `d`.
pub proof fn lemma_drop_below(es: Seq<Entry>, start: Seq<u8>) -> (d: int)
    requires
        keys_sorted(es),
    ensures
        0 <= d <= es.len(),
        drop_below(es, start) == es.skip(d),
        forall|i: int| 0 <= i < d ==> lex_lt(#[trigger] es[i].0, start),
        forall|i: int| d <= i < es.len() ==> !lex_lt(#[trigger] es[i].0, start),
    decreases es.len(),
{
    if es.len() > 0 && lex_lt(es[0].0, start) {
        let t = es.drop_first();
        assert forall|i: int, j: int| 0 <= i < j < t.len() implies lex_lt(#[trigger] t[i].0, #[trigger] t[j].0) by {
            assert(t[i] == es[i + 1] && t[j] == es[j + 1]);
        }
        let d1 = lemma_drop_below(t, start);
        assert(t.skip(d1) =~= es.skip(d1 + 1));
        assert forall|i: int| 0 <= i < d1 + 1 implies lex_lt(#[trigger] es[i].0, start) by {
            if i > 0 {
                assert(es[i] == t[i - 1]);
            }
        }
        assert forall|i: int| d1 + 1 <= i < es.len() implies !lex_lt(#[trigger] es[i].0, start) by {
            assert(es[i] == t[i - 1]);
        }
        d1 + 1
    } else {
        assert(es.skip(0) =~= es);
        assert forall|i: int| 0 <= i < es.len() implies !lex_lt(#[trigger] es[i].0, start) by {
            if i > 0 && lex_lt(es[i].0, start) {
                lemma_lex_transitive(es[0].0, es[i].0, start);
            }
        }
        0
    }
}

} // verus!
