//! What splitting a node does to its entries: where the new pair goes among the
//! entries being divided, and which value each key ends up with.
use crate::btree::key::{lemma_lex_irreflexive, lemma_lex_total, lemma_lex_transitive, lex_lt};
use crate::page::layout::{keys_sorted, lemma_rank_sorted, Entry};
use crate::page::view::{law_put_then_lookup, lemma_lookup_entry, put_all, PageView};
use vstd::prelude::*;

verus! {

/// The number of the page's keys that do not sort after `key`: the slot a search for
/// `key` follows, and where a new key goes among the page's entries.
pub open spec fn split_position(v: PageView, key: Seq<u8>) -> int {
    if v.contains(key) {
        v.rank(key) + 1
    } else {
        v.rank(key)
    }
}

/// The entries a split distributes: the page's entries with the new pair in its place,
/// replacing the old entry for the key when there is one.
pub open spec fn split_entries(v: PageView, key: Seq<u8>, val: Seq<u8>) -> Seq<Entry> {
    if v.contains(key) {
        v.entries.update(v.rank(key), (key, val))
    } else {
        v.entries.insert(v.rank(key), (key, val))
    }
}

/// The position after every entry whose key does not sort after `key` is the split
/// position.
pub proof fn lemma_split_position(v: PageView, key: Seq<u8>, pos: int)
    requires
        keys_sorted(v.entries),
        0 <= pos <= v.entries.len(),
        forall|j: int| 0 <= j < pos ==> !lex_lt(key, #[trigger] v.entries[j].0),
        pos == v.entries.len() || lex_lt(key, v.entries[pos].0),
    ensures
        pos == split_position(v, key),
{
    let es = v.entries;
    let r = v.rank(key);
    lemma_rank_sorted(es, key);
    lemma_lookup_entry(v, key);
    if v.contains(key) {
        if pos <= r {
            assert(!lex_lt(key, es[pos].0)) by {
                if pos < r {
                    assert(lex_lt(es[pos].0, es[r].0));
                    if lex_lt(key, es[pos].0) {
                        lemma_lex_transitive(key, es[pos].0, key);
                        lemma_lex_irreflexive(key);
                    }
                } else {
                    lemma_lex_irreflexive(key);
                }
            }
        } else if pos > r + 1 {
            assert(lex_lt(es[r].0, es[r + 1].0));
            assert(!lex_lt(key, es[r + 1].0));
        }
    } else {
        if pos < r {
            assert(lex_lt(es[pos].0, key));
            if lex_lt(key, es[pos].0) {
                lemma_lex_transitive(key, es[pos].0, key);
                lemma_lex_irreflexive(key);
            }
        } else if pos > r {
            assert(!lex_lt(es[r].0, key));
            assert(!lex_lt(key, es[r].0));
            lemma_lex_total(es[r].0, key);
        }
    }
}

/// The value of the last entry of `es` whose key is `q`, if any.
pub open spec fn last_value(es: Seq<Entry>, q: Seq<u8>) -> Option<Seq<u8>>
    decreases es.len(),
{
    if es.len() == 0 {
        None
    } else if es.last().0 == q {
        Some(es.last().1)
    } else {
        last_value(es.drop_last(), q)
    }
}

/// The last entry with key `q` decides `last_value`.
pub proof fn lemma_last_value_index(es: Seq<Entry>, q: Seq<u8>, i: int)
    requires
        0 <= i < es.len(),
        es[i].0 == q,
        forall|j: int| i < j < es.len() ==> (#[trigger] es[j]).0 != q,
    ensures
        last_value(es, q) == Some(es[i].1),
    decreases es.len(),
{
    if i < es.len() - 1 {
        let d = es.drop_last();
        assert forall|j: int| i < j < d.len() implies (#[trigger] d[j]).0 != q by {
            assert(d[j] == es[j]);
        }
        lemma_last_value_index(d, q, i);
    }
}

/// `last_value` finds a value exactly when some entry has key `q`.
pub proof fn lemma_last_value_some(es: Seq<Entry>, q: Seq<u8>)
    ensures
        last_value(es, q) is Some <==> exists|j: int| 0 <= j < es.len() && (#[trigger] es[j]).0 == q,
    decreases es.len(),
{
    if es.len() > 0 {
        let d = es.drop_last();
        lemma_last_value_some(d, q);
        if exists|j: int| 0 <= j < es.len() && (#[trigger] es[j]).0 == q {
            let j = choose|j: int| 0 <= j < es.len() && (#[trigger] es[j]).0 == q;
            if j < es.len() - 1 {
                assert(d[j] == es[j]);
            }
        }
        if exists|j: int| 0 <= j < d.len() && (#[trigger] d[j]).0 == q {
            let j = choose|j: int| 0 <= j < d.len() && (#[trigger] d[j]).0 == q;
            assert(d[j] == es[j]);
        }
    }
}

/// The last value in a concatenation comes from the second part when it has the key.
pub proof fn lemma_last_value_concat(a: Seq<Entry>, b: Seq<Entry>, q: Seq<u8>)
    ensures
        last_value(a + b, q) == if last_value(b, q) is Some {
            last_value(b, q)
        } else {
            last_value(a, q)
        },
    decreases b.len(),
{
    if b.len() == 0 {
        assert(a + b =~= a);
    } else {
        assert((a + b).drop_last() =~= a + b.drop_last());
        lemma_last_value_concat(a, b.drop_last(), q);
    }
}

/// Filling an empty page entry by entry leaves its keys sorted and maps each key to the
/// last value given for it.
pub proof fn lemma_put_all_from_empty(v0: PageView, es: Seq<Entry>)
    requires
        v0.entries.len() == 0,
        put_all(v0, es) is Some,
    ensures
        keys_sorted(put_all(v0, es).unwrap().entries),
        forall|q: Seq<u8>|
            #![trigger put_all(v0, es).unwrap().lookup(q)]
            put_all(v0, es).unwrap().lookup(q) == last_value(es, q),
    decreases es.len(),
{
    if es.len() == 0 {
        assert forall|q: Seq<u8>| #![trigger v0.lookup(q)] v0.lookup(q) == last_value(es, q) by {
            assert(v0.rank(q) == 0);
        }
    } else {
        let d = es.drop_last();
        let (k, v) = es.last();
        lemma_put_all_from_empty(v0, d);
        let u = put_all(v0, d).unwrap();
        let w = u.put_state(k, v);
        assert(u.put_fits(k, v));
        law_put_then_lookup(u, k, v, k.push(0));
        assert forall|q: Seq<u8>| #![trigger w.lookup(q)] w.lookup(q) == last_value(es, q) by {
            if q != k {
                law_put_then_lookup(u, k, v, q);
            }
        }
    }
}

/// The entries a split distributes are in strictly increasing key order.
pub proof fn lemma_split_entries_sorted(v: PageView, key: Seq<u8>, val: Seq<u8>)
    requires
        keys_sorted(v.entries),
    ensures
        keys_sorted(split_entries(v, key, val)),
{
    let es = v.entries;
    lemma_rank_sorted(es, key);
    if v.contains(key) {
        crate::page::layout::lemma_sorted_update_value(es, v.rank(key), val);
        assert(es.update(v.rank(key), (es[v.rank(key)].0, val)) == split_entries(v, key, val));
    } else {
        crate::page::layout::lemma_sorted_insert(es, (key, val));
    }
}

/// Any two entries a split distributes are in key order.
pub proof fn lemma_split_entries_order(v: PageView, key: Seq<u8>, val: Seq<u8>, i: int, j: int)
    requires
        keys_sorted(v.entries),
        0 <= i < j < split_entries(v, key, val).len(),
    ensures
        lex_lt(split_entries(v, key, val)[i].0, split_entries(v, key, val)[j].0),
{
    lemma_split_entries_sorted(v, key, val);
}

/// The last value a split's entries give each key is its value on the page, with `key`
/// now mapped to `val`.
pub proof fn lemma_split_entries_values(v: PageView, key: Seq<u8>, val: Seq<u8>, q: Seq<u8>)
    requires
        keys_sorted(v.entries),
    ensures
        last_value(split_entries(v, key, val), q) == if q == key {
            Some(val)
        } else {
            v.lookup(q)
        },
{
    let es = v.entries;
    let all = split_entries(v, key, val);
    let r = v.rank(key);
    lemma_rank_sorted(es, key);
    lemma_split_entries_sorted(v, key, val);
    lemma_lookup_entry(v, key);
    lemma_lookup_entry(v, q);
    lemma_lex_irreflexive(q);
    // The position of each old entry among the split's entries.
    let at = |t: int| if v.contains(key) || t < r { t } else { t + 1 };
    assert forall|t: int| 0 <= t < es.len() && t != r implies #[trigger] all[at(t)] == es[t] by {}
    if q == key {
        assert(all[r] == (key, val));
        assert forall|j: int| r < j < all.len() implies (#[trigger] all[j]).0 != q by {
            assert(lex_lt(all[r].0, all[j].0));
        }
        lemma_last_value_index(all, q, r);
    } else if v.contains(q) {
        let t = v.rank(q);
        assert(es[t].0 == q);
        assert(t != r || !v.contains(key));
        let t2 = at(t);
        if t == r {
            assert(all[t + 1] == es[t]);
        } else {
            assert(all[t2] == es[t]);
        }
        let t3 = if t == r { t + 1 } else { t2 };
        assert(all[t3].0 == q);
        assert forall|j: int| t3 < j < all.len() implies (#[trigger] all[j]).0 != q by {
            assert(lex_lt(all[t3].0, all[j].0));
        }
        lemma_last_value_index(all, q, t3);
    } else {
        lemma_last_value_some(all, q);
        if last_value(all, q) is Some {
            let j = choose|j: int| 0 <= j < all.len() && (#[trigger] all[j]).0 == q;
            if v.contains(key) {
                if j != r {
                    assert(all[j] == es[j]);
                }
            } else if j < r {
                assert(all[j] == es[j]);
            } else if j > r {
                assert(all[j] == es[j - 1]);
            }
        }
    }
}

/// Filling an empty page with entries whose keys strictly increase stores exactly those
/// entries.
pub proof fn lemma_put_all_sorted_exact(v0: PageView, es: Seq<Entry>)
    requires
        v0.entries.len() == 0,
        keys_sorted(es),
        put_all(v0, es) is Some,
    ensures
        put_all(v0, es).unwrap().entries == es,
    decreases es.len(),
{
    if es.len() > 0 {
        let d = es.drop_last();
        crate::page::layout::lemma_sorted_take(es, es.len() - 1);
        assert(es.take(es.len() - 1) =~= d);
        lemma_put_all_sorted_exact(v0, d);
        let u = put_all(v0, d).unwrap();
        let (k, v) = es.last();
        assert(es.last() == es[es.len() - 1]);
        assert forall|i: int| 0 <= i < d.len() implies lex_lt(#[trigger] d[i].0, k) by {
            assert(d[i] == es[i]);
        }
        assert forall|i: int| d.len() <= i < d.len() implies !lex_lt(#[trigger] d[i].0, k) by {}
        crate::page::layout::lemma_rank_unique(d, k, d.len() as int);
        assert(u.rank(k) == d.len());
        assert(!u.contains(k));
        assert(u.put_fits(k, v));
        assert(d.insert(d.len() as int, (k, v)) =~= es);
    }
}

/// Puts into an empty page that all fit leave its keys in strictly increasing order, each
/// mapped to the last value put for it; when the keys put strictly increase, the page
/// holds exactly the pairs put, in that order.
pub proof fn law_puts_into_empty_page(v0: PageView, es: Seq<Entry>)
    requires
        v0.entries.len() == 0,
        put_all(v0, es) is Some,
    ensures
        keys_sorted(put_all(v0, es).unwrap().entries),
        forall|q: Seq<u8>| #[trigger] put_all(v0, es).unwrap().lookup(q) == last_value(es, q),
        keys_sorted(es) ==> put_all(v0, es).unwrap().entries == es,
{
    lemma_put_all_from_empty(v0, es);
    if keys_sorted(es) {
        lemma_put_all_sorted_exact(v0, es);
    }
}

} // verus!
