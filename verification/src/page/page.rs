//! An 8 KB slotted page: a header, a sorted slot array of 2-byte tuple offsets that grows
//! toward higher addresses, and a tuple region that grows down from the end of the page.
use crate::btree::key::{lex_lt, lemma_lex_asymmetric, lemma_lex_irreflexive, lemma_lex_transitive, Key, KeyOrder};
use crate::btree::tuple::{encode_tuple, lemma_encode_decode, Tuple, TupleBuilder};
use crate::page::layout::{
    entries_size, entry_size, hdr_dead_bytes, hdr_free_end, hdr_free_start, hdr_magic,
    hdr_next_leaf, hdr_page_id, hdr_slot_count, key_rank, keys_sorted, layout_wf, lemma_entries_size_insert,
    lemma_entries_size_nonneg, lemma_entries_size_prefix, lemma_entries_size_remove,
    lemma_entries_size_update, lemma_rank_of_present, lemma_rank_sorted, lemma_rank_unique,
    lemma_same_body, lemma_sorted_insert, lemma_sorted_remove, lemma_sorted_update_value, lemma_tuple_frame, lemma_wf_disjoint, lemma_wf_header, lemma_wf_intro, lemma_wf_slot, slot_entries, slot_entry, slot_off, slot_ok,
    slot_pos, slots_disjoint, tup_end, tup_key, tup_klen, tup_val, tup_vlen, Entry,
};
use crate::page::view::{page_view, PageView};
use crate::utils::byte::{
    lemma_u16_round_trip, lemma_u16_same, lemma_u32_same, put_u16, put_u32, read_u16, read_u32,
    u16_at, u32_at, write_u16, write_u32,
};
use vstd::prelude::*;

verus! {

broadcast use {crate::utils::byte::group_stored_int_range, vstd::array::group_array_axioms};

/// Page size in bytes.
pub const PAGE_SIZE: usize = 8192;

/// Header size in bytes.
pub const HEADER_SIZE: usize = 20;

/// The magic number stored at the start of every page ("PNUT").
pub const PAGE_MAGIC: u32 = 0x504E5554;

const HDR_MAGIC_OFF: usize = 0;

const HDR_PAGE_ID_OFF: usize = 4;

const HDR_SLOT_CNT_OFF: usize = 8;

const HDR_FREE_START_OFF: usize = 10;

const HDR_FREE_END_OFF: usize = 12;

const HDR_DEAD_BYTES_OFF: usize = 14;

const HDR_NEXT_LEAF_PAGE_ID_OFF: usize = 16;

/// `s1` differs from `s0` at most inside `[lo, hi)`.
pub open spec fn unchanged_except(s0: Seq<u8>, s1: Seq<u8>, lo: int, hi: int) -> bool {
    &&& s1.len() == s0.len()
    &&& forall|idx: int| 0 <= idx < s0.len() && !(lo <= idx < hi) ==> #[trigger] s1[idx] == s0[idx]
}

/// The stored form of an optional sibling page ID: the ID itself, or 0 for none.
pub open spec fn sibling_id(next: Option<u32>) -> int {
    match next {
        Some(n) => n as int,
        None => 0,
    }
}

/// A tuple written at `o` reads back as the entry it encodes.
#[verifier::spinoff_prover]
proof fn lemma_written_tuple(s: Seq<u8>, o: int, key: Seq<u8>, val: Seq<u8>, tuple: Seq<u8>)
    requires
        0 <= o,
        o + tuple.len() <= s.len(),
        tuple == encode_tuple(0, key, val),
        key.len() < 65536,
        val.len() < 65536,
        forall|idx: int| o <= idx < o + tuple.len() ==> #[trigger] s[idx] == tuple[idx - o],
    ensures
        tup_klen(s, o) == key.len(),
        tup_vlen(s, o) == val.len(),
        tup_end(s, o) == o + tuple.len(),
        tup_key(s, o) == key,
        tup_val(s, o) == val,
        s[o] == 0,
{
    reveal(u16_at);
    reveal(u32_at);
    lemma_encode_decode(0, key, val);
    assert(s[o] == tuple[0]);
    assert(s[o + 1] == tuple[1] && s[o + 2] == tuple[2]);
    assert(s[o + 3] == tuple[3] && s[o + 4] == tuple[4]);
    assert(tup_key(s, o) =~= key) by {
        assert forall|q: int| 0 <= q < key.len() implies tup_key(s, o)[q] == key[q] by {
            assert(s[o + 5 + q] == tuple[5 + q]);
        }
    }
    assert(tup_val(s, o) =~= val) by {
        assert forall|q: int| 0 <= q < val.len() implies tup_val(s, o)[q] == val[q] by {
            assert(s[o + 5 + key.len() + q] == tuple[5 + key.len() + q]);
        }
    }
}

/// Tuples of a well-formed image read back unchanged in an image that agrees with it on
/// the tuple region, except possibly at byte `x` when `x` lies outside the tuple.
#[verifier::spinoff_prover]
proof fn lemma_old_tuples(s0: Seq<u8>, s: Seq<u8>, x: int)
    requires
        layout_wf(s0),
        s.len() == s0.len(),
        forall|idx: int| hdr_free_end(s0) <= idx < PAGE_SIZE && idx != x ==> #[trigger] s[idx] == s0[idx],
    ensures
        forall|k: int|
            0 <= k < hdr_slot_count(s0) && !(slot_off(s0, k) <= x < tup_end(s0, slot_off(s0, k)))
                ==> {
                &&& #[trigger] slot_entry(s0, k) == (tup_key(s, slot_off(s0, k)), tup_val(s, slot_off(s0, k)))
                &&& tup_end(s, slot_off(s0, k)) == tup_end(s0, slot_off(s0, k))
                &&& s[slot_off(s0, k)] == 0
                &&& hdr_free_end(s0) <= slot_off(s0, k)
                &&& tup_end(s0, slot_off(s0, k)) <= PAGE_SIZE
            },
{
    lemma_wf_header(s0);
    assert forall|k: int|
        0 <= k < hdr_slot_count(s0) && !(slot_off(s0, k) <= x < tup_end(s0, slot_off(s0, k))) implies {
        &&& #[trigger] slot_entry(s0, k) == (tup_key(s, slot_off(s0, k)), tup_val(s, slot_off(s0, k)))
        &&& tup_end(s, slot_off(s0, k)) == tup_end(s0, slot_off(s0, k))
        &&& s[slot_off(s0, k)] == 0
        &&& hdr_free_end(s0) <= slot_off(s0, k)
        &&& tup_end(s0, slot_off(s0, k)) <= PAGE_SIZE
    } by {
        lemma_wf_slot(s0, k);
        lemma_tuple_frame(s0, s, slot_off(s0, k));
    }
}

/// Every byte of the tuple region of `s0`, from `fe` to the end of the page, is the same
/// in `s`, but the one at `skip`.
pub open spec fn tuple_region_kept(s0: Seq<u8>, s: Seq<u8>, fe: int, skip: int) -> bool {
    forall|idx: int| fe <= idx < PAGE_SIZE && idx != skip ==> #[trigger] s[idx] == s0[idx]
}

/// The conditions that describe an insertion of the entry `(key, val)` at slot `pos` of
/// `s0`, giving `s`: header counters advanced, slots shifted, the old tuples intact and the
/// new tuple right below the old free end.
#[verifier::opaque]
pub open spec fn insert_image(s0: Seq<u8>, s: Seq<u8>, pos: int, new_off: int, key: Seq<u8>, val: Seq<u8>) -> bool {
    let n = hdr_slot_count(s0);
    &&& pos == key_rank(slot_entries(s0), key)
    &&& !(pos < n && slot_entries(s0)[pos].0 == key)
    &&& new_off == hdr_free_end(s0) - entry_size((key, val))
    &&& slot_pos(n + 1) <= new_off
    &&& s.len() == s0.len()
    &&& u32_at(s, 0) == u32_at(s0, 0)
    &&& u32_at(s, 4) == u32_at(s0, 4)
    &&& u32_at(s, 16) == u32_at(s0, 16)
    &&& u16_at(s, 14) == u16_at(s0, 14)
    &&& u16_at(s, 8) == n + 1
    &&& u16_at(s, 10) == slot_pos(n + 1)
    &&& u16_at(s, 12) == new_off
    &&& forall|j: int| 0 <= j < pos ==> #[trigger] slot_off(s, j) == slot_off(s0, j)
    &&& forall|j: int| pos < j <= n ==> #[trigger] slot_off(s, j) == slot_off(s0, j - 1)
    &&& slot_off(s, pos) == new_off
    &&& tup_end(s, new_off) == hdr_free_end(s0)
    &&& tup_key(s, new_off) == key
    &&& tup_val(s, new_off) == val
    &&& s[new_off] == 0
    &&& forall|k: int|
        0 <= k < n ==> {
            &&& #[trigger] slot_entry(s0, k) == (tup_key(s, slot_off(s0, k)), tup_val(s, slot_off(s0, k)))
            &&& tup_end(s, slot_off(s0, k)) == tup_end(s0, slot_off(s0, k))
            &&& s[slot_off(s0, k)] == 0
        }
}

/// The parts of an insertion image, put together.
proof fn lemma_insert_image_intro(s0: Seq<u8>, s: Seq<u8>, pos: int, new_off: int, key: Seq<u8>, val: Seq<u8>)
    requires
        pos == key_rank(slot_entries(s0), key),
        !(pos < hdr_slot_count(s0) && slot_entries(s0)[pos].0 == key),
        new_off == hdr_free_end(s0) - entry_size((key, val)),
        slot_pos(hdr_slot_count(s0) + 1) <= new_off,
        s.len() == s0.len(),
        u32_at(s, 0) == u32_at(s0, 0),
        u32_at(s, 4) == u32_at(s0, 4),
        u32_at(s, 16) == u32_at(s0, 16),
        u16_at(s, 14) == u16_at(s0, 14),
        u16_at(s, 8) == hdr_slot_count(s0) + 1,
        u16_at(s, 10) == slot_pos(hdr_slot_count(s0) + 1),
        u16_at(s, 12) == new_off,
        forall|j: int| 0 <= j < pos ==> #[trigger] slot_off(s, j) == slot_off(s0, j),
        forall|j: int| pos < j <= hdr_slot_count(s0) ==> #[trigger] slot_off(s, j) == slot_off(s0, j - 1),
        slot_off(s, pos) == new_off,
        tup_end(s, new_off) == hdr_free_end(s0),
        tup_key(s, new_off) == key,
        tup_val(s, new_off) == val,
        s[new_off] == 0,
        forall|k: int|
            0 <= k < hdr_slot_count(s0) ==> {
                &&& #[trigger] slot_entry(s0, k) == (tup_key(s, slot_off(s0, k)), tup_val(s, slot_off(s0, k)))
                &&& tup_end(s, slot_off(s0, k)) == tup_end(s0, slot_off(s0, k))
                &&& s[slot_off(s0, k)] == 0
            },
    ensures
        insert_image(s0, s, pos, new_off, key, val),
{
    reveal(insert_image);
}

#[verifier::spinoff_prover]
proof fn lemma_insert_entries(s0: Seq<u8>, s: Seq<u8>, pos: int, new_off: int, key: Seq<u8>, val: Seq<u8>)
    requires
        layout_wf(s0),
        insert_image(s0, s, pos, new_off, key, val),
    ensures
        slot_entries(s) == slot_entries(s0).insert(pos, (key, val)),
{
    reveal(insert_image);
    let es = slot_entries(s0);
    let n = es.len() as int;
    let t = es.insert(pos, (key, val));
    lemma_wf_header(s0);
    lemma_rank_sorted(es, key);
    assert forall|j: int| 0 <= j < n + 1 implies #[trigger] slot_entry(s, j) == t[j] by {
        if j < pos {
            assert(slot_off(s, j) == slot_off(s0, j));
            assert(es[j] == slot_entry(s0, j));
        } else if j > pos {
            assert(slot_off(s, j) == slot_off(s0, j - 1));
            assert(es[j - 1] == slot_entry(s0, j - 1));
        }
    }
    assert(slot_entries(s) =~= t);
}

#[verifier::spinoff_prover]
proof fn lemma_insert_slot_ok(s0: Seq<u8>, s: Seq<u8>, pos: int, new_off: int, key: Seq<u8>, val: Seq<u8>)
    requires
        layout_wf(s0),
        insert_image(s0, s, pos, new_off, key, val),
    ensures
        forall|i: int| 0 <= i < hdr_slot_count(s0) + 1 ==> #[trigger] slot_ok(s, i),
{
    reveal(insert_image);
    lemma_wf_header(s0);
    lemma_rank_sorted(slot_entries(s0), key);
    assert forall|i: int| 0 <= i < hdr_slot_count(s0) + 1 implies #[trigger] slot_ok(s, i) by {
        if i != pos {
            let k = if i < pos {
                i
            } else {
                i - 1
            };
            assert(slot_off(s, i) == slot_off(s0, k));
            assert(slot_entry(s0, k) == slot_entry(s0, k));
            lemma_wf_slot(s0, k);
        }
    }
}

#[verifier::spinoff_prover]
proof fn lemma_insert_disjoint(s0: Seq<u8>, s: Seq<u8>, pos: int, new_off: int, key: Seq<u8>, val: Seq<u8>)
    requires
        layout_wf(s0),
        insert_image(s0, s, pos, new_off, key, val),
    ensures
        forall|i: int, j: int| 0 <= i < j < hdr_slot_count(s0) + 1 ==> #[trigger] slots_disjoint(s, i, j),
{
    reveal(insert_image);
    lemma_wf_header(s0);
    lemma_rank_sorted(slot_entries(s0), key);
    assert forall|i: int, j: int| 0 <= i < j < hdr_slot_count(s0) + 1 implies #[trigger] slots_disjoint(s, i, j) by {
        let ii = if i < pos {
            i
        } else {
            i - 1
        };
        let jj = if j < pos {
            j
        } else {
            j - 1
        };
        if i != pos {
            assert(slot_off(s, i) == slot_off(s0, ii));
            assert(slot_entry(s0, ii) == slot_entry(s0, ii));
            lemma_wf_slot(s0, ii);
        }
        if j != pos {
            assert(slot_off(s, j) == slot_off(s0, jj));
            assert(slot_entry(s0, jj) == slot_entry(s0, jj));
            lemma_wf_slot(s0, jj);
        }
        if i != pos && j != pos {
            lemma_wf_disjoint(s0, ii, jj);
        }
    }
}

/// The byte-level steps of an insertion produce an insertion image.
#[verifier::spinoff_prover]
proof fn lemma_insert_bytes(
    s0: Seq<u8>,
    s1: Seq<u8>,
    s2: Seq<u8>,
    s3: Seq<u8>,
    s4: Seq<u8>,
    s: Seq<u8>,
    pos: int,
    new_off: int,
    tuple: Seq<u8>,
    key: Seq<u8>,
    val: Seq<u8>,
)
    requires
        layout_wf(s0),
        pos == key_rank(slot_entries(s0), key),
        !(pos < hdr_slot_count(s0) && slot_entries(s0)[pos].0 == key),
        tuple == encode_tuple(0, key, val),
        new_off == hdr_free_end(s0) - tuple.len(),
        slot_pos(hdr_slot_count(s0) + 1) <= new_off,
        s1 == put_u16(s0, 12, new_off),
        unchanged_except(s1, s2, new_off, new_off + tuple.len()),
        forall|idx: int| new_off <= idx < new_off + tuple.len() ==> #[trigger] s2[idx] == tuple[idx - new_off],
        s3 == put_u16(put_u16(s2, 8, hdr_slot_count(s0) + 1), 10, slot_pos(hdr_slot_count(s0) + 1)),
        unchanged_except(s3, s4, slot_pos(pos + 1), slot_pos(hdr_slot_count(s0) + 1)),
        forall|j: int| pos < j <= hdr_slot_count(s0) ==> #[trigger] slot_off(s4, j) == slot_off(s3, j - 1),
        s == put_u16(s4, slot_pos(pos), new_off),
    ensures
        insert_image(s0, s, pos, new_off, key, val),
        tuple_region_kept(s0, s, hdr_free_end(s0), -1),
{
    let n = hdr_slot_count(s0);
    let fe0 = hdr_free_end(s0);
    lemma_wf_header(s0);
    lemma_rank_sorted(slot_entries(s0), key);
    lemma_encode_decode(0, key, val);
    assert forall|idx: int| fe0 <= idx < PAGE_SIZE implies #[trigger] s[idx] == s0[idx] by {
        assert(s[idx] == s4[idx]);
        assert(s4[idx] == s3[idx]);
        assert(s3[idx] == s2[idx]);
        assert(s2[idx] == s1[idx]);
    }
    assert forall|idx: int| new_off <= idx < fe0 implies #[trigger] s[idx] == tuple[idx - new_off] by {
        assert(s[idx] == s4[idx]);
        assert(s4[idx] == s3[idx]);
        assert(s3[idx] == s2[idx]);
    }
    assert forall|j: int| 0 <= j < pos implies #[trigger] slot_off(s, j) == slot_off(s0, j) by {
        assert(s[slot_pos(j)] == s0[slot_pos(j)]);
        assert(s[slot_pos(j) + 1] == s0[slot_pos(j) + 1]);
        lemma_u16_same(s, s0, slot_pos(j));
    }
    assert forall|j: int| pos < j <= n implies #[trigger] slot_off(s, j) == slot_off(s0, j - 1) by {
        assert(slot_off(s4, j) == slot_off(s3, j - 1));
        assert(s[slot_pos(j)] == s4[slot_pos(j)]);
        assert(s[slot_pos(j) + 1] == s4[slot_pos(j) + 1]);
        lemma_u16_same(s, s4, slot_pos(j));
        assert(s3[slot_pos(j - 1)] == s0[slot_pos(j - 1)]);
        assert(s3[slot_pos(j - 1) + 1] == s0[slot_pos(j - 1) + 1]);
        lemma_u16_same(s3, s0, slot_pos(j - 1));
    }
    lemma_u16_round_trip(s4, slot_pos(pos), new_off as u16);
    lemma_u32_same(s, s0, 0);
    lemma_u32_same(s, s0, 4);
    lemma_u32_same(s, s0, 16);
    lemma_u16_same(s, s0, 14);
    lemma_u16_same(s, s3, 8);
    lemma_u16_same(s, s3, 10);
    lemma_u16_same(s, s1, 12);
    lemma_u16_round_trip(put_u16(s2, 8, n + 1), 10, slot_pos(n + 1) as u16);
    lemma_u16_round_trip(s2, 8, (n + 1) as u16);
    lemma_u16_same(s3, put_u16(s2, 8, n + 1), 8);
    lemma_u16_round_trip(s0, 12, new_off as u16);
    lemma_old_tuples(s0, s, -1);
    lemma_written_tuple(s, new_off, key, val, tuple);
    assert(new_off == hdr_free_end(s0) - entry_size((key, val)));
    assert(s.len() == s0.len());
    assert(u16_at(s, 8) == n + 1);
    assert(u16_at(s, 10) == slot_pos(n + 1));
    assert(u16_at(s, 12) == new_off);
    assert(slot_off(s, pos) == new_off);
    assert(tup_end(s, new_off) == hdr_free_end(s0));
    assert(tup_key(s, new_off) == key);
    assert(s[new_off] == 0);
    assert(tup_val(s, new_off) == val);
    assert(u32_at(s, 0) == u32_at(s0, 0));
    assert(u32_at(s, 4) == u32_at(s0, 4));
    assert(u32_at(s, 16) == u32_at(s0, 16));
    assert(u16_at(s, 14) == u16_at(s0, 14));
    assert(slot_pos(n + 1) <= new_off);
    assert(pos == key_rank(slot_entries(s0), key));
    assert(!(pos < n && slot_entries(s0)[pos].0 == key));
    assert(forall|j: int| 0 <= j < pos ==> #[trigger] slot_off(s, j) == slot_off(s0, j));
    assert(forall|j: int| pos < j <= n ==> #[trigger] slot_off(s, j) == slot_off(s0, j - 1));
    assert(forall|k: int|
        0 <= k < n ==> {
            &&& #[trigger] slot_entry(s0, k) == (tup_key(s, slot_off(s0, k)), tup_val(s, slot_off(s0, k)))
            &&& tup_end(s, slot_off(s0, k)) == tup_end(s0, slot_off(s0, k))
            &&& s[slot_off(s0, k)] == 0
        });
    lemma_insert_image_intro(s0, s, pos, new_off, key, val);
}

/// The image `s` is `s0` with the entry `(key, val)` inserted at slot `pos` (see
/// `insert_image`): then `s` is well-formed and holds the entries of `s0` with
/// `(key, val)` inserted at `pos`.
#[verifier::spinoff_prover]
proof fn lemma_insert_layout(s0: Seq<u8>, s: Seq<u8>, pos: int, new_off: int, key: Seq<u8>, val: Seq<u8>)
    requires
        layout_wf(s0),
        insert_image(s0, s, pos, new_off, key, val),
    ensures
        layout_wf(s),
        slot_entries(s) == slot_entries(s0).insert(pos, (key, val)),
        hdr_page_id(s) == hdr_page_id(s0),
        hdr_next_leaf(s) == hdr_next_leaf(s0),
        hdr_dead_bytes(s) == hdr_dead_bytes(s0),
        hdr_free_end(s) == new_off,
{
    reveal(insert_image);
    let es = slot_entries(s0);
    lemma_wf_header(s0);
    lemma_rank_sorted(es, key);
    lemma_insert_entries(s0, s, pos, new_off, key, val);
    lemma_insert_slot_ok(s0, s, pos, new_off, key, val);
    lemma_insert_disjoint(s0, s, pos, new_off, key, val);
    lemma_sorted_insert(es, (key, val));
    lemma_entries_size_insert(es, pos, (key, val));
    lemma_wf_intro(s);
}

/// The conditions that describe overwriting slot `i` of `s0` with the entry `(key, val)`,
/// giving `s`: the old tuple is tombstoned and its bytes counted dead, the new tuple sits
/// right below the old free end, and slot `i` points to it.
pub open spec fn overwrite_image(s0: Seq<u8>, s: Seq<u8>, i: int, new_off: int, key: Seq<u8>, val: Seq<u8>) -> bool {
    let n = hdr_slot_count(s0);
    let old_off = slot_off(s0, i);
    &&& 0 <= i < n
    &&& slot_entries(s0)[i].0 == key
    &&& new_off == hdr_free_end(s0) - entry_size((key, val))
    &&& hdr_free_start(s0) <= new_off
    &&& s.len() == s0.len()
    &&& u32_at(s, 0) == u32_at(s0, 0)
    &&& u32_at(s, 4) == u32_at(s0, 4)
    &&& u32_at(s, 16) == u32_at(s0, 16)
    &&& u16_at(s, 8) == n
    &&& u16_at(s, 10) == hdr_free_start(s0)
    &&& u16_at(s, 12) == new_off
    &&& u16_at(s, 14) == hdr_dead_bytes(s0) + entry_size(slot_entries(s0)[i])
    &&& forall|j: int| 0 <= j < n && j != i ==> #[trigger] slot_off(s, j) == slot_off(s0, j)
    &&& slot_off(s, i) == new_off
    &&& tup_end(s, new_off) == hdr_free_end(s0)
    &&& tup_key(s, new_off) == key
    &&& tup_val(s, new_off) == val
    &&& s[new_off] == 0
    &&& forall|k: int|
        0 <= k < n && k != i ==> {
            &&& #[trigger] slot_entry(s0, k) == (tup_key(s, slot_off(s0, k)), tup_val(s, slot_off(s0, k)))
            &&& tup_end(s, slot_off(s0, k)) == tup_end(s0, slot_off(s0, k))
            &&& s[slot_off(s0, k)] == 0
        }
}

/// The byte-level steps of an overwrite produce an overwrite image.
#[verifier::spinoff_prover]
proof fn lemma_overwrite_bytes(
    s0: Seq<u8>,
    s1: Seq<u8>,
    s2: Seq<u8>,
    s3: Seq<u8>,
    s4: Seq<u8>,
    s: Seq<u8>,
    i: int,
    new_off: int,
    tuple: Seq<u8>,
    key: Seq<u8>,
    val: Seq<u8>,
)
    requires
        layout_wf(s0),
        0 <= i < hdr_slot_count(s0),
        slot_entries(s0)[i].0 == key,
        tuple == encode_tuple(0, key, val),
        new_off == hdr_free_end(s0) - tuple.len(),
        hdr_free_start(s0) <= new_off,
        s1 == s0.update(slot_off(s0, i), 1u8),
        s2 == put_u16(s1, 14, hdr_dead_bytes(s0) + entry_size(slot_entries(s0)[i])),
        s3 == put_u16(s2, 12, new_off),
        unchanged_except(s3, s4, new_off, new_off + tuple.len()),
        forall|idx: int| new_off <= idx < new_off + tuple.len() ==> #[trigger] s4[idx] == tuple[idx - new_off],
        s == put_u16(s4, slot_pos(i), new_off),
    ensures
        overwrite_image(s0, s, i, new_off, key, val),
        tuple_region_kept(s0, s, hdr_free_end(s0), slot_off(s0, i)),
        s[slot_off(s0, i)] == 1,
{
    let n = hdr_slot_count(s0);
    let fe0 = hdr_free_end(s0);
    let old_off = slot_off(s0, i);
    lemma_wf_header(s0);
    lemma_wf_slot(s0, i);
    lemma_encode_decode(0, key, val);
    lemma_entries_size_remove(slot_entries(s0), i);
    lemma_entries_size_nonneg(slot_entries(s0).remove(i));
    assert forall|idx: int| fe0 <= idx < PAGE_SIZE && idx != old_off implies #[trigger] s[idx] == s0[idx] by {
        assert(s[idx] == s4[idx]);
        assert(s4[idx] == s3[idx]);
    }
    assert forall|idx: int| new_off <= idx < fe0 implies #[trigger] s[idx] == tuple[idx - new_off] by {
        assert(s[idx] == s4[idx]);
    }
    assert forall|j: int| 0 <= j < n && j != i implies #[trigger] slot_off(s, j) == slot_off(s0, j) by {
        assert(s[slot_pos(j)] == s0[slot_pos(j)]);
        assert(s[slot_pos(j) + 1] == s0[slot_pos(j) + 1]);
        lemma_u16_same(s, s0, slot_pos(j));
    }
    lemma_u16_round_trip(s4, slot_pos(i), new_off as u16);
    lemma_u32_same(s, s0, 0);
    lemma_u32_same(s, s0, 4);
    lemma_u32_same(s, s0, 16);
    lemma_u16_same(s, s0, 8);
    lemma_u16_same(s, s0, 10);
    lemma_u16_same(s, s3, 12);
    lemma_u16_same(s, s2, 14);
    lemma_u16_round_trip(s2, 12, new_off as u16);
    lemma_u16_round_trip(s1, 14, (hdr_dead_bytes(s0) + entry_size(slot_entries(s0)[i])) as u16);
    lemma_old_tuples(s0, s, old_off);
    assert forall|k: int| 0 <= k < n && k != i implies !(#[trigger] slot_off(s0, k) <= old_off < tup_end(s0, slot_off(s0, k))) by {
        lemma_wf_disjoint(s0, i, k);
    }
    lemma_written_tuple(s, new_off, key, val, tuple);
    assert(u16_at(s, 12) == new_off);
    assert(u16_at(s, 14) == hdr_dead_bytes(s0) + entry_size(slot_entries(s0)[i]));
    assert(slot_off(s, i) == new_off);
    assert(tup_end(s, new_off) == hdr_free_end(s0));
    assert(tup_key(s, new_off) == key);
    assert(tup_val(s, new_off) == val);
    assert(s[new_off] == 0);
    assert(forall|k: int|
        0 <= k < n && k != i ==> {
            &&& #[trigger] slot_entry(s0, k) == (tup_key(s, slot_off(s0, k)), tup_val(s, slot_off(s0, k)))
            &&& tup_end(s, slot_off(s0, k)) == tup_end(s0, slot_off(s0, k))
            &&& s[slot_off(s0, k)] == 0
        });
}

/// An overwrite image (see `overwrite_image`) is well-formed and holds the entries of `s0`
/// with slot `i` replaced by `(key, val)`.
#[verifier::spinoff_prover]
proof fn lemma_overwrite_layout(s0: Seq<u8>, s: Seq<u8>, i: int, new_off: int, key: Seq<u8>, val: Seq<u8>)
    requires
        layout_wf(s0),
        overwrite_image(s0, s, i, new_off, key, val),
    ensures
        layout_wf(s),
        slot_entries(s) == slot_entries(s0).update(i, (key, val)),
        hdr_page_id(s) == hdr_page_id(s0),
        hdr_next_leaf(s) == hdr_next_leaf(s0),
        hdr_dead_bytes(s) == hdr_dead_bytes(s0) + entry_size(slot_entries(s0)[i]),
        hdr_free_end(s) == new_off,
{
    let es = slot_entries(s0);
    let n = es.len() as int;
    let t = es.update(i, (key, val));
    lemma_wf_header(s0);
    assert forall|j: int| 0 <= j < n implies #[trigger] slot_entry(s, j) == t[j] by {
        if j != i {
            assert(slot_off(s, j) == slot_off(s0, j));
            assert(es[j] == slot_entry(s0, j));
        }
    }
    assert(slot_entries(s) =~= t);
    lemma_sorted_update_value(es, i, val);
    assert(t == es.update(i, (es[i].0, val)));
    lemma_entries_size_update(es, i, (key, val));
    lemma_entries_size_nonneg(es.update(i, (key, val)));
    assert forall|j: int| 0 <= j < n implies #[trigger] slot_ok(s, j) by {
        if j != i {
            assert(slot_off(s, j) == slot_off(s0, j));
            assert(slot_entry(s0, j) == slot_entry(s0, j));
            lemma_wf_slot(s0, j);
        }
    }
    assert forall|a: int, b: int| 0 <= a < b < n implies #[trigger] slots_disjoint(s, a, b) by {
        if a != i {
            assert(slot_off(s, a) == slot_off(s0, a));
            assert(slot_entry(s0, a) == slot_entry(s0, a));
            lemma_wf_slot(s0, a);
        }
        if b != i {
            assert(slot_off(s, b) == slot_off(s0, b));
            assert(slot_entry(s0, b) == slot_entry(s0, b));
            lemma_wf_slot(s0, b);
        }
        if a != i && b != i {
            lemma_wf_disjoint(s0, a, b);
        }
    }
    lemma_wf_intro(s);
}

/// The conditions that describe removing slot `i` of `s0`, giving `s`: the tuple is
/// tombstoned and its bytes counted dead, and later slots move down by one.
pub open spec fn remove_image(s0: Seq<u8>, s: Seq<u8>, i: int) -> bool {
    let n = hdr_slot_count(s0);
    &&& 0 <= i < n
    &&& s.len() == s0.len()
    &&& u32_at(s, 0) == u32_at(s0, 0)
    &&& u32_at(s, 4) == u32_at(s0, 4)
    &&& u32_at(s, 16) == u32_at(s0, 16)
    &&& u16_at(s, 8) == n - 1
    &&& u16_at(s, 10) == slot_pos(n - 1)
    &&& u16_at(s, 12) == hdr_free_end(s0)
    &&& u16_at(s, 14) == hdr_dead_bytes(s0) + entry_size(slot_entries(s0)[i])
    &&& forall|j: int| 0 <= j < i ==> #[trigger] slot_off(s, j) == slot_off(s0, j)
    &&& forall|j: int| i <= j < n - 1 ==> #[trigger] slot_off(s, j) == slot_off(s0, j + 1)
    &&& forall|k: int|
        0 <= k < n && k != i ==> {
            &&& #[trigger] slot_entry(s0, k) == (tup_key(s, slot_off(s0, k)), tup_val(s, slot_off(s0, k)))
            &&& tup_end(s, slot_off(s0, k)) == tup_end(s0, slot_off(s0, k))
            &&& s[slot_off(s0, k)] == 0
        }
}

/// The byte-level steps of a removal produce a removal image.
#[verifier::spinoff_prover]
proof fn lemma_remove_bytes(
    s0: Seq<u8>,
    s1: Seq<u8>,
    s2: Seq<u8>,
    s3: Seq<u8>,
    s4: Seq<u8>,
    s: Seq<u8>,
    i: int,
    off: int,
)
    requires
        layout_wf(s0),
        0 <= i < hdr_slot_count(s0),
        off == slot_off(s0, i),
        s1 == s0.update(off, 1u8),
        s2 == put_u16(s1, 14, hdr_dead_bytes(s0) + entry_size(slot_entries(s0)[i])),
        unchanged_except(s2, s3, slot_pos(i), slot_pos(hdr_slot_count(s0) - 1)),
        forall|j: int| i <= j < hdr_slot_count(s0) - 1 ==> #[trigger] slot_off(s3, j) == slot_off(s2, j + 1),
        s4 == put_u16(s3, 8, hdr_slot_count(s0) - 1),
        s == put_u16(s4, 10, slot_pos(hdr_slot_count(s0) - 1)),
    ensures
        remove_image(s0, s, i),
        tuple_region_kept(s0, s, hdr_free_end(s0), off),
        s[off] == 1,
{
    let n = hdr_slot_count(s0);
    lemma_wf_header(s0);
    lemma_wf_slot(s0, i);
    assert forall|idx: int| hdr_free_end(s0) <= idx < PAGE_SIZE && idx != off implies #[trigger] s[idx] == s0[idx] by {
        assert(s[idx] == s3[idx]);
        assert(s3[idx] == s2[idx]);
    }
    lemma_u16_round_trip(s4, 10, slot_pos(n - 1) as u16);
    lemma_u16_round_trip(s3, 8, (n - 1) as u16);
    lemma_u16_same(s, s4, 8);
    assert forall|j: int| 0 <= j < i implies #[trigger] slot_off(s, j) == slot_off(s0, j) by {
        assert(s[slot_pos(j)] == s0[slot_pos(j)]);
        assert(s[slot_pos(j) + 1] == s0[slot_pos(j) + 1]);
        lemma_u16_same(s, s0, slot_pos(j));
    }
    assert forall|j: int| i <= j < n - 1 implies #[trigger] slot_off(s, j) == slot_off(s0, j + 1) by {
        assert(slot_off(s3, j) == slot_off(s2, j + 1));
        assert(s[slot_pos(j)] == s3[slot_pos(j)]);
        assert(s[slot_pos(j) + 1] == s3[slot_pos(j) + 1]);
        lemma_u16_same(s, s3, slot_pos(j));
        assert(s2[slot_pos(j + 1)] == s0[slot_pos(j + 1)]);
        assert(s2[slot_pos(j + 1) + 1] == s0[slot_pos(j + 1) + 1]);
        lemma_u16_same(s2, s0, slot_pos(j + 1));
    }
    lemma_u32_same(s, s0, 0);
    lemma_u32_same(s, s0, 4);
    lemma_u32_same(s, s0, 16);
    lemma_u16_same(s, s0, 12);
    lemma_u16_same(s, s2, 14);
    lemma_entries_size_remove(slot_entries(s0), i);
    lemma_entries_size_nonneg(slot_entries(s0).remove(i));
    lemma_u16_round_trip(s1, 14, (hdr_dead_bytes(s0) + entry_size(slot_entries(s0)[i])) as u16);
    lemma_old_tuples(s0, s, off);
    assert forall|k: int| 0 <= k < n && k != i implies !(#[trigger] slot_off(s0, k) <= off < tup_end(s0, slot_off(s0, k))) by {
        lemma_wf_disjoint(s0, i, k);
    }
    assert(u16_at(s, 14) == hdr_dead_bytes(s0) + entry_size(slot_entries(s0)[i]));
    assert(u16_at(s, 12) == hdr_free_end(s0));
    assert(forall|k: int|
        0 <= k < n && k != i ==> {
            &&& #[trigger] slot_entry(s0, k) == (tup_key(s, slot_off(s0, k)), tup_val(s, slot_off(s0, k)))
            &&& tup_end(s, slot_off(s0, k)) == tup_end(s0, slot_off(s0, k))
            &&& s[slot_off(s0, k)] == 0
        });
}

/// A removal image (see `remove_image`) is well-formed and holds the entries of `s0`
/// without the one at `i`.
#[verifier::spinoff_prover]
proof fn lemma_remove_layout(s0: Seq<u8>, s: Seq<u8>, i: int)
    requires
        layout_wf(s0),
        remove_image(s0, s, i),
    ensures
        layout_wf(s),
        slot_entries(s) == slot_entries(s0).remove(i),
        hdr_page_id(s) == hdr_page_id(s0),
        hdr_next_leaf(s) == hdr_next_leaf(s0),
        hdr_dead_bytes(s) == hdr_dead_bytes(s0) + entry_size(slot_entries(s0)[i]),
        hdr_free_end(s) == hdr_free_end(s0),
{
    let es = slot_entries(s0);
    let n = es.len() as int;
    let t = es.remove(i);
    lemma_wf_header(s0);
    assert forall|j: int| 0 <= j < n - 1 implies #[trigger] slot_entry(s, j) == t[j] by {
        if j < i {
            assert(slot_off(s, j) == slot_off(s0, j));
            assert(es[j] == slot_entry(s0, j));
        } else {
            assert(slot_off(s, j) == slot_off(s0, j + 1));
            assert(es[j + 1] == slot_entry(s0, j + 1));
        }
    }
    assert(slot_entries(s) =~= t);
    lemma_sorted_remove(es, i);
    lemma_entries_size_remove(es, i);
    lemma_entries_size_nonneg(t);
    assert forall|j: int| 0 <= j < n - 1 implies #[trigger] slot_ok(s, j) by {
        let k = if j < i {
            j
        } else {
            j + 1
        };
        assert(slot_off(s, j) == slot_off(s0, k));
        assert(slot_entry(s0, k) == slot_entry(s0, k));
        lemma_wf_slot(s0, k);
    }
    assert forall|a: int, b: int| 0 <= a < b < n - 1 implies #[trigger] slots_disjoint(s, a, b) by {
        let aa = if a < i {
            a
        } else {
            a + 1
        };
        let bb = if b < i {
            b
        } else {
            b + 1
        };
        assert(slot_off(s, a) == slot_off(s0, aa));
        assert(slot_entry(s0, aa) == slot_entry(s0, aa));
        assert(slot_off(s, b) == slot_off(s0, bb));
        assert(slot_entry(s0, bb) == slot_entry(s0, bb));
        lemma_wf_disjoint(s0, aa, bb);
    }
    lemma_wf_intro(s);
}

/// Result of a binary search over the slot array.
#[derive(Debug, Clone, Copy, PartialEq, Eq, Structural)]
enum SearchResult {
    Found(usize),
    NotFound(usize),
}

/// An 8 KB slotted page.
#[derive(Debug)]
pub struct Page {
    data: [u8; PAGE_SIZE],
    dead_tuple_compact_percent: u8,
}

impl Clone for Page {
    fn clone(&self) -> (r: Self)
        ensures
            r == *self,
    {
        Page { data: self.data, dead_tuple_compact_percent: self.dead_tuple_compact_percent }
    }
}

impl View for Page {
    type V = PageView;

    open spec fn view(&self) -> PageView {
        page_view(self.bytes(), self.compact_percent())
    }
}

impl Page {
    pub const SLOT_SIZE: usize = 2;

    pub const DEFAULT_DEAD_TUPLE_COMPACT_PERCENT: u8 = 75;

    /// The raw page image.
    pub closed spec fn bytes(&self) -> Seq<u8> {
        self.data@
    }

    /// The dead-tuple compaction threshold, in percent of the tuple region.
    pub closed spec fn compact_percent(&self) -> u8 {
        self.dead_tuple_compact_percent
    }

    /// The page image satisfies the layout invariant and the threshold is in 1..=100.
    pub open spec fn wf(&self) -> bool {
        &&& layout_wf(self.bytes())
        &&& 1 <= self.compact_percent() <= 100
    }

    /// The view of a well-formed page is valid.
    pub proof fn lemma_view_valid(&self)
        requires
            self.wf(),
        ensures
            self@.valid(),
    {
        lemma_wf_header(self.bytes());
    }

    fn set_u16(&mut self, off: usize, v: u16)
        requires
            off + 2 <= PAGE_SIZE,
        ensures
            final(self).bytes() == put_u16(old(self).bytes(), off as int, v as int),
            u16_at(final(self).bytes(), off as int) == v,
            final(self).compact_percent() == old(self).compact_percent(),
    {
        write_u16(&mut self.data, off, v);
    }

    fn set_u32(&mut self, off: usize, v: u32)
        requires
            off + 4 <= PAGE_SIZE,
        ensures
            final(self).bytes() == put_u32(old(self).bytes(), off as int, v as int),
            u32_at(final(self).bytes(), off as int) == v,
            final(self).compact_percent() == old(self).compact_percent(),
    {
        write_u32(&mut self.data, off, v);
    }

    // -----------------------------
    // Construction
    // -----------------------------
    /// Creates a fresh, empty page: writes the magic, the page ID, and the initial
    /// free-space pointers.
    pub fn new(page_id: u32) -> (p: Self)
        ensures
            p.wf(),
            p@ == PageView::fresh(page_id as int),
    {
        proof {
            reveal(u16_at);
            reveal(u32_at);
        }
        reveal(layout_wf);
        let mut p = Page {
            data: [0u8; 8192],
            dead_tuple_compact_percent: Self::DEFAULT_DEAD_TUPLE_COMPACT_PERCENT,
        };
        let ghost s0 = p.bytes();
        p.set_u32(HDR_MAGIC_OFF, PAGE_MAGIC);
        let ghost s1 = p.bytes();
        p.set_u32(HDR_PAGE_ID_OFF, page_id);
        let ghost s2 = p.bytes();
        p.set_u16(HDR_SLOT_CNT_OFF, 0);
        let ghost s3 = p.bytes();
        p.set_u16(HDR_FREE_START_OFF, HEADER_SIZE as u16);
        let ghost s4 = p.bytes();
        p.set_u16(HDR_FREE_END_OFF, PAGE_SIZE as u16);
        let ghost s5 = p.bytes();
        p.set_u16(HDR_DEAD_BYTES_OFF, 0);
        let ghost s6 = p.bytes();
        p.set_u32(HDR_NEXT_LEAF_PAGE_ID_OFF, 0);
        proof {
            let s = p.bytes();
            assert(u32_at(s, 0) == u32_at(s1, 0));
            assert(u32_at(s, 4) == u32_at(s2, 4));
            assert(u16_at(s, 8) == u16_at(s3, 8));
            assert(u16_at(s, 10) == u16_at(s4, 10));
            assert(u16_at(s, 12) == u16_at(s5, 12));
            assert(u16_at(s, 14) == u16_at(s6, 14));
            assert(slot_entries(s) =~= Seq::<Entry>::empty());
        }
        p
    }

    /// Sets the dead-tuple compaction threshold, clamped to 1..=100 percent.
    pub fn set_dead_tuple_compact_percent(&mut self, percent: u8)
        ensures
            final(self).bytes() == old(self).bytes(),
            final(self).compact_percent() == (if percent < 1 {
                1
            } else if percent > 100 {
                100
            } else {
                percent
            }),
    {
        self.dead_tuple_compact_percent = if percent < 1 {
            1
        } else if percent > 100 {
            100
        } else {
            percent
        };
    }

    // -----------------------------
    // Header access
    // -----------------------------
    /// Number of slots (records) the page tracks.
    pub fn slot_count(&self) -> (r: u16)
        ensures
            r == hdr_slot_count(self.bytes()),
            r == self@.entries.len(),
    {
        read_u16(&self.data, HDR_SLOT_CNT_OFF)
    }

    /// Byte offset where free space starts (right after the slot array).
    pub fn free_start(&self) -> (r: u16)
        ensures
            r == hdr_free_start(self.bytes()),
    {
        read_u16(&self.data, HDR_FREE_START_OFF)
    }

    /// Byte offset where free space ends (right before the tuple region).
    pub fn free_end(&self) -> (r: u16)
        ensures
            r == hdr_free_end(self.bytes()),
    {
        read_u16(&self.data, HDR_FREE_END_OFF)
    }

    /// Bytes held by dead (tombstoned) tuples.
    pub fn dead_tuple_bytes(&self) -> (r: u16)
        ensures
            r == hdr_dead_bytes(self.bytes()),
    {
        read_u16(&self.data, HDR_DEAD_BYTES_OFF)
    }

    fn set_dead_tuple_bytes(&mut self, dead_bytes: u16)
        ensures
            final(self).bytes() == put_u16(old(self).bytes(), 14, dead_bytes as int),
            final(self).compact_percent() == old(self).compact_percent(),
    {
        self.set_u16(HDR_DEAD_BYTES_OFF, dead_bytes);
    }

    /// The page's ID.
    pub fn page_id(&self) -> (r: u32)
        ensures
            r == hdr_page_id(self.bytes()),
    {
        read_u32(&self.data, HDR_PAGE_ID_OFF)
    }

    /// The right sibling's page ID, or `None` when the stored ID is 0.
    pub fn next_leaf_page_id(&self) -> (r: Option<u32>)
        ensures
            r == (if hdr_next_leaf(self.bytes()) == 0 {
                None
            } else {
                Some(hdr_next_leaf(self.bytes()) as u32)
            }),
    {
        let v = read_u32(&self.data, HDR_NEXT_LEAF_PAGE_ID_OFF);
        if v == 0 {
            None
        } else {
            Some(v)
        }
    }

    /// Stores the right sibling's page ID (`None` is stored as 0).
    pub fn set_next_leaf_page_id(&mut self, next: Option<u32>)
        ensures
            final(self).bytes() == put_u32(old(self).bytes(), 16, sibling_id(next)),
            final(self).compact_percent() == old(self).compact_percent(),
            old(self).wf() ==> final(self).wf(),
            old(self).wf() ==> final(self)@ == old(self)@.with_next_leaf(sibling_id(next)),
    {
        let ghost s0 = self.bytes();
        let v = match next {
            Some(n) => n,
            None => 0,
        };
        self.set_u32(HDR_NEXT_LEAF_PAGE_ID_OFF, v);
        proof {
            reveal(u32_at);
            reveal(u16_at);
            if layout_wf(s0) {
                lemma_wf_header(s0);
                lemma_same_body(s0, self.bytes());
            }
        }
    }

    /// Free bytes on the page (`free_end - free_start`).
    pub fn free_space_bytes(&self) -> (r: usize)
        requires
            hdr_free_start(self.bytes()) <= hdr_free_end(self.bytes()),
        ensures
            r == hdr_free_end(self.bytes()) - hdr_free_start(self.bytes()),
            self.wf() ==> r == self@.free_space(),
    {
        proof {
            if self.wf() {
                lemma_wf_header(self.bytes());
            }
        }
        self.free_end() as usize - self.free_start() as usize
    }

    fn tuple_region_used_bytes(&self) -> (r: usize)
        requires
            hdr_free_end(self.bytes()) <= PAGE_SIZE,
        ensures
            r == PAGE_SIZE - hdr_free_end(self.bytes()),
    {
        PAGE_SIZE - self.free_end() as usize
    }

    /// Performs basic sanity checks: a valid magic number and consistent free-space and
    /// dead-byte bounds.
    pub fn validate_basic(&self) -> (r: Result<(), &'static str>)
        requires
            hdr_magic(self.bytes()) != PAGE_MAGIC || hdr_free_start(self.bytes()) > hdr_free_end(
                self.bytes(),
            ) || hdr_free_end(self.bytes()) <= PAGE_SIZE,
        ensures
            r is Ok <==> {
                &&& hdr_magic(self.bytes()) == PAGE_MAGIC
                &&& hdr_free_start(self.bytes()) <= hdr_free_end(self.bytes())
                &&& hdr_dead_bytes(self.bytes()) <= PAGE_SIZE - hdr_free_end(self.bytes())
            },
            r matches Err(e) ==> (if hdr_magic(self.bytes()) != PAGE_MAGIC {
                e == "bad magic"
            } else if hdr_free_start(self.bytes()) > hdr_free_end(self.bytes()) {
                e == "free_start > free_end"
            } else {
                e == "dead_tuple_bytes > tuple_region_used_bytes"
            }),
            self.wf() ==> r is Ok,
    {
        reveal(layout_wf);
        proof {
            if self.wf() {
                lemma_entries_size_nonneg(slot_entries(self.bytes()));
            }
        }
        if read_u32(&self.data, HDR_MAGIC_OFF) != PAGE_MAGIC {
            return Err("bad magic");
        }
        if self.free_start() > self.free_end() {
            return Err("free_start > free_end");
        }
        if self.dead_tuple_bytes() as usize > self.tuple_region_used_bytes() {
            return Err("dead_tuple_bytes > tuple_region_used_bytes");
        }
        Ok(())
    }

    // -----------------------------
    // Slot array (u16 offsets)
    // -----------------------------
    /// Byte offset of slot `i` within the page.
    fn slot_byte_off(i: usize) -> (r: usize)
        requires
            i <= 4086,
        ensures
            r == slot_pos(i as int),
    {
        HEADER_SIZE + i * Self::SLOT_SIZE
    }

    /// The tuple offset stored in slot `i`.
    pub fn read_slot(&self, i: usize) -> (r: u16)
        requires
            slot_pos(i as int) + 2 <= PAGE_SIZE,
        ensures
            r == slot_off(self.bytes(), i as int),
    {
        read_u16(&self.data, Self::slot_byte_off(i))
    }

    /// Stores a tuple offset into slot `i`; this is how a slot points to a tuple.
    pub fn write_slot(&mut self, i: usize, tuple_off: u16)
        requires
            slot_pos(i as int) + 2 <= PAGE_SIZE,
        ensures
            final(self).bytes() == put_u16(old(self).bytes(), slot_pos(i as int), tuple_off as int),
            slot_off(final(self).bytes(), i as int) == tuple_off,
            final(self).compact_percent() == old(self).compact_percent(),
    {
        self.set_u16(Self::slot_byte_off(i), tuple_off);
    }

    /// Claims one more slot: bumps the slot count and free start, and returns the new slot's
    /// index. Fails when the slot array would run into the tuple region.
    pub fn alloc_slot(&mut self) -> (r: Result<usize, &'static str>)
        ensures
            final(self).compact_percent() == old(self).compact_percent(),
            ({
                let s = old(self).bytes();
                let cnt = hdr_slot_count(s);
                if slot_pos(cnt + 1) > hdr_free_end(s) {
                    r == Err::<usize, &'static str>("no space for slot") && final(self).bytes()
                        == s
                } else {
                    r == Ok::<usize, &'static str>(cnt as usize) && final(self).bytes() == put_u16(
                        put_u16(s, 8, cnt + 1),
                        10,
                        slot_pos(cnt + 1),
                    ) && hdr_slot_count(final(self).bytes()) == cnt + 1 && hdr_free_start(
                        final(self).bytes(),
                    ) == slot_pos(cnt + 1)
                }
            }),
    {
        let cnt = self.slot_count() as usize;
        let new_cnt = cnt + 1;
        let new_free_start = HEADER_SIZE + new_cnt * Self::SLOT_SIZE;
        if new_free_start > self.free_end() as usize {
            return Err("no space for slot");
        }
        self.set_u16(HDR_SLOT_CNT_OFF, new_cnt as u16);
        let ghost mid = self.bytes();
        self.set_u16(HDR_FREE_START_OFF, new_free_start as u16);
        proof {
            lemma_u16_same(self.bytes(), mid, 8);
        }
        Ok(cnt)
    }

    // -----------------------------
    // Tuple format (self-describing)
    // -----------------------------
    //   tombstone: u8 (0 = live, 1 = deleted), key_len: u16, val_len: u16, key, val
    const TUP_HDR_SIZE: usize = 5;

    /// Total tuple bytes needed for the given key and value lengths.
    pub fn tuple_len(key_len: usize, val_len: usize) -> (r: usize)
        requires
            5 + key_len + val_len <= usize::MAX,
        ensures
            r == 5 + key_len + val_len,
    {
        Self::TUP_HDR_SIZE + key_len + val_len
    }

    /// Reserves `len` bytes at the bottom of the free region and returns their offset.
    /// Fails when the free region is smaller than `len`.
    pub fn alloc_tuple(&mut self, len: usize) -> (r: Result<u16, &'static str>)
        requires
            hdr_free_start(old(self).bytes()) <= hdr_free_end(old(self).bytes()),
        ensures
            final(self).compact_percent() == old(self).compact_percent(),
            ({
                let s = old(self).bytes();
                let fe = hdr_free_end(s);
                if len > fe - hdr_free_start(s) {
                    r == Err::<u16, &'static str>("no space for tuple") && final(self).bytes() == s
                } else {
                    r == Ok::<u16, &'static str>((fe - len) as u16) && final(self).bytes()
                        == put_u16(s, 12, fe - len) && hdr_free_end(final(self).bytes()) == fe - len
                }
            }),
    {
        let fe = self.free_end() as usize;
        let fs = self.free_start() as usize;
        if len > fe - fs {
            return Err("no space for tuple");
        }
        let new_fe = fe - len;
        self.set_u16(HDR_FREE_END_OFF, new_fe as u16);
        Ok(new_fe as u16)
    }

    /// Copies `bytes` into the page starting at `off`.
    fn copy_into(&mut self, off: usize, bytes: &[u8])
        requires
            off + bytes@.len() <= PAGE_SIZE,
        ensures
            unchanged_except(old(self).bytes(), final(self).bytes(), off as int, off + bytes@.len()),
            forall|idx: int|
                off <= idx < off + bytes@.len() ==> #[trigger] final(self).bytes()[idx]
                    == bytes@[idx - off],
            final(self).compact_percent() == old(self).compact_percent(),
    {
        let mut k: usize = 0;
        while k < bytes.len()
            invariant
                off + bytes@.len() <= PAGE_SIZE,
                k <= bytes@.len(),
                unchanged_except(old(self).bytes(), self.bytes(), off as int, off + bytes@.len()),
                forall|idx: int| off <= idx < off + k ==> #[trigger] self.bytes()[idx] == bytes@[idx - off],
                self.compact_percent() == old(self).compact_percent(),
            decreases bytes@.len() - k,
        {
            self.data[off + k] = bytes[k];
            k = k + 1;
        }
    }

    /// Writes one tuple at `off`: tombstone flag, key length, value length, key bytes and
    /// value bytes.
    pub fn write_tuple(&mut self, off: u16, tombstone: u8, key: &[u8], val: &[u8])
        requires
            off + 5 + key@.len() + val@.len() <= PAGE_SIZE,
        ensures
            unchanged_except(
                old(self).bytes(),
                final(self).bytes(),
                off as int,
                off + 5 + key@.len() + val@.len(),
            ),
            forall|idx: int|
                off <= idx < off + 5 + key@.len() + val@.len() ==> #[trigger] final(self).bytes()[idx]
                    == encode_tuple(tombstone, key@, val@)[idx - off],
            final(self).compact_percent() == old(self).compact_percent(),
    {
        let o = off as usize;
        let ghost s0 = self.bytes();
        self.data[o] = tombstone;
        self.set_u16(o + 1, key.len() as u16);
        self.set_u16(o + 3, val.len() as u16);
        let ghost s3 = self.bytes();
        let ks = o + Self::TUP_HDR_SIZE;
        self.copy_into(ks, key);
        let vs = ks + key.len();
        let ghost s4 = self.bytes();
        self.copy_into(vs, val);
        proof {
            let enc = encode_tuple(tombstone, key@, val@);
            let s = self.bytes();
            assert forall|idx: int| off <= idx < off + 5 + key@.len() + val@.len() implies #[trigger] s[idx] == enc[idx - off] by {
                if idx >= vs {
                } else if idx >= ks {
                    assert(s[idx] == s4[idx]);
                } else {
                    assert(s[idx] == s4[idx]);
                    assert(s4[idx] == s3[idx]);
                }
            }
        }
    }

    /// The key bytes of the tuple at `off`.
    pub fn read_key(&self, off: usize) -> (r: &[u8])
        requires
            off + 5 + tup_klen(self.bytes(), off as int) <= PAGE_SIZE,
        ensures
            r@ == tup_key(self.bytes(), off as int),
    {
        let klen = read_u16(&self.data, off + 1) as usize;
        let start = off + Self::TUP_HDR_SIZE;
        &self.data[start..start + klen]
    }

    /// The full raw page image (useful for I/O).
    pub fn as_bytes(&self) -> (r: &[u8; PAGE_SIZE])
        ensures
            r@ == self.bytes(),
    {
        &self.data
    }

    /// The tombstone flag of the tuple at `off` (`0` live, `1` deleted).
    pub fn read_tuple_tombstone(&self, off: usize) -> (r: u8)
        requires
            off < PAGE_SIZE,
        ensures
            r == self.bytes()[off as int],
    {
        self.data[off]
    }

    /// The key length in the header of the tuple at `off`.
    pub fn read_tuple_key_len(&self, off: usize) -> (r: usize)
        requires
            off + 3 <= PAGE_SIZE,
        ensures
            r == tup_klen(self.bytes(), off as int),
    {
        read_u16(&self.data, off + 1) as usize
    }

    /// The value length in the header of the tuple at `off`.
    pub fn read_tuple_val_len(&self, off: usize) -> (r: usize)
        requires
            off + 5 <= PAGE_SIZE,
        ensures
            r == tup_vlen(self.bytes(), off as int),
    {
        read_u16(&self.data, off + 3) as usize
    }

    /// The value bytes of the tuple at `off`.
    pub fn read_tuple_val(&self, off: usize) -> (r: &[u8])
        requires
            tup_end(self.bytes(), off as int) <= PAGE_SIZE,
        ensures
            r@ == tup_val(self.bytes(), off as int),
    {
        let klen = self.read_tuple_key_len(off);
        let vlen = self.read_tuple_val_len(off);
        let start = off + Self::TUP_HDR_SIZE + klen;
        &self.data[start..start + vlen]
    }

    /// Binary-searches the sorted slots for `key`: `Found(i)` when slot `i` holds it,
    /// otherwise `NotFound(p)` with `p` the position where it belongs.
    fn find_slot(&self, key: &[u8]) -> (r: SearchResult)
        requires
            self.wf(),
        ensures
            match r {
                SearchResult::Found(i) => self@.contains(key@) && i == self@.rank(key@),
                SearchResult::NotFound(p) => !self@.contains(key@) && p == self@.rank(key@),
            },
    {
        proof {
            reveal(u16_at);
            reveal(u32_at);
        }
        reveal(layout_wf);
        let ghost s = self.bytes();
        let ghost es = slot_entries(s);
        let search_key = Key::from(key);
        let mut lo: usize = 0;
        let mut hi: usize = self.slot_count() as usize;
        while lo < hi
            invariant
                self.wf(),
                s == self.bytes(),
                es == slot_entries(s),
                search_key.data() == key,
                lo <= hi <= es.len(),
                forall|i: int| 0 <= i < lo ==> lex_lt(#[trigger] es[i].0, key@),
                forall|i: int| hi <= i < es.len() ==> lex_lt(key@, #[trigger] es[i].0),
            decreases hi - lo,
        {
            let mid = (lo + hi) / 2;
            proof {
                reveal(layout_wf);
            }
            let tuple_off = self.read_slot(mid) as usize;
            proof {
                reveal(u16_at);
                assert(slot_ok(s, mid as int));
            }
            let tuple = Tuple::from(&self.data[tuple_off..PAGE_SIZE]);
            proof {
                assert(tuple.data@ == s.subrange(tuple_off as int, PAGE_SIZE as int));
                assert(tuple.data@[1] == s[tuple_off + 1]);
                assert(tuple.data@[2] == s[tuple_off + 2]);
            }
            let mid_key = tuple.key();
            proof {
                assert(mid_key.data()@ =~= es[mid as int].0);
            }
            match mid_key.compare(&search_key) {
                KeyOrder::Equal => {
                    proof {
                        lemma_rank_of_present(es, mid as int);
                    }
                    return SearchResult::Found(mid);
                },
                KeyOrder::Less => {
                    proof {
                        assert forall|i: int| 0 <= i < mid + 1 implies lex_lt(
                            #[trigger] es[i].0,
                            key@,
                        ) by {
                            if i < mid {
                                lemma_lex_transitive(es[i].0, es[mid as int].0, key@);
                            }
                        }
                    }
                    lo = mid + 1;
                },
                KeyOrder::Greater => {
                    proof {
                        assert forall|i: int| mid <= i < es.len() implies lex_lt(
                            key@,
                            #[trigger] es[i].0,
                        ) by {
                            if i > mid {
                                lemma_lex_transitive(key@, es[mid as int].0, es[i].0);
                            }
                        }
                    }
                    hi = mid;
                },
            }
        }
        proof {
            reveal(layout_wf);
            assert forall|i: int| lo <= i < es.len() implies !lex_lt(#[trigger] es[i].0, key@) by {
                lemma_lex_asymmetric(key@, es[i].0);
            }
            lemma_rank_unique(es, key@, lo as int);
            if lo < es.len() {
                lemma_lex_irreflexive(key@);
            }
        }
        SearchResult::NotFound(lo)
    }

    /// Looks up `key`; returns its value bytes when present and not tombstoned.
    pub fn get(&self, key: &[u8]) -> (r: Option<&[u8]>)
        requires
            self.wf(),
        ensures
            match r {
                Some(v) => self@.lookup(key@) == Some(v@),
                None => self@.lookup(key@) == None::<Seq<u8>>,
            },
    {
        reveal(layout_wf);
        match self.find_slot(key) {
            SearchResult::Found(i) => {
                let off = self.read_slot(i) as usize;
                proof {
                    assert(slot_ok(self.bytes(), i as int));
                }
                if self.read_tuple_tombstone(off) == 1 {
                    None
                } else {
                    Some(self.read_tuple_val(off))
                }
            },
            SearchResult::NotFound(_) => None,
        }
    }

    /// The key and value at slot index `slot_idx`; `None` past the last slot or for a
    /// tombstoned tuple.
    pub fn get_key_value_at_slot(&self, slot_idx: usize) -> (r: Option<(&[u8], &[u8])>)
        requires
            self.wf(),
        ensures
            match r {
                Some(kv) => slot_idx < self@.entries.len() && self@.entries[slot_idx as int] == (
                kv.0@, kv.1@),
                None => slot_idx >= self@.entries.len(),
            },
    {
        reveal(layout_wf);
        if slot_idx >= self.slot_count() as usize {
            return None;
        }
        let off = self.read_slot(slot_idx) as usize;
        proof {
            assert(slot_ok(self.bytes(), slot_idx as int));
        }
        if self.read_tuple_tombstone(off) == 1 {
            return None;
        }
        Some((self.read_key(off), self.read_tuple_val(off)))
    }

    fn add_dead_tuple_bytes(&mut self, dead_len: usize)
        ensures
            final(self).bytes() == put_u16(
                old(self).bytes(),
                14,
                if hdr_dead_bytes(old(self).bytes()) + dead_len > 65535 {
                    65535
                } else {
                    hdr_dead_bytes(old(self).bytes()) + dead_len
                },
            ),
            final(self).compact_percent() == old(self).compact_percent(),
    {
        let current = self.dead_tuple_bytes() as usize;
        let next: u16 = if dead_len > 65535 - current {
            65535
        } else {
            (current + dead_len) as u16
        };
        self.set_dead_tuple_bytes(next);
    }

    /// Moves slots `pos..cnt` one position right, to `pos + 1..cnt + 1`.
    fn shift_slots_right(&mut self, pos: usize, cnt: usize)
        requires
            pos <= cnt,
            slot_pos(cnt + 1) <= PAGE_SIZE,
        ensures
            unchanged_except(
                old(self).bytes(),
                final(self).bytes(),
                slot_pos(pos + 1),
                slot_pos(cnt + 1),
            ),
            forall|j: int|
                pos < j <= cnt ==> #[trigger] slot_off(final(self).bytes(), j) == slot_off(
                    old(self).bytes(),
                    j - 1,
                ),
            final(self).compact_percent() == old(self).compact_percent(),
    {
        proof {
            reveal(u16_at);
            reveal(u32_at);
        }
        let ghost s0 = self.bytes();
        let mut i = cnt;
        while i > pos
            invariant
                pos <= i <= cnt,
                slot_pos(cnt + 1) <= PAGE_SIZE,
                unchanged_except(s0, self.bytes(), slot_pos(i + 1), slot_pos(cnt + 1)),
                forall|j: int| i < j <= cnt ==> #[trigger] slot_off(self.bytes(), j) == slot_off(s0, j - 1),
                self.compact_percent() == old(self).compact_percent(),
            decreases i - pos,
        {
            let v = self.read_slot(i - 1);
            let ghost before = self.bytes();
            proof {
                reveal(u16_at);
                assert(before[slot_pos(i - 1)] == s0[slot_pos(i - 1)]);
                assert(before[slot_pos(i - 1) + 1] == s0[slot_pos(i - 1) + 1]);
            }
            self.write_slot(i, v);
            proof {
                reveal(u16_at);
                let after = self.bytes();
                assert forall|j: int| i - 1 < j <= cnt implies #[trigger] slot_off(after, j) == slot_off(s0, j - 1) by {
                    if j > i {
                        assert(slot_off(after, j) == slot_off(before, j));
                    }
                }
            }
            i = i - 1;
        }
    }

    /// Moves slots `i + 1..cnt` one position left, to `i..cnt - 1`.
    fn shift_slots_left(&mut self, i: usize, cnt: usize)
        requires
            i < cnt,
            slot_pos(cnt as int) <= PAGE_SIZE,
        ensures
            unchanged_except(old(self).bytes(), final(self).bytes(), slot_pos(i as int), slot_pos(cnt - 1)),
            forall|j: int|
                i <= j < cnt - 1 ==> #[trigger] slot_off(final(self).bytes(), j) == slot_off(
                    old(self).bytes(),
                    j + 1,
                ),
            final(self).compact_percent() == old(self).compact_percent(),
    {
        proof {
            reveal(u16_at);
            reveal(u32_at);
        }
        let ghost s0 = self.bytes();
        let mut j = i + 1;
        while j < cnt
            invariant
                i + 1 <= j <= cnt,
                slot_pos(cnt as int) <= PAGE_SIZE,
                unchanged_except(s0, self.bytes(), slot_pos(i as int), slot_pos(j - 1)),
                forall|k: int| i <= k < j - 1 ==> #[trigger] slot_off(self.bytes(), k) == slot_off(s0, k + 1),
                self.compact_percent() == old(self).compact_percent(),
            decreases cnt - j,
        {
            let v = self.read_slot(j);
            let ghost before = self.bytes();
            proof {
                reveal(u16_at);
                assert(before[slot_pos(j as int)] == s0[slot_pos(j as int)]);
                assert(before[slot_pos(j as int) + 1] == s0[slot_pos(j as int) + 1]);
            }
            self.write_slot(j - 1, v);
            proof {
                reveal(u16_at);
                let after = self.bytes();
                assert forall|k: int| i <= k < j implies #[trigger] slot_off(after, k) == slot_off(s0, k + 1) by {
                    if k < j - 1 {
                        assert(slot_off(after, k) == slot_off(before, k));
                    }
                }
            }
            j = j + 1;
        }
    }

    /// Appends `tuple` (the encoding of a live `key`/`val`) to the tuple region and adds a
    /// slot for it at position `pos`, the key's sorted position.
    #[verifier::spinoff_prover]
    fn insert_tuple_at(
        &mut self,
        pos: usize,
        tuple: &[u8],
        Ghost(key): Ghost<Seq<u8>>,
        Ghost(val): Ghost<Seq<u8>>,
    )
        requires
            old(self).wf(),
            pos == old(self)@.rank(key),
            !old(self)@.contains(key),
            tuple@ == encode_tuple(0, key, val),
            old(self)@.free_space() >= entry_size((key, val)) + 2,
        ensures
            final(self).wf(),
            final(self)@ == (PageView {
                entries: old(self)@.entries.insert(pos as int, (key, val)),
                free_end: old(self)@.free_end - entry_size((key, val)),
                ..old(self)@
            }),
            insert_image(
                old(self).bytes(),
                final(self).bytes(),
                pos as int,
                old(self)@.free_end - entry_size((key, val)),
                key,
                val,
            ),
            tuple_region_kept(old(self).bytes(), final(self).bytes(), old(self)@.free_end, -1),
    {
        let ghost s0 = self.bytes();
        let ghost es = slot_entries(s0);
        let ghost n = es.len() as int;
        let ghost fe0 = hdr_free_end(s0);
        let ghost len = entry_size((key, val));
        proof {
            lemma_wf_header(s0);
            lemma_rank_sorted(es, key);
            lemma_encode_decode(0, key, val);
        }
        let new_off = self.alloc_tuple(tuple.len()).unwrap() as usize;
        let ghost s1 = self.bytes();
        self.copy_into(new_off, tuple);
        let ghost s2 = self.bytes();
        proof {
            lemma_u16_same(s2, s0, 8);
            lemma_u16_same(s2, s1, 12);
        }
        let slot_idx = self.alloc_slot().unwrap();
        let ghost s3 = self.bytes();
        self.shift_slots_right(pos, slot_idx);
        let ghost s4 = self.bytes();
        self.write_slot(pos, new_off as u16);
        proof {
            let s = self.bytes();
            lemma_insert_bytes(s0, s1, s2, s3, s4, s, pos as int, new_off as int, tuple@, key, val);
            lemma_insert_layout(s0, s, pos as int, new_off as int, key, val);
        }
    }

    /// Replaces the value of the entry at slot `i`: tombstones the old tuple, counts its
    /// bytes dead, appends `tuple` (the encoding of `key`/`val`) and points slot `i` at it.
    /// Returns the old value.
    #[verifier::spinoff_prover]
    fn overwrite_at(
        &mut self,
        i: usize,
        tuple: &[u8],
        Ghost(key): Ghost<Seq<u8>>,
        Ghost(val): Ghost<Seq<u8>>,
    ) -> (old_val: Vec<u8>)
        requires
            old(self).wf(),
            old(self)@.contains(key),
            i == old(self)@.rank(key),
            tuple@ == encode_tuple(0, key, val),
            old(self)@.free_space() >= entry_size((key, val)),
        ensures
            final(self).wf(),
            final(self)@ == (PageView {
                entries: old(self)@.entries.update(i as int, (key, val)),
                dead_bytes: old(self)@.dead_bytes + entry_size(old(self)@.entries[i as int]),
                free_end: old(self)@.free_end - entry_size((key, val)),
                ..old(self)@
            }),
            old_val@ == old(self)@.entries[i as int].1,
            overwrite_image(
                old(self).bytes(),
                final(self).bytes(),
                i as int,
                old(self)@.free_end - entry_size((key, val)),
                key,
                val,
            ),
            tuple_region_kept(old(self).bytes(), final(self).bytes(), old(self)@.free_end, slot_off(old(self).bytes(), i as int)),
            final(self).bytes()[slot_off(old(self).bytes(), i as int)] == 1,
    {
        let ghost s0 = self.bytes();
        let ghost es = slot_entries(s0);
        proof {
            lemma_wf_header(s0);
            lemma_encode_decode(0, key, val);
            lemma_wf_slot(s0, i as int);
        }
        let old_off = self.read_slot(i) as usize;
        let old_val = vstd::slice::slice_to_vec(self.read_tuple_val(old_off));
        self.data[old_off] = 1;
        let ghost s1 = self.bytes();
        let total = self.tuple_total_len(old_off);
        proof {
            assert(s1[old_off + 1] == s0[old_off + 1] && s1[old_off + 2] == s0[old_off + 2]);
            assert(s1[old_off + 3] == s0[old_off + 3] && s1[old_off + 4] == s0[old_off + 4]);
            lemma_u16_same(s1, s0, old_off + 1);
            lemma_u16_same(s1, s0, old_off + 3);
            lemma_u16_same(s1, s0, 14);
            lemma_entries_size_remove(es, i as int);
            lemma_entries_size_nonneg(es.remove(i as int));
        }
        self.add_dead_tuple_bytes(total);
        let ghost s2 = self.bytes();
        proof {
            lemma_u16_same(s2, s0, 10);
            lemma_u16_same(s2, s0, 12);
        }
        let new_off = self.alloc_tuple(tuple.len()).unwrap() as usize;
        let ghost s3 = self.bytes();
        self.copy_into(new_off, tuple);
        let ghost s4 = self.bytes();
        self.write_slot(i, new_off as u16);
        proof {
            lemma_overwrite_bytes(s0, s1, s2, s3, s4, self.bytes(), i as int, new_off as int, tuple@, key, val);
            lemma_overwrite_layout(s0, self.bytes(), i as int, new_off as int, key, val);
        }
        old_val
    }

    /// Removes the entry at slot `i`: tombstones its tuple, counts its bytes dead and
    /// closes the gap in the slot array. Returns the removed value.
    #[verifier::spinoff_prover]
    fn remove_at(&mut self, i: usize) -> (old_val: Vec<u8>)
        requires
            old(self).wf(),
            i < old(self)@.entries.len(),
        ensures
            final(self).wf(),
            final(self)@ == (PageView {
                entries: old(self)@.entries.remove(i as int),
                dead_bytes: old(self)@.dead_bytes + entry_size(old(self)@.entries[i as int]),
                ..old(self)@
            }),
            old_val@ == old(self)@.entries[i as int].1,
            remove_image(old(self).bytes(), final(self).bytes(), i as int),
            tuple_region_kept(old(self).bytes(), final(self).bytes(), old(self)@.free_end, slot_off(old(self).bytes(), i as int)),
            final(self).bytes()[slot_off(old(self).bytes(), i as int)] == 1,
    {
        let ghost s0 = self.bytes();
        let ghost es = slot_entries(s0);
        let ghost n = es.len() as int;
        proof {
            lemma_wf_header(s0);
            lemma_wf_slot(s0, i as int);
            lemma_entries_size_remove(es, i as int);
            lemma_entries_size_nonneg(es.remove(i as int));
        }
        let off = self.read_slot(i) as usize;
        let old_val = vstd::slice::slice_to_vec(self.read_tuple_val(off));
        self.data[off] = 1;
        let ghost s1 = self.bytes();
        let total = self.tuple_total_len(off);
        proof {
            assert(total == entry_size(es[i as int])) by {
                assert(s1[off + 1] == s0[off + 1] && s1[off + 2] == s0[off + 2]);
                assert(s1[off + 3] == s0[off + 3] && s1[off + 4] == s0[off + 4]);
                reveal(u16_at);
            }
            assert(hdr_dead_bytes(s1) == hdr_dead_bytes(s0) && hdr_slot_count(s1) == n) by {
                assert(forall|idx: int| 8 <= idx < 16 ==> s1[idx] == s0[idx]);
                reveal(u16_at);
            }
        }
        self.add_dead_tuple_bytes(total);
        let ghost s2 = self.bytes();
        let cnt = self.slot_count() as usize;
        proof {
            assert(cnt == n) by {
                assert(s2[8] == s1[8] && s2[9] == s1[9]);
                reveal(u16_at);
            }
        }
        self.shift_slots_left(i, cnt);
        let ghost s3 = self.bytes();
        let new_cnt = cnt - 1;
        write_u16(&mut self.data, HDR_SLOT_CNT_OFF, new_cnt as u16);
        let ghost s4 = self.bytes();
        write_u16(&mut self.data, HDR_FREE_START_OFF, (HEADER_SIZE + new_cnt * Self::SLOT_SIZE) as u16);
        proof {
            lemma_remove_bytes(s0, s1, s2, s3, s4, self.bytes(), i as int, off as int);
            lemma_remove_layout(s0, self.bytes(), i as int);
        }
        old_val
    }

    fn tuple_total_len(&self, off: usize) -> (r: usize)
        requires
            off + 5 <= PAGE_SIZE,
        ensures
            r == tup_end(self.bytes(), off as int) - off,
    {
        Self::TUP_HDR_SIZE + self.read_tuple_key_len(off) + self.read_tuple_val_len(off)
    }

    // -----------------------------
    // Dead-tuple compaction
    // -----------------------------
    /// Whether dead bytes have reached the compaction threshold of the tuple region.
    fn should_compact_dead_tuples(&self) -> (r: bool)
        requires
            self.wf(),
        ensures
            r == self@.should_compact(),
    {
        proof {
            lemma_wf_header(self.bytes());
        }
        let used = self.tuple_region_used_bytes();
        if used == 0 {
            return false;
        }
        let pct = self.dead_tuple_compact_percent;
        proof {
            assert(used * pct <= 8192 * 255) by (nonlinear_arith)
                requires
                    used <= 8192,
                    pct <= 255,
            ;
        }
        (self.dead_tuple_bytes() as usize) * 100 >= used * pct as usize
    }

    /// Copies out the live entries, in slot order.
    fn live_entries(&self) -> (r: Vec<(Vec<u8>, Vec<u8>)>)
        requires
            self.wf(),
        ensures
            r@.len() == self@.entries.len(),
            forall|i: int| 0 <= i < r@.len() ==> (#[trigger] r@[i].0@, r@[i].1@) == self@.entries[i],
    {
        let ghost es = self@.entries;
        proof {
            lemma_wf_header(self.bytes());
        }
        let cnt = self.slot_count() as usize;
        let mut live: Vec<(Vec<u8>, Vec<u8>)> = Vec::with_capacity(cnt);
        let mut i: usize = 0;
        while i < cnt
            invariant
                self.wf(),
                es == self@.entries,
                cnt == es.len(),
                i <= cnt,
                live@.len() == i,
                forall|j: int| 0 <= j < i ==> (#[trigger] live@[j].0@, live@[j].1@) == es[j],
            decreases cnt - i,
        {
            proof {
                lemma_wf_header(self.bytes());
                lemma_wf_slot(self.bytes(), i as int);
            }
            let off = self.read_slot(i) as usize;
            if self.read_tuple_tombstone(off) == 1 {
                i = i + 1;
                continue;
            }
            let k = vstd::slice::slice_to_vec(self.read_key(off));
            let v = vstd::slice::slice_to_vec(self.read_tuple_val(off));
            live.push((k, v));
            i = i + 1;
        }
        live
    }

    /// Appends `key`/`val` as the last entry of the page; `key` sorts after every key the
    /// page holds.
    fn append_entry(&mut self, key: &[u8], val: &[u8])
        requires
            old(self).wf(),
            forall|i: int| 0 <= i < old(self)@.entries.len() ==> lex_lt(#[trigger] old(self)@.entries[i].0, key@),
            old(self)@.free_space() >= entry_size((key@, val@)) + 2,
        ensures
            final(self).wf(),
            final(self)@ == (PageView {
                entries: old(self)@.entries.push((key@, val@)),
                free_end: old(self)@.free_end - entry_size((key@, val@)),
                ..old(self)@
            }),
    {
        let ghost es = old(self)@.entries;
        proof {
            lemma_wf_header(self.bytes());
            lemma_rank_unique(es, key@, es.len() as int);
            lemma_lex_irreflexive(key@);
        }
        let tuple = TupleBuilder::new().flags(0).key(vstd::slice::slice_to_vec(key)).value(
            vstd::slice::slice_to_vec(val),
        ).build();
        let cnt = self.slot_count() as usize;
        self.insert_tuple_at(cnt, tuple.as_bytes(), Ghost(key@), Ghost(val@));
        proof {
            assert(es.insert(cnt as int, (key@, val@)) =~= es.push((key@, val@)));
        }
    }

    /// Rebuilds the page from its live entries alone: same ID, sibling pointer and
    /// threshold, no dead bytes, and the tuples packed at the end of the page.
    #[verifier::spinoff_prover]
    fn compact_live_tuples(&mut self) -> (r: Result<(), &'static str>)
        requires
            old(self).wf(),
        ensures
            final(self).wf(),
            final(self)@ == old(self)@.compacted(),
            r is Ok,
    {
        let ghost v0 = self@;
        let ghost es = v0.entries;
        proof {
            lemma_wf_header(self.bytes());
            lemma_entries_size_nonneg(es);
        }
        let live = self.live_entries();
        let mut compacted = Page::new(self.page_id());
        compacted.set_dead_tuple_compact_percent(self.dead_tuple_compact_percent);
        compacted.set_next_leaf_page_id(self.next_leaf_page_id());
        proof {
            assert(es.take(0) =~= Seq::<Entry>::empty());
            assert(entries_size(Seq::<Entry>::empty()) == 0);
        }
        let mut j: usize = 0;
        while j < live.len()
            invariant
                es == v0.entries,
                keys_sorted(es),
                v0.dead_bytes + entries_size(es) == 8192 - v0.free_end,
                v0.dead_bytes >= 0,
                20 + 2 * es.len() <= v0.free_end,
                live@.len() == es.len(),
                forall|i: int| 0 <= i < live@.len() ==> (#[trigger] live@[i].0@, live@[i].1@) == es[i],
                j <= live@.len(),
                compacted.wf(),
                compacted@ == (PageView {
                    entries: es.take(j as int),
                    free_end: 8192 - entries_size(es.take(j as int)),
                    dead_bytes: 0,
                    ..v0
                }),
            decreases live@.len() - j,
        {
            let kv = &live[j];
            proof {
                let t = es.take(j as int);
                assert(es.take(j as int + 1).drop_last() =~= t);
                lemma_entries_size_prefix(es, j as int + 1);
                assert forall|i: int| 0 <= i < t.len() implies lex_lt(#[trigger] t[i].0, es[j as int].0) by {
                    assert(t[i] == es[i]);
                }
            }
            compacted.append_entry(kv.0.as_slice(), kv.1.as_slice());
            proof {
                assert(es.take(j as int).push(es[j as int]) =~= es.take(j as int + 1));
            }
            j = j + 1;
        }
        proof {
            assert(es.take(es.len() as int) =~= es);
        }
        self.data = compacted.data;
        Ok(())
    }

    /// Compacts the page when dead bytes have reached the threshold.
    fn maybe_compact_dead_tuples(&mut self) -> (r: Result<(), &'static str>)
        requires
            old(self).wf(),
        ensures
            final(self).wf(),
            final(self)@ == old(self)@.maybe_compacted(),
            !old(self)@.should_compact() ==> *final(self) == *old(self),
            r is Ok,
    {
        if self.should_compact_dead_tuples() {
            self.compact_live_tuples()?;
        }
        Ok(())
    }

    // -----------------------------
    // Key-value operations
    // -----------------------------
    /// Inserts or updates `key`.
    ///
    /// An existing key has its tuple tombstoned and a new tuple written; the slot is
    /// pointed at the new tuple and the old value is returned. A new key gets a new tuple
    /// and a slot at its sorted position, and `None` is returned. When free space is short,
    /// dead tuples are compacted away first; if that is not enough the page is left
    /// otherwise unchanged and `"page full"` is returned. When no compaction runs, the new
    /// tuple is written right below the old free end, the key's slot points to it, and the
    /// rest of the tuple region keeps its bytes but for the old tuple's tombstone flag.
    #[verifier::spinoff_prover]
    pub fn put(&mut self, key: &[u8], val: &[u8]) -> (r: Result<Option<Vec<u8>>, &'static str>)
        requires
            old(self).wf(),
        ensures
            final(self).wf(),
            final(self)@ == old(self)@.put_state(key@, val@),
            r is Err <==> !old(self)@.put_fits(key@, val@),
            r matches Err(e) ==> e == "page full",
            r matches Ok(o) ==> match o {
                Some(v) => old(self)@.lookup(key@) == Some(v@),
                None => !old(self)@.contains(key@),
            },
            r is Ok && !old(self)@.contains(key@) && old(self)@.free_space() >= old(self)@.put_needed(key@, val@)
                ==> {
                &&& insert_image(
                    old(self).bytes(),
                    final(self).bytes(),
                    old(self)@.rank(key@),
                    old(self)@.free_end - entry_size((key@, val@)),
                    key@,
                    val@,
                )
                &&& tuple_region_kept(old(self).bytes(), final(self).bytes(), old(self)@.free_end, -1)
            },
            r is Ok && old(self)@.contains(key@) && old(self)@.free_space() >= old(self)@.put_needed(key@, val@)
                && final(self)@.dead_bytes != 0 ==> {
                &&& overwrite_image(
                    old(self).bytes(),
                    final(self).bytes(),
                    old(self)@.rank(key@),
                    old(self)@.free_end - entry_size((key@, val@)),
                    key@,
                    val@,
                )
                &&& tuple_region_kept(
                    old(self).bytes(),
                    final(self).bytes(),
                    old(self)@.free_end,
                    slot_off(old(self).bytes(), old(self)@.rank(key@)),
                )
                &&& final(self).bytes()[slot_off(old(self).bytes(), old(self)@.rank(key@))] == 1
            },
    {
        let ghost v0 = self@;
        proof {
            lemma_wf_header(self.bytes());
        }
        let found = self.find_slot(key);
        let exists = match found {
            SearchResult::Found(_) => true,
            SearchResult::NotFound(_) => false,
        };
        // A key or value of a page's size can never fit; cap what is needed there.
        let needed: usize = if key.len() >= PAGE_SIZE || val.len() >= PAGE_SIZE {
            PAGE_SIZE
        } else if exists {
            Self::tuple_len(key.len(), val.len())
        } else {
            Self::tuple_len(key.len(), val.len()) + Self::SLOT_SIZE
        };
        proof {
            assert(needed >= PAGE_SIZE ==> v0.put_needed(key@, val@) >= PAGE_SIZE);
            assert(needed < PAGE_SIZE ==> needed == v0.put_needed(key@, val@));
        }
        if self.free_space_bytes() < needed {
            self.maybe_compact_dead_tuples()?;
            proof {
                lemma_wf_header(self.bytes());
            }
            if self.free_space_bytes() < needed {
                return Err("page full");
            }
        }
        let ghost v1 = self@;
        proof {
            assert(v1 == v0.put_prepared(key@, val@));
            assert(v1.entries == v0.entries);
        }
        let tuple = TupleBuilder::new().flags(0).key(vstd::slice::slice_to_vec(key)).value(
            vstd::slice::slice_to_vec(val),
        ).build();
        match found {
            SearchResult::Found(i) => {
                let old_val = self.overwrite_at(i, tuple.as_bytes(), Ghost(key@), Ghost(val@));
                self.maybe_compact_dead_tuples()?;
                Ok(Some(old_val))
            },
            SearchResult::NotFound(pos) => {
                self.insert_tuple_at(pos, tuple.as_bytes(), Ghost(key@), Ghost(val@));
                Ok(None)
            },
        }
    }

    /// Deletes `key`: tombstones its tuple, removes its slot and closes the gap, then
    /// compacts if dead bytes have reached the threshold. Returns the old value, or `None`
    /// when the key is absent.
    pub fn remove(&mut self, key: &[u8]) -> (r: Option<Vec<u8>>)
        requires
            old(self).wf(),
        ensures
            final(self).wf(),
            final(self)@ == old(self)@.remove_state(key@),
            match r {
                Some(v) => old(self)@.lookup(key@) == Some(v@),
                None => old(self)@.lookup(key@) == None::<Seq<u8>>,
            },
            r is None ==> *final(self) == *old(self),
            r is Some && final(self)@.dead_bytes != 0 ==> {
                &&& remove_image(old(self).bytes(), final(self).bytes(), old(self)@.rank(key@))
                &&& tuple_region_kept(
                    old(self).bytes(),
                    final(self).bytes(),
                    old(self)@.free_end,
                    slot_off(old(self).bytes(), old(self)@.rank(key@)),
                )
                &&& final(self).bytes()[slot_off(old(self).bytes(), old(self)@.rank(key@))] == 1
            },
    {
        match self.find_slot(key) {
            SearchResult::Found(i) => {
                let old_val = self.remove_at(i);
                let _ = self.maybe_compact_dead_tuples();
                Some(old_val)
            },
            SearchResult::NotFound(_) => None,
        }
    }
}

} // verus!
