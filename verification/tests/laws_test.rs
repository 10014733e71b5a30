//! Concrete instances of the library's laws, edge cases and error paths.
use simpledb::btree::internal::{InternalPage, InternalPageMut};
use simpledb::btree::key::{compare_bytes, Key, KeyOrder};
use simpledb::btree::leaf::{LeafPage, LeafPageMut};
use simpledb::btree::tree::BTree;
use simpledb::page::page::{HEADER_SIZE, PAGE_SIZE};
use simpledb::page::Page;
use simpledb::pager::pager::Pager;
use simpledb::utils::byte::{read_u16, read_u32, write_u16, write_u32};

fn key(i: usize) -> Vec<u8> {
    format!("k{i:02}").into_bytes()
}

// ── byte helpers ─────────────────────────────────────────────────────────────

#[test]
fn little_endian_round_trip() {
    let mut buf = [0u8; 8];
    write_u16(&mut buf, 1, 0xBEEF);
    assert_eq!(buf[1], 0xEF);
    assert_eq!(buf[2], 0xBE);
    assert_eq!(read_u16(&buf, 1), 0xBEEF);
    write_u32(&mut buf, 4, 0x1234_5678);
    assert_eq!(buf[4..8], [0x78, 0x56, 0x34, 0x12]);
    assert_eq!(read_u32(&buf, 4), 0x1234_5678);
}

// ── keys ─────────────────────────────────────────────────────────────────────

#[test]
fn key_order_is_bytewise_lexicographic() {
    assert_eq!(compare_bytes(b"abc", b"abd"), KeyOrder::Less);
    assert_eq!(compare_bytes(b"ab", b"abc"), KeyOrder::Less);
    assert_eq!(compare_bytes(b"b", b"abc"), KeyOrder::Greater);
    assert_eq!(compare_bytes(b"", b""), KeyOrder::Equal);
    let a = Key::from(&b"apple"[..]);
    let b = Key::from(&b"apricot"[..]);
    assert_eq!(a.compare(&b), KeyOrder::Less);
    assert_eq!(b.compare(&a), KeyOrder::Greater);
    assert_eq!(a.len(), 5);
    assert_eq!(*a.bytes(), &b"apple"[..]);
    let owned = Key::from(b"xyz".to_vec());
    assert_eq!(owned.len(), 3);
}

// ── pages ────────────────────────────────────────────────────────────────────

#[test]
fn page_put_then_get_and_other_keys_unchanged() {
    let mut page = Page::new(1);
    page.put(b"a", b"1").unwrap();
    page.put(b"b", b"2").unwrap();
    assert_eq!(page.put(b"a", b"3").unwrap(), Some(b"1".to_vec()));
    assert_eq!(page.get(b"a"), Some(&b"3"[..]));
    assert_eq!(page.get(b"b"), Some(&b"2"[..]));
}

#[test]
fn page_remove_then_get_and_other_keys_unchanged() {
    let mut page = Page::new(1);
    page.put(b"a", b"1").unwrap();
    page.put(b"b", b"2").unwrap();
    assert_eq!(page.remove(b"a"), Some(b"1".to_vec()));
    assert_eq!(page.get(b"a"), None);
    assert_eq!(page.get(b"b"), Some(&b"2"[..]));
    assert_eq!(page.remove(b"a"), None);
}

#[test]
fn page_full_put_leaves_entries_unchanged() {
    let mut page = Page::new(1);
    page.put(b"a", &vec![1u8; 5000]).unwrap();
    assert_eq!(page.put(b"b", &vec![2u8; 5000]), Err("page full"));
    assert_eq!(page.slot_count(), 1);
    assert_eq!(page.get(b"b"), None);
    assert_eq!(page.get(b"a"), Some(&vec![1u8; 5000][..]));
}

#[test]
fn page_put_of_oversized_entry_is_refused() {
    let mut page = Page::new(1);
    assert_eq!(page.put(b"k", &vec![0u8; PAGE_SIZE]), Err("page full"));
    assert_eq!(page.put(&vec![7u8; 70_000], b"v"), Err("page full"));
    assert_eq!(page.slot_count(), 0);
}

#[test]
fn page_slots_are_in_key_order() {
    let mut page = Page::new(1);
    for k in [b"d", b"a", b"c", b"b"] {
        page.put(k, b"x").unwrap();
    }
    let mut keys = Vec::new();
    let mut i = 0;
    while let Some((k, _)) = page.get_key_value_at_slot(i) {
        keys.push(k.to_vec());
        i += 1;
    }
    assert_eq!(keys, vec![b"a".to_vec(), b"b".to_vec(), b"c".to_vec(), b"d".to_vec()]);
}

#[test]
fn page_space_accounting() {
    let mut page = Page::new(5);
    assert_eq!(page.free_space_bytes(), PAGE_SIZE - HEADER_SIZE);
    page.put(b"key", b"value").unwrap();
    // One tuple of 5 + 3 + 5 bytes and one 2-byte slot.
    assert_eq!(page.free_space_bytes(), PAGE_SIZE - HEADER_SIZE - 13 - 2);
    assert_eq!(page.free_start() as usize, HEADER_SIZE + 2);
    assert_eq!(page.free_end() as usize, PAGE_SIZE - 13);
    assert_eq!(Page::tuple_len(3, 5), 13);
    page.put(b"key", b"other").unwrap();
    assert_eq!(page.dead_tuple_bytes(), 13);
}

#[test]
fn page_compaction_threshold_is_clamped() {
    let mut page = Page::new(6);
    page.set_dead_tuple_compact_percent(0);
    page.put(b"k", &vec![1u8; 100]).unwrap();
    // With a 1% threshold the first overwrite already compacts.
    page.put(b"k", &vec![2u8; 100]).unwrap();
    assert_eq!(page.dead_tuple_bytes(), 0);
    let mut other = Page::new(7);
    other.set_dead_tuple_compact_percent(250);
    other.put(b"k", &vec![1u8; 100]).unwrap();
    other.put(b"k", &vec![2u8; 100]).unwrap();
    assert_eq!(other.dead_tuple_bytes(), 106);
}

#[test]
fn page_sibling_pointer_round_trip() {
    let mut page = Page::new(3);
    assert_eq!(page.page_id(), 3);
    assert_eq!(page.next_leaf_page_id(), None);
    page.set_next_leaf_page_id(Some(9));
    assert_eq!(page.next_leaf_page_id(), Some(9));
    page.put(b"a", b"1").unwrap();
    assert_eq!(page.next_leaf_page_id(), Some(9));
    page.set_next_leaf_page_id(None);
    assert_eq!(page.next_leaf_page_id(), None);
}

#[test]
fn validate_basic_reports_each_error() {
    let mut bad_magic = Page::new(1);
    bad_magic.write_tuple(0, 0, b"", b"");
    assert_eq!(bad_magic.validate_basic(), Err("bad magic"));

    // free_start becomes 0x00FF and free_end 0.
    let mut bad_free = Page::new(1);
    bad_free.write_tuple(10, 0xFF, b"", b"");
    assert_eq!(bad_free.validate_basic(), Err("free_start > free_end"));

    // dead bytes become 0x00FF while the tuple region is empty.
    let mut bad_dead = Page::new(1);
    bad_dead.write_tuple(14, 0xFF, b"", b"");
    assert_eq!(bad_dead.validate_basic(), Err("dead_tuple_bytes > tuple_region_used_bytes"));
}

#[test]
fn raw_slot_and_tuple_access() {
    let mut page = Page::new(1);
    assert_eq!(page.alloc_slot(), Ok(0));
    let off = page.alloc_tuple(Page::tuple_len(2, 3)).unwrap();
    assert_eq!(off as usize, PAGE_SIZE - 10);
    page.write_tuple(off, 0, b"ab", b"cde");
    page.write_slot(0, off);
    assert_eq!(page.read_slot(0), off);
    assert_eq!(page.read_tuple_tombstone(off as usize), 0);
    assert_eq!(page.read_tuple_key_len(off as usize), 2);
    assert_eq!(page.read_tuple_val_len(off as usize), 3);
    assert_eq!(page.read_key(off as usize), b"ab");
    assert_eq!(page.read_tuple_val(off as usize), b"cde");
    assert_eq!(page.as_bytes()[off as usize + 5], b'a');
    assert_eq!(page.alloc_tuple(PAGE_SIZE), Err("no space for tuple"));
}

#[test]
fn alloc_slot_refuses_when_no_room() {
    let mut page = Page::new(1);
    let room = page.free_space_bytes();
    page.alloc_tuple(room - 1).unwrap();
    assert_eq!(page.alloc_slot(), Err("no space for slot"));
}

// ── leaves ───────────────────────────────────────────────────────────────────

#[test]
fn leaf_split_wires_siblings() {
    let mut page = Page::new(1);
    page.set_next_leaf_page_id(Some(77));
    let mut leaf = LeafPageMut::new(&mut page);
    for i in 0..4 {
        leaf.insert(&key(i), &vec![i as u8; 1700]).unwrap();
    }
    let split = leaf.insert_or_split(&key(4), &vec![4u8; 1700], 2).unwrap().unwrap();
    assert_eq!(leaf.page().next_leaf_page_id(), Some(2));
    let right = split.right_page.into_page();
    assert_eq!(right.page_id(), 2);
    assert_eq!(right.next_leaf_page_id(), Some(77));
}

#[test]
fn leaf_split_of_an_update_replaces_the_old_entry() {
    // The update of k01 takes the place of its old entry: no key is on both halves.
    let mut page = Page::new(1);
    let mut leaf = LeafPageMut::new(&mut page);
    for i in 0..3 {
        leaf.insert(&key(i), &vec![i as u8; 2700]).unwrap();
    }
    let split = leaf.insert_or_split(&key(1), &vec![9u8; 2700], 2).unwrap().unwrap();
    assert_eq!(split.separator_key, key(1));
    let left = LeafPage::from_page(leaf.page().clone());
    assert_eq!(left.slot_count(), 1);
    assert_eq!(left.get(&key(0)), Some(&vec![0u8; 2700][..]));
    assert_eq!(left.get(&key(1)), None);
    assert_eq!(split.right_page.slot_count(), 2);
    assert_eq!(split.right_page.get(&key(1)), Some(&vec![9u8; 2700][..]));
    assert_eq!(split.right_page.get(&key(2)), Some(&vec![2u8; 2700][..]));
}

#[test]
fn leaf_update_of_a_lone_entry_rebuilds_the_page() {
    // One entry cannot be divided into two halves: the page is rebuilt holding the new pair.
    let mut page = Page::new(1);
    page.set_next_leaf_page_id(Some(42));
    let mut leaf = LeafPageMut::new(&mut page);
    leaf.insert(b"a", &vec![1u8; 5000]).unwrap();
    assert!(leaf.insert_or_split(b"a", &vec![2u8; 5000], 2).unwrap().is_none());
    assert_eq!(leaf.get(b"a"), Some(&vec![2u8; 5000][..]));
    assert_eq!(leaf.slot_count(), 1);
    assert_eq!(leaf.page().dead_tuple_bytes(), 0);
    assert_eq!(leaf.page().next_leaf_page_id(), Some(42));
}

#[test]
fn tree_update_during_a_split_is_scanned_once() {
    let mut tree = BTree::new();
    for i in 0..4 {
        tree.insert(&key(i), &vec![i as u8; 1700]).unwrap();
    }
    tree.insert(&key(1), &vec![9u8; 1700]).unwrap();
    assert_eq!(tree.get(&key(1)), Some(&vec![9u8; 1700][..]));
    let mut scan = tree.scan(None);
    let mut got = Vec::new();
    while let Some((k, _)) = scan.next() {
        got.push(k.to_vec());
    }
    assert_eq!(got, (0..4).map(key).collect::<Vec<_>>());
}

#[test]
fn leaf_split_fails_when_a_half_cannot_fit() {
    let mut page = Page::new(1);
    let mut leaf = LeafPageMut::new(&mut page);
    leaf.insert(b"a", b"x").unwrap();
    leaf.insert(b"c", &vec![0u8; 8100]).unwrap();
    assert_eq!(leaf.insert_or_split(b"b", &vec![0u8; 100], 2).err(), Some("page full"));
    assert_eq!(leaf.slot_count(), 2);
}

#[test]
fn leaf_accessors() {
    let mut leaf = LeafPage::new(4);
    assert_eq!(leaf.slot_count(), 0);
    assert_eq!(leaf.free_space_byte(), PAGE_SIZE - HEADER_SIZE);
    let mut page = leaf.into_page();
    {
        let mut m = LeafPageMut::new(&mut page);
        m.insert(b"b", b"2").unwrap();
        m.page_mut().put(b"a", b"1").unwrap();
        assert_eq!(m.get(b"a"), Some(&b"1"[..]));
        assert_eq!(m.key_value_at(1), Some((&b"b"[..], &b"2"[..])));
        assert_eq!(m.entries(), vec![(b"a".to_vec(), b"1".to_vec()), (b"b".to_vec(), b"2".to_vec())]);
        assert_eq!(m.remove(b"a"), Some(b"1".to_vec()));
        assert_eq!(m.free_space_bytes(), PAGE_SIZE - HEADER_SIZE - 2 - 7 - 7);
    }
    leaf = LeafPage::from_page(page);
    assert_eq!(leaf.key_val_at(0), Some((&b"b"[..], &b"2"[..])));
    assert_eq!(leaf.key_val_at(1), None);
}

// ── internal nodes ───────────────────────────────────────────────────────────

#[test]
fn internal_node_accessors() {
    let node = InternalPage::new(5, 11);
    assert_eq!(node.page_id(), 5);
    assert_eq!(node.leftmost_child(), 11);
    assert_eq!(node.slot_count(), 0);
    assert_eq!(node.find_child(b"anything"), 11);
    let mut page = node.into_page();
    {
        let mut m = InternalPageMut::new(&mut page);
        m.insert(b"m", 12).unwrap();
        assert_eq!(m.page_id(), 5);
        assert_eq!(m.key_at(0), b"m");
        assert_eq!(m.child_at(0), 12);
        assert_eq!(m.entries(), vec![(b"m".to_vec(), 12)]);
        assert_eq!(m.free_space_bytes(), PAGE_SIZE - HEADER_SIZE - 2 - 10);
        m.page_mut().set_next_leaf_page_id(Some(13));
        assert_eq!(m.leftmost_child(), 13);
    }
    let node = InternalPage::from_page(page);
    assert_eq!(node.key_at(0), b"m");
    assert_eq!(node.child_at(0), 12);
    assert_eq!(node.find_child(b"a"), 13);
    assert_eq!(node.find_child(b"m"), 12);
    assert_eq!(node.free_space_bytes(), PAGE_SIZE - HEADER_SIZE - 2 - 10);
    assert_eq!(node.entries(), vec![(b"m".to_vec(), 12)]);
}

// ── pager ────────────────────────────────────────────────────────────────────

#[test]
fn pager_hands_out_increasing_ids() {
    let mut pager = Pager::new();
    assert_eq!(pager.alloc_page_id(), 1);
    assert_eq!(pager.new_page(), 2);
    assert!(!pager.contains(1));
    assert!(pager.contains(2));
    pager.get_mut(2).unwrap().put(b"a", b"1").unwrap();
    assert_eq!(pager.get(2).unwrap().get(b"a"), Some(&b"1"[..]));
    assert!(pager.get_mut(3).is_none());
}

// ── tree ─────────────────────────────────────────────────────────────────────

#[test]
fn tree_insert_then_get_keeps_other_keys() {
    let mut tree = BTree::default();
    for i in 0..60 {
        tree.insert(&key(i), &vec![i as u8; 900]).unwrap();
    }
    tree.insert(&key(30), b"new").unwrap();
    assert_eq!(tree.get(&key(30)), Some(&b"new"[..]));
    for i in (0..60).filter(|i| *i != 30) {
        assert_eq!(tree.get(&key(i)), Some(&vec![i as u8; 900][..]));
    }
}

#[test]
fn tree_remove_then_get_keeps_other_keys() {
    let mut tree = BTree::new();
    for i in 0..60 {
        tree.insert(&key(i), &vec![i as u8; 900]).unwrap();
    }
    assert_eq!(tree.remove(&key(10)), Some(vec![10u8; 900]));
    assert_eq!(tree.get(&key(10)), None);
    assert_eq!(tree.remove(&key(10)), None);
    for i in (0..60).filter(|i| *i != 10) {
        assert_eq!(tree.get(&key(i)), Some(&vec![i as u8; 900][..]));
    }
}

#[test]
fn tree_insert_of_oversized_entry_fails() {
    let mut tree = BTree::new();
    assert_eq!(tree.insert(b"k", &vec![0u8; PAGE_SIZE]), Err("page full"));
    assert_eq!(tree.get(b"k"), None);
}

#[test]
fn tree_scan_skips_removed_and_starts_past_the_end() {
    let mut tree = BTree::new();
    for i in 0..20 {
        tree.insert(&key(i), &vec![i as u8; 1000]).unwrap();
    }
    tree.remove(&key(3));
    let mut scan = tree.scan(Some(&key(2)));
    let mut got = Vec::new();
    while let Some((k, _)) = scan.next() {
        got.push(k.to_vec());
    }
    let expected: Vec<Vec<u8>> = (2..20).filter(|i| *i != 3).map(key).collect();
    assert_eq!(got, expected);
    let mut past = tree.scan(Some(b"zzz"));
    assert!(past.next().is_none());
    assert!(past.next().is_none());
}

#[test]
fn tree_scan_after_deep_splits_is_sorted_and_complete() {
    // Long keys keep internal nodes small, so the tree grows several levels.
    let n: usize = 600;
    let long_key = |i: usize| format!("{i:0200}").into_bytes();
    let mut tree = BTree::new();
    for j in 0..n {
        let i = (j * 7919) % n;
        tree.insert(&long_key(i), &vec![(i % 251) as u8; 1500]).unwrap();
    }
    for i in 0..n {
        assert_eq!(tree.get(&long_key(i)), Some(&vec![(i % 251) as u8; 1500][..]));
    }
    let mut scan = tree.scan(None);
    let mut got = Vec::new();
    while let Some((k, v)) = scan.next() {
        assert_eq!(v, &vec![v[0]; 1500][..]);
        got.push(k.to_vec());
    }
    let expected: Vec<Vec<u8>> = (0..n).map(long_key).collect();
    assert_eq!(got, expected);
    let start = long_key(417);
    let mut from = tree.scan(Some(&start));
    let mut tail = Vec::new();
    while let Some((k, _)) = from.next() {
        tail.push(k.to_vec());
    }
    let expected_tail: Vec<Vec<u8>> = (417..n).map(long_key).collect();
    assert_eq!(tail, expected_tail);
}

#[test]
fn internal_find_child_reads_only_the_chosen_child() {
    let mut page = Page::new(1);
    page.put(b"bob", &5u32.to_le_bytes()).unwrap();
    page.put(b"eve", b"xx").unwrap();
    let mut node = InternalPageMut::new(&mut page);
    node.set_leftmost_child(9);
    assert_eq!(node.find_child(b"alice"), 9);
    assert_eq!(node.find_child(b"bob"), 5);
    assert_eq!(node.find_child(b"carol"), 5);
}

#[test]
fn page_remove_of_an_absent_key_keeps_every_byte() {
    let mut page = Page::new(3);
    page.put(b"a", b"1").unwrap();
    page.put(b"b", b"2").unwrap();
    page.remove(b"a");
    let before = *page.as_bytes();
    assert_eq!(page.remove(b"zz"), None);
    assert_eq!(*page.as_bytes(), before);
}

#[test]
fn tree_update_of_a_lone_large_entry_succeeds() {
    let mut tree = BTree::new();
    tree.insert(b"a", &vec![1u8; 5000]).unwrap();
    assert_eq!(tree.insert(b"a", &vec![2u8; 5000]), Ok(()));
    assert_eq!(tree.get(b"a"), Some(&vec![2u8; 5000][..]));
}

#[test]
fn page_put_writes_the_tuple_below_the_free_end() {
    let mut page = Page::new(1);
    page.put(b"k", b"v").unwrap();
    let off = page.read_slot(0) as usize;
    assert_eq!(off, PAGE_SIZE - 7);
    assert_eq!(page.as_bytes()[off..off + 7], [0, 1, 0, 1, 0, b'k', b'v']);
    page.put(b"k", b"w").unwrap();
    let new_off = page.read_slot(0) as usize;
    assert_eq!(new_off, off - 7);
    assert_eq!(page.as_bytes()[new_off..new_off + 7], [0, 1, 0, 1, 0, b'k', b'w']);
    assert_eq!(page.as_bytes()[off], 1);
    assert_eq!(page.as_bytes()[off + 1..off + 7], [1, 0, 1, 0, b'k', b'v']);
}
