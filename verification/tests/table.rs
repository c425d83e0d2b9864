use storage_engine::buffer_manager::BufferManager;
use storage_engine::lsm_tree::LSMTree;
use storage_engine::slotted_page::{decode, SlottedPage};
use storage_engine::BLOCK_SIZE;

#[test]
fn the_run_of_a_table_is_in_the_disktables_directory() {
    let mut pool = BufferManager::new(4);
    let mut table: LSMTree<u64, u64> = LSMTree::new("names".to_string(), &mut pool);
    assert!(pool.file_exists(&"disktables/names".to_string()));
    table.put(&mut pool, 1, Some(1));
    table.merge(&mut pool);
    pool.flush();
    let bytes = pool.file_contents(&"disktables/names".to_string()).unwrap();
    assert_eq!(bytes.len(), BLOCK_SIZE);
    assert!(!pool.file_exists(&"disktables/names_merge".to_string()));
}

#[test]
fn the_last_put_of_a_key_is_what_get_returns() {
    let mut pool = BufferManager::new(16);
    let mut table: LSMTree<i32, String> = LSMTree::new("last".to_string(), &mut pool);
    table.put(&mut pool, -1, Some("a".to_string()));
    table.put(&mut pool, 5, Some("b".to_string()));
    table.put(&mut pool, -1, Some("c".to_string()));
    table.put(&mut pool, 5, None);
    assert_eq!(table.get(&mut pool, -1), Some("c".to_string()));
    assert_eq!(table.get(&mut pool, 5), None);
    assert_eq!(table.get(&mut pool, 0), None);
    assert_eq!(table.memtable_len(), 2);
}

#[test]
fn the_size_of_the_memtable_counts_serialized_bytes() {
    let mut pool = BufferManager::new(16);
    let mut table: LSMTree<u64, u64> = LSMTree::new("size".to_string(), &mut pool);
    assert_eq!(table.memtable_size(), 0);
    table.put(&mut pool, 1, Some(10));
    assert_eq!(table.memtable_size(), 8 + 9);
    table.put(&mut pool, 2, None);
    assert_eq!(table.memtable_size(), 17 + 8 + 1);
    // putting a key again takes off the length of its old value only
    table.put(&mut pool, 1, None);
    assert_eq!(table.memtable_size(), 26 - 9 + 8 + 1);
}

#[test]
fn put_merges_when_the_memtable_outgrows_the_pool() {
    let mut pool = BufferManager::new(1);
    let mut table: LSMTree<u64, u64> = LSMTree::new("grow".to_string(), &mut pool);
    // 2048 bytes are allowed; each put adds 17
    for i in 0..120u64 {
        table.put(&mut pool, i, Some(i));
    }
    assert_eq!(table.memtable_size(), 120 * 17);
    assert_eq!(table.merge_count(), 0);
    table.put(&mut pool, 120, Some(120));
    assert_eq!(table.merge_count(), 1);
    assert_eq!(table.memtable_size(), 0);
    assert_eq!(table.memtable_len(), 0);
    assert_eq!(table.index_len(), 1);
    for i in 0..=120u64 {
        assert_eq!(table.get(&mut pool, i), Some(i));
    }
    assert_eq!(table.get(&mut pool, 121), None);
}

#[test]
fn the_memtable_stands_for_keys_that_the_run_holds_too() {
    let mut pool = BufferManager::new(16);
    let mut table: LSMTree<u64, u64> = LSMTree::new("dom".to_string(), &mut pool);
    for i in 0..10u64 {
        table.put(&mut pool, i, Some(i));
    }
    table.merge(&mut pool);
    table.build_index(&mut pool);
    table.put(&mut pool, 3, Some(333));
    table.put(&mut pool, 4, None);
    table.put(&mut pool, 100, Some(1));
    table.merge(&mut pool);
    table.build_index(&mut pool);
    for i in 0..10u64 {
        let expected = match i {
            3 => Some(333),
            4 => None,
            _ => Some(i),
        };
        assert_eq!(table.get(&mut pool, i), expected);
    }
    assert_eq!(table.get(&mut pool, 100), Some(1));
    // the deletion is kept in the run
    pool.flush();
    let bytes = pool.file_contents(&"disktables/dom".to_string()).unwrap();
    let page: SlottedPage<u64, u64> = decode(&bytes[..BLOCK_SIZE].to_vec()).unwrap();
    assert_eq!(page.cells[4], (4, None));
    assert_eq!(page.num_cells, 11);
}

#[test]
fn the_run_is_sorted_and_the_index_has_one_entry_for_each_page() {
    let mut pool = BufferManager::new(64);
    let mut table: LSMTree<u64, u64> = LSMTree::new("sorted".to_string(), &mut pool);
    // keys in descending order, merged in three rounds
    for round in 0..3u64 {
        for i in 0..200u64 {
            let k = 10_000 - (round * 200 + i) * 3;
            table.put(&mut pool, k, Some(k + 1));
        }
        table.merge(&mut pool);
        table.build_index(&mut pool);
    }
    pool.flush();
    let bytes = pool.file_contents(&"disktables/sorted".to_string()).unwrap();
    assert_eq!(bytes.len() % BLOCK_SIZE, 0);
    let pages = bytes.len() / BLOCK_SIZE;
    // 600 entries, 124 to a page
    assert_eq!(pages, 5);
    assert_eq!(table.index_len(), pages);
    let mut last: Option<u64> = None;
    let mut count = 0;
    for p in 0..pages {
        let block = bytes[p * BLOCK_SIZE..(p + 1) * BLOCK_SIZE].to_vec();
        let page: SlottedPage<u64, u64> = decode(&block).unwrap();
        assert_eq!(table.index_offset(p), p * BLOCK_SIZE);
        assert_eq!(table.index_key(p), page.cells[0].0);
        for (k, v) in page.cells.iter() {
            assert!(last.map_or(true, |l| l < *k));
            assert_eq!(*v, Some(*k + 1));
            last = Some(*k);
            count += 1;
        }
    }
    assert_eq!(count, 600);
}

#[test]
fn get_page_reads_a_page_of_the_run() {
    let mut pool = BufferManager::new(8);
    let mut table: LSMTree<u64, u64> = LSMTree::new("page".to_string(), &mut pool);
    table.put(&mut pool, 9, Some(90));
    table.merge(&mut pool);
    let run = "disktables/page".to_string();
    let page = table.get_page(&run, &mut pool, 0).unwrap();
    assert_eq!(page.cells, vec![(9, Some(90))]);
    assert!(table.get_page(&run, &mut pool, BLOCK_SIZE).is_none());
    assert!(table.get_page(&"disktables/none".to_string(), &mut pool, 0).is_none());
}

#[test]
fn a_merge_without_entries_leaves_an_empty_run() {
    let mut pool = BufferManager::new(8);
    let mut table: LSMTree<u64, u64> = LSMTree::new("empty".to_string(), &mut pool);
    table.merge(&mut pool);
    table.build_index(&mut pool);
    assert_eq!(table.merge_count(), 1);
    assert_eq!(table.index_len(), 0);
    assert_eq!(table.get(&mut pool, 1), None);
    assert_eq!(pool.file_contents(&"disktables/empty".to_string()), Some(vec![]));
}

#[test]
fn a_merge_of_an_empty_memtable_keeps_the_run() {
    let mut pool = BufferManager::new(8);
    let mut table: LSMTree<u64, u64> = LSMTree::new("keep".to_string(), &mut pool);
    table.put(&mut pool, 1, Some(2));
    table.merge(&mut pool);
    table.merge(&mut pool);
    table.build_index(&mut pool);
    assert_eq!(table.get(&mut pool, 1), Some(2));
}

#[test]
fn two_tables_share_one_pool() {
    let mut pool = BufferManager::new(2);
    let mut a: LSMTree<u64, u64> = LSMTree::new("a".to_string(), &mut pool);
    let mut b: LSMTree<String, String> = LSMTree::new("b".to_string(), &mut pool);
    for i in 0..300u64 {
        a.put(&mut pool, i, Some(i * 2));
        b.put(&mut pool, format!("k{:04}", i), Some(format!("v{}", i)));
    }
    assert!(a.merge_count() >= 1);
    assert!(b.merge_count() >= 1);
    for i in 0..300u64 {
        assert_eq!(a.get(&mut pool, i), Some(i * 2));
        assert_eq!(b.get(&mut pool, format!("k{:04}", i)), Some(format!("v{}", i)));
    }
}

#[test]
fn a_table_reopens_over_the_run_that_another_wrote() {
    let mut pool = BufferManager::new(8);
    let mut table: LSMTree<i64, i64> = LSMTree::new("again".to_string(), &mut pool);
    for i in -50..50i64 {
        table.put(&mut pool, i, Some(-i));
    }
    table.merge(&mut pool);
    let mut reopened: LSMTree<i64, i64> = LSMTree::new("again".to_string(), &mut pool);
    assert_eq!(reopened.index_len(), 1);
    assert_eq!(reopened.index_key(0), -50);
    for i in -50..50i64 {
        assert_eq!(reopened.get(&mut pool, i), Some(-i));
    }
    reopened.put(&mut pool, 0, None);
    assert_eq!(reopened.get(&mut pool, 0), None);
}

#[test]
fn get_next_disk_walks_the_run_page_by_page() {
    let mut pool = BufferManager::new(8);
    let mut table: LSMTree<u64, u64> = LSMTree::new("walk".to_string(), &mut pool);
    // 124 entries fill the first page, the last two stand in the second
    for k in 0..126u64 {
        table.put(&mut pool, k, Some(k + 1));
    }
    table.merge(&mut pool);
    let (first, mut cursor, mut offset) = table.get_next_disk(&mut pool, None, 0).unwrap();
    assert_eq!(first, (0, Some(1)));
    assert_eq!(offset, 0);
    assert_eq!(cursor.next, 1);
    assert_eq!(cursor.cells.len(), 124);
    for k in 1..124u64 {
        let (e, c, at) = table.get_next_disk(&mut pool, Some(cursor), offset).unwrap();
        assert_eq!(e, (k, Some(k + 1)));
        assert_eq!(at, 0);
        assert_eq!(c.next as u64, k + 1);
        cursor = c;
        offset = at;
    }
    let (e, c, at) = table.get_next_disk(&mut pool, Some(cursor), offset).unwrap();
    assert_eq!(e, (124, Some(125)));
    assert_eq!(at, BLOCK_SIZE);
    assert_eq!(c.next, 1);
    assert_eq!(c.cells.len(), 2);
    let (e, c, at) = table.get_next_disk(&mut pool, Some(c), at).unwrap();
    assert_eq!(e, (125, Some(126)));
    assert_eq!(at, BLOCK_SIZE);
    assert_eq!(c.next, 2);
    assert!(table.get_next_disk(&mut pool, Some(c), at).is_none());
}

#[test]
fn get_next_disk_gives_nothing_for_an_empty_run() {
    let mut pool = BufferManager::new(2);
    let table: LSMTree<u64, u64> = LSMTree::new("nothing".to_string(), &mut pool);
    assert!(table.get_next_disk(&mut pool, None, 0).is_none());
}
