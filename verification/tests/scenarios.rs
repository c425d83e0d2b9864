use storage_engine::buffer_manager::BufferManager;
use storage_engine::lsm_tree::LSMTree;
use storage_engine::slotted_page::{decode, encode, SlottedPage};
use storage_engine::BLOCK_SIZE;

#[test]
fn round_trip_no_spill() {
    let mut pool = BufferManager::new(16);
    let mut table: LSMTree<u64, u64> = LSMTree::new("t1".to_string(), &mut pool);
    table.put(&mut pool, 1, Some(10));
    table.put(&mut pool, 2, Some(20));
    assert_eq!(table.get(&mut pool, 1), Some(10));
    assert_eq!(table.get(&mut pool, 2), Some(20));
    assert_eq!(table.get(&mut pool, 3), None);
    assert_eq!(table.merge_count(), 0);
}

#[test]
fn tombstone() {
    let mut pool = BufferManager::new(16);
    let mut table: LSMTree<u64, u64> = LSMTree::new("t2".to_string(), &mut pool);
    table.put(&mut pool, 5, Some(50));
    table.merge(&mut pool);
    table.build_index(&mut pool);
    assert_eq!(table.get(&mut pool, 5), Some(50));
    table.put(&mut pool, 5, None);
    assert_eq!(table.get(&mut pool, 5), None);
    table.merge(&mut pool);
    table.build_index(&mut pool);
    assert_eq!(table.get(&mut pool, 5), None);
    assert_eq!(table.merge_count(), 2);
}

#[test]
fn update_across_merge() {
    let mut pool = BufferManager::new(16);
    let mut table: LSMTree<u64, u64> = LSMTree::new("t3".to_string(), &mut pool);
    table.put(&mut pool, 7, Some(70));
    table.merge(&mut pool);
    table.build_index(&mut pool);
    table.put(&mut pool, 7, Some(71));
    assert_eq!(table.get(&mut pool, 7), Some(71));
    table.merge(&mut pool);
    table.build_index(&mut pool);
    assert_eq!(table.get(&mut pool, 7), Some(71));
}

#[test]
fn spill_and_index() {
    let mut pool = BufferManager::new(4);
    let mut table: LSMTree<u128, u128> = LSMTree::new("t4".to_string(), &mut pool);
    for i in 0u128..10_000u128 {
        table.put(&mut pool, i, Some(i + 1));
        assert_eq!(table.get(&mut pool, i), Some(i + 1));
    }
    assert!(table.merge_count() >= 1);
    for i in 0u128..10_000u128 {
        assert_eq!(table.get(&mut pool, i), Some(i + 1));
    }
}

#[test]
fn rename_semantics() {
    let mut pool = BufferManager::new(8);
    let a = "/tmp/a".to_string();
    let b = "/tmp/b".to_string();
    let first = vec![7u8; BLOCK_SIZE];
    let second = vec![9u8; BLOCK_SIZE];
    pool.write(&a, 0, &first, BLOCK_SIZE as u32);
    pool.write(&a, BLOCK_SIZE, &second, BLOCK_SIZE as u32);
    assert!(pool.rename_file(&a, &b));
    pool.rename(&a, &b);
    pool.flush();
    let mut expected = first.clone();
    expected.extend(second.iter());
    assert_eq!(pool.file_contents(&b), Some(expected));
    assert_eq!(pool.file_contents(&a), None);
}

#[test]
fn variable_width_page() {
    let mut page: SlottedPage<String, String> = SlottedPage::new();
    let mut n = 0u32;
    loop {
        let k = format!("key-{:05}", n);
        let v = format!("value number {}", n);
        match page.add_cell(k.clone(), Some(v.clone())) {
            Ok(()) => {}
            Err(back) => {
                assert_eq!(back, (k, Some(v)));
                break;
            }
        }
        n += 1;
    }
    assert!(n > 10);
    assert_eq!(page.num_cells as u32, n);
    let bytes = encode(&page);
    assert_eq!(bytes.len(), BLOCK_SIZE);
    let back: SlottedPage<String, String> = decode(&bytes).unwrap();
    assert_eq!(back.cells, page.cells);
    assert_eq!(back.num_cells, page.num_cells);
    assert_eq!(back.space_left, page.space_left);
}
