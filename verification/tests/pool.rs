use storage_engine::buffer_manager::{BufferManager, FileAction};
use storage_engine::lsm_tree::LSMTree;
use storage_engine::BLOCK_SIZE;

fn block_of(byte: u8) -> Vec<u8> {
    vec![byte; BLOCK_SIZE]
}

fn file_of(blocks: &[u8]) -> Vec<u8> {
    let mut bytes = Vec::new();
    for b in blocks {
        bytes.extend(block_of(*b));
    }
    bytes
}

#[test]
fn get_reads_the_block_that_holds_the_offset() {
    let mut pool = BufferManager::new(4);
    let f = "f".to_string();
    pool.load_file(&f, &file_of(&[1, 2, 3]));
    assert_eq!(pool.get(f.clone(), 0).unwrap().bytes, block_of(1));
    assert_eq!(pool.get(f.clone(), BLOCK_SIZE + 5).unwrap().bytes, block_of(2));
    assert_eq!(pool.get(f.clone(), 3 * BLOCK_SIZE - 1).unwrap().bytes, block_of(3));
    let b = pool.get(f.clone(), BLOCK_SIZE + 5).unwrap();
    assert_eq!(b.key, ("f".to_string(), BLOCK_SIZE));
    assert!(!b.dirty_bit);
}

#[test]
fn get_gives_nothing_behind_the_end_of_the_file() {
    let mut pool = BufferManager::new(4);
    let f = "f".to_string();
    let mut bytes = file_of(&[1]);
    bytes.extend([9u8; 100]);
    pool.load_file(&f, &bytes);
    assert!(pool.get(f.clone(), 0).is_some());
    assert!(pool.get(f.clone(), BLOCK_SIZE).is_none());
    assert!(pool.get(f.clone(), 10 * BLOCK_SIZE).is_none());
    assert!(pool.get(f.clone(), usize::MAX).is_none());
}

#[test]
fn get_creates_a_missing_file() {
    let mut pool = BufferManager::new(4);
    let f = "new".to_string();
    assert!(!pool.file_exists(&f));
    assert!(pool.get(f.clone(), 0).is_none());
    assert_eq!(pool.file_contents(&f), Some(vec![]));
}

#[test]
fn the_pool_keeps_the_most_recently_used_blocks() {
    let mut pool = BufferManager::new(2);
    let f = "f".to_string();
    pool.load_file(&f, &file_of(&[1, 2, 3]));
    pool.get(f.clone(), 0);
    pool.get(f.clone(), BLOCK_SIZE);
    // touch block 0 again, then bring in block 2: block 1 is the one to leave
    pool.get(f.clone(), 0);
    pool.get(f.clone(), 2 * BLOCK_SIZE);
    pool.load_file(&f, &file_of(&[7, 8, 9]));
    assert_eq!(pool.get(f.clone(), 0).unwrap().bytes, block_of(1));
    assert_eq!(pool.get(f.clone(), 2 * BLOCK_SIZE).unwrap().bytes, block_of(3));
    assert_eq!(pool.get(f.clone(), BLOCK_SIZE).unwrap().bytes, block_of(8));
}

#[test]
fn write_changes_the_cached_block_and_marks_it_dirty() {
    let mut pool = BufferManager::new(4);
    let f = "f".to_string();
    pool.load_file(&f, &file_of(&[1, 2]));
    pool.write(&f, BLOCK_SIZE + 10, &vec![5u8; 4], 4);
    let b = pool.get(f.clone(), BLOCK_SIZE).unwrap();
    let mut expected = block_of(2);
    expected[10..14].copy_from_slice(&[5; 4]);
    assert_eq!(b.bytes, expected);
    assert!(b.dirty_bit);
    // the file itself is unchanged until the block is written back
    assert_eq!(pool.file_contents(&f), Some(file_of(&[1, 2])));
    pool.flush();
    let mut stored = file_of(&[1, 2]);
    stored[BLOCK_SIZE + 10..BLOCK_SIZE + 14].copy_from_slice(&[5; 4]);
    assert_eq!(pool.file_contents(&f), Some(stored));
    assert!(!pool.get(f.clone(), BLOCK_SIZE).unwrap().dirty_bit);
}

#[test]
fn two_writes_to_one_block_are_both_kept() {
    let mut pool = BufferManager::new(4);
    let f = "f".to_string();
    pool.write(&f, 0, &vec![1u8; 8], 8);
    pool.write(&f, 4, &vec![2u8; 8], 8);
    pool.flush();
    let mut expected = vec![0u8; BLOCK_SIZE];
    expected[0..4].copy_from_slice(&[1; 4]);
    expected[4..12].copy_from_slice(&[2; 8]);
    assert_eq!(pool.file_contents(&f), Some(expected));
}

#[test]
fn write_to_a_new_file_makes_a_block_of_zeros() {
    let mut pool = BufferManager::new(4);
    let f = "fresh".to_string();
    pool.write(&f, 3, &vec![9u8, 9], 2);
    assert_eq!(pool.file_contents(&f), Some(vec![]));
    let b = pool.get(f.clone(), 0).unwrap();
    let mut expected = vec![0u8; BLOCK_SIZE];
    expected[3] = 9;
    expected[4] = 9;
    assert_eq!(b.bytes, expected);
    assert!(b.dirty_bit);
}

#[test]
fn a_dirty_block_is_written_back_when_it_is_evicted() {
    let mut pool = BufferManager::new(1);
    let f = "f".to_string();
    let g = "g".to_string();
    pool.load_file(&g, &file_of(&[4]));
    pool.write(&f, 0, &block_of(6), BLOCK_SIZE as u32);
    assert_eq!(pool.file_contents(&f), Some(vec![]));
    pool.get(g.clone(), 0);
    assert_eq!(pool.file_contents(&f), Some(block_of(6)));
}

#[test]
fn a_block_written_behind_the_end_of_its_file_leaves_zeros_before_it() {
    let mut pool = BufferManager::new(4);
    let f = "f".to_string();
    pool.write(&f, 2 * BLOCK_SIZE, &block_of(3), BLOCK_SIZE as u32);
    pool.flush();
    assert_eq!(pool.file_contents(&f), Some(file_of(&[0, 0, 3])));
}

#[test]
fn flush_keeps_the_blocks_and_their_order() {
    let mut pool = BufferManager::new(2);
    let f = "f".to_string();
    pool.write(&f, 0, &block_of(1), BLOCK_SIZE as u32);
    pool.write(&f, BLOCK_SIZE, &block_of(2), BLOCK_SIZE as u32);
    pool.flush();
    // block 0 is still the least recently used: it leaves when a third comes
    pool.write(&f, 2 * BLOCK_SIZE, &block_of(3), BLOCK_SIZE as u32);
    pool.load_file(&f, &file_of(&[7, 8, 9]));
    assert_eq!(pool.get(f.clone(), BLOCK_SIZE).unwrap().bytes, block_of(2));
    assert_eq!(pool.get(f.clone(), 0).unwrap().bytes, block_of(7));
}

#[test]
fn rename_drops_the_blocks_of_the_new_name() {
    let mut pool = BufferManager::new(4);
    let a = "a".to_string();
    let b = "b".to_string();
    pool.load_file(&b, &file_of(&[5]));
    pool.write(&b, 0, &block_of(6), BLOCK_SIZE as u32);
    pool.write(&a, 0, &block_of(1), BLOCK_SIZE as u32);
    pool.rename(&a, &b);
    assert_eq!(pool.get(b.clone(), 0).unwrap().bytes, block_of(1));
    pool.flush();
    assert_eq!(pool.file_contents(&b), Some(block_of(1)));
    assert_eq!(pool.file_contents(&a), Some(vec![]));
}

#[test]
fn file_operations_of_the_store() {
    let mut pool = BufferManager::new(1);
    let a = "a".to_string();
    let b = "b".to_string();
    assert_eq!(pool.num_blocks(), 1);
    assert!(!pool.remove_file(&a));
    assert!(!pool.rename_file(&a, &b));
    pool.create_file(&a);
    assert_eq!(pool.file_contents(&a), Some(vec![]));
    pool.load_file(&a, &vec![1, 2, 3]);
    pool.create_file(&a);
    assert_eq!(pool.file_contents(&a), Some(vec![1, 2, 3]));
    pool.load_file(&b, &vec![9]);
    assert!(pool.rename_file(&a, &b));
    assert!(!pool.file_exists(&a));
    assert_eq!(pool.file_contents(&b), Some(vec![1, 2, 3]));
    assert!(pool.remove_file(&b));
    assert!(!pool.file_exists(&b));
}

fn describe(actions: &[FileAction]) -> Vec<String> {
    actions
        .iter()
        .map(|a| match a {
            FileAction::Create { name } => format!("create {}", name),
            FileAction::Write { name, offset, bytes } => {
                format!("write {} at {}: {} bytes of {}", name, offset, bytes.len(), bytes[0])
            }
            FileAction::Remove { name } => format!("remove {}", name),
            FileAction::Rename { from, to } => format!("rename {} to {}", from, to),
        })
        .collect()
}

#[test]
fn the_pool_notes_the_file_that_a_request_creates() {
    let mut pool = BufferManager::new(2);
    let f = "noted".to_string();
    assert!(pool.get(f.clone(), 0).is_none());
    assert_eq!(describe(&pool.take_actions()), vec!["create noted"]);
    // the file is there now, and the changes were taken
    assert!(pool.get(f.clone(), 0).is_none());
    assert!(pool.take_actions().is_empty());
}

#[test]
fn the_pool_notes_the_blocks_that_it_writes_back() {
    let mut pool = BufferManager::new(2);
    let f = "back".to_string();
    pool.load_file(&f, &file_of(&[1, 2, 3]));
    pool.write(&f, 0, &block_of(7), BLOCK_SIZE as u32);
    pool.write(&f, BLOCK_SIZE, &block_of(8), BLOCK_SIZE as u32);
    assert!(pool.take_actions().is_empty());
    // the third block evicts the first, which is dirty
    assert!(pool.get(f.clone(), 2 * BLOCK_SIZE).is_some());
    assert_eq!(describe(&pool.take_actions()), vec!["write back at 0: 4096 bytes of 7"]);
    // a flush writes the dirty block that is left, and no clean one
    pool.flush();
    assert_eq!(describe(&pool.take_actions()), vec!["write back at 4096: 4096 bytes of 8"]);
    pool.flush();
    assert!(pool.take_actions().is_empty());
    assert_eq!(pool.file_contents(&f), Some(file_of(&[7, 8, 3])));
}

#[test]
fn the_pool_notes_files_that_are_created_removed_and_renamed() {
    let mut pool = BufferManager::new(2);
    let a = "first".to_string();
    let b = "second".to_string();
    pool.create_file(&a);
    pool.create_file(&a);
    assert!(!pool.remove_file(&b));
    assert!(!pool.rename_file(&b, &a));
    assert!(pool.rename_file(&a, &b));
    assert!(pool.remove_file(&b));
    assert_eq!(
        describe(&pool.take_actions()),
        vec!["create first", "rename first to second", "remove second"]
    );
}

#[test]
fn a_merge_notes_what_it_does_to_the_files() {
    let mut pool = BufferManager::new(4);
    let mut table: LSMTree<u64, u64> = LSMTree::new("noted".to_string(), &mut pool);
    assert_eq!(describe(&pool.take_actions()), vec!["create disktables/noted"]);
    table.put(&mut pool, 1, Some(2));
    assert!(pool.take_actions().is_empty());
    table.merge(&mut pool);
    assert_eq!(
        describe(&pool.take_actions()),
        vec![
            "create disktables/noted_merge",
            "remove disktables/noted",
            "rename disktables/noted_merge to disktables/noted"
        ]
    );
    pool.flush();
    let noted = pool.take_actions();
    assert_eq!(noted.len(), 1);
    match &noted[0] {
        FileAction::Write { name, offset, bytes } => {
            assert_eq!(name, "disktables/noted");
            assert_eq!(*offset, 0);
            assert_eq!(Some(bytes.clone()), pool.file_contents(&"disktables/noted".to_string()));
        }
        _ => panic!("a flush writes blocks"),
    }
}
