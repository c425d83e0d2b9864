use storage_engine::buffer_manager::BufferManager;
use storage_engine::fixed::{Key, KnowsSize, Stored};
use storage_engine::lsm_tree::LSMTree;
use storage_engine::slotted_page::measure;
use storage_engine::timestamp::Timestamp;

#[test]
fn a_timestamp_is_eight_bytes_wide() {
    assert_eq!(<Timestamp as KnowsSize>::bit_width(), 8);
    assert_eq!(measure::<Timestamp, u64>(&Timestamp::new(1), &Some(2)), 16 + 8 + 9);
}

#[test]
fn a_timestamp_is_stored_as_its_seconds() {
    let t = Timestamp::new(1_700_000_000);
    assert_eq!(t.timestamp(), 1_700_000_000);
    assert_eq!(t.serialize(), 1_700_000_000i64.serialize());
    assert_eq!(t.serialize(), bincode::serialize(&1_700_000_000i64).unwrap());
    assert_eq!(Timestamp::new(-2).serialize(), vec![0xfe, 0xff, 0xff, 0xff, 0xff, 0xff, 0xff, 0xff]);
    let back = Timestamp::deserialize(&t.serialize()).unwrap();
    assert_eq!(back.timestamp(), 1_700_000_000);
    assert!(Timestamp::deserialize(&[1, 2, 3]).is_none());
    assert_eq!(t.duplicate().timestamp(), t.timestamp());
}

#[test]
fn the_earlier_timestamp_sorts_first() {
    let a = Timestamp::new(-5);
    let b = Timestamp::new(3);
    assert!(a.precedes(&b));
    assert!(!b.precedes(&a));
    assert!(!a.precedes(&a));
}

#[test]
fn a_table_takes_timestamps_as_keys() {
    let mut pool = BufferManager::new(4);
    let mut table: LSMTree<Timestamp, u64> = LSMTree::new("times".to_string(), &mut pool);
    table.put(&mut pool, Timestamp::new(30), Some(3));
    table.put(&mut pool, Timestamp::new(-10), Some(1));
    table.put(&mut pool, Timestamp::new(20), None);
    table.merge(&mut pool);
    table.build_index(&mut pool);
    assert_eq!(table.get(&mut pool, Timestamp::new(30)), Some(3));
    assert_eq!(table.get(&mut pool, Timestamp::new(-10)), Some(1));
    assert_eq!(table.get(&mut pool, Timestamp::new(20)), None);
    assert_eq!(table.get(&mut pool, Timestamp::new(0)), None);
    let page = table.get_page(&"disktables/times".to_string(), &mut pool, 0).unwrap();
    let keys: Vec<i64> = page.cells.iter().map(|c| c.0.timestamp()).collect();
    assert_eq!(keys, vec![-10, 20, 30]);
}
