use storage_engine::fixed::{Key, KnowsSize, Stored};
use storage_engine::slotted_page::{decode, encode, measure, SlottedPage};
use storage_engine::BLOCK_SIZE;

#[test]
fn widths_of_the_stored_types() {
    assert_eq!(<u8 as KnowsSize>::bit_width(), 1);
    assert_eq!(<i8 as KnowsSize>::bit_width(), 1);
    assert_eq!(<u16 as KnowsSize>::bit_width(), 2);
    assert_eq!(<i16 as KnowsSize>::bit_width(), 2);
    assert_eq!(<u32 as KnowsSize>::bit_width(), 4);
    assert_eq!(<i32 as KnowsSize>::bit_width(), 4);
    assert_eq!(<u64 as KnowsSize>::bit_width(), 8);
    assert_eq!(<i64 as KnowsSize>::bit_width(), 8);
    assert_eq!(<u128 as KnowsSize>::bit_width(), 16);
    assert_eq!(<i128 as KnowsSize>::bit_width(), 16);
    assert_eq!(<String as KnowsSize>::bit_width(), -1);
}

#[test]
fn unsigned_integers_serialize_little_endian() {
    assert_eq!(0xabu8.serialize(), vec![0xab]);
    assert_eq!(0x0102u16.serialize(), vec![0x02, 0x01]);
    assert_eq!(0x01020304u32.serialize(), vec![0x04, 0x03, 0x02, 0x01]);
    assert_eq!(0x0102030405060708u64.serialize(), vec![8, 7, 6, 5, 4, 3, 2, 1]);
    assert_eq!(
        0x0102030405060708090a0b0c0d0e0f10u128.serialize(),
        vec![16, 15, 14, 13, 12, 11, 10, 9, 8, 7, 6, 5, 4, 3, 2, 1]
    );
}

#[test]
fn signed_integers_serialize_as_twos_complement() {
    assert_eq!((-2i8).serialize(), vec![0xfe]);
    assert_eq!((-2i16).serialize(), vec![0xfe, 0xff]);
    assert_eq!((-2i32).serialize(), vec![0xfe, 0xff, 0xff, 0xff]);
    assert_eq!((-2i64).serialize(), vec![0xfe, 0xff, 0xff, 0xff, 0xff, 0xff, 0xff, 0xff]);
    let mut wide = vec![0xffu8; 16];
    wide[0] = 0xfe;
    assert_eq!((-2i128).serialize(), wide);
}

#[test]
fn strings_serialize_with_a_length_prefix() {
    let s = "héllo".to_string();
    assert_eq!(s.serialize(), vec![6, 0, 0, 0, 0, 0, 0, 0, b'h', 0xc3, 0xa9, b'l', b'l', b'o']);
    assert_eq!(String::new().serialize(), vec![0u8; 8]);
}

#[test]
fn serialized_forms_are_those_of_bincode() {
    assert_eq!(77u64.serialize(), bincode::serialize(&77u64).unwrap());
    assert_eq!((-77i32).serialize(), bincode::serialize(&-77i32).unwrap());
    assert_eq!("abc".to_string().serialize(), bincode::serialize(&"abc".to_string()).unwrap());
}

#[test]
fn deserialize_reads_back_what_serialize_wrote() {
    assert_eq!(u8::deserialize(&200u8.serialize()), Some(200));
    assert_eq!(i8::deserialize(&(-100i8).serialize()), Some(-100));
    assert_eq!(u16::deserialize(&60000u16.serialize()), Some(60000));
    assert_eq!(i16::deserialize(&(-30000i16).serialize()), Some(-30000));
    assert_eq!(u32::deserialize(&4000000000u32.serialize()), Some(4000000000));
    assert_eq!(i32::deserialize(&(-2000000000i32).serialize()), Some(-2000000000));
    assert_eq!(u64::deserialize(&u64::MAX.serialize()), Some(u64::MAX));
    assert_eq!(i64::deserialize(&i64::MIN.serialize()), Some(i64::MIN));
    assert_eq!(u128::deserialize(&u128::MAX.serialize()), Some(u128::MAX));
    assert_eq!(i128::deserialize(&i128::MIN.serialize()), Some(i128::MIN));
    assert_eq!(String::deserialize(&"grüß".to_string().serialize()), Some("grüß".to_string()));
}

#[test]
fn deserialize_rejects_what_is_no_serialized_form() {
    assert_eq!(u64::deserialize(&[1, 2, 3]), None);
    assert_eq!(u64::deserialize(&[0; 9]), None);
    assert_eq!(u8::deserialize(&[]), None);
    assert_eq!(i16::deserialize(&[1]), None);
    // a length prefix that announces more than is there
    assert_eq!(String::deserialize(&[5, 0, 0, 0, 0, 0, 0, 0, b'a']), None);
    // bytes behind the announced length
    assert_eq!(String::deserialize(&[1, 0, 0, 0, 0, 0, 0, 0, b'a', b'b']), None);
    // not UTF-8
    assert_eq!(String::deserialize(&[1, 0, 0, 0, 0, 0, 0, 0, 0xff]), None);
    assert_eq!(String::deserialize(&[1, 0, 0]), None);
}

#[test]
fn keys_are_ordered_as_their_types_order_them() {
    assert!(1u64.precedes(&2));
    assert!(!2u64.precedes(&2));
    assert!(!3u64.precedes(&2));
    assert!((-5i32).precedes(&3));
    assert!(!3i32.precedes(&-5));
    let a = "apple".to_string();
    let b = "apples".to_string();
    let c = "banana".to_string();
    assert!(a.precedes(&b));
    assert!(b.precedes(&c));
    assert!(!c.precedes(&a));
    assert!(!a.precedes(&a));
    assert!(String::new().precedes(&a));
    assert_eq!(a.precedes(&c), a < c);
    assert_eq!("Z".to_string().precedes(&"a".to_string()), "Z" < "a");
    assert_eq!("é".to_string().precedes(&"z".to_string()), "é" < "z");
}

#[test]
fn duplicate_copies_the_value() {
    assert_eq!(5u64.duplicate(), 5);
    assert_eq!("x".to_string().duplicate(), "x".to_string());
}

#[test]
fn a_new_page_is_empty_with_a_whole_block_free() {
    let page: SlottedPage<u64, u64> = SlottedPage::new();
    assert_eq!(page.num_cells, 0);
    assert!(page.cells.is_empty());
    assert_eq!(page.space_left as usize, BLOCK_SIZE);
}

#[test]
fn a_fixed_cell_costs_sixteen_bytes_and_its_widths() {
    assert_eq!(measure::<u64, u64>(&1, &Some(2)), 16 + 8 + 9);
    assert_eq!(measure::<u64, u64>(&1, &None), 16 + 8 + 9);
    assert_eq!(measure::<u128, u128>(&1, &Some(2)), 16 + 16 + 17);
    let mut page: SlottedPage<u64, u64> = SlottedPage::new();
    assert_eq!(page.add_cell(3, Some(30)), Ok(()));
    assert_eq!(page.space_left, 4096 - 33);
    assert_eq!(page.num_cells, 1);
}

#[test]
fn a_variable_cell_costs_sixteen_bytes_and_its_serialized_lengths() {
    let k = "key".to_string();
    let v = Some("value".to_string());
    // key: 8 + 3 bytes; value: tag, then 8 + 5 bytes
    assert_eq!(measure::<String, String>(&k, &v), 16 + 11 + 14);
    assert_eq!(measure::<String, String>(&k, &None), 16 + 11 + 1);
    assert_eq!(measure::<u64, String>(&7, &v), 16 + 8 + 14);
}

#[test]
fn add_cell_keeps_the_cells_in_key_order() {
    let mut page: SlottedPage<u64, u64> = SlottedPage::new();
    assert_eq!(page.add_cell(5, Some(50)), Ok(()));
    assert_eq!(page.add_cell(1, Some(10)), Ok(()));
    assert_eq!(page.add_cell(3, None), Ok(()));
    assert_eq!(page.cells, vec![(1, Some(10)), (3, None), (5, Some(50))]);
    assert_eq!(page.num_cells, 3);
}

#[test]
fn add_cell_replaces_the_entry_of_a_key_it_holds() {
    let mut page: SlottedPage<u64, u64> = SlottedPage::new();
    assert_eq!(page.add_cell(5, Some(50)), Ok(()));
    assert_eq!(page.add_cell(5, Some(51)), Ok(()));
    assert_eq!(page.cells, vec![(5, Some(51))]);
    assert_eq!(page.num_cells, 1);
    assert_eq!(page.space_left, 4096 - 33);
}

#[test]
fn add_cell_hands_back_what_does_not_fit() {
    let mut page: SlottedPage<u64, u64> = SlottedPage::new();
    let mut n = 0u64;
    loop {
        match page.add_cell(n, Some(n)) {
            Ok(()) => n += 1,
            Err(back) => {
                assert_eq!(back, (n, Some(n)));
                break;
            }
        }
    }
    // 4096 / 33 cells fit
    assert_eq!(n, 124);
    assert_eq!(page.num_cells, 124);
    assert_eq!(page.space_left, 4096 - 124 * 33);
    let big = "x".repeat(5000);
    let mut text: SlottedPage<String, String> = SlottedPage::new();
    assert_eq!(text.add_cell(big.clone(), None), Err((big, None)));
    assert_eq!(text.num_cells, 0);
}

#[test]
fn a_fixed_page_encodes_to_the_documented_layout() {
    let mut page: SlottedPage<u64, u64> = SlottedPage::new();
    page.add_cell(1, Some(0x0a)).unwrap();
    page.add_cell(2, None).unwrap();
    let b = encode(&page);
    assert_eq!(b.len(), BLOCK_SIZE);
    // header: count with a clear top bit, key width, value width with its tag
    assert_eq!(&b[0..6], &[2, 0, 8, 0, 9, 0]);
    // offsets: 17 and 34 bytes from the end of the block
    assert_eq!(&b[6..10], &[17, 0, 34, 0]);
    // the free region is zero
    assert!(b[10..4096 - 34].iter().all(|x| *x == 0));
    // cell 1: key 2, a tombstone padded to the value's width
    let mut second = bincode::serialize(&2u64).unwrap();
    second.extend([0u8; 9]);
    assert_eq!(&b[4096 - 34..4096 - 17], second.as_slice());
    // cell 0 at the very end: key 1, then the tagged value as bincode writes it
    let mut first = bincode::serialize(&1u64).unwrap();
    first.extend(bincode::serialize(&Some(0x0au64)).unwrap());
    assert_eq!(&b[4096 - 17..], first.as_slice());
}

#[test]
fn a_variable_page_encodes_to_the_documented_layout() {
    let mut page: SlottedPage<String, String> = SlottedPage::new();
    page.add_cell("b".to_string(), Some("xy".to_string())).unwrap();
    page.add_cell("a".to_string(), None).unwrap();
    let b = encode(&page);
    assert_eq!(b.len(), BLOCK_SIZE);
    // header: count with the top bit set
    assert_eq!(&b[0..2], &[2, 0x80]);
    // cell 0 is ("a", None): 2 + 9 + 2 + 1 bytes; cell 1 is ("b", Some("xy")): 2 + 9 + 2 + 11
    assert_eq!(&b[2..6], &[14, 0, 38, 0]);
    let mut first = vec![9u8, 0];
    first.extend(bincode::serialize(&"a".to_string()).unwrap());
    first.extend([1u8, 0]);
    first.extend(bincode::serialize(&None::<String>).unwrap());
    assert_eq!(&b[4096 - 14..], first.as_slice());
    let mut second = vec![9u8, 0];
    second.extend(bincode::serialize(&"b".to_string()).unwrap());
    second.extend([11u8, 0]);
    second.extend(bincode::serialize(&Some("xy".to_string())).unwrap());
    assert_eq!(&b[4096 - 38..4096 - 14], second.as_slice());
    assert!(b[6..4096 - 38].iter().all(|x| *x == 0));
}

#[test]
fn decode_gives_back_a_fixed_page() {
    let mut page: SlottedPage<u64, u64> = SlottedPage::new();
    for i in 0..100u64 {
        let v = if i % 7 == 0 { None } else { Some(i * 3) };
        page.add_cell(i * 2, v).unwrap();
    }
    let back: SlottedPage<u64, u64> = decode(&encode(&page)).unwrap();
    assert_eq!(back.cells, page.cells);
    assert_eq!(back.num_cells, 100);
    assert_eq!(back.space_left, page.space_left);
    assert_eq!(encode(&back), encode(&page));
}

#[test]
fn decode_gives_back_a_page_of_mixed_widths() {
    let mut page: SlottedPage<u32, String> = SlottedPage::new();
    page.add_cell(9, Some("nine".to_string())).unwrap();
    page.add_cell(4, None).unwrap();
    page.add_cell(6, Some(String::new())).unwrap();
    let back: SlottedPage<u32, String> = decode(&encode(&page)).unwrap();
    assert_eq!(back.cells, vec![(4, None), (6, Some(String::new())), (9, Some("nine".to_string()))]);
}

#[test]
fn decode_gives_back_an_empty_page() {
    let page: SlottedPage<i64, i8> = SlottedPage::new();
    let back: SlottedPage<i64, i8> = decode(&encode(&page)).unwrap();
    assert_eq!(back.num_cells, 0);
    assert_eq!(back.space_left as usize, BLOCK_SIZE);
}

#[test]
fn decode_rejects_what_is_no_page() {
    assert!(decode::<u64, u64>(&vec![0u8; 100]).is_none());
    // a variable header where a fixed one is due
    let mut page: SlottedPage<String, String> = SlottedPage::new();
    page.add_cell("k".to_string(), None).unwrap();
    assert!(decode::<u64, u64>(&encode(&page)).is_none());
    // widths of other types
    let mut narrow: SlottedPage<u32, u32> = SlottedPage::new();
    narrow.add_cell(1, Some(1)).unwrap();
    assert!(decode::<u64, u64>(&encode(&narrow)).is_none());
    // a count without cells behind it
    let mut bytes = vec![0u8; BLOCK_SIZE];
    bytes[0] = 3;
    bytes[2] = 8;
    bytes[4] = 9;
    assert!(decode::<u64, u64>(&bytes).is_none());
    // keys out of order
    let mut good: SlottedPage<u64, u64> = SlottedPage::new();
    good.add_cell(1, Some(1)).unwrap();
    good.add_cell(2, Some(2)).unwrap();
    let mut swapped = encode(&good);
    swapped[4096 - 17] = 9;
    assert!(decode::<u64, u64>(&swapped).is_none());
    // an unknown tag
    let mut tagged = encode(&good);
    tagged[4096 - 9] = 2;
    assert!(decode::<u64, u64>(&tagged).is_none());
}

#[test]
fn an_all_zero_block_is_an_empty_fixed_page_only_for_matching_widths() {
    let zeros = vec![0u8; BLOCK_SIZE];
    assert!(decode::<u64, u64>(&zeros).is_none());
    assert!(decode::<String, String>(&zeros).is_none());
}

#[test]
fn add_cell_hands_back_an_entry_of_a_held_key_that_exceeds_the_space_left() {
    let mut page: SlottedPage<u64, u64> = SlottedPage::new();
    for n in 0..124u64 {
        assert_eq!(page.add_cell(n, Some(n)), Ok(()));
    }
    assert_eq!(page.space_left, 4);
    // the key is held, the cost of 33 exceeds the 4 bytes that are left
    assert_eq!(page.add_cell(7, Some(70)), Err((7, Some(70))));
    assert_eq!(page.num_cells, 124);
    assert_eq!(page.space_left, 4);
    assert_eq!(page.cells[7], (7, Some(7)));
}

#[test]
fn add_cell_gives_back_the_cost_of_the_entry_that_it_replaces() {
    let mut page: SlottedPage<String, String> = SlottedPage::new();
    let k = "key".to_string();
    assert_eq!(page.add_cell(k.clone(), Some("value".to_string())), Ok(()));
    assert_eq!(page.space_left, 4096 - (16 + 11 + 14));
    assert_eq!(page.add_cell(k.clone(), None), Ok(()));
    assert_eq!(page.num_cells, 1);
    assert_eq!(page.space_left, 4096 - (16 + 11 + 1));
    assert_eq!(page.add_cell(k.clone(), Some("longer value".to_string())), Ok(()));
    assert_eq!(page.num_cells, 1);
    assert_eq!(page.space_left, 4096 - (16 + 11 + 21));
    assert_eq!(page.cells, vec![(k, Some("longer value".to_string()))]);
}
