use linhash::entry;
use linhash::entry::{BlockIterator, Entry, SubBucketer};
use linhash::helpers::next_power_of_2;
use linhash::layout::{MAX_DATA_SIZE, MAX_SUB_BUCKETS};
use linhash::record::Record;
use linhash::StoreError;

fn int_pairs() -> Record {
    let mut h = Record::new();
    h.insert("5".to_string(), "6".to_string());
    h.insert("7".to_string(), "8".to_string());
    h
}

fn greeting_pairs() -> Record {
    let mut h = Record::new();
    h.insert("hello".to_string(), "world".to_string());
    h.insert("fuzzy".to_string(), "bunny".to_string());
    h
}

#[test]
fn block_use_block() {
    let b = SubBucketer::new();

    assert!(b.len() == 4096);
    assert!(b.read_bytes(0, 1)[0] == 0);
}

#[test]
fn hash_block_new() {
    let b = SubBucketer::new();

    assert!(b.len() == 4096);
    assert!(b.read_bytes(0, 1)[0] == 0);
}

#[test]
fn get_sub_bucket() {
    let mut b = SubBucketer::new();
    let h = int_pairs();

    entry::put_sub_bucket(&mut b, 1, &h).unwrap();

    let h2 = entry::get_sub_bucket(&b, 1).unwrap().unwrap();
    assert_eq!(h, h2);
}

#[test]
fn put_sub_bucket() {
    let mut b = SubBucketer::new();
    let h = int_pairs();

    entry::put_sub_bucket(&mut b, 0, &h).unwrap();
    entry::put_sub_bucket(&mut b, 2, &h).unwrap();
}

#[test]
fn set_sub() {
    let mut b = SubBucketer::new();
    let h = int_pairs();

    entry::put_sub_bucket(&mut b, 0, &h).unwrap();

    let h2 = entry::get_sub_bucket(&b, 0).unwrap().unwrap();
    assert_eq!(h, h2);
}

#[test]
fn get_sub() {
    let mut b = SubBucketer::new();
    let h = int_pairs();

    entry::put_sub_bucket(&mut b, 0, &h).unwrap();

    assert!(b.read_bytes(0, 1)[0] != 0)
}

#[test]
fn free_functions_refuse_index_past_directory() {
    let mut b = SubBucketer::new();
    let h = int_pairs();

    assert_eq!(entry::put_sub_bucket(&mut b, 256, &h), Err(StoreError::Validation));
    assert_eq!(entry::get_sub_bucket(&b, 300), Err(StoreError::Validation));
    assert_eq!(entry::del_sub_bucket(&mut b, 256), Err(StoreError::Validation));
    assert_eq!(entry::del_sub_bucket(&mut b, 255), Ok(()));
}

#[test]
fn entry_get_entry() {
    let mut b = SubBucketer::new();

    // write an entry at b[40] of size: 257, offset: 258
    b.write_bytes(40, &[1, 1, 1, 2]);

    let entry = b.get_entry(10);

    assert_eq!(entry.offset, 257);
    assert_eq!(entry.size, 258);
}

#[test]
fn mod_get_entry() {
    let mut b = SubBucketer::new();

    b.write_bytes(40, &[1, 1, 1, 2]);

    let entry = b.get_entry(10);

    assert_eq!(entry.offset, 257);
    assert_eq!(entry.size, 258);
}

#[test]
fn entry_put_entry() {
    let mut b = SubBucketer::new();
    let e = Entry { size: 257, offset: 258 };

    b.put_entry(10, e);

    let entry = b.get_entry(10);

    assert_eq!(entry.size, 257);
    assert_eq!(entry.offset, 258);
}

#[test]
fn mod_put_entry() {
    let mut b = SubBucketer::new();
    let e = Entry { size: 257, offset: 258 };

    b.put_entry(10, e);

    let entry = b.get_entry(10);

    assert_eq!(entry.size, 257);
    assert_eq!(entry.offset, 258);
    assert_eq!(b.read_bytes(40, 44), vec![1, 2, 1, 1]);
}

#[test]
fn entry_find_space() {
    let mut b = SubBucketer::new();

    // If the entire space is taken error
    b.put_entry(0, Entry { offset: 0, size: MAX_DATA_SIZE as u16 });
    assert_eq!(b.find_space(9), Err(StoreError::StorageFull));
}

#[test]
fn mod_find_space() {
    let mut b = SubBucketer::new();

    b.put_entry(0, Entry { offset: 0, size: MAX_DATA_SIZE as u16 });
    assert_eq!(b.find_space(9), Err(StoreError::StorageFull));
}

#[test]
fn entry_find_space_end() {
    let mut b = SubBucketer::new();

    // If there's space at the end
    b.put_entry(0, Entry { offset: 0, size: 9 });
    b.put_entry(2, Entry { offset: 16, size: 25 });

    assert_eq!(b.find_space(28).unwrap(), 48);
}

#[test]
fn mod_find_space_end() {
    let mut b = SubBucketer::new();

    b.put_entry(0, Entry { offset: 0, size: 9 });
    b.put_entry(2, Entry { offset: 16, size: 25 });

    assert_eq!(b.find_space(28).unwrap(), 48);
}

#[test]
fn entry_find_space_middle() {
    let mut b = SubBucketer::new();

    // If there's a chunk in between somewhere (out of order)
    b.put_entry(0, Entry { offset: 0, size: 9 });
    b.put_entry(1, Entry { offset: 64, size: 26 });
    b.put_entry(2, Entry { offset: 16, size: 25 });

    assert_eq!(b.find_space(9).unwrap(), 48);
    assert_eq!(b.find_space(28).unwrap(), 96);
}

#[test]
fn mod_find_space_middle() {
    let mut b = SubBucketer::new();

    b.put_entry(0, Entry { offset: 0, size: 9 });
    b.put_entry(1, Entry { offset: 64, size: 26 });
    b.put_entry(2, Entry { offset: 16, size: 25 });

    assert_eq!(b.find_space(9).unwrap(), 48);
    assert_eq!(b.find_space(28).unwrap(), 96);
}

#[test]
fn find_space_refuses_zero_size() {
    let b = SubBucketer::new();

    assert_eq!(b.find_space(0), Err(StoreError::Validation));
}

#[test]
fn find_space_empty_block_starts_after_directory() {
    let b = SubBucketer::new();

    assert_eq!(b.find_space(1), Ok(1024));
    assert_eq!(b.find_space(1024), Ok(1024));
    // The next size class, 2048, does not fit before the footer.
    assert_eq!(b.find_space(1025), Err(StoreError::StorageFull));
}

#[test]
fn find_space_skips_reserved_padding() {
    let mut b = SubBucketer::new();

    // A 20-byte payload reserves 32 bytes: the next range starts after them.
    b.put_entry(3, Entry { offset: 1024, size: 20 });
    assert_eq!(b.find_space(8), Ok(1056));
}

#[test]
fn entry_next_power_of_2() {
    assert_eq!(next_power_of_2(1), 1);
    assert_eq!(next_power_of_2(3), 4);
    assert_eq!(next_power_of_2(5), 8);
    assert_eq!(next_power_of_2(6), 8);
    assert_eq!(next_power_of_2(11), 16);
    assert_eq!(next_power_of_2(17), 32);
}

#[test]
fn helpers_next_power_of_2() {
    assert_eq!(next_power_of_2(1), 1);
    assert_eq!(next_power_of_2(3), 4);
    assert_eq!(next_power_of_2(5), 8);
    assert_eq!(next_power_of_2(6), 8);
    assert_eq!(next_power_of_2(11), 16);
    assert_eq!(next_power_of_2(17), 32);
}

#[test]
fn next_power_of_2_edges() {
    assert_eq!(next_power_of_2(2), 2);
    assert_eq!(next_power_of_2(16), 16);
    assert_eq!(next_power_of_2(32767), 32768);
    assert_eq!(next_power_of_2(32768), 32768);
}

#[test]
fn entry_iterators() {
    let b = SubBucketer::new();
    let mut bi = BlockIterator::new(&b);

    let mut count: usize = 0;
    while let Some(_) = bi.next() {
        count += 1;
    }

    assert_eq!(count, MAX_SUB_BUCKETS);
}

#[test]
fn block_iterator_iterators() {
    let b = SubBucketer::new();
    let mut bi = BlockIterator::new(&b);

    let mut count: usize = 0;
    while let Some(_) = bi.next() {
        count += 1;
    }
    assert!(bi.next().is_none());

    assert_eq!(count, MAX_SUB_BUCKETS);
}

fn sorted_offsets(b: &SubBucketer) -> Vec<u16> {
    let mut entries: Vec<Entry> = Vec::new();
    let mut bi = BlockIterator::new(b);
    while let Some(e) = bi.next() {
        entries.push(e);
    }
    entries.sort_by_key(|e| e.offset);
    entries.iter().map(|i| i.offset).collect()
}

#[test]
fn entry_sorting() {
    let mut b = SubBucketer::new();

    b.put_entry(0, Entry { offset: 196, size: 16 });
    b.put_entry(1, Entry { offset: 16, size: 32 });
    b.put_entry(2, Entry { offset: 36, size: 32 });

    let offsets = sorted_offsets(&b);

    // There's going to be a lot of zeroes in here, cull them out
    assert_eq!(offsets[offsets.len() - 3..], [16, 36, 196]);
}

#[test]
fn block_iterator_sorting() {
    let mut b = SubBucketer::new();

    b.put_entry(0, Entry { offset: 196, size: 16 });
    b.put_entry(1, Entry { offset: 16, size: 32 });
    b.put_entry(2, Entry { offset: 36, size: 32 });

    let offsets = sorted_offsets(&b);

    assert_eq!(offsets[offsets.len() - 3..], [16, 36, 196]);
}

#[test]
fn get_put_sub_bucket() {
    let mut b = SubBucketer::new();
    let h = greeting_pairs();

    b.put_sub_bucket(1, &h).unwrap();

    let h2 = b.get_sub_bucket(1).unwrap().unwrap();
    assert_eq!(h, h2);

    let h3 = b.get_sub_bucket(2).unwrap();
    assert!(h3.is_none());
}

#[test]
fn del_sub_bucket() {
    let mut b = SubBucketer::new();
    let h = greeting_pairs();

    b.put_sub_bucket(0, &h).unwrap();
    b.del_sub_bucket(0);
    let h = b.get_sub_bucket(0).unwrap();
    assert!(h.is_none());
}

#[test]
fn put_sub_bucket_layout() {
    let mut b = SubBucketer::new();
    let h = greeting_pairs();

    b.put_sub_bucket(0, &h).unwrap();
    b.put_sub_bucket(1, &h).unwrap();

    // Each payload is 30 bytes, so each reserves 32.
    assert_eq!(b.get_entry(0), Entry { offset: 1024, size: 30 });
    assert_eq!(b.get_entry(1), Entry { offset: 1056, size: 30 });
    assert_eq!(b.get_size(), 60);
}

#[test]
fn put_sub_bucket_grows_in_place_within_class() {
    let mut b = SubBucketer::new();
    let mut h = Record::new();
    h.insert("a".to_string(), "b".to_string());

    b.put_sub_bucket(0, &h).unwrap();
    assert_eq!(b.get_entry(0), Entry { offset: 1024, size: 8 });
    b.put_sub_bucket(1, &h).unwrap();
    assert_eq!(b.get_entry(1), Entry { offset: 1032, size: 8 });

    // Still 8 bytes: stays in place.
    h.insert("a".to_string(), "c".to_string());
    b.put_sub_bucket(0, &h).unwrap();
    assert_eq!(b.get_entry(0), Entry { offset: 1024, size: 8 });

    // Now 14 bytes: moves past slot 1's reservation.
    h.insert("d".to_string(), "e".to_string());
    b.put_sub_bucket(0, &h).unwrap();
    assert_eq!(b.get_entry(0), Entry { offset: 1040, size: 14 });
    assert_eq!(b.get_sub_bucket(0).unwrap().unwrap(), h);
}

#[test]
fn put_sub_bucket_storage_full_leaves_block_unchanged() {
    let mut b = SubBucketer::new();
    let mut h = Record::new();
    h.insert("k".to_string(), "x".repeat(2100));

    let before = b.read_bytes(0, 4096);
    assert_eq!(b.put_sub_bucket(0, &h), Err(StoreError::StorageFull));
    assert_eq!(b.read_bytes(0, 4096), before);
}

#[test]
fn put_sub_bucket_refuses_unencodable_record() {
    let mut b = SubBucketer::new();
    let mut h = Record::new();
    h.insert("k".to_string(), "x".repeat(70000));

    assert_eq!(b.put_sub_bucket(0, &h), Err(StoreError::Validation));
}

#[test]
fn get_sub_bucket_reports_corrupt_payload() {
    let mut b = SubBucketer::new();

    b.put_entry(4, Entry { offset: 1024, size: 3 });
    b.write_bytes(1024, &[0, 1, 0]);
    assert_eq!(b.get_sub_bucket(4), Err(StoreError::Decode));

    b.put_entry(5, Entry { offset: 4090, size: 100 });
    assert_eq!(b.get_sub_bucket(5), Err(StoreError::Decode));
}

#[test]
fn entry_to_range() {
    let e = Entry { offset: 1024, size: 30 };
    assert_eq!(e.to_range(), 1024..1054);
}
