use sledlite::sst::SSTReader;
use sledlite::sst::SSTWriter;
use sledlite::sst::SstError;

const TABLE: [u8; 71] = [
    0, 0, 0, 0, 0, 0, 0, 2, 0, 0, 0, 1, 97, 0, 0, 0, 1, 49, 0, 0, 0, 1, 98, 0, 0, 0, 2, 50, 50, 0,
    0, 0, 1, 97, 0, 0, 0, 0, 0, 0, 0, 8, 0, 0, 0, 1, 98, 0, 0, 0, 0, 0, 0, 0, 18, 0, 0, 0, 0, 0, 0,
    0, 29, 0, 0, 0, 0, 0, 0, 0, 2,
];

fn table(entries: Vec<(Vec<u8>, Vec<u8>)>) -> Vec<u8> {
    let mut writer = SSTWriter::open();
    writer.write_all(entries).unwrap();
    writer.into_bytes()
}

#[test]
fn table_bytes_are_exact() {
    let image = table(vec![(b"a".to_vec(), b"1".to_vec()), (b"b".to_vec(), b"22".to_vec())]);
    assert_eq!(image, TABLE.to_vec());
}

#[test]
fn empty_table_is_preamble_and_footer() {
    let image = table(Vec::new());
    assert_eq!(image, vec![0u8, 0, 0, 0, 0, 0, 0, 0, 0, 0, 0, 0, 0, 0, 0, 8, 0, 0, 0, 0, 0, 0, 0, 0]);
    let reader = SSTReader::open(image).unwrap();
    assert_eq!(reader.get(b"a").unwrap(), None);
}

#[test]
fn reader_finds_what_was_written() {
    let reader = SSTReader::open(TABLE.to_vec()).unwrap();
    assert_eq!(reader.get(b"a").unwrap(), Some(b"1".to_vec()));
    assert_eq!(reader.get(b"b").unwrap(), Some(b"22".to_vec()));
    assert_eq!(reader.get(b"c").unwrap(), None);
    assert_eq!(reader.get(b"").unwrap(), None);
    assert_eq!(reader.bytes(), &TABLE.to_vec());
}

#[test]
fn entries_are_written_in_the_order_given() {
    let image = table(vec![
        (b"zz".to_vec(), b"1".to_vec()),
        (b"aa".to_vec(), b"2".to_vec()),
        (b"mm".to_vec(), b"3".to_vec()),
    ]);
    assert_eq!(&image[12..14], b"zz");
    assert_eq!(&image[23..25], b"aa");
    assert_eq!(&image[34..36], b"mm");
    let reader = SSTReader::open(image).unwrap();
    assert_eq!(reader.get(b"aa").unwrap(), Some(b"2".to_vec()));
    assert_eq!(reader.get(b"mm").unwrap(), Some(b"3".to_vec()));
    assert_eq!(reader.get(b"zz").unwrap(), Some(b"1".to_vec()));
}

#[test]
fn later_index_entry_of_a_key_wins() {
    let image = table(vec![(b"k".to_vec(), b"old".to_vec()), (b"k".to_vec(), b"new".to_vec())]);
    let reader = SSTReader::open(image).unwrap();
    assert_eq!(reader.get(b"k").unwrap(), Some(b"new".to_vec()));
}

#[test]
fn many_keys_are_found_by_halving() {
    let mut entries = Vec::new();
    for i in 0..500u32 {
        entries.push((format!("key-{:05}", i).into_bytes(), format!("val-{}", i).into_bytes()));
    }
    let reader = SSTReader::open(table(entries)).unwrap();
    for i in 0..500u32 {
        let key = format!("key-{:05}", i).into_bytes();
        assert_eq!(reader.get(&key).unwrap(), Some(format!("val-{}", i).into_bytes()));
    }
    assert_eq!(reader.get(b"key-00500").unwrap(), None);
}

#[test]
fn short_image_is_corrupt() {
    assert!(matches!(SSTReader::open(Vec::new()), Err(SstError::Corrupt)));
    assert!(matches!(SSTReader::open(vec![0u8; 15]), Err(SstError::Corrupt)));
}

#[test]
fn index_past_the_end_is_corrupt() {
    let mut image = TABLE.to_vec();
    let n = image.len();
    image[n - 9] = 200;
    assert!(matches!(SSTReader::open(image), Err(SstError::Corrupt)));
    let mut image = TABLE.to_vec();
    image[n - 1] = 4;
    assert!(matches!(SSTReader::open(image), Err(SstError::Corrupt)));
}

#[test]
fn offset_past_the_end_is_corrupt_at_get() {
    let mut image = TABLE.to_vec();
    image[41] = 250;
    let reader = SSTReader::open(image).unwrap();
    assert!(matches!(reader.get(b"a"), Err(SstError::Corrupt)));
    assert_eq!(reader.get(b"b").unwrap(), Some(b"22".to_vec()));
}

#[test]
fn second_write_indexes_the_entries_of_both() {
    let mut writer = SSTWriter::open();
    writer.write_all(vec![(b"a".to_vec(), b"1".to_vec())]).unwrap();
    writer.write_all(vec![(b"b".to_vec(), b"2".to_vec())]).unwrap();
    let reader = SSTReader::open(writer.into_bytes()).unwrap();
    assert_eq!(reader.get(b"a").unwrap(), Some(b"1".to_vec()));
    assert_eq!(reader.get(b"b").unwrap(), Some(b"2".to_vec()));
}

#[test]
fn index_offset_beyond_the_footer_is_corrupt() {
    let image = vec![0u8, 0, 0, 0, 0, 0, 0, 99, 0, 0, 0, 0, 0, 0, 0, 0];
    assert!(matches!(SSTReader::open(image), Err(SstError::Corrupt)));
    let image = vec![0u8, 0, 0, 0, 0, 0, 0, 1, 0, 0, 0, 0, 0, 0, 0, 0];
    assert!(matches!(SSTReader::open(image), Err(SstError::Corrupt)));
    let mut image = TABLE.to_vec();
    let n = image.len();
    image[n - 9] = (n - 15) as u8;
    image[n - 1] = 0;
    assert!(matches!(SSTReader::open(image), Err(SstError::Corrupt)));
}

#[test]
fn index_entry_read_out_of_the_footer_is_corrupt() {
    let image = vec![0u8, 0, 0, 0, 0, 0, 0, 3, 0, 0, 0, 0, 0, 0, 0, 1];
    assert!(matches!(SSTReader::open(image), Err(SstError::Corrupt)));
    let mut image = TABLE.to_vec();
    let n = image.len();
    image[n - 1] = 3;
    assert!(matches!(SSTReader::open(image), Err(SstError::Corrupt)));
}

#[test]
fn index_that_ends_where_the_footer_begins_is_read() {
    let image = vec![0u8, 0, 0, 0, 0, 0, 0, 0, 0, 0, 0, 0, 0, 0, 0, 0];
    let reader = SSTReader::open(image).unwrap();
    assert_eq!(reader.get(b"a").unwrap(), None);
    let reader = SSTReader::open(TABLE.to_vec()).unwrap();
    assert_eq!(reader.get(b"b").unwrap(), Some(b"22".to_vec()));
}

#[test]
fn offset_outside_the_data_block_is_corrupt_at_get() {
    let mut image = TABLE.to_vec();
    image[41] = 29;
    let reader = SSTReader::open(image).unwrap();
    assert!(matches!(reader.get(b"a"), Err(SstError::Corrupt)));
    let mut image = TABLE.to_vec();
    image[41] = 0;
    let reader = SSTReader::open(image).unwrap();
    assert!(matches!(reader.get(b"a"), Err(SstError::Corrupt)));
    let mut image = TABLE.to_vec();
    image[41] = 18;
    let reader = SSTReader::open(image).unwrap();
    assert_eq!(reader.get(b"a").unwrap(), Some(b"22".to_vec()));
    let mut image = TABLE.to_vec();
    image[41] = 19;
    let reader = SSTReader::open(image).unwrap();
    assert!(matches!(reader.get(b"a"), Err(SstError::Corrupt)));
}
