use sledlite::engine::next_table_id;
use sledlite::engine::Config;
use sledlite::engine::Engine;
use sledlite::engine::EngineError;
use sledlite::names::sst_file_id;
use sledlite::names::sst_file_name;
use sledlite::sst::SSTReader;
use sledlite::wal::encode_record;
use sledlite::wal::read_log;
use sledlite::wal::WalOp;

fn config(max: usize) -> Config {
    Config { dir: String::from("./temp"), memtable_max_bytes: max }
}

fn fresh(max: usize) -> Engine {
    Engine::open(config(max), Vec::new()).expect("an empty directory opens")
}

fn restart(engine: &Engine, max: usize) -> Engine {
    Engine::open(config(max), engine.files()).expect("the engine's own files open")
}

fn log_of(records: &[Vec<u8>]) -> Vec<u8> {
    let mut image = vec![0u8; 16];
    let mut last = 0u64;
    for r in records {
        image.extend_from_slice(r);
        last = u64::from_be_bytes(r[..8].try_into().unwrap());
    }
    let end = image.len() as u64;
    image[..8].copy_from_slice(&end.to_be_bytes());
    image[8..16].copy_from_slice(&last.to_be_bytes());
    image
}

#[test]
pub fn test_insert_and_get() {
    let dir = String::from("./temp");
    println!("directory : {:?}", dir.as_str());
    let config = Config { dir, memtable_max_bytes: 100 };
    let mut engine = Engine::open(config.clone(), Vec::new()).expect("expected to build the engine");
    engine.put(b"hello", b"world").expect("insertioin failed");
    engine.put(b"hey", b"there").expect("insertioin failed");
    engine.put(b"on", b"it").expect("insertioin failed");
    engine.put(b"you", b"listen").expect("insertioin failed");
    for i in 0..40 {
        let key = format!("key-{i}");
        let val = format!("val-{i}");
        engine.put(key.as_bytes(), val.as_bytes()).expect("failed to insert");
    }
    let engine = Engine::open(config, engine.files()).expect("expected to build the engine");
    let val_utf = engine.get(b"key-39").expect("failed to fetch").expect("at least some value");
    let val = String::from_utf8_lossy(&val_utf);
    println!("fetched the value is {:?}", val.to_string());
    assert_eq!(val_utf, b"val-39".to_vec());
    assert_eq!(engine.get(b"hello").unwrap(), Some(b"world".to_vec()));
    assert_eq!(engine.get(b"key-0").unwrap(), Some(b"val-0".to_vec()));
}

#[test]
fn put_get_survives_restart() {
    let mut engine = fresh(1024);
    assert_eq!(engine.put(b"foo", b"bar").unwrap(), None);
    assert_eq!(engine.get(b"foo").unwrap(), Some(b"bar".to_vec()));
    let engine = restart(&engine, 1024);
    assert_eq!(engine.get(b"foo").unwrap(), Some(b"bar".to_vec()));
}

#[test]
fn overwrites_replay_with_ascending_lsns() {
    let mut engine = fresh(1024);
    assert_eq!(engine.put(b"a", b"1").unwrap(), None);
    assert_eq!(engine.put(b"a", b"2").unwrap(), Some(b"1".to_vec()));
    assert_eq!(engine.put(b"a", b"3").unwrap(), Some(b"2".to_vec()));
    assert_eq!(engine.get(b"a").unwrap(), Some(b"3".to_vec()));
    let records = read_log(engine.log_bytes());
    assert_eq!(records.len(), 3);
    assert_eq!(records[0].lsn, 1);
    assert_eq!(records[1].lsn, 2);
    assert_eq!(records[2].lsn, 3);
    let engine = restart(&engine, 1024);
    assert_eq!(engine.get(b"a").unwrap(), Some(b"3".to_vec()));
}

#[test]
fn put_that_reaches_the_budget_flushes_first() {
    let mut engine = fresh(8);
    assert_eq!(engine.put(b"k1", b"v1").unwrap(), None);
    assert_eq!(engine.table_count(), 0);
    assert_eq!(engine.put(b"k2", b"v2").unwrap(), None);
    assert_eq!(engine.table_count(), 1);
    let files = engine.files();
    assert_eq!(files.len(), 2);
    assert_eq!(files[0].0, b"wal.log".to_vec());
    assert!(sst_file_id(&files[1].0).is_some());
    let table = SSTReader::open(files[1].1.clone()).unwrap();
    assert_eq!(table.get(b"k1").unwrap(), Some(b"v1".to_vec()));
    assert_eq!(table.get(b"k2").unwrap(), None);
    let records = read_log(&files[0].1);
    assert_eq!(records.len(), 1);
    assert_eq!(records[0].key, b"k2".to_vec());
    assert_eq!(engine.get(b"k1").unwrap(), Some(b"v1".to_vec()));
    assert_eq!(engine.get(b"k2").unwrap(), Some(b"v2".to_vec()));
}

#[test]
fn log_overrides_the_table_after_restart() {
    let mut engine = fresh(1024);
    engine.put(b"x", b"1").unwrap();
    engine.flush().unwrap();
    assert_eq!(engine.put(b"x", b"2").unwrap(), None);
    assert_eq!(engine.get(b"x").unwrap(), Some(b"2".to_vec()));
    let engine = restart(&engine, 1024);
    assert_eq!(engine.table_count(), 1);
    assert_eq!(engine.get(b"x").unwrap(), Some(b"2".to_vec()));
}

#[test]
fn delete_in_memtable_replays_as_none() {
    let mut engine = fresh(1024);
    engine.put(b"d", b"x").unwrap();
    assert_eq!(engine.delete(b"d").unwrap(), Some(b"x".to_vec()));
    assert_eq!(engine.get(b"d").unwrap(), None);
    let records = read_log(engine.log_bytes());
    assert_eq!(records.len(), 2);
    assert_eq!(records[0].op, WalOp::Put);
    assert_eq!(records[1].op, WalOp::Delete);
    let engine = restart(&engine, 1024);
    assert_eq!(engine.get(b"d").unwrap(), None);
}

#[test]
fn corrupt_last_record_is_left_out_at_restart() {
    let mut engine = fresh(1024);
    engine.put(b"a", b"1").unwrap();
    engine.put(b"b", b"2").unwrap();
    engine.put(b"a", b"3").unwrap();
    let mut files = engine.files();
    let last = files[0].1.len() - 1;
    files[0].1[last] ^= 0x01;
    let engine = Engine::open(config(1024), files).unwrap();
    assert_eq!(engine.get(b"a").unwrap(), Some(b"1".to_vec()));
    assert_eq!(engine.get(b"b").unwrap(), Some(b"2".to_vec()));
}

#[test]
fn engine_refuses_the_empty_key() {
    let mut engine = fresh(1024);
    assert_eq!(engine.put(b"", b"v"), Err(EngineError::InvalidKey));
    assert_eq!(engine.get(b""), Err(EngineError::InvalidKey));
    assert_eq!(engine.delete(b""), Err(EngineError::InvalidKey));
    assert!(read_log(engine.log_bytes()).is_empty());
}

#[test]
fn empty_value_is_kept() {
    let mut engine = fresh(1024);
    engine.put(b"k", b"").unwrap();
    assert_eq!(engine.get(b"k").unwrap(), Some(Vec::new()));
    let mut engine = restart(&engine, 1024);
    assert_eq!(engine.get(b"k").unwrap(), Some(Vec::new()));
    engine.flush().unwrap();
    assert_eq!(engine.get(b"k").unwrap(), Some(Vec::new()));
}

#[test]
fn second_put_returns_nothing_when_it_flushed() {
    let mut engine = fresh(8);
    assert_eq!(engine.put(b"k1", b"v1").unwrap(), None);
    assert_eq!(engine.put(b"k1", b"v2").unwrap(), None);
    assert_eq!(engine.table_count(), 1);
    assert_eq!(engine.get(b"k1").unwrap(), Some(b"v2".to_vec()));
}

#[test]
fn delete_of_a_flushed_key_uncovers_the_table() {
    let mut engine = fresh(1024);
    engine.put(b"k", b"v1").unwrap();
    engine.flush().unwrap();
    engine.put(b"k", b"v2").unwrap();
    assert_eq!(engine.delete(b"k").unwrap(), Some(b"v2".to_vec()));
    assert_eq!(engine.get(b"k").unwrap(), Some(b"v1".to_vec()));
}

#[test]
fn flush_in_the_middle_changes_no_answer() {
    let pairs: Vec<(Vec<u8>, Vec<u8>)> = (0..30u32)
        .map(|i| (format!("key-{}", i % 11).into_bytes(), format!("val-{}", i).into_bytes()))
        .collect();
    let mut plain = fresh(1 << 20);
    let mut flushed = fresh(1 << 20);
    for (i, (k, v)) in pairs.iter().enumerate() {
        plain.put(k, v).unwrap();
        flushed.put(k, v).unwrap();
        if i == 13 {
            flushed.flush().unwrap();
        }
    }
    assert_eq!(plain.table_count(), 0);
    assert_eq!(flushed.table_count(), 1);
    for i in 0..12u32 {
        let key = format!("key-{}", i).into_bytes();
        assert_eq!(plain.get(&key), flushed.get(&key));
    }
    assert_eq!(plain.get(b"key-3").unwrap(), Some(b"val-25".to_vec()));
}

#[test]
fn newest_table_shadows_older_ones_after_restart() {
    let mut engine = fresh(1 << 20);
    engine.put(b"k", b"v0").unwrap();
    engine.put(b"only-old", b"o").unwrap();
    engine.flush().unwrap();
    engine.put(b"k", b"v1").unwrap();
    engine.flush().unwrap();
    engine.put(b"k", b"v2").unwrap();
    engine.flush().unwrap();
    assert_eq!(engine.table_count(), 3);
    assert!(read_log(engine.log_bytes()).is_empty());
    let mut files = engine.files();
    files.reverse();
    let engine = Engine::open(config(1 << 20), files).unwrap();
    assert_eq!(engine.table_count(), 3);
    assert_eq!(engine.get(b"k").unwrap(), Some(b"v2".to_vec()));
    assert_eq!(engine.get(b"only-old").unwrap(), Some(b"o".to_vec()));
    assert_eq!(engine.get(b"none").unwrap(), None);
}

#[test]
fn table_ids_ascend_and_names_sort_by_age() {
    let mut engine = fresh(1 << 20);
    for i in 0..5u8 {
        engine.put(&[b'k', i], &[i]).unwrap();
        engine.flush().unwrap();
    }
    let mut previous: Option<u64> = None;
    for i in 0..engine.table_count() {
        let name = engine.table_file_name(i);
        let id = sst_file_id(&name).unwrap();
        assert_eq!(sst_file_name(id), name);
        if let Some(p) = previous {
            assert!(p < id);
        }
        previous = Some(id);
        assert_eq!(SSTReader::open(engine.table_bytes(i).clone()).unwrap().get(&[b'k', i as u8]).unwrap(), Some(vec![i as u8]));
    }
}

#[test]
fn new_table_id_follows_the_greatest_in_use() {
    assert_eq!(next_table_id(None), Some(1));
    assert_eq!(next_table_id(Some(0)), Some(1));
    assert_eq!(next_table_id(Some(7)), Some(8));
    assert_eq!(next_table_id(Some(u64::MAX - 1)), Some(u64::MAX));
    assert_eq!(next_table_id(Some(u64::MAX)), None);
}

#[test]
fn flushed_tables_are_numbered_from_one() {
    let mut engine = fresh(1 << 20);
    engine.put(b"a", b"1").unwrap();
    engine.flush().unwrap();
    engine.flush().unwrap();
    assert_eq!(engine.table_file_name(0), b"sst-00000000000000000001.dat".to_vec());
    assert_eq!(engine.table_file_name(1), b"sst-00000000000000000002.dat".to_vec());
    let engine = Engine::open(config(1 << 20), vec![(sst_file_name(41), engine.table_bytes(0).clone())]);
    let mut engine = engine.unwrap();
    engine.flush().unwrap();
    assert_eq!(engine.table_file_name(1), b"sst-00000000000000000042.dat".to_vec());
}

#[test]
fn lsns_go_on_after_restart() {
    let mut engine = fresh(1024);
    engine.put(b"a", b"1").unwrap();
    engine.put(b"b", b"2").unwrap();
    let mut engine = restart(&engine, 1024);
    engine.delete(b"a").unwrap();
    engine.put(b"c", b"3").unwrap();
    let records = read_log(engine.log_bytes());
    let lsns: Vec<u64> = records.iter().map(|r| r.lsn).collect();
    assert_eq!(lsns, vec![1, 2, 3, 4]);
}

#[test]
fn replay_applies_records_in_lsn_order() {
    let log = log_of(&[
        encode_record(3, WalOp::Put, b"k", Some(b"third")),
        encode_record(1, WalOp::Put, b"k", Some(b"first")),
        encode_record(2, WalOp::Delete, b"gone", None),
        encode_record(1, WalOp::Put, b"gone", Some(b"x")),
    ]);
    let engine = Engine::open(config(1024), vec![(b"wal.log".to_vec(), log)]).unwrap();
    assert_eq!(engine.get(b"k").unwrap(), Some(b"third".to_vec()));
    assert_eq!(engine.get(b"gone").unwrap(), None);
}

#[test]
fn replay_counts_the_surviving_bytes() {
    let mut engine = fresh(1 << 20);
    engine.put(b"aa", b"1111").unwrap();
    engine.put(b"aa", b"22").unwrap();
    engine.put(b"b", b"3").unwrap();
    engine.delete(b"b").unwrap();
    let mut engine = Engine::open(config(11), engine.files()).unwrap();
    assert_eq!(engine.put(b"c", b"12345").unwrap(), None);
    assert_eq!(engine.table_count(), 0);
    engine.put(b"d", b"").unwrap();
    assert_eq!(engine.table_count(), 1);
}

#[test]
fn record_with_empty_key_is_fatal_at_open() {
    let log = log_of(&[encode_record(1, WalOp::Put, b"", Some(b"v"))]);
    let opened = Engine::open(config(1024), vec![(b"wal.log".to_vec(), log)]);
    assert!(matches!(opened, Err(EngineError::InvalidKey)));
}

#[test]
fn unreadable_table_is_fatal_at_open() {
    let files = vec![(sst_file_name(1), vec![1u8, 2, 3])];
    assert!(matches!(Engine::open(config(1024), files), Err(EngineError::Corrupt)));
}

#[test]
fn other_files_are_passed_over() {
    let files = vec![
        (b"sst-1.dat".to_vec(), vec![1u8, 2, 3]),
        (b"notes.txt".to_vec(), b"hello".to_vec()),
        (b"sst-00000000000000000001.dat.tmp".to_vec(), vec![9u8]),
    ];
    let engine = Engine::open(config(1024), files).unwrap();
    assert_eq!(engine.table_count(), 0);
    assert_eq!(engine.get(b"k").unwrap(), None);
}

#[test]
fn used_up_sequence_numbers_refuse_writes() {
    let mut log = vec![0u8; 16];
    log[7] = 16;
    for b in &mut log[8..16] {
        *b = 0xff;
    }
    let mut engine = Engine::open(config(1024), vec![(b"wal.log".to_vec(), log)]).unwrap();
    assert_eq!(engine.put(b"k", b"v"), Err(EngineError::Full));
    assert_eq!(engine.delete(b"k"), Err(EngineError::Full));
    assert_eq!(engine.get(b"k").unwrap(), None);
}

#[test]
fn used_up_table_ids_refuse_a_flush() {
    let mut donor = fresh(1 << 20);
    donor.put(b"k", b"v").unwrap();
    donor.flush().unwrap();
    let image = donor.table_bytes(0).clone();
    let mut engine = Engine::open(config(4), vec![(sst_file_name(u64::MAX), image)]).unwrap();
    assert_eq!(engine.flush(), Err(EngineError::Full));
    assert_eq!(engine.put(b"abc", b"def"), Err(EngineError::Full));
    assert_eq!(engine.table_count(), 1);
    assert_eq!(engine.get(b"k").unwrap(), Some(b"v".to_vec()));
}

#[test]
fn config_is_kept() {
    let engine = fresh(77);
    assert_eq!(engine.config().memtable_max_bytes, 77);
    assert_eq!(engine.config().dir, "./temp");
}

#[test]
fn table_with_index_beyond_the_file_is_fatal_at_open() {
    let image = vec![0u8, 0, 0, 0, 0, 0, 0, 99, 0, 0, 0, 0, 0, 0, 0, 0];
    let files = vec![(sst_file_name(1), image)];
    assert!(matches!(Engine::open(config(1024), files), Err(EngineError::Corrupt)));
    let image = vec![0u8, 0, 0, 0, 0, 0, 0, 3, 0, 0, 0, 0, 0, 0, 0, 1];
    let files = vec![(sst_file_name(1), image)];
    assert!(matches!(Engine::open(config(1024), files), Err(EngineError::Corrupt)));
}

#[test]
fn sequence_numbers_go_on_after_the_header_whatever_end_it_names() {
    let mut log = vec![0u8; 16];
    log[7] = 3;
    log[15] = 9;
    let mut engine = Engine::open(config(1024), vec![(b"wal.log".to_vec(), log)]).unwrap();
    engine.put(b"k", b"v").unwrap();
    let records = read_log(engine.log_bytes());
    assert_eq!(records.len(), 1);
    assert_eq!(records[0].lsn, 10);
}
