use sledlite::names::is_log_name;
use sledlite::names::log_file_name;
use sledlite::names::sst_file_id;
use sledlite::names::sst_file_name;
use sledlite::order::bytes_eq;
use sledlite::order::bytes_lt;
use sledlite::sort::sort_order;

#[test]
fn log_file_is_wal_log() {
    assert_eq!(log_file_name(), b"wal.log".to_vec());
    assert!(is_log_name(b"wal.log"));
    assert!(!is_log_name(b"wal.log2"));
    assert!(!is_log_name(b"wal"));
}

#[test]
fn table_names_have_twenty_digits() {
    assert_eq!(sst_file_name(0), b"sst-00000000000000000000.dat".to_vec());
    assert_eq!(sst_file_name(42), b"sst-00000000000000000042.dat".to_vec());
    assert_eq!(sst_file_name(u64::MAX), b"sst-18446744073709551615.dat".to_vec());
}

#[test]
fn table_names_name_their_ids() {
    for id in [0u64, 1, 9, 10, 999_999_999, 1_000_000_000, u64::MAX - 1, u64::MAX] {
        assert_eq!(sst_file_id(&sst_file_name(id)), Some(id));
    }
}

#[test]
fn other_names_name_no_table() {
    assert_eq!(sst_file_id(b"wal.log"), None);
    assert_eq!(sst_file_id(b"sst-1.dat"), None);
    assert_eq!(sst_file_id(b"sst-0000000000000000004x.dat"), None);
    assert_eq!(sst_file_id(b"sst-00000000000000000042.tmp"), None);
    assert_eq!(sst_file_id(b"tss-00000000000000000042.dat"), None);
    assert_eq!(sst_file_id(b"sst-18446744073709551616.dat"), None);
    assert_eq!(sst_file_id(b"sst-99999999999999999999.dat"), None);
    assert_eq!(sst_file_id(b""), None);
}

#[test]
fn name_order_is_id_order() {
    let ids = [0u64, 9, 10, 99, 100, 123_456_789, 1_000_000_000, u64::MAX];
    for i in 0..ids.len() {
        for j in 0..ids.len() {
            let a = sst_file_name(ids[i]);
            let b = sst_file_name(ids[j]);
            assert_eq!(bytes_lt(&a, &b), ids[i] < ids[j]);
            assert_eq!(a < b, ids[i] < ids[j]);
        }
    }
}

#[test]
fn bytewise_order() {
    assert!(bytes_lt(b"", b"a"));
    assert!(!bytes_lt(b"", b""));
    assert!(bytes_lt(b"a", b"ab"));
    assert!(!bytes_lt(b"ab", b"a"));
    assert!(bytes_lt(b"ab", b"b"));
    assert!(bytes_lt(b"a\x00", b"a\x01"));
    assert!(bytes_lt(b"\x7f", b"\x80"));
    assert!(!bytes_lt(b"abc", b"abc"));
    assert!(bytes_eq(b"abc", b"abc"));
    assert!(!bytes_eq(b"abc", b"abd"));
    assert!(!bytes_eq(b"abc", b"ab"));
    assert!(bytes_eq(b"", b""));
}

#[test]
fn sort_order_is_stable_and_ascending() {
    assert_eq!(sort_order(&vec![]), Vec::<usize>::new());
    assert_eq!(sort_order(&vec![5]), vec![0]);
    assert_eq!(sort_order(&vec![3, 1, 2]), vec![1, 2, 0]);
    assert_eq!(sort_order(&vec![2, 1, 2, 1]), vec![1, 3, 0, 2]);
    assert_eq!(sort_order(&vec![1, 2, 3, 4]), vec![0, 1, 2, 3]);
    assert_eq!(sort_order(&vec![4, 3, 2, 1]), vec![3, 2, 1, 0]);
}
