use sledlite::wal::encode_record;
use sledlite::wal::read_log;
use sledlite::wal::read_records;
use sledlite::wal::WalOp;
use sledlite::wal::WalReader;
use sledlite::wal::WalWriter;
use sledlite::wal::HEADER_LEN;

const PUT_FOO_BAR: [u8; 27] = [
    0, 0, 0, 0, 0, 0, 0, 1, 1, 0, 0, 0, 3, 102, 111, 111, 0, 0, 0, 3, 98, 97, 114, 58, 41, 204, 13,
];

const DELETE_FOO: [u8; 24] =
    [0, 0, 0, 0, 0, 0, 0, 2, 2, 0, 0, 0, 3, 102, 111, 111, 0, 0, 0, 0, 19, 199, 123, 223];

#[test]
fn checksum_is_crc32() {
    assert_eq!(crc32fast::hash(b"123456789"), 0xcbf4_3926);
}

#[test]
fn op_codes() {
    assert_eq!(u8::from(WalOp::Put), 1);
    assert_eq!(u8::from(WalOp::Delete), 2);
    assert_eq!(WalOp::from(1u8), WalOp::Put);
    assert_eq!(WalOp::from(2u8), WalOp::Delete);
    assert_eq!(WalOp::from(0u8), WalOp::Put);
    assert_eq!(WalOp::from(200u8), WalOp::Put);
}

#[test]
fn record_bytes_are_exact() {
    assert_eq!(encode_record(1, WalOp::Put, b"foo", Some(b"bar")), PUT_FOO_BAR.to_vec());
    assert_eq!(encode_record(2, WalOp::Delete, b"foo", None), DELETE_FOO.to_vec());
}

#[test]
fn append_writes_record_and_header() {
    let mut writer = WalWriter::open(Vec::new(), false);
    assert_eq!(writer.end_of_log(), 16);
    assert_eq!(writer.last_sequence_number(), 0);
    writer.append_put(1, b"foo", b"bar").unwrap();
    assert_eq!(writer.end_of_log(), 16 + 27);
    assert_eq!(writer.last_sequence_number(), 1);
    let mut expected = vec![0u8, 0, 0, 0, 0, 0, 0, 43, 0, 0, 0, 0, 0, 0, 0, 1];
    expected.extend_from_slice(&PUT_FOO_BAR);
    assert_eq!(writer.bytes(), &expected);
    writer.append_delete(2, b"foo").unwrap();
    let mut expected = vec![0u8, 0, 0, 0, 0, 0, 0, 67, 0, 0, 0, 0, 0, 0, 0, 2];
    expected.extend_from_slice(&PUT_FOO_BAR);
    expected.extend_from_slice(&DELETE_FOO);
    assert_eq!(writer.bytes(), &expected);
}

#[test]
fn reader_returns_records_in_order() {
    let mut writer = WalWriter::open(Vec::new(), false);
    writer.append_put(1, b"foo", b"bar").unwrap();
    writer.append_delete(2, b"foo").unwrap();
    writer.append_put(5, b"k", b"").unwrap();
    let records = WalReader::open(writer.bytes().clone()).read_all();
    assert_eq!(records.len(), 3);
    assert_eq!(records[0].lsn, 1);
    assert_eq!(records[0].op, WalOp::Put);
    assert_eq!(records[0].key, b"foo".to_vec());
    assert_eq!(records[0].value, Some(b"bar".to_vec()));
    assert_eq!(records[1].lsn, 2);
    assert_eq!(records[1].op, WalOp::Delete);
    assert_eq!(records[1].key, b"foo".to_vec());
    assert_eq!(records[1].value, None);
    assert_eq!(records[2].lsn, 5);
    assert_eq!(records[2].op, WalOp::Put);
    assert_eq!(records[2].value, None);
}

#[test]
fn reopened_writer_goes_on_where_the_header_says() {
    let mut writer = WalWriter::open(Vec::new(), false);
    writer.append_put(7, b"a", b"1").unwrap();
    let image = writer.bytes().clone();
    let mut again = WalWriter::open(image.clone(), false);
    assert_eq!(again.end_of_log(), image.len() as u64);
    assert_eq!(again.last_sequence_number(), 7);
    again.append_put(8, b"b", b"2").unwrap();
    let records = read_log(again.bytes());
    assert_eq!(records.len(), 2);
    assert_eq!(records[1].lsn, 8);
    assert_eq!(records[1].key, b"b".to_vec());
}

#[test]
fn truncating_open_starts_an_empty_log() {
    let mut writer = WalWriter::open(Vec::new(), false);
    writer.append_put(7, b"a", b"1").unwrap();
    let again = WalWriter::open(writer.bytes().clone(), true);
    assert!(again.bytes().is_empty());
    assert_eq!(again.end_of_log(), 16);
    assert_eq!(again.last_sequence_number(), 0);
}

#[test]
fn short_or_zero_header_is_a_fresh_log() {
    assert_eq!(HEADER_LEN, 16);
    let writer = WalWriter::open(vec![1u8, 2, 3], false);
    assert_eq!(writer.end_of_log(), 16);
    assert_eq!(writer.last_sequence_number(), 0);
    let writer = WalWriter::open(vec![0u8; 16], false);
    assert_eq!(writer.end_of_log(), 16);
    assert_eq!(writer.last_sequence_number(), 0);
    assert!(read_log(&[1u8, 2, 3]).is_empty());
    assert!(read_log(&[]).is_empty());
}

#[test]
fn append_overwrites_stale_bytes_at_the_end_of_log() {
    let mut image = vec![0u8, 0, 0, 0, 0, 0, 0, 16, 0, 0, 0, 0, 0, 0, 0, 0];
    image.extend_from_slice(&[0xee; 40]);
    let mut writer = WalWriter::open(image, false);
    writer.append_put(1, b"foo", b"bar").unwrap();
    let bytes = writer.bytes();
    assert_eq!(bytes.len(), 56);
    assert_eq!(&bytes[16..43], &PUT_FOO_BAR);
    assert_eq!(&bytes[43..], &[0xee; 13]);
    assert_eq!(read_log(bytes).len(), 1);
}

#[test]
fn flipped_payload_byte_ends_the_replay() {
    let mut body = Vec::new();
    body.extend_from_slice(&encode_record(1, WalOp::Put, b"a", Some(b"1")));
    let second = body.len();
    body.extend_from_slice(&encode_record(2, WalOp::Put, b"bb", Some(b"22")));
    let third = body.len();
    body.extend_from_slice(&encode_record(3, WalOp::Put, b"c", Some(b"3")));
    assert_eq!(read_records(&body).len(), 3);
    for at in [second + 8, second + 13, second + 14, second + 19, second + 20] {
        assert!(at < third);
        let mut broken = body.clone();
        broken[at] ^= 0x01;
        let records = read_records(&broken);
        assert_eq!(records.len(), 1);
        assert_eq!(records[0].key, b"a".to_vec());
    }
}

#[test]
fn flipped_checksum_byte_ends_the_replay() {
    let mut body = Vec::new();
    body.extend_from_slice(&encode_record(1, WalOp::Put, b"a", Some(b"1")));
    body.extend_from_slice(&encode_record(2, WalOp::Put, b"b", Some(b"2")));
    let last = body.len() - 1;
    body[last] ^= 0xff;
    let records = read_records(&body);
    assert_eq!(records.len(), 1);
    assert_eq!(records[0].lsn, 1);
}

#[test]
fn cut_record_ends_the_replay() {
    let mut body = Vec::new();
    body.extend_from_slice(&encode_record(1, WalOp::Put, b"a", Some(b"1")));
    let whole = body.len();
    body.extend_from_slice(&encode_record(2, WalOp::Put, b"b", Some(b"2")));
    for len in whole..body.len() {
        assert_eq!(read_records(&body[..len]).len(), 1);
    }
    assert_eq!(read_records(&body).len(), 2);
}

#[test]
fn header_with_an_end_inside_itself_keeps_its_sequence_number() {
    let mut image = vec![0u8; 16];
    image[7] = 3;
    image[15] = 9;
    let mut writer = WalWriter::open(image, false);
    assert_eq!(writer.end_of_log(), 16);
    assert_eq!(writer.last_sequence_number(), 9);
    writer.append_put(10, b"foo", b"bar").unwrap();
    assert_eq!(writer.end_of_log(), 43);
    assert_eq!(&writer.bytes()[..16], &[0u8, 0, 0, 0, 0, 0, 0, 43, 0, 0, 0, 0, 0, 0, 0, 10]);
}
