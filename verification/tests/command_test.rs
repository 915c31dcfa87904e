use sledlite::command::Command;
use sledlite::command::DecodeError;

#[test]
fn put_is_encoded_with_tag_and_lengths() {
    let cmd = Command::Put { key: b"k1".to_vec(), val: b"v1".to_vec() };
    assert!(cmd.can_encode());
    assert_eq!(cmd.encode(), vec![1u8, 0, 0, 0, 2, b'k', b'1', 0, 0, 0, 2, b'v', b'1']);
}

#[test]
fn delete_is_encoded_with_tag_and_length() {
    let cmd = Command::Delete { key: b"key".to_vec() };
    assert_eq!(cmd.encode(), vec![2u8, 0, 0, 0, 3, b'k', b'e', b'y']);
}

#[test]
fn lengths_are_big_endian() {
    let cmd = Command::Delete { key: vec![7u8; 0x0102] };
    let bytes = cmd.encode();
    assert_eq!(&bytes[..5], &[2u8, 0, 0, 1, 2]);
    assert_eq!(bytes.len(), 5 + 0x0102);
}

#[test]
fn decode_undoes_encode() {
    let cmd = Command::Put { key: b"alpha".to_vec(), val: Vec::new() };
    match Command::decode(&cmd.encode()) {
        Ok(Command::Put { key, val }) => {
            assert_eq!(key, b"alpha".to_vec());
            assert_eq!(val, Vec::<u8>::new());
        }
        other => panic!("unexpected {:?}", other),
    }
    let cmd = Command::Delete { key: b"beta".to_vec() };
    match Command::decode(&cmd.encode()) {
        Ok(Command::Delete { key }) => assert_eq!(key, b"beta".to_vec()),
        other => panic!("unexpected {:?}", other),
    }
}

#[test]
fn decode_passes_over_what_follows() {
    let mut bytes = Command::Delete { key: b"k".to_vec() }.encode();
    bytes.extend_from_slice(b"trailing");
    match Command::decode(&bytes) {
        Ok(Command::Delete { key }) => assert_eq!(key, b"k".to_vec()),
        other => panic!("unexpected {:?}", other),
    }
}

#[test]
fn unknown_tag_is_reported() {
    let bytes = vec![7u8, 0, 0, 0, 1, b'k'];
    assert!(matches!(Command::decode(&bytes), Err(DecodeError::UnknownTag)));
}

#[test]
fn short_input_is_reported() {
    assert!(matches!(Command::decode(&[]), Err(DecodeError::Truncated)));
    assert!(matches!(Command::decode(&[1u8, 0, 0]), Err(DecodeError::Truncated)));
    assert!(matches!(Command::decode(&[1u8, 0, 0, 0, 2, b'k']), Err(DecodeError::Truncated)));
    assert!(matches!(
        Command::decode(&[1u8, 0, 0, 0, 1, b'k', 0, 0, 0, 2, b'v']),
        Err(DecodeError::Truncated)
    ));
    assert!(matches!(Command::decode(&[9u8, 0, 0]), Err(DecodeError::Truncated)));
}
