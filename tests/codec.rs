use rust_kv::codec::{copy_range, decode_at, encode_command, Command};

#[test]
fn put_record_layout() {
    let c = Command::Put { key: b"ab".to_vec(), value: b"xyz".to_vec() };
    let bytes = encode_command(&c);
    let mut expected: Vec<u8> = vec![0, 0, 0, 0, 2, 0, 0, 0, 0, 0, 0, 0, b'a', b'b'];
    expected.extend_from_slice(&[3, 0, 0, 0, 0, 0, 0, 0, b'x', b'y', b'z']);
    assert_eq!(bytes, expected);
}

#[test]
fn remove_record_layout() {
    let c = Command::Remove { key: b"k".to_vec() };
    let bytes = encode_command(&c);
    assert_eq!(bytes, vec![1, 0, 0, 0, 1, 0, 0, 0, 0, 0, 0, 0, b'k', 0, 0, 0, 0, 0, 0, 0, 0]);
}

#[test]
fn records_read_back_in_sequence() {
    let mut seg = encode_command(&Command::Put { key: b"k".to_vec(), value: b"v".to_vec() });
    seg.extend(encode_command(&Command::Remove { key: b"k".to_vec() }));
    match decode_at(&seg, 0) {
        Some((Command::Put { key, value }, n)) => {
            assert_eq!(key, b"k".to_vec());
            assert_eq!(value, b"v".to_vec());
            assert_eq!(n, 22);
        }
        _ => panic!("expected a put record"),
    }
    match decode_at(&seg, 22) {
        Some((Command::Remove { key }, n)) => {
            assert_eq!(key, b"k".to_vec());
            assert_eq!(n, 21);
        }
        _ => panic!("expected a remove record"),
    }
    assert!(decode_at(&seg, 43).is_none());
}

#[test]
fn malformed_records_are_rejected() {
    let good = encode_command(&Command::Put { key: b"k".to_vec(), value: b"v".to_vec() });
    let mut bad_tag = good.clone();
    bad_tag[0] = 2;
    assert!(decode_at(&bad_tag, 0).is_none());
    let mut long_key = good.clone();
    long_key[4] = 200;
    assert!(decode_at(&long_key, 0).is_none());
    let mut bad_utf8 = good.clone();
    bad_utf8[21] = 0xc3;
    assert!(decode_at(&bad_utf8, 0).is_none());
    assert!(decode_at(&good[..10].to_vec(), 0).is_none());
}

#[test]
fn copy_range_takes_the_slice() {
    let b = vec![1u8, 2, 3, 4, 5];
    assert_eq!(copy_range(&b, 1, 4), vec![2, 3, 4]);
    assert_eq!(copy_range(&b, 2, 2), Vec::<u8>::new());
}
