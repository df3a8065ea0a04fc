use todo_store::codec::{decode_collection, encode_collection};
use todo_store::record::{Record, Timestamp, TodoError};

fn ts(secs: i64, nanos: u32, offset_secs: i32) -> Timestamp {
    Timestamp { secs, nanos, offset_secs }
}

fn rec(secs: i64, path: &str, msg: &str, completed: Option<Timestamp>) -> Record {
    Record {
        created_at: ts(secs, 0, 0),
        origin_path: path.as_bytes().to_vec(),
        message: msg.as_bytes().to_vec(),
        completed_at: completed,
    }
}

#[test]
fn round_trip_empty() {
    let v: Vec<Record> = Vec::new();
    let bytes = encode_collection(&v);
    let back = decode_collection(&bytes).unwrap();
    assert_eq!(back, v);
}

#[test]
fn round_trip_records() {
    let v = vec![
        rec(5, "/a/x", "first task", None),
        rec(-3, "/b", "second", Some(ts(7, 999_999_999, -3600))),
        rec(i64::MAX, "/c", "third", Some(ts(i64::MIN, 0, 86_399))),
    ];
    let bytes = encode_collection(&v);
    let back = decode_collection(&bytes).unwrap();
    assert_eq!(back, v);
}

#[test]
fn round_trip_odd_bytes_in_message() {
    let mut r = rec(0, "/a", "x", None);
    r.message = b"line one\nline two: 3:4\n".to_vec();
    let v = vec![r];
    let bytes = encode_collection(&v);
    let back = decode_collection(&bytes).unwrap();
    assert_eq!(back, v);
}

#[test]
fn encode_exact_bytes() {
    let v = vec![Record {
        created_at: ts(5, 6, -3600),
        origin_path: b"/a".to_vec(),
        message: b"hi".to_vec(),
        completed_at: None,
    }];
    let bytes = encode_collection(&v);
    assert_eq!(bytes, b"1\n5 6 -3600 n 2:/a2:hi\n".to_vec());
}

#[test]
fn encode_exact_bytes_completed() {
    let v = vec![Record {
        created_at: ts(-5, 0, 0),
        origin_path: b"/".to_vec(),
        message: b"".to_vec(),
        completed_at: Some(ts(10, 2, 60)),
    }];
    let bytes = encode_collection(&v);
    assert_eq!(bytes, b"1\n-5 0 0 c 10 2 60 1:/0:\n".to_vec());
}

#[test]
fn empty_store_is_empty_collection() {
    let bytes: Vec<u8> = Vec::new();
    let back = decode_collection(&bytes).unwrap();
    assert!(back.is_empty());
}

#[test]
fn corrupt_store_is_an_error() {
    for garbage in [
        &b"not a store"[..],
        &b"1\n"[..],
        &b"2\n5 6 0 n 2:/a2:hi\n"[..],
        &b"1\n5 6 0 q 2:/a2:hi\n"[..],
        &b"1\n5 6 0 n 9:/a2:hi\n"[..],
        &b"1\n5 6 0 n 2:/a2:hi\nextra"[..],
        &b"99999999999999999999\n"[..],
        &b"\n"[..],
    ] {
        assert_eq!(
            decode_collection(&garbage.to_vec()),
            Err(TodoError::CorruptStore),
            "should reject {:?}",
            garbage
        );
    }
}

#[test]
fn decode_accepts_what_encode_wrote_only_in_full() {
    let v = vec![rec(1, "/a", "x", None)];
    let mut bytes = encode_collection(&v);
    bytes.pop();
    assert_eq!(decode_collection(&bytes), Err(TodoError::CorruptStore));
}
