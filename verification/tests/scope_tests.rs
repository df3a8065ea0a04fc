use todo_store::record::{Record, Timestamp};
use todo_store::scope::{partition_records, path_matches};

fn ts(secs: i64) -> Timestamp {
    Timestamp { secs, nanos: 0, offset_secs: 0 }
}

fn rec(secs: i64, path: &str, msg: &str) -> Record {
    Record {
        created_at: ts(secs),
        origin_path: path.as_bytes().to_vec(),
        message: msg.as_bytes().to_vec(),
        completed_at: None,
    }
}

fn filters(paths: &[&str]) -> Vec<Vec<u8>> {
    paths.iter().map(|p| p.as_bytes().to_vec()).collect()
}

#[test]
fn containment_is_componentwise() {
    let cases = [
        ("/a", "/a", true),
        ("/a/x", "/a", true),
        ("/a/x/y", "/a", true),
        ("/ab", "/a", false),
        ("/a", "/a/x", false),
        ("/a", "/", true),
        ("/", "/", true),
        ("/a/x", "/a/", true),
        ("/b/z", "/a", false),
    ];
    for (path, filter, expect) in cases {
        assert_eq!(
            path_matches(&path.as_bytes().to_vec(), &filter.as_bytes().to_vec()),
            expect,
            "path {:?} under filter {:?}",
            path,
            filter
        );
    }
}

#[test]
fn scope_union_single_filter() {
    let all = vec![rec(1, "/a/x", "one"), rec(2, "/a/y", "two"), rec(3, "/b/z", "three")];
    let (ins, outs) = partition_records(all.clone(), &filters(&["/a"]));
    assert_eq!(ins, vec![all[0].clone(), all[1].clone()]);
    assert_eq!(outs, vec![all[2].clone()]);
}

#[test]
fn scope_union_two_filters() {
    let all = vec![rec(1, "/a/x", "one"), rec(2, "/a/y", "two"), rec(3, "/b/z", "three")];
    let (ins, outs) = partition_records(all.clone(), &filters(&["/a", "/b"]));
    assert_eq!(ins, all);
    assert!(outs.is_empty());
}

#[test]
fn scope_union_no_filters() {
    let all = vec![rec(1, "/a/x", "one"), rec(2, "/a/y", "two"), rec(3, "/b/z", "three")];
    let (ins, outs) = partition_records(all.clone(), &filters(&[]));
    assert_eq!(ins, all);
    assert!(outs.is_empty());
}

#[test]
fn partition_keeps_relative_order() {
    let all = vec![
        rec(1, "/b", "b1"),
        rec(2, "/a", "a1"),
        rec(3, "/b", "b2"),
        rec(4, "/a", "a2"),
    ];
    let (ins, outs) = partition_records(all.clone(), &filters(&["/a"]));
    assert_eq!(ins, vec![all[1].clone(), all[3].clone()]);
    assert_eq!(outs, vec![all[0].clone(), all[2].clone()]);
}
