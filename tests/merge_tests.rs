use dircompare::digest::digest_chunks;
use dircompare::merge::{MergeError, Merger};
use dircompare::types::{DirSide, HashResult};

fn comps(s: &str) -> Vec<Vec<u8>> {
    s.split('/').map(|c| c.as_bytes().to_vec()).collect()
}

fn record(side: DirSide, path: &str, content: &str) -> HashResult {
    HashResult { side, path: comps(path), hash: digest_chunks(&vec![content.as_bytes().to_vec()]) }
}

fn merger(workers: u32) -> Merger {
    Merger::new(comps("/l"), comps("/r"), workers)
}

fn run(records: Vec<HashResult>, workers: u32) -> Merger {
    let mut m = merger(workers);
    for r in records {
        m.on_record(r).unwrap();
    }
    for i in 0..workers {
        assert!(!m.is_finished());
        let done = m.on_worker_done();
        assert_eq!(done, i + 1 == workers);
    }
    m
}

fn text(b: Vec<u8>) -> String {
    String::from_utf8(b).unwrap()
}

fn outcome(m: &Merger) -> (Vec<String>, Vec<String>, Vec<String>) {
    let mut mism: Vec<String> = text(m.mismatch_report()).lines().map(|s| s.to_string()).collect();
    let mut left: Vec<String> = text(m.missing_report(DirSide::Left)).lines().map(|s| s.to_string()).collect();
    let mut right: Vec<String> = text(m.missing_report(DirSide::Right)).lines().map(|s| s.to_string()).collect();
    mism.sort();
    left.sort();
    right.sort();
    (mism, left, right)
}

#[test]
fn same_file_same_content_is_identical() {
    let m = run(vec![record(DirSide::Left, "/l/a.txt", "hello"), record(DirSide::Right, "/r/a.txt", "hello")], 2);
    assert!(m.is_identical());
    assert!(m.lookup(&comps("a.txt")).is_none());
    assert!(m.mismatched().is_empty());
}

#[test]
fn differing_content_gives_one_mismatch() {
    let m = run(vec![record(DirSide::Right, "/r/a.txt", "world"), record(DirSide::Left, "/l/a.txt", "hello")], 1);
    assert!(!m.is_identical());
    assert_eq!(m.mismatched().len(), 1);
    assert!(m.lookup(&comps("a.txt")).is_none());
    assert_eq!(
        text(m.mismatch_report()),
        "mismatch: a.txt - a.txt left: 2CF24DBA5FB0A30E26E83B2AC5B9E29E1B161E5C1FA7425E73043362938B9824 - right: 486EA46224D1BB4FB680F34F7C9AD96A8F24EC88BE73EA8E5A6C65260E9CB8A7\n"
    );
    assert!(m.missing_report(DirSide::Left).is_empty());
    assert!(m.missing_report(DirSide::Right).is_empty());
}

#[test]
fn mismatch_keeps_left_first_whatever_arrives_first() {
    let a = run(vec![record(DirSide::Left, "/l/a.txt", "hello"), record(DirSide::Right, "/r/a.txt", "world")], 1);
    let b = run(vec![record(DirSide::Right, "/r/a.txt", "world"), record(DirSide::Left, "/l/a.txt", "hello")], 1);
    assert_eq!(a.mismatch_report(), b.mismatch_report());
    assert_eq!(a.mismatched()[0].left.side, DirSide::Left);
    assert_eq!(a.mismatched()[0].right.side, DirSide::Right);
}

#[test]
fn left_only_file_is_missing_on_the_right() {
    let m = run(vec![record(DirSide::Left, "/l/a.txt", "hello")], 3);
    assert!(!m.is_identical());
    let entry = m.lookup(&comps("a.txt")).unwrap();
    assert_eq!(entry.record.side, DirSide::Left);
    assert_eq!(entry.record.path, comps("/l/a.txt"));
    assert!(m.lookup(&comps("b.txt")).is_none());
    assert_eq!(text(m.missing_report(DirSide::Right)), "missing right: a.txt\n");
    assert!(m.missing_report(DirSide::Left).is_empty());
    assert!(m.mismatch_report().is_empty());
}

#[test]
fn right_only_file_is_missing_on_the_left() {
    let m = run(vec![record(DirSide::Right, "/r/x/y.bin", "data")], 1);
    assert_eq!(text(m.missing_report(DirSide::Left)), "missing left: x/y.bin\n");
    assert!(m.missing_report(DirSide::Right).is_empty());
}

#[test]
fn nested_identical_files_pair_up() {
    let m = run(vec![record(DirSide::Left, "/l/sub/b.txt", "same"), record(DirSide::Right, "/r/sub/b.txt", "same")], 2);
    assert!(m.is_identical());
}

#[test]
fn record_outside_its_root_is_refused() {
    let mut m = merger(1);
    let r = record(DirSide::Left, "/r/a.txt", "hello");
    assert_eq!(m.on_record(r), Err(MergeError::OutsideRoot));
    assert!(m.is_identical());
}

#[test]
fn finishes_after_one_marker_per_worker() {
    let mut m = merger(3);
    assert!(!m.is_finished());
    assert!(!m.on_worker_done());
    assert!(!m.on_worker_done());
    assert!(m.on_worker_done());
    assert!(m.is_finished());
}

#[test]
fn identical_trees_reconcile_empty() {
    let files = ["a", "b/c", "b/d", "e/f/g"];
    let mut records = Vec::new();
    for f in files.iter() {
        records.push(record(DirSide::Left, &format!("/l/{}", f), f));
        records.push(record(DirSide::Right, &format!("/r/{}", f), f));
    }
    records.reverse();
    let m = run(records, 4);
    assert!(m.is_identical());
}

fn mixed_records() -> Vec<HashResult> {
    vec![
        record(DirSide::Left, "/l/same.txt", "1"),
        record(DirSide::Right, "/r/same.txt", "1"),
        record(DirSide::Left, "/l/diff.txt", "2"),
        record(DirSide::Right, "/r/diff.txt", "3"),
        record(DirSide::Left, "/l/only-left.txt", "4"),
        record(DirSide::Right, "/r/d/only-right.txt", "5"),
        record(DirSide::Left, "/l/d/diff2", "6"),
        record(DirSide::Right, "/r/d/diff2", "7"),
    ]
}

#[test]
fn classification_is_independent_of_order_and_workers() {
    let forward = outcome(&run(mixed_records(), 1));
    let mut rev = mixed_records();
    rev.reverse();
    let backward = outcome(&run(rev, 8));
    let mut rot = mixed_records();
    rot.rotate_left(3);
    let rotated = outcome(&run(rot, 4));
    assert_eq!(forward, backward);
    assert_eq!(forward, rotated);
    assert_eq!(forward.0.len(), 2);
    assert_eq!(forward.1, vec!["missing left: d/only-right.txt".to_string()]);
    assert_eq!(forward.2, vec!["missing right: only-left.txt".to_string()]);
}

#[test]
fn repeated_run_gives_same_classification() {
    assert_eq!(outcome(&run(mixed_records(), 2)), outcome(&run(mixed_records(), 2)));
}

#[test]
fn each_differing_file_listed_once() {
    let m = run(mixed_records(), 2);
    let report = text(m.mismatch_report());
    assert_eq!(report.matches("mismatch: diff.txt - diff.txt").count(), 1);
    assert_eq!(report.matches("mismatch: d/diff2 - d/diff2").count(), 1);
    let missing = text(m.missing_report(DirSide::Right)) + &text(m.missing_report(DirSide::Left));
    assert!(!missing.contains("diff"));
}

#[test]
fn waiting_entry_is_taken_out_by_its_counterpart() {
    let mut m = merger(1);
    m.on_record(record(DirSide::Right, "/r/k/v", "x")).unwrap();
    assert_eq!(m.lookup(&comps("k/v")).unwrap().record.side, DirSide::Right);
    assert!(!m.is_identical());
    m.on_record(record(DirSide::Left, "/l/k/v", "x")).unwrap();
    assert!(m.lookup(&comps("k/v")).is_none());
    assert!(m.is_identical());
}

#[test]
fn many_files_reconcile() {
    let mut records = Vec::new();
    for i in 0..3000 {
        let name = format!("dir{}/file{}.dat", i % 17, i);
        records.push(record(DirSide::Left, &format!("/l/{}", name), &name));
        let content = if i % 100 == 0 { "changed".to_string() } else { name.clone() };
        records.push(record(DirSide::Right, &format!("/r/{}", name), &content));
    }
    records.push(record(DirSide::Left, "/l/extra", "e"));
    let m = run(records, 2);
    assert_eq!(m.mismatched().len(), 30);
    assert_eq!(text(m.missing_report(DirSide::Right)), "missing right: extra\n");
    assert!(m.missing_report(DirSide::Left).is_empty());
}

#[test]
fn side_names() {
    assert_eq!(DirSide::Left.as_str(), "left");
    assert_eq!(DirSide::Right.as_str(), "right");
    assert_eq!(DirSide::Left.other(), DirSide::Right);
    assert_eq!(DirSide::Right.other(), DirSide::Left);
}
