use sort_files::record::FileRecord;
use sort_files::sort::dependency_order;
use sort_files::sort::CycleDetected;

fn directive(target: &str) -> String {
    format!("{}{} \"{}\"", "#incl", "ude", target)
}

fn record_of(entries: &[(&str, &str)]) -> FileRecord {
    let mut r = FileRecord::new();
    for (p, c) in entries {
        let added = r.add(p.to_string().into_bytes(), c.to_string().into_bytes());
        assert!(added);
    }
    r
}

fn path_list(out: Vec<Vec<u8>>) -> Vec<String> {
    out.into_iter().map(|p| String::from_utf8(p).unwrap()).collect()
}

#[test]
fn same_directory_pair() {
    let r = record_of(&[("a.c", &directive("b.c")), ("b.c", "")]);
    let out = dependency_order(&r).unwrap();
    assert_eq!(path_list(out), ["b.c", "a.c"]);
}

#[test]
fn two_file_cycle() {
    let r = record_of(&[("a.c", &directive("b.c")), ("b.c", &directive("a.c"))]);
    assert_eq!(dependency_order(&r), Err(CycleDetected));
}

#[test]
fn missing_target_dropped() {
    let r = record_of(&[("a.c", &directive("missing.c"))]);
    let out = dependency_order(&r).unwrap();
    assert_eq!(path_list(out), ["a.c"]);
}

#[test]
fn subdirectory_target() {
    let r = record_of(&[("sub/b.c", ""), ("a.c", &directive("sub/b.c"))]);
    let out = dependency_order(&r).unwrap();
    assert_eq!(path_list(out), ["sub/b.c", "a.c"]);
}

#[test]
fn unrelated_directory_never_satisfies() {
    let r = record_of(&[("d1/a.c", &directive("n.c")), ("d2/n.c", "")]);
    let out = dependency_order(&r).unwrap();
    assert_eq!(path_list(out), ["d1/a.c", "d2/n.c"]);
}

#[test]
fn own_directory_satisfies() {
    let r = record_of(&[("d1/a.c", &directive("n.c")), ("d1/n.c", "")]);
    let out = dependency_order(&r).unwrap();
    assert_eq!(path_list(out), ["d1/n.c", "d1/a.c"]);
}

#[test]
fn duplicate_edges_still_sort() {
    let content = format!("{}\n{}\n", directive("b.c"), directive("b.c"));
    let r = record_of(&[("a.c", &content), ("b.c", "")]);
    let out = dependency_order(&r).unwrap();
    assert_eq!(path_list(out), ["b.c", "a.c"]);
}

#[test]
fn self_import_is_a_cycle() {
    let r = record_of(&[("a.c", &directive("a.c"))]);
    assert_eq!(dependency_order(&r), Err(CycleDetected));
}

#[test]
fn three_file_chain() {
    let r = record_of(&[
        ("a.c", &directive("b.c")),
        ("b.c", &directive("c.c")),
        ("c.c", ""),
    ]);
    let out = dependency_order(&r).unwrap();
    assert_eq!(path_list(out), ["c.c", "b.c", "a.c"]);
}

#[test]
fn empty_record_sorts_empty() {
    let r = FileRecord::new();
    let out = dependency_order(&r).unwrap();
    assert_eq!(out.len(), 0);
}

#[test]
fn duplicate_path_refused() {
    let mut r = FileRecord::new();
    assert!(r.add(b"a.c".to_vec(), b"one".to_vec()));
    assert!(!r.add(b"a.c".to_vec(), b"two".to_vec()));
    assert_eq!(r.len(), 1);
}
