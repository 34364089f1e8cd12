use sort_files::extract::extract_imports;
use sort_files::paths::is_source_path;
use sort_files::paths::resolve_target;

fn directive(target: &str) -> String {
    format!("{}{} \"{}\"", "#incl", "ude", target)
}

fn extracted(content: &str) -> Vec<String> {
    extract_imports(&content.to_string().into_bytes())
        .into_iter()
        .map(|t| String::from_utf8(t).unwrap())
        .collect()
}

#[test]
fn quoted_targets_in_order() {
    let content = format!(
        "{}\nint x;\n{}\n",
        directive("one.c"),
        directive("two.c")
    );
    assert_eq!(extracted(&content), ["one.c", "two.c"]);
}

#[test]
fn angle_brackets_not_extracted() {
    let content = format!("{}{} <stdio.h>\n", "#incl", "ude");
    assert_eq!(extracted(&content), Vec::<String>::new());
}

#[test]
fn missing_closing_quote_not_extracted() {
    let content = format!("{}{} \"open.c\n", "#incl", "ude");
    assert_eq!(extracted(&content), Vec::<String>::new());
}

#[test]
fn plain_lines_not_extracted() {
    assert_eq!(extracted("int main() { return 0; }\n"), Vec::<String>::new());
}

#[test]
fn empty_content_yields_nothing() {
    assert_eq!(extracted(""), Vec::<String>::new());
}

#[test]
fn leading_spaces_before_marker() {
    let content = format!("   {}\n", directive("s.c"));
    assert_eq!(extracted(&content), ["s.c"]);
}

#[test]
fn repeated_lines_kept() {
    let content = format!("{}\n{}\n", directive("b.c"), directive("b.c"));
    assert_eq!(extracted(&content), ["b.c", "b.c"]);
}

#[test]
fn source_file_criterion() {
    assert!(is_source_path(&b"a.c".to_vec()));
    assert!(is_source_path(&b"dir/sub/name.c".to_vec()));
    assert!(is_source_path(&b"a.b.c".to_vec()));
    assert!(!is_source_path(&b"a.txt".to_vec()));
    assert!(!is_source_path(&b"noext".to_vec()));
    assert!(!is_source_path(&b".c".to_vec()));
    assert!(!is_source_path(&b"dir/.c".to_vec()));
    assert!(!is_source_path(&b"a.C".to_vec()));
}

#[test]
fn resolution_relative_to_own_directory() {
    let r = resolve_target(&b"d1/sub/a.c".to_vec(), &b"n.c".to_vec());
    assert_eq!(r, b"d1/sub/n.c".to_vec());
    let top = resolve_target(&b"a.c".to_vec(), &b"sub/b.c".to_vec());
    assert_eq!(top, b"sub/b.c".to_vec());
    let rooted = resolve_target(&b"/x/a.c".to_vec(), &b"b.c".to_vec());
    assert_eq!(rooted, b"/x/b.c".to_vec());
    let absolute = resolve_target(&b"d1/a.c".to_vec(), &b"/etc/b.c".to_vec());
    assert_eq!(absolute, b"/etc/b.c".to_vec());
}
