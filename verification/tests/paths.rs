use history_filter::path::{bytes_eq, bytes_less, copy_bytes, Path};

fn path(text: &str) -> Path {
    Path::from_segments(
        text.split('/')
            .filter(|s| !s.is_empty())
            .map(|s| s.as_bytes().to_vec())
            .collect(),
    )
}

fn segments(p: &Path) -> Vec<String> {
    p.segments
        .iter()
        .map(|s| String::from_utf8(s.clone()).unwrap())
        .collect()
}

#[test]
fn new_path_is_empty() {
    let p = Path::new();
    assert_eq!(p.len(), 0);
    assert!(p.same(&path("")));
}

#[test]
fn from_segments_keeps_order() {
    let p = path("a/b/c");
    assert_eq!(p.len(), 3);
    assert_eq!(segments(&p), vec!["a", "b", "c"]);
}

#[test]
fn join_concatenates() {
    let p = path("a/b").join(&path("c"));
    assert_eq!(segments(&p), vec!["a", "b", "c"]);
    assert!(path("a").join(&Path::new()).same(&path("a")));
    assert!(Path::new().join(&path("a")).same(&path("a")));
}

#[test]
fn join_is_not_commutative() {
    let ab = path("a").join(&path("b"));
    let ba = path("b").join(&path("a"));
    assert!(!ab.same(&ba));
}

#[test]
fn starts_with_tests_prefix_by_segment() {
    assert!(path("a/b/c").starts_with(&path("a/b")));
    assert!(path("a/b").starts_with(&path("a/b")));
    assert!(path("a/b").starts_with(&Path::new()));
    assert!(!path("a/b").starts_with(&path("a/b/c")));
    assert!(!path("ab/c").starts_with(&path("a")));
    assert!(!path("a/b").starts_with(&path("b")));
}

#[test]
fn same_compares_segments() {
    assert!(path("a/b").same(&path("a/b")));
    assert!(!path("a/b").same(&path("a/c")));
    assert!(!path("a/b").same(&path("a")));
    assert!(!path("ab").same(&path("a/b")));
}

#[test]
fn copy_gives_equal_path() {
    let p = path("x/y");
    let q = p.copy();
    assert!(p.same(&q));
    assert_eq!(segments(&q), vec!["x", "y"]);
}

#[test]
fn less_is_lexicographic_by_segment() {
    assert!(path("a").less(&path("b")));
    assert!(!path("b").less(&path("a")));
    assert!(!path("a").less(&path("a")));
    assert!(path("a").less(&path("a/b")));
    assert!(!path("a/b").less(&path("a")));
    assert!(Path::new().less(&path("a")));
    assert!(!Path::new().less(&Path::new()));
    assert!(path("a/z").less(&path("b/a")));
    assert!(path("a/b").less(&path("a/c")));
    // Segments are compared as wholes: "a" < "ab", so a/z sorts before ab.
    assert!(path("a/z").less(&path("ab")));
    assert!(!path("ab").less(&path("a/z")));
}

#[test]
fn head_and_tail_split_at_first_segment() {
    let p = path("a/b/c");
    assert_eq!(segments(&p.head()), vec!["a"]);
    assert_eq!(segments(&p.tail()), vec!["b", "c"]);
    let q = path("a");
    assert_eq!(segments(&q.head()), vec!["a"]);
    assert_eq!(q.tail().len(), 0);
}

#[test]
fn byte_strings_compare_and_copy() {
    let a = b"abc".to_vec();
    let b = b"abd".to_vec();
    let c = b"ab".to_vec();
    assert!(bytes_eq(&a, &a.clone()));
    assert!(!bytes_eq(&a, &b));
    assert!(!bytes_eq(&a, &c));
    assert!(bytes_less(&a, &b));
    assert!(!bytes_less(&b, &a));
    assert!(bytes_less(&c, &a));
    assert!(!bytes_less(&a, &c));
    assert!(!bytes_less(&a, &a));
    assert!(bytes_less(&Vec::new(), &a));
    assert_eq!(copy_bytes(&a), a);
}
