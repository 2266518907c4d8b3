use swamp_exchange::node::Path;

#[test]
fn path() {
    assert!(Path::root().path == "");
    assert!(Path::root() == Path::new_str(""));
    let p = Path::new_str("/foo/bar");
    assert!(p.path == "/foo/bar");
    assert!(p.name() == "bar");
    assert!(p.parent() == Path::new_str("/foo"));
    assert!(p.parent().parent() == Path::root());
}

#[test]
fn path_new_owned_string() {
    let p = Path::new(String::from("/a/b/c"));
    assert!(p.path == "/a/b/c");
    assert!(p.name() == "c");
    assert!(p.parent().path == "/a/b");
}

#[test]
fn path_without_separator() {
    let p = Path::new_str("plain");
    assert!(p.name() == "plain");
    assert!(p.parent() == Path::root());
}

#[test]
fn root_parent_is_root() {
    assert!(Path::root().parent() == Path::root());
    assert!(Path::root().name() == "");
}

#[test]
fn split_keeps_empty_segments() {
    let p = Path::new_str("/foo/bar");
    let parts = p.split();
    assert_eq!(parts, vec!["", "foo", "bar"]);

    let q = Path::new_str("a//b/");
    assert_eq!(q.split(), vec!["a", "", "b", ""]);

    let r = Path::root();
    assert_eq!(r.split(), vec![""]);
}

#[test]
fn parent_reaches_root_in_segment_count_steps() {
    // "/foo/bar" holds two real segments: two parent steps reach the root.
    let p = Path::new_str("/foo/bar");
    let one = p.parent();
    assert!(one != Path::root());
    let two = one.parent();
    assert!(two == Path::root());

    // a path without a leading separator: one step per segment as well.
    let q = Path::new_str("x/y/z");
    assert!(q.parent().parent().parent() == Path::root());
    assert!(q.parent().parent() != Path::root());
}

#[test]
fn path_clone_and_eq() {
    let p = Path::new_str("/a");
    let q = p.clone();
    assert!(p == q);
    assert!(p != Path::new_str("/b"));
}
