use radicle_surf::path::{split_last, Error, Label, Path};

fn label(s: &str) -> Label {
    Label::parse(s).unwrap()
}

fn path(s: &str) -> Path {
    Path::parse(s).unwrap()
}

#[test]
fn split_last_root_and_foo() {
    let path = path("foo");
    assert_eq!(path.split_last(), (vec![], label("foo")));
}

#[test]
fn split_last_same_labels() {
    let path = path("foo/bar/foo");
    assert_eq!(path.split_last(), (vec![label("foo"), label("bar")], label("foo")));
}

#[test]
fn it_works() {
    assert_eq!(2 + 2, 4);
}

#[test]
fn split_last_with_root() {
    let p = path("~/src/lib.rs");
    assert_eq!(p.split_last(), (vec![Label::root(), label("src")], label("lib.rs")));
}

#[test]
fn split_last_free_function() {
    let (prefix, last) = split_last(&vec![1u8, 2, 3]);
    assert_eq!(prefix, vec![1, 2]);
    assert_eq!(last, 3);
    let (prefix, last) = split_last(&vec![7u8]);
    assert!(prefix.is_empty());
    assert_eq!(last, 7);
}

#[test]
fn text_round_trip() {
    for s in ["foo", "foo/bar", "~/src/lib.rs", "a/b/c/d.txt"] {
        assert_eq!(path(s).to_text(), s);
    }
}

#[test]
fn trailing_separators_are_dropped() {
    assert_eq!(path("foo/bar/"), path("foo/bar"));
    assert_eq!(path("foo//"), path("foo"));
}

#[test]
fn parse_empty_fails() {
    assert_eq!(Path::parse(""), Err(Error::EmptyPath));
    assert_eq!(Path::parse("/"), Err(Error::EmptyPath));
    assert_eq!(Path::parse("///"), Err(Error::EmptyPath));
}

#[test]
fn parse_empty_component_fails() {
    assert_eq!(Path::parse("a//b"), Err(Error::InvalidLabel(String::new())));
    assert_eq!(Path::parse("/a"), Err(Error::InvalidLabel(String::new())));
}

#[test]
fn label_with_separator_fails() {
    assert_eq!(Label::parse("a/b"), Err(Error::InvalidLabel("a/b".to_string())));
    assert_eq!(Label::parse(""), Err(Error::InvalidLabel(String::new())));
    assert_eq!(Label::parse("ok").unwrap().as_str(), "ok");
}

#[test]
fn root_label_and_path() {
    assert!(Label::root().is_root());
    assert_eq!(Label::root().as_str(), "~");
    assert!(!label("src").is_root());
    assert!(Path::root().is_root());
    assert!(!path("src/lib.rs").is_root());
    assert!(!path("~/src").is_root());
}

#[test]
fn push_and_pop() {
    let mut root = Path::root();
    root.push(label("src"));
    root.push(label("lib.rs"));
    assert_eq!(root, path("~/src/lib.rs"));
    assert_eq!(root.pop(), Some(label("lib.rs")));
    assert_eq!(root.pop(), Some(label("src")));
    assert_eq!(root.pop(), None);
    assert_eq!(root, Path::root());
}

#[test]
fn append_paths() {
    let mut path1 = path("foo/bar");
    let mut path2 = path("baz/quux");
    path1.append(&mut path2);
    assert_eq!(path1, path("foo/bar/baz/quux"));
    assert_eq!(path2, path("baz/quux"));
}

#[test]
fn split_first_gives_head_and_tail() {
    let p = path("~/src/lib.rs");
    let (head, tail) = p.split_first();
    assert_eq!(*head, Label::root());
    assert_eq!(tail, &[label("src"), label("lib.rs")][..]);
}

#[test]
fn iter_gives_labels() {
    let p = path("~/src/lib.rs");
    assert_eq!(p.iter(), &[Label::root(), label("src"), label("lib.rs")][..]);
}

#[test]
fn from_labels_and_with_root() {
    let labels = [label("foo"), label("bar"), label("baz.rs")];
    let mut expected = Path::root();
    expected.push(label("foo"));
    expected.push(label("bar"));
    expected.push(label("baz.rs"));
    assert_eq!(Path::from_labels(Label::root(), &labels), expected);
    assert_eq!(Path::with_root(&labels), expected);
    assert_eq!(Path::new(label("x")), path("x"));
}

#[test]
fn parse_rooted_adds_root() {
    assert_eq!(Path::parse_rooted("src/lib.rs").unwrap(), path("~/src/lib.rs"));
    assert_eq!(Path::parse_rooted(""), Err(Error::EmptyPath));
}
