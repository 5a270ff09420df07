use radicle_surf::directory::{Directory, File, SystemType};
use radicle_surf::path::{Error, Label, Path};

fn label(s: &str) -> Label {
    Label::parse(s).unwrap()
}

fn path(s: &str) -> Path {
    Path::parse(s).unwrap()
}

fn file(s: &str) -> File {
    File::new(s.as_bytes().to_vec())
}

fn sample() -> Directory {
    Directory::from_entries(&vec![
        (Path::root(), vec![(label("README.md"), file("readme")), (label(".hidden"), file("h"))]),
        (path("src"), vec![(label("lib.rs"), file("lib")), (label("main.rs"), file("main"))]),
        (path("this/is/deep"), vec![(label("tree"), file("leaf"))]),
        (path("src"), vec![(label("extra.rs"), file("extra"))]),
    ])
}

#[test]
fn built_tree_finds_each_leaf() {
    let d = sample();
    let expected = [
        ("README.md", "readme"),
        (".hidden", "h"),
        ("src/lib.rs", "lib"),
        ("src/main.rs", "main"),
        ("this/is/deep/tree", "leaf"),
        ("src/extra.rs", "extra"),
    ];
    for (p, contents) in expected {
        let f = d.find_file(&path(p)).unwrap();
        assert_eq!(f.contents, contents.as_bytes().to_vec());
        assert_eq!(f.size, contents.len());
    }
    let mut count = d.list_directory().len();
    for dir in ["src", "this", "this/is", "this/is/deep"] {
        count += d.find_directory(&path(dir)).unwrap().list_directory().len();
    }
    // six files and four directory entries
    assert_eq!(count, 10);
}

#[test]
fn root_label_is_the_root() {
    let d = sample();
    assert_eq!(d.find_file(&path("~/src/lib.rs")).unwrap().contents, b"lib".to_vec());
}

#[test]
fn list_root_directory() {
    let d = sample();
    let mut listing = d.list_directory();
    listing.sort();
    assert_eq!(
        listing,
        vec![
            SystemType::File(label(".hidden")),
            SystemType::File(label("README.md")),
            SystemType::Directory(label("src")),
            SystemType::Directory(label("this")),
        ]
    );
}

#[test]
fn groups_at_one_path_are_appended() {
    let d = sample();
    let src = d.find_directory(&path("src")).unwrap();
    assert_eq!(
        src.list_directory(),
        vec![
            SystemType::File(label("lib.rs")),
            SystemType::File(label("main.rs")),
            SystemType::File(label("extra.rs")),
        ]
    );
}

#[test]
fn intermediate_directories_are_created_once() {
    let d = Directory::from_entries(&vec![
        (path("a/b"), vec![(label("x"), file("1"))]),
        (path("a/c"), vec![(label("y"), file("2"))]),
    ]);
    let a = d.find_directory(&path("a")).unwrap();
    assert_eq!(
        a.list_directory(),
        vec![SystemType::Directory(label("b")), SystemType::Directory(label("c"))]
    );
    assert_eq!(d.list_directory(), vec![SystemType::Directory(label("a"))]);
}

#[test]
fn missing_entries_are_not_found() {
    let d = sample();
    assert_eq!(d.find_file(&path("src/none.rs")).unwrap_err(), Error::PathNotFound(path("src/none.rs")));
    assert_eq!(d.find_file(&path("nowhere/a")).unwrap_err(), Error::PathNotFound(path("nowhere/a")));
    assert_eq!(d.find_file(&path("src")).unwrap_err(), Error::PathNotFound(path("src")));
    assert_eq!(d.find_file(&Path::root()).unwrap_err(), Error::PathNotFound(Path::root()));
    assert_eq!(d.find_directory(&path("lib")).unwrap_err(), Error::PathNotFound(path("lib")));
    assert_eq!(d.find_directory(&path("src/lib.rs")).unwrap_err(), Error::PathNotFound(path("src/lib.rs")));
}

#[test]
fn sub_directory_lookups_are_relative() {
    let d = sample();
    let this = d.find_directory(&path("this")).unwrap();
    assert_eq!(this.find_file(&path("is/deep/tree")).unwrap().contents, b"leaf".to_vec());
    let deep = this.find_directory(&path("is/deep")).unwrap();
    assert_eq!(deep.list_directory(), vec![SystemType::File(label("tree"))]);
}
