use radicle_surf::reference::{
    check_branch, check_tag, is_branch, is_tag, try_extract_refname, Namespace, SwitchError,
};

#[test]
fn extracts_short_names() {
    assert_eq!(try_extract_refname("refs/heads/master"), Ok("master".to_string()));
    assert_eq!(try_extract_refname("refs/remotes/origin/dev"), Ok("origin/dev".to_string()));
    assert_eq!(
        try_extract_refname("refs/namespaces/golden/refs/tags/v0.1.0"),
        Ok("v0.1.0".to_string())
    );
    assert_eq!(try_extract_refname("master"), Err("master".to_string()));
}

#[test]
fn tells_tags_and_branches_apart() {
    assert!(is_tag(Some("refs/tags/v0.2.0")));
    assert!(is_tag(Some("refs/namespaces/x/refs/tags/v1")));
    assert!(!is_tag(Some("refs/heads/master")));
    assert!(!is_tag(None));
    assert!(is_branch(Some("refs/heads/master")));
    assert!(is_branch(Some("refs/remotes/origin/dev")));
    assert!(!is_branch(Some("refs/remotes/origin")));
    assert!(!is_branch(Some("refs/tags/v1")));
    assert!(!is_branch(None));
}

#[test]
fn namespace_from_text() {
    let ns = Namespace::parse("foo/bar");
    assert_eq!(ns.values(), &vec!["foo".to_string(), "bar".to_string()]);
    assert_eq!(ns.to_text(), "foo/bar");
    assert_eq!(Namespace::parse("golden").values(), &vec!["golden".to_string()]);
}

#[test]
fn namespace_from_bytes() {
    assert_eq!(Namespace::from_bytes(b"a/b"), Some(Namespace::parse("a/b")));
    assert_eq!(Namespace::from_bytes(&[0xff, 0xfe]), None);
}

#[test]
fn namespace_from_reference_name() {
    let ns = Namespace::from_reference_name("refs/namespaces/golden/refs/namespaces/silver/refs/heads/master");
    assert_eq!(ns.values(), &vec!["golden".to_string(), "silver".to_string()]);
    assert!(Namespace::from_reference_name("refs/heads/master").values().is_empty());
}

#[test]
fn switches_check_the_kind_of_reference() {
    assert_eq!(check_branch("dev", Some("refs/remotes/origin/dev")), Ok(()));
    assert_eq!(check_branch("v1", Some("refs/tags/v1")), Err(SwitchError::NotBranch("v1".to_string())));
    assert_eq!(check_tag("v1", Some("refs/tags/v1")), Ok(()));
    assert_eq!(check_tag("master", Some("refs/heads/master")), Err(SwitchError::NotTag("master".to_string())));
    assert_eq!(check_tag("x", None), Err(SwitchError::NotTag("x".to_string())));
}
