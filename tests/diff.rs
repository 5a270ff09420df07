use radicle_surf::diff::{
    eof_status, touched_paths, translate_line, DeltaStatus, Diff, DiffError, EofNewLine, FileDiff,
    LineDiff, LineDiffError, LineOrigin, RawDelta, RawHunk, RawLine,
};
use radicle_surf::path::{self, Path};

fn line(origin: LineOrigin, old: Option<u32>, new: Option<u32>, content: &str) -> RawLine {
    RawLine { origin, old_lineno: old, new_lineno: new, content: content.as_bytes().to_vec() }
}

fn modified(path: &str, lines: Vec<RawLine>) -> RawDelta {
    RawDelta {
        status: DeltaStatus::Modified,
        old_path: Some(path.to_string()),
        new_path: Some(path.to_string()),
        new_is_binary: false,
        patch: Some(vec![RawHunk { header: b"@@ -1 +1 @@\n".to_vec(), lines }]),
    }
}

#[test]
fn test_both_missing_eof_newline() {
    let delta = modified(
        ".env",
        vec![
            line(LineOrigin::Deletion, Some(1), None, "hello=123"),
            line(LineOrigin::DeleteEofnl, None, None, "\n\\ No newline at end of file\n"),
            line(LineOrigin::Addition, None, Some(1), "hello=1234"),
            line(LineOrigin::AddEofnl, None, None, "\n\\ No newline at end of file\n"),
        ],
    );
    let diff = Diff::from_deltas(&vec![delta]).unwrap();
    assert_eq!(diff.modified[0].eof, Some(EofNewLine::BothMissing));
}

#[test]
fn test_none_missing_eof_newline() {
    let delta = modified(
        ".env",
        vec![
            line(LineOrigin::Deletion, Some(1), None, "hello=123\n"),
            line(LineOrigin::Addition, None, Some(1), "hello=1234\n"),
        ],
    );
    let diff = Diff::from_deltas(&vec![delta]).unwrap();
    assert_eq!(diff.modified[0].eof, None);
}

#[test]
fn eof_status_combinations() {
    assert_eq!(eof_status(true, true), Some(EofNewLine::BothMissing));
    assert_eq!(eof_status(true, false), Some(EofNewLine::OldMissing));
    assert_eq!(eof_status(false, true), Some(EofNewLine::NewMissing));
    assert_eq!(eof_status(false, false), None);
}

#[test]
fn context_marker_means_both_missing() {
    let delta = modified(
        "a",
        vec![
            line(LineOrigin::Context, Some(1), Some(1), "x"),
            line(LineOrigin::ContextEofnl, None, None, "\n\\ No newline at end of file\n"),
        ],
    );
    let diff = Diff::from_deltas(&vec![delta]).unwrap();
    assert_eq!(diff.modified[0].eof, Some(EofNewLine::BothMissing));
}

#[test]
fn one_sided_markers() {
    let old_side = modified(
        "a",
        vec![
            line(LineOrigin::Addition, None, Some(1), "x\n"),
            line(LineOrigin::AddEofnl, None, None, ""),
        ],
    );
    let new_side = modified(
        "b",
        vec![
            line(LineOrigin::Deletion, Some(1), None, "x"),
            line(LineOrigin::DeleteEofnl, None, None, ""),
        ],
    );
    let diff = Diff::from_deltas(&vec![old_side, new_side]).unwrap();
    assert_eq!(diff.modified[0].eof, Some(EofNewLine::OldMissing));
    assert_eq!(diff.modified[1].eof, Some(EofNewLine::NewMissing));
}

#[test]
fn one_added_line_has_no_deletion() {
    let delta = modified(
        "README.md",
        vec![
            line(LineOrigin::Context, Some(1), Some(1), "title\n"),
            line(LineOrigin::Addition, None, Some(2), "new line\n"),
        ],
    );
    let diff = Diff::from_deltas(&vec![delta]).unwrap();
    assert_eq!(diff.modified.len(), 1);
    assert_eq!(diff.modified[0].path, Path::parse("~/README.md").unwrap());
    match &diff.modified[0].diff {
        FileDiff::Plain { hunks } => {
            assert_eq!(hunks.len(), 1);
            assert_eq!(hunks[0].header, b"@@ -1 +1 @@\n".to_vec());
            assert_eq!(
                hunks[0].lines,
                vec![
                    LineDiff::Context {
                        line: b"title\n".to_vec(),
                        line_num_old: 1,
                        line_num_new: 1
                    },
                    LineDiff::Addition { line: b"new line\n".to_vec(), line_num: 2 },
                ]
            );
            assert!(hunks[0].lines.iter().all(|l| !matches!(l, LineDiff::Deletion { .. })));
        },
        FileDiff::Binary => panic!("expected a text diff"),
    }
}

#[test]
fn classifies_each_kind() {
    let deltas = vec![
        RawDelta {
            status: DeltaStatus::Added,
            old_path: None,
            new_path: Some("new.txt".to_string()),
            new_is_binary: false,
            patch: None,
        },
        RawDelta {
            status: DeltaStatus::Deleted,
            old_path: Some("old.txt".to_string()),
            new_path: None,
            new_is_binary: false,
            patch: Some(vec![]),
        },
        RawDelta {
            status: DeltaStatus::Renamed,
            old_path: Some("a.txt".to_string()),
            new_path: Some("b.txt".to_string()),
            new_is_binary: false,
            patch: None,
        },
        RawDelta {
            status: DeltaStatus::Copied,
            old_path: Some("c.txt".to_string()),
            new_path: Some("d/c.txt".to_string()),
            new_is_binary: false,
            patch: None,
        },
        RawDelta {
            status: DeltaStatus::Modified,
            old_path: Some("img.png".to_string()),
            new_path: Some("img.png".to_string()),
            new_is_binary: true,
            patch: None,
        },
    ];
    let diff = Diff::from_deltas(&deltas).unwrap();
    assert_eq!(diff.created.len(), 1);
    assert_eq!(diff.created[0].path, Path::parse("~/new.txt").unwrap());
    assert_eq!(diff.created[0].diff, FileDiff::Plain { hunks: vec![] });
    assert_eq!(diff.deleted[0].path, Path::parse("~/old.txt").unwrap());
    assert_eq!(diff.moved[0].old_path, Path::parse("~/a.txt").unwrap());
    assert_eq!(diff.moved[0].new_path, Path::parse("~/b.txt").unwrap());
    assert_eq!(diff.copied[0].new_path, Path::parse("~/d/c.txt").unwrap());
    assert_eq!(diff.modified[0].diff, FileDiff::Binary);
    assert_eq!(diff.modified[0].eof, None);
}

#[test]
fn unhandled_kind_fails() {
    let delta = RawDelta {
        status: DeltaStatus::Typechange,
        old_path: Some("a".to_string()),
        new_path: Some("a".to_string()),
        new_is_binary: false,
        patch: None,
    };
    assert_eq!(Diff::from_deltas(&vec![delta]), Err(DiffError::DeltaUnhandled(DeltaStatus::Typechange)));
}

#[test]
fn line_without_numbers_fails() {
    let delta = modified("a", vec![line(LineOrigin::Context, None, None, "x")]);
    assert_eq!(Diff::from_deltas(&vec![delta]), Err(DiffError::Line(LineDiffError::Invalid)));
    assert_eq!(
        translate_line(&line(LineOrigin::Other, None, None, "x")),
        Err(LineDiffError::Invalid)
    );
}

#[test]
fn text_patch_unavailable_fails() {
    let delta = RawDelta {
        status: DeltaStatus::Modified,
        old_path: Some("a.txt".to_string()),
        new_path: Some("a.txt".to_string()),
        new_is_binary: false,
        patch: None,
    };
    assert_eq!(
        Diff::from_deltas(&vec![delta]),
        Err(DiffError::PatchUnavailable(Path::parse("~/a.txt").unwrap()))
    );
}

#[test]
fn missing_path_fails() {
    let delta = RawDelta {
        status: DeltaStatus::Renamed,
        old_path: None,
        new_path: Some("b".to_string()),
        new_is_binary: false,
        patch: None,
    };
    assert_eq!(Diff::from_deltas(&vec![delta]), Err(DiffError::PathUnavailable));
}

#[test]
fn line_tags_follow_numbers() {
    assert_eq!(
        translate_line(&line(LineOrigin::Deletion, Some(4), None, "x")),
        Ok(LineDiff::Deletion { line: b"x".to_vec(), line_num: 4 })
    );
    assert_eq!(
        translate_line(&line(LineOrigin::Context, Some(4), Some(6), "y")),
        Ok(LineDiff::Context { line: b"y".to_vec(), line_num_old: 4, line_num_new: 6 })
    );
}

#[test]
fn touched_paths_are_new_side_paths() {
    let deltas = vec![
        modified("src/lib.rs", vec![]),
        RawDelta {
            status: DeltaStatus::Renamed,
            old_path: Some("a".to_string()),
            new_path: Some("b".to_string()),
            new_is_binary: false,
            patch: None,
        },
    ];
    let paths = touched_paths(&deltas).unwrap();
    assert_eq!(paths, vec![Path::parse("~/src/lib.rs").unwrap(), Path::parse("~/b").unwrap()]);
    let missing = RawDelta {
        status: DeltaStatus::Deleted,
        old_path: Some("a".to_string()),
        new_path: None,
        new_is_binary: false,
        patch: None,
    };
    assert_eq!(touched_paths(&vec![missing]), Err(DiffError::PathUnavailable));
}

#[test]
fn invalid_delta_path_fails() {
    let delta = RawDelta {
        status: DeltaStatus::Added,
        old_path: None,
        new_path: Some("a//b".to_string()),
        new_is_binary: false,
        patch: None,
    };
    assert_eq!(
        Diff::from_deltas(&vec![delta]),
        Err(DiffError::FileSystem(path::Error::InvalidLabel(String::new())))
    );
}
