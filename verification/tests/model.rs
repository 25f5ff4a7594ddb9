use hunkpick::model::{FileContent, FileDiff, Hunk, Line, LineKind};

#[test]
fn display_path_of_a_deletion_is_the_old_path() {
    // A deleted file has `+++ /dev/null`; showing that as the file's name makes every
    // deletion in a listing look alike and is useless as a selector.
    let f = FileDiff {
        headers: Vec::new(),
        trailer: Vec::new(),
        old_path: Some(b"f2".to_vec()),
        new_path: Some(b"/dev/null".to_vec()),
        content: FileContent::Text(Vec::new()),
    };
    assert_eq!(f.display_path(), "f2");
}

#[test]
fn change_counts_counts_add_and_del() {
    let h = Hunk {
        old_start: 1,
        old_lines: 2,
        new_start: 1,
        new_lines: 2,
        section: Vec::new(),
        lines: vec![
            Line {
                kind: LineKind::Context,
                text: b"a".to_vec(),
                no_newline: None,
            },
            Line {
                kind: LineKind::Del,
                text: b"b".to_vec(),
                no_newline: None,
            },
            Line {
                kind: LineKind::Add,
                text: b"c".to_vec(),
                no_newline: None,
            },
        ],
    };
    assert_eq!(h.change_counts(), (1, 1));
}
