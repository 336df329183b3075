use delivery::diff;
use delivery::manifest::{Entries, Entry};
use delivery::Change;
use delivery::Manifest;

fn h(text: &str) -> delivery::hash::Hash {
    delivery::hash::Hash::new(text.to_string())
}

fn file(size: u64, hash_text: &str) -> Entry {
    Entry::File {
        size,
        hash: h(hash_text),
    }
}

fn dir(entries: Entries) -> Entry {
    Entry::Directory(entries)
}

fn path(segments: &[&str]) -> Vec<String> {
    segments.iter().map(|s| s.to_string()).collect()
}

#[test]
fn diff_of_manifest_with_itself_is_empty() {
    let m = Manifest {
        entries: vec![
            ("a".to_string(), file(3, "hhh")),
            (
                "b".to_string(),
                dir(vec![("c".to_string(), file(9, "ggg"))]),
            ),
        ],
    };
    assert_eq!(diff(&m, &m), vec![]);
}

#[test]
fn pure_addition_creates_one_file() {
    let before = Manifest { entries: vec![] };
    let after = Manifest {
        entries: vec![("x".to_string(), file(1, "hx"))],
    };
    assert_eq!(
        diff(&before, &after),
        vec![Change::CreateFile(path(&["x"]), h("hx"))]
    );
}

#[test]
fn pure_removal_removes_one_directory() {
    let before = Manifest {
        entries: vec![("d".to_string(), dir(vec![]))],
    };
    let after = Manifest { entries: vec![] };
    assert_eq!(
        diff(&before, &after),
        vec![Change::RemoveDirectory(path(&["d"]))]
    );
}

#[test]
fn file_to_directory_change_is_remove_then_recursive_create() {
    let before = Manifest {
        entries: vec![("a".to_string(), file(2, "h1"))],
    };
    let after = Manifest {
        entries: vec![(
            "a".to_string(),
            dir(vec![("b".to_string(), file(2, "h2"))]),
        )],
    };
    assert_eq!(
        diff(&before, &after),
        vec![
            Change::RemoveFile(path(&["a"])),
            Change::CreateDirectory(path(&["a"])),
            Change::CreateFile(path(&["a", "b"]), h("h2")),
        ]
    );
}

#[test]
fn directory_to_file_change_is_remove_then_create() {
    let before = Manifest {
        entries: vec![(
            "a".to_string(),
            dir(vec![("b".to_string(), file(2, "h2"))]),
        )],
    };
    let after = Manifest {
        entries: vec![("a".to_string(), file(2, "h1"))],
    };
    assert_eq!(
        diff(&before, &after),
        vec![
            Change::RemoveDirectory(path(&["a"])),
            Change::CreateFile(path(&["a"]), h("h1")),
        ]
    );
}

#[test]
fn changed_file_content_is_one_creation() {
    let before = Manifest {
        entries: vec![("a".to_string(), file(2, "h1"))],
    };
    let after = Manifest {
        entries: vec![("a".to_string(), file(2, "h2"))],
    };
    assert_eq!(
        diff(&before, &after),
        vec![Change::CreateFile(path(&["a"]), h("h2"))]
    );
}

#[test]
fn unchanged_shared_subtree_is_never_touched() {
    let shared = dir(vec![
        ("f".to_string(), file(10, "hf")),
        ("g".to_string(), dir(vec![("i".to_string(), file(1, "hi"))])),
    ]);
    let shared_again = dir(vec![
        ("f".to_string(), file(10, "hf")),
        ("g".to_string(), dir(vec![("i".to_string(), file(1, "hi"))])),
    ]);
    let before = Manifest {
        entries: vec![
            ("old".to_string(), file(4, "ho")),
            ("shared".to_string(), shared),
        ],
    };
    let after = Manifest {
        entries: vec![
            ("new".to_string(), file(4, "hn")),
            ("shared".to_string(), shared_again),
        ],
    };
    let changes = diff(&before, &after);
    assert_eq!(
        changes,
        vec![
            Change::RemoveFile(path(&["old"])),
            Change::CreateFile(path(&["new"]), h("hn")),
        ]
    );
    for change in &changes {
        assert!(!change.render().contains("shared"));
    }
}

#[test]
fn removals_and_changes_come_before_pure_additions() {
    let before = Manifest {
        entries: vec![
            ("b".to_string(), file(1, "hb")),
            ("z".to_string(), file(1, "hz")),
        ],
    };
    let after = Manifest {
        entries: vec![
            ("a".to_string(), file(1, "ha")),
            ("z".to_string(), file(1, "hz2")),
        ],
    };
    assert_eq!(
        diff(&before, &after),
        vec![
            Change::RemoveFile(path(&["b"])),
            Change::CreateFile(path(&["z"]), h("hz2")),
            Change::CreateFile(path(&["a"]), h("ha")),
        ]
    );
}

#[test]
fn deep_change_is_fully_emitted_before_next_sibling() {
    let before = Manifest {
        entries: vec![
            (
                "m".to_string(),
                dir(vec![("x".to_string(), file(1, "hx"))]),
            ),
            ("n".to_string(), file(1, "hn")),
        ],
    };
    let after = Manifest {
        entries: vec![(
            "m".to_string(),
            dir(vec![("y".to_string(), dir(vec![]))]),
        )],
    };
    assert_eq!(
        diff(&before, &after),
        vec![
            Change::RemoveFile(path(&["m", "x"])),
            Change::CreateDirectory(path(&["m", "y"])),
            Change::RemoveFile(path(&["n"])),
        ]
    );
}

#[test]
fn changes_render_as_single_lines() {
    assert_eq!(
        Change::CreateDirectory(path(&["a", "b"])).render(),
        "mkdir a/b"
    );
    assert_eq!(
        Change::RemoveDirectory(path(&["a"])).render(),
        "rmdir a"
    );
    assert_eq!(Change::RemoveFile(path(&["a", "c"])).render(), "rm a/c");
    assert_eq!(
        Change::CreateFile(path(&["x"]), h("Zm9v")).render(),
        "create x Zm9v"
    );
}

#[test]
fn nested_directory_removal_is_one_operation() {
    let before = Manifest {
        entries: vec![(
            "top".to_string(),
            dir(vec![(
                "mid".to_string(),
                dir(vec![("leaf".to_string(), file(1, "hl"))]),
            )]),
        )],
    };
    let after = Manifest {
        entries: vec![("top".to_string(), dir(vec![]))],
    };
    assert_eq!(
        diff(&before, &after),
        vec![Change::RemoveDirectory(path(&["top", "mid"]))]
    );
}
