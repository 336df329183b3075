use delivery::manifest::{entries_get, entries_insert, Entries, Entry};
use delivery::Manifest;

fn h(text: &str) -> delivery::hash::Hash {
    delivery::hash::Hash::new(text.to_string())
}

fn file(size: u64, hash_text: &str) -> Entry {
    Entry::File {
        size,
        hash: h(hash_text),
    }
}

#[test]
fn serialization_lists_files_depth_first_with_header() {
    let m = Manifest {
        entries: vec![
            ("empty".to_string(), Entry::Directory(vec![])),
            (
                "sub".to_string(),
                Entry::Directory(vec![
                    ("inner".to_string(), file(7, "abc")),
                    ("nested".to_string(), Entry::Directory(vec![])),
                ]),
            ),
            ("top".to_string(), file(1234567, "xyz")),
        ],
    };
    assert_eq!(
        m.to_text(),
        "version 1\nempty/\nsub/inner 7 abc\nsub/nested/\ntop 1234567 xyz"
    );
}

#[test]
fn serialization_of_empty_manifest_is_only_the_header() {
    let m = Manifest { entries: vec![] };
    assert_eq!(m.to_text(), "version 1");
}

#[test]
fn insertion_order_does_not_matter() {
    let mut one: Entries = Vec::new();
    entries_insert(&mut one, "b".to_string(), file(1, "hb"));
    entries_insert(&mut one, "a".to_string(), file(2, "ha"));
    entries_insert(&mut one, "c".to_string(), file(3, "hc"));

    let mut two: Entries = Vec::new();
    entries_insert(&mut two, "c".to_string(), file(3, "hc"));
    entries_insert(&mut two, "a".to_string(), file(2, "ha"));
    entries_insert(&mut two, "b".to_string(), file(1, "hb"));

    let first = Manifest { entries: one };
    let second = Manifest { entries: two };
    assert_eq!(first.to_text(), second.to_text());
    assert_eq!(
        first.to_text(),
        "version 1\na 2 ha\nb 1 hb\nc 3 hc"
    );
}

#[test]
fn insertion_replaces_an_existing_name() {
    let mut entries: Entries = Vec::new();
    entries_insert(&mut entries, "a".to_string(), file(1, "old"));
    entries_insert(&mut entries, "a".to_string(), file(2, "new"));
    let m = Manifest { entries };
    assert_eq!(m.to_text(), "version 1\na 2 new");
}

#[test]
fn lookup_finds_inserted_entries() {
    let mut entries: Entries = Vec::new();
    entries_insert(&mut entries, "x".to_string(), file(1, "hx"));
    entries_insert(&mut entries, "y".to_string(), file(2, "hy"));
    assert!(matches!(
        entries_get(&entries, &"x".to_string()),
        Some(Entry::File { size: 1, .. })
    ));
    assert!(entries_get(&entries, &"z".to_string()).is_none());
}

#[test]
fn names_sort_by_unicode_scalar_value() {
    let mut entries: Entries = Vec::new();
    entries_insert(&mut entries, "a".to_string(), file(1, "h1"));
    entries_insert(&mut entries, "Z".to_string(), file(2, "h2"));
    entries_insert(&mut entries, "aa".to_string(), file(3, "h3"));
    let m = Manifest { entries };
    assert_eq!(m.to_text(), "version 1\nZ 2 h2\na 1 h1\naa 3 h3");
}

#[test]
fn zero_sized_file_serializes_with_zero() {
    let m = Manifest {
        entries: vec![("empty_file".to_string(), file(0, "hz"))],
    };
    assert_eq!(m.to_text(), "version 1\nempty_file 0 hz");
}
