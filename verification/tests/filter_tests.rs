use layer_merge::filter::{is_mergeable, FileEntry};

fn file(rel: &[u8]) -> FileEntry {
    FileEntry { rel: rel.to_vec(), is_dir: false }
}

fn dir(rel: &[u8]) -> FileEntry {
    FileEntry { rel: rel.to_vec(), is_dir: true }
}

#[test]
fn directory_is_rejected() {
    assert!(!is_mergeable(&dir(b"data")));
    assert!(!is_mergeable(&dir(b"data/sub")));
}

#[test]
fn json_extension_is_rejected_everywhere() {
    assert!(!is_mergeable(&file(b"data/thing.json")));
    assert!(!is_mergeable(&file(b"deep/nested/also.json")));
    assert!(!is_mergeable(&file(b"info.json")));
}

#[test]
fn plain_nested_file_is_kept() {
    assert!(is_mergeable(&file(b"data/item.txt")));
    assert!(is_mergeable(&file(b"data/model.bin")));
    assert!(is_mergeable(&file(b"data/no_extension")));
}

#[test]
fn leading_dot_is_no_extension() {
    // A nested file named `.json` is a hidden file without an extension,
    // not a JSON file.
    assert!(is_mergeable(&file(b"data/.json")));
}

#[test]
fn trailing_dot_is_empty_extension() {
    // `file.` has the empty extension: not `json`, so kept when nested,
    // but not `txt`, so rejected at top level.
    assert!(is_mergeable(&file(b"data/file.")));
    assert!(!is_mergeable(&file(b"file.")));
}

#[test]
fn reserved_subtrees_are_rejected() {
    assert!(!is_mergeable(&file(b"logs/run.txt")));
    assert!(!is_mergeable(&file(b"options/x/skin.txt")));
    assert!(!is_mergeable(&file(b"meta/info.txt")));
    // A bare top-level file with a reserved name is rejected too.
    assert!(!is_mergeable(&file(b"logs")));
}

#[test]
fn reserved_name_matches_whole_component_only() {
    assert!(is_mergeable(&file(b"logsx/run.txt")));
    assert!(is_mergeable(&file(b"metadata/info.txt")));
}

#[test]
fn top_level_file_must_be_txt() {
    assert!(is_mergeable(&file(b"rules.txt")));
    assert!(is_mergeable(&file(b"readme.txt")));
    assert!(!is_mergeable(&file(b"readme.md")));
    assert!(!is_mergeable(&file(b"binary")));
    assert!(!is_mergeable(&file(b".txt")));
}
