use layer_merge::filter::FileEntry;
use layer_merge::plan::{plan_merge, LayerFiles};

fn file(rel: &[u8]) -> FileEntry {
    FileEntry { rel: rel.to_vec(), is_dir: false }
}

fn layer(files: Vec<FileEntry>) -> LayerFiles {
    LayerFiles { files }
}

#[test]
fn first_writer_wins_across_layers() {
    // Two layers in processing order; both offer the same path. The first
    // (higher priority) owns it.
    let layers = vec![
        layer(vec![file(b"data/item.txt")]),
        layer(vec![file(b"data/item.txt"), file(b"data/extra.bin")]),
    ];
    let p = plan_merge(true, &layers);
    assert!(!p.link_base);
    assert_eq!(p.links.len(), 2);
    let owner_of_item = p
        .links
        .iter()
        .find(|l| l.rel == b"data/item.txt".to_vec())
        .unwrap();
    assert_eq!(owner_of_item.layer, 0);
    let owner_of_extra = p
        .links
        .iter()
        .find(|l| l.rel == b"data/extra.bin".to_vec())
        .unwrap();
    assert_eq!(owner_of_extra.layer, 1);
}

#[test]
fn filtered_entries_are_never_planned() {
    let layers = vec![layer(vec![
        file(b"meta/info.json"),
        file(b"logs/run.txt"),
        file(b"data/real.txt"),
    ])];
    let p = plan_merge(true, &layers);
    assert_eq!(p.links.len(), 1);
    assert_eq!(p.links[0].rel, b"data/real.txt".to_vec());
}

#[test]
fn base_file_shadows_layer_copy() {
    // With the base file linked first, a layer's own top-level `rules.txt`
    // is already owned and never planned.
    let layers = vec![layer(vec![file(b"rules.txt"), file(b"data/a.txt")])];
    let p = plan_merge(false, &layers);
    assert!(p.link_base);
    assert_eq!(p.links.len(), 1);
    assert_eq!(p.links[0].rel, b"data/a.txt".to_vec());
}

#[test]
fn skipped_base_frees_the_path() {
    let layers = vec![layer(vec![file(b"rules.txt")])];
    let p = plan_merge(true, &layers);
    assert!(!p.link_base);
    assert_eq!(p.links.len(), 1);
    assert_eq!(p.links[0].rel, b"rules.txt".to_vec());
}

#[test]
fn duplicate_paths_within_one_layer_are_planned_once() {
    let layers = vec![layer(vec![file(b"data/a.txt"), file(b"data/a.txt")])];
    let p = plan_merge(true, &layers);
    assert_eq!(p.links.len(), 1);
    assert_eq!(p.links[0].layer, 0);
}

#[test]
fn planning_is_deterministic() {
    // Two runs over an unchanged layer stack plan identical merges.
    let build = || {
        vec![
            layer(vec![file(b"data/item.txt"), file(b"meta/x.json")]),
            layer(vec![file(b"data/item.txt"), file(b"data/other.txt")]),
        ]
    };
    let first = plan_merge(false, &build());
    let second = plan_merge(false, &build());
    assert_eq!(first, second);
}
