use layer_merge::filter::FileEntry;
use layer_merge::layers::{order_layers, Candidate};
use layer_merge::plan::{plan_merge, LayerFiles};
use layer_merge::publish::{
    decide_publish, resolve_output, validate_output, DestState, MergeError, PublishDecision,
    WriteMode,
};

#[test]
fn existing_directory_is_cleared_and_rewritten() {
    let d = decide_publish(DestState::Directory, false);
    assert_eq!(d, PublishDecision { clear_first: true, write: Some(WriteMode::Link) });
    let d = decide_publish(DestState::Directory, true);
    assert_eq!(d, PublishDecision { clear_first: true, write: Some(WriteMode::Copy) });
}

#[test]
fn missing_destination_is_written() {
    let d = decide_publish(DestState::Missing, false);
    assert_eq!(d, PublishDecision { clear_first: false, write: Some(WriteMode::Link) });
    let d = decide_publish(DestState::Missing, true);
    assert_eq!(d, PublishDecision { clear_first: false, write: Some(WriteMode::Copy) });
}

#[test]
fn override_wins_over_export_dir() {
    assert_eq!(
        resolve_output(Some(b"given".to_vec()), Some(b"configured".to_vec())),
        Some(b"given".to_vec())
    );
    assert_eq!(resolve_output(None, Some(b"configured".to_vec())), Some(b"configured".to_vec()));
    assert_eq!(resolve_output(None, None), None);
}

#[test]
fn empty_destination_is_an_error() {
    assert_eq!(validate_output(0), Err(MergeError::EmptyOutput));
    assert_eq!(validate_output(1), Ok(()));
    assert_eq!(validate_output(17), Ok(()));
}

fn plain_layer(name: &[u8]) -> Candidate {
    Candidate { name: name.to_vec(), is_dir: true, disabled: false, option_dirs: Vec::new() }
}

fn file(rel: &[u8]) -> FileEntry {
    FileEntry { rel: rel.to_vec(), is_dir: false }
}

#[test]
fn two_conflicting_layers_link_mode() {
    // Layers A and B both hold `data/item.txt`; B is lexically greater, so
    // it is processed first and wins. With copy mode off and the
    // destination missing, the destination becomes a link to the merged
    // tree.
    let cands = vec![plain_layer(b"mods/A"), plain_layer(b"mods/B")];
    let ordered = order_layers(&cands);
    assert_eq!(ordered, vec![b"mods/B".to_vec(), b"mods/A".to_vec()]);
    // Files listed per ordered layer: index 0 is B, index 1 is A.
    let layers = vec![
        LayerFiles { files: vec![file(b"data/item.txt")] },
        LayerFiles { files: vec![file(b"data/item.txt")] },
    ];
    let p = plan_merge(true, &layers);
    assert_eq!(p.links.len(), 1);
    // B's version is the one linked; A's never appears.
    assert_eq!(p.links[0].layer, 0);
    assert_eq!(p.links[0].rel, b"data/item.txt".to_vec());
    let d = decide_publish(DestState::Missing, false);
    assert_eq!(d, PublishDecision { clear_first: false, write: Some(WriteMode::Link) });
    assert!(validate_output(1).is_ok());
}

#[test]
fn fully_filtered_single_layer_fails_empty() {
    // A layer holding only reserved or JSON files contributes nothing;
    // with the base file absent, the destination stays empty and the run
    // fails with the integrity error.
    let layers = vec![LayerFiles {
        files: vec![file(b"meta/info.json"), file(b"options/x/skin.json")],
    }];
    let p = plan_merge(true, &layers);
    assert!(!p.link_base);
    assert_eq!(p.links.len(), 0);
    assert_eq!(validate_output(0), Err(MergeError::EmptyOutput));
}

#[test]
fn plain_file_destination_is_left_and_fails_empty() {
    // The destination exists as a plain file: publishing leaves it
    // untouched, and listing a non-directory yields zero entries, so the
    // non-empty check reports the empty-output error.
    let d = decide_publish(DestState::NonDirectory, false);
    assert_eq!(d, PublishDecision { clear_first: false, write: None });
    let entries_of_non_directory: usize = 0;
    assert_eq!(validate_output(entries_of_non_directory), Err(MergeError::EmptyOutput));
}
