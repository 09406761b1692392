use layer_merge::paths::{extension_is, file_name_of, first_component_is, is_single_component};

#[test]
fn file_name_is_the_last_component() {
    assert_eq!(file_name_of(&b"a/b/c.txt".to_vec()), b"c.txt".to_vec());
    assert_eq!(file_name_of(&b"top.txt".to_vec()), b"top.txt".to_vec());
    assert_eq!(file_name_of(&b"".to_vec()), b"".to_vec());
}

#[test]
fn first_component_comparison() {
    assert!(first_component_is(&b"logs/run.txt".to_vec(), b"logs"));
    assert!(first_component_is(&b"logs".to_vec(), b"logs"));
    assert!(!first_component_is(&b"logsx/run.txt".to_vec(), b"logs"));
    assert!(!first_component_is(&b"log/run.txt".to_vec(), b"logs"));
}

#[test]
fn single_component_means_no_separator() {
    assert!(is_single_component(&b"rules.txt".to_vec()));
    assert!(!is_single_component(&b"data/rules.txt".to_vec()));
    assert!(is_single_component(&b"".to_vec()));
}

#[test]
fn extension_follows_the_last_dot() {
    assert!(extension_is(&b"a.json".to_vec(), b"json"));
    assert!(extension_is(&b"archive.tar.gz".to_vec(), b"gz"));
    assert!(extension_is(&b"trailing.".to_vec(), b""));
    assert!(!extension_is(&b".json".to_vec(), b"json"));
    assert!(!extension_is(&b"noext".to_vec(), b"txt"));
    assert!(extension_is(&b"..both".to_vec(), b"both"));
}
