use layer_merge::layers::{order_layers, Candidate, OptionDir};
use layer_merge::lex::{bytes_eq, bytes_lt};

fn layer(name: &[u8]) -> Candidate {
    Candidate { name: name.to_vec(), is_dir: true, disabled: false, option_dirs: Vec::new() }
}

#[test]
fn lex_order_on_bytes() {
    assert!(bytes_lt(&b"A".to_vec(), &b"B".to_vec()));
    assert!(!bytes_lt(&b"B".to_vec(), &b"A".to_vec()));
    assert!(bytes_lt(&b"ab".to_vec(), &b"abc".to_vec()));
    assert!(bytes_lt(&b"".to_vec(), &b"a".to_vec()));
    assert!(!bytes_lt(&b"a".to_vec(), &b"a".to_vec()));
    // Numeric folder-name prefixes sort so that higher numbers win.
    assert!(bytes_lt(&b"mods/10_base".to_vec(), &b"mods/20_patch".to_vec()));
    assert!(bytes_eq(&b"same".to_vec(), &b"same".to_vec()));
    assert!(!bytes_eq(&b"same".to_vec(), &b"samey".to_vec()));
}

#[test]
fn layers_come_out_in_descending_order() {
    let cands = vec![layer(b"mods/A"), layer(b"mods/C"), layer(b"mods/B")];
    let out = order_layers(&cands);
    let names: Vec<&[u8]> = out.iter().map(|v| v.as_slice()).collect();
    assert_eq!(names, vec![&b"mods/C"[..], &b"mods/B"[..], &b"mods/A"[..]]);
}

#[test]
fn duplicate_paths_collapse() {
    let cands = vec![layer(b"mods/A"), layer(b"mods/A"), layer(b"mods/B")];
    let out = order_layers(&cands);
    assert_eq!(out.len(), 2);
    assert_eq!(out[0], b"mods/B".to_vec());
    assert_eq!(out[1], b"mods/A".to_vec());
}

#[test]
fn non_directories_are_skipped() {
    let mut stray = layer(b"mods/stray.txt");
    stray.is_dir = false;
    let cands = vec![stray, layer(b"mods/A")];
    let out = order_layers(&cands);
    assert_eq!(out, vec![b"mods/A".to_vec()]);
}

#[test]
fn disabled_layer_contributes_nothing() {
    let mut dis = layer(b"mods/Z");
    dis.disabled = true;
    let cands = vec![dis, layer(b"mods/A")];
    let out = order_layers(&cands);
    // Z would have won priority over A; carrying the disabled marker, it
    // is absent altogether.
    assert_eq!(out, vec![b"mods/A".to_vec()]);
}

#[test]
fn option_subdirectories_become_layers() {
    let mut a = layer(b"mods/A");
    a.option_dirs = vec![
        OptionDir { name: b"mods/A/options/o1".to_vec(), is_dir: true },
        OptionDir { name: b"mods/A/options/note.txt".to_vec(), is_dir: false },
    ];
    let cands = vec![a, layer(b"mods/B")];
    let out = order_layers(&cands);
    assert_eq!(
        out,
        vec![b"mods/B".to_vec(), b"mods/A/options/o1".to_vec(), b"mods/A".to_vec()]
    );
}

#[test]
fn options_of_disabled_layer_are_skipped() {
    let mut z = layer(b"mods/Z");
    z.disabled = true;
    z.option_dirs = vec![OptionDir { name: b"mods/Z/options/o1".to_vec(), is_dir: true }];
    let cands = vec![z, layer(b"mods/A")];
    let out = order_layers(&cands);
    assert_eq!(out, vec![b"mods/A".to_vec()]);
}
