//! The merge filter: which entries of a layer may enter the merged tree.
//!
//! A layer entry is kept only when all of these hold: it is not a directory;
//! its extension is not `json`; its path does not start under one of the
//! reserved subtrees `logs`, `options` or `meta`; and, if it is a top-level
//! file (a single path component), its extension is `txt`. Whether the path
//! is already taken by a higher-priority layer is not decided here — that is
//! the merge planner's part.

use vstd::prelude::*;
use crate::paths::{
    file_name_of, first_component, first_component_is, is_single_component, extension_is,
    path_extension, single_component,
};

verus! {

/// Model of one filesystem entry found under a layer root: its path
/// relative to that root, and whether it is a directory.
pub struct EntryModel {
    pub rel: Seq<u8>,
    pub is_dir: bool,
}

/// One filesystem entry found under a layer root.
pub struct FileEntry {
    /// Path relative to the layer root, with `/` separating components.
    pub rel: Vec<u8>,
    /// Whether the entry is a directory.
    pub is_dir: bool,
}

impl View for FileEntry {
    type V = EntryModel;

    open spec fn view(&self) -> EntryModel {
        EntryModel { rel: self.rel@, is_dir: self.is_dir }
    }
}

/// The reserved component name `logs`.
pub open spec fn logs_name() -> Seq<u8> {
    seq![108u8, 111u8, 103u8, 115u8]
}

/// The reserved component name `options`.
pub open spec fn options_name() -> Seq<u8> {
    seq![111u8, 112u8, 116u8, 105u8, 111u8, 110u8, 115u8]
}

/// The reserved component name `meta`.
pub open spec fn meta_name() -> Seq<u8> {
    seq![109u8, 101u8, 116u8, 97u8]
}

/// The excluded extension `json`.
pub open spec fn json_ext() -> Seq<u8> {
    seq![106u8, 115u8, 111u8, 110u8]
}

/// The extension `txt`, the only one a top-level file may carry.
pub open spec fn txt_ext() -> Seq<u8> {
    seq![116u8, 120u8, 116u8]
}

/// Bytes of `logs`.
pub fn logs_bytes() -> (r: [u8; 4])
    ensures
        r@ == logs_name(),
{
    let a: [u8; 4] = [108, 111, 103, 115];
    proof {
        assert(a@ =~= logs_name());
    }
    a
}

/// Bytes of `options`.
pub fn options_bytes() -> (r: [u8; 7])
    ensures
        r@ == options_name(),
{
    let a: [u8; 7] = [111, 112, 116, 105, 111, 110, 115];
    proof {
        assert(a@ =~= options_name());
    }
    a
}

/// Bytes of `meta`.
pub fn meta_bytes() -> (r: [u8; 4])
    ensures
        r@ == meta_name(),
{
    let a: [u8; 4] = [109, 101, 116, 97];
    proof {
        assert(a@ =~= meta_name());
    }
    a
}

/// Bytes of `json`.
pub fn json_bytes() -> (r: [u8; 4])
    ensures
        r@ == json_ext(),
{
    let a: [u8; 4] = [106, 115, 111, 110];
    proof {
        assert(a@ =~= json_ext());
    }
    a
}

/// Bytes of `txt`.
pub fn txt_bytes() -> (r: [u8; 3])
    ensures
        r@ == txt_ext(),
{
    let a: [u8; 3] = [116, 120, 116];
    proof {
        assert(a@ =~= txt_ext());
    }
    a
}

/// The static exclusion rules: a layer entry may enter the merged tree iff
/// this holds of it. Conflicts between layers are resolved separately.
pub open spec fn mergeable(e: EntryModel) -> bool {
    &&& !e.is_dir
    &&& path_extension(e.rel) != Some(json_ext())
    &&& first_component(e.rel) != logs_name()
    &&& first_component(e.rel) != options_name()
    &&& first_component(e.rel) != meta_name()
    &&& !(single_component(e.rel) && path_extension(e.rel) != Some(txt_ext()))
}

/// Decides the exclusion rules for one layer entry.
pub fn is_mergeable(e: &FileEntry) -> (r: bool)
    ensures
        r == mergeable(e@),
{
    if e.is_dir {
        return false;
    }
    let name = file_name_of(&e.rel);
    if extension_is(&name, json_bytes().as_slice()) {
        return false;
    }
    if first_component_is(&e.rel, logs_bytes().as_slice()) {
        return false;
    }
    if first_component_is(&e.rel, options_bytes().as_slice()) {
        return false;
    }
    if first_component_is(&e.rel, meta_bytes().as_slice()) {
        return false;
    }
    if is_single_component(&e.rel) && !extension_is(&name, txt_bytes().as_slice()) {
        return false;
    }
    true
}

} // verus!
