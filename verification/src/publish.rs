//! Publishing the merged tree at the destination, and the pipeline's
//! errors.
//!
//! Once the merged tree stands, it is exposed at the destination path: an
//! existing directory there is cleared first; a missing destination is then
//! written, either as a full copy of the merged tree or as a link to it; a
//! destination that exists but is not a directory is left untouched. After
//! publishing, the destination must hold at least one entry — an empty
//! result is an error, never silent success. Listing a destination that is
//! not a directory yields no entries, so an untouched non-directory
//! destination fails that check.

use vstd::prelude::*;

verus! {

/// Why the pipeline failed, with the path concerned where one is.
/// A relative path is carried as its byte string.
#[derive(Debug, PartialEq, Eq)]
pub enum MergeError {
    /// The merged tree root could not be removed.
    ClearMergedRoot,
    /// The merged tree root could not be created.
    CreateMergedRoot,
    /// The base file could not be hard-linked into the merged tree.
    LinkBaseFile,
    /// A parent directory for this relative path could not be created.
    CreateParentDir(Vec<u8>),
    /// The file at this relative path could not be hard-linked.
    HardLink(Vec<u8>),
    /// The existing destination directory could not be removed.
    ClearOutput,
    /// The destination's parent directory could not be created.
    PrepareOutputParent,
    /// The merged tree could not be copied to the destination.
    CopyOutput,
    /// The link at the destination could not be created.
    LinkOutput,
    /// The destination holds no entry after an otherwise successful run.
    EmptyOutput,
}

/// What stands at the destination path before publishing.
#[derive(Debug, Clone, Copy, PartialEq, Eq)]
pub enum DestState {
    /// A directory (or a link resolving to one).
    Directory,
    /// Something that exists but is not a directory.
    NonDirectory,
    /// Nothing.
    Missing,
}

/// How a missing destination is written.
#[derive(Debug, Clone, Copy, PartialEq, Eq)]
pub enum WriteMode {
    /// Recursively copy the merged tree's contents.
    Copy,
    /// Create a symbolic link or directory junction to the merged tree.
    Link,
}

/// The publishing steps for one run.
#[derive(Debug, PartialEq, Eq)]
pub struct PublishDecision {
    /// Remove the existing destination directory first.
    pub clear_first: bool,
    /// Write the destination this way — or, `None`, leave it untouched.
    pub write: Option<WriteMode>,
}

/// Decides the publishing steps. An existing directory is cleared and
/// rewritten; a missing destination is written; anything else that exists
/// is left untouched. Writing copies when copy mode is configured and
/// links otherwise.
pub fn decide_publish(dest: DestState, copy_mode: bool) -> (d: PublishDecision)
    ensures
        d.clear_first == (dest is Directory),
        d.write == (match dest {
            DestState::NonDirectory => None::<WriteMode>,
            _ => Some(if copy_mode { WriteMode::Copy } else { WriteMode::Link }),
        }),
{
    let mode = if copy_mode {
        WriteMode::Copy
    } else {
        WriteMode::Link
    };
    match dest {
        DestState::Directory => PublishDecision { clear_first: true, write: Some(mode) },
        DestState::Missing => PublishDecision { clear_first: false, write: Some(mode) },
        DestState::NonDirectory => PublishDecision { clear_first: false, write: None },
    }
}

/// Resolves the destination: an explicit override wins over the configured
/// export path; with neither, the whole run is a no-op that succeeds.
pub fn resolve_output(output_override: Option<Vec<u8>>, export_dir: Option<Vec<u8>>) -> (r: Option<
    Vec<u8>,
>)
    ensures
        r == if output_override is Some {
            output_override
        } else {
            export_dir
        },
{
    match output_override {
        Some(p) => Some(p),
        None => export_dir,
    }
}

/// Checks the published destination: success iff it holds at least one
/// entry. `entry_count` is the number of immediate entries listed at the
/// destination, zero for a non-directory.
pub fn validate_output(entry_count: usize) -> (r: Result<(), MergeError>)
    ensures
        r is Ok <==> entry_count > 0,
        r is Err ==> r->Err_0 is EmptyOutput,
{
    if entry_count == 0 {
        Err(MergeError::EmptyOutput)
    } else {
        Ok(())
    }
}

} // verus!
