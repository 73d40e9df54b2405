//! Interpreting what the filesystem reports for one path.
use vstd::prelude::*;

verus! {

/// The file-type bits of a mode word.
pub const MODE_TYPE_MASK: u32 = 0o170000;

/// The file-type value of a directory.
pub const MODE_DIRECTORY: u32 = 0o040000;

/// What a link-stat (a stat that does not follow symbolic links) of one path
/// reported.
#[derive(Clone, Copy, Debug, PartialEq, Eq)]
pub enum StatOutcome {
    /// The call succeeded; the mode word of the entry.
    Mode(u32),
    /// Permission denied.
    AccessDenied,
    /// No such file or directory.
    NotFound,
    /// Any other failure, with its OS error code.
    Failed(i32),
}

/// What a directory listing reported.
#[derive(Debug)]
pub enum Listing {
    /// The names read. `complete` is false when reading stopped at an error
    /// part-way through; the names read before it are kept.
    Entries { names: Vec<Vec<u8>>, complete: bool },
    /// Permission denied when opening the directory.
    AccessDenied,
    /// The directory was gone when it was opened.
    NotFound,
    /// Any other failure to open it, with its OS error code.
    Failed(i32),
}

/// How a path is handled by the walk.
#[derive(Clone, Copy, Debug, PartialEq, Eq)]
pub enum Classification {
    /// A true directory: its children are listed.
    Directory,
    /// Anything else: files, symbolic links, sockets, special files.
    NonDirectory,
    /// Could not be classified because of a permission or a race with
    /// deletion: the path is dropped.
    Inaccessible,
}

/// A failure that ends the walk.
#[derive(Clone, Copy, Debug, PartialEq, Eq)]
pub enum WalkError {
    /// The link-stat of a path failed other than by permission or absence.
    StatFailed(i32),
    /// Opening a directory failed other than by permission or absence.
    ListFailed(i32),
    /// The root itself could not be classified (absent or not permitted).
    RootInaccessible,
    /// The path-bytes metric would not fit in 64 bits.
    MetricOverflow,
}

/// Whether a mode word describes a directory.
pub open spec fn spec_mode_is_dir(mode: u32) -> bool {
    mode & MODE_TYPE_MASK == MODE_DIRECTORY
}

/// The classification that a link-stat outcome calls for.
pub open spec fn spec_classify(stat: StatOutcome) -> Result<Classification, WalkError> {
    match stat {
        StatOutcome::Mode(m) => if spec_mode_is_dir(m) {
            Ok(Classification::Directory)
        } else {
            Ok(Classification::NonDirectory)
        },
        StatOutcome::AccessDenied => Ok(Classification::Inaccessible),
        StatOutcome::NotFound => Ok(Classification::Inaccessible),
        StatOutcome::Failed(code) => Err(WalkError::StatFailed(code)),
    }
}

pub fn mode_is_dir(mode: u32) -> (r: bool)
    ensures
        r == spec_mode_is_dir(mode),
{
    mode & MODE_TYPE_MASK == MODE_DIRECTORY
}

/// Classifies a path from its link-stat: directories by their type bits,
/// permission and absence as inaccessible, any other error as fatal.
pub fn classify(stat: StatOutcome) -> (r: Result<Classification, WalkError>)
    ensures
        r == spec_classify(stat),
{
    match stat {
        StatOutcome::Mode(m) => if mode_is_dir(m) {
            Ok(Classification::Directory)
        } else {
            Ok(Classification::NonDirectory)
        },
        StatOutcome::AccessDenied => Ok(Classification::Inaccessible),
        StatOutcome::NotFound => Ok(Classification::Inaccessible),
        StatOutcome::Failed(code) => Err(WalkError::StatFailed(code)),
    }
}

} // verus!
