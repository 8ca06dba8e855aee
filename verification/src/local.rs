use vstd::prelude::*;

use crate::fs::FileType;
use crate::fs::Metadata;

verus! {

/// The local backend's structured error for its compute half.
#[derive(Clone, Copy, Debug, PartialEq, Eq, Structural)]
pub enum LocalError {
    /// The object is neither a file, a directory nor a symlink.
    UnsupportedFileType,
}

/// How the OS's classification of an object maps to a file type: the first of
/// file, directory, symlink that holds wins, anything else is unsupported.
pub open spec fn classify_spec(is_file: bool, is_dir: bool, is_symlink: bool, len: u64) -> Result<
    Metadata,
    LocalError,
> {
    if is_file {
        Ok(Metadata { file_type: FileType::File, len })
    } else if is_dir {
        Ok(Metadata { file_type: FileType::Dir, len })
    } else if is_symlink {
        Ok(Metadata { file_type: FileType::SymLink, len })
    } else {
        Err(LocalError::UnsupportedFileType)
    }
}

/// The local-disk backend: a thin passthrough to the operating system. The
/// stat and open calls themselves happen outside the library; what the
/// library owns is the classification of what the OS reported.
pub struct LocalFs;

impl LocalFs {
    /// A local backend needs no input to exist.
    pub fn new() -> (fs: LocalFs) {
        LocalFs
    }

    /// The compute half of the local metadata probe: classify what the OS
    /// reported about one object into the backend-independent metadata.
    pub fn classify(is_file: bool, is_dir: bool, is_symlink: bool, len: u64) -> (r: Result<
        Metadata,
        LocalError,
    >)
        ensures
            r == classify_spec(is_file, is_dir, is_symlink, len),
    {
        if is_file {
            Ok(Metadata { file_type: FileType::File, len })
        } else if is_dir {
            Ok(Metadata { file_type: FileType::Dir, len })
        } else if is_symlink {
            Ok(Metadata { file_type: FileType::SymLink, len })
        } else {
            Err(LocalError::UnsupportedFileType)
        }
    }
}

} // verus!
