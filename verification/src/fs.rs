use vstd::prelude::*;

use crate::stream::ReadSeek;

verus! {

/// The classification of one filesystem object.
#[derive(Clone, Copy, Debug, PartialEq, Eq, Structural)]
pub enum FileType {
    Dir,
    File,
    SymLink,
}

/// What a metadata probe reports: the object's type and its length in bytes.
#[derive(Clone, Copy, Debug, PartialEq, Eq, Structural)]
pub struct Metadata {
    pub file_type: FileType,
    pub len: u64,
}

/// The capability every backend implements: report metadata for a path, and
/// open a path as a readable file. Backends state their exact behaviour on
/// their own `metadata`/`open` methods; the trait fixes the shape only, so
/// callers outside the library can supply their own backends.
pub trait Fs {
    /// The path representation the backend accepts.
    type Path: ?Sized;

    /// The backend's structured error.
    type Error;

    /// What `open` hands back.
    type File;

    fn metadata(&mut self, path: &Self::Path) -> Result<Metadata, Self::Error>;

    fn open(&mut self, path: &Self::Path) -> Result<Self::File, Self::Error>;
}

/// A backend constructible with no external input, fit for the first hop of a
/// chained path.
pub trait StandaloneFs: Fs + Sized {
    fn new() -> Self;
}

/// A backend constructible only from an existing readable and seekable stream
/// plus an optional credential, fit for every later hop of a chained path.
/// Construction is infallible at the type level: failures surface lazily on
/// first use.
pub trait IoBackedFs<R: ReadSeek>: Fs + Sized {
    /// The credential the backend takes at construction.
    type Password;

    fn from_io(io: R, password: Self::Password) -> Self;
}

} // verus!
