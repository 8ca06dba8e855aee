//! A composable virtual-filesystem layer: one capability abstraction
//! (`metadata`/`open`) implemented by interchangeable backends, a fixed-page
//! read cache in front of any seekable byte source, an archive backend with
//! sparse-aware entry reads, and a pipe-delimited meta-path grammar that
//! chains backends so one path string can traverse nested containers.

pub mod archive;
pub mod chain;
pub mod http;
pub mod local;
pub mod parser;
pub mod cache;
pub mod fs;
pub mod stream;

pub use archive::ArchiveEntry;
pub use archive::ArchiveError;
pub use archive::DataBlock;
pub use archive::File;
pub use archive::LibArchiveFs;
pub use cache::CachedReadSeek;
pub use chain::ChainPlan;
pub use chain::IoBackedKind;
pub use chain::MetaError;
pub use chain::MetaFs;
pub use chain::StandaloneKind;
pub use http::CachelessHttpFile;
pub use http::ContentLengthError;
pub use http::path_to_url;
pub use local::LocalError;
pub use local::LocalFs;
pub use parser::ParseError;
pub use fs::FileType;
pub use fs::Fs;
pub use fs::IoBackedFs;
pub use fs::Metadata;
pub use fs::StandaloneFs;
pub use stream::MemStream;
pub use stream::ReadSeek;
pub use stream::SeekFrom;
pub use stream::StreamError;
