use vstd::prelude::*;

use std::rc::Rc;

use crate::cache::CachedReadSeek;
use crate::fs::FileType;
use crate::fs::Fs;
use crate::fs::Metadata;
use crate::stream::ReadSeek;
use crate::stream::SeekFrom;
use crate::stream::StreamError;

verus! {

/// POSIX mode bit pattern of a regular file, as the engine's entry accessor
/// reports it.
pub const MODE_FILE: u32 = 0o100000;

/// POSIX mode bit pattern of a symbolic link.
pub const MODE_SYMLINK: u32 = 0o120000;

/// POSIX mode bit pattern of a directory.
pub const MODE_DIR: u32 = 0o040000;

/// One contiguous run of real bytes within an entry, at an entry-relative
/// byte offset. Blocks are not necessarily contiguous: the stretch between
/// two blocks is a sparse region that reads as zeros.
pub struct DataBlock {
    pub offset: u64,
    pub data: Vec<u8>,
}

/// One named item inside an archive, as the engine's entry accessors report
/// it: path bytes (forward-slash separated, archive-native case), POSIX mode
/// bits, reported size, and the entry's data blocks in iteration order.
pub struct ArchiveEntry {
    pub path: Vec<u8>,
    pub mode: u32,
    pub size: u64,
    pub blocks: Vec<DataBlock>,
}

/// The archive backend's structured errors.
#[derive(Clone, Copy, Debug, PartialEq, Eq, Structural)]
pub enum ArchiveError {
    /// No entry of the archive matches the requested path.
    NotFound,
    /// The entry's mode bits name no supported entry type.
    UnsupportedFileType,
    /// `open` was asked for an entry that is not a regular file.
    NotAFile,
}

/// The entry-relative offset one past a block's last byte.
pub open spec fn block_end(b: DataBlock) -> int {
    b.offset + b.data@.len()
}

/// Blocks appear in increasing offset order and do not overlap.
pub open spec fn blocks_wf(blocks: Seq<DataBlock>) -> bool {
    forall|i: int|
        0 <= i < blocks.len() - 1 ==> #[trigger] block_end(blocks[i]) <= blocks[i + 1].offset
}

/// The offset one past the last block, or zero with no blocks: where the
/// engine's data for the entry ends.
pub open spec fn blocks_end(blocks: Seq<DataBlock>) -> int {
    if blocks.len() == 0 {
        0
    } else {
        block_end(blocks[blocks.len() - 1])
    }
}

/// An entry is well formed when its blocks are ordered and disjoint, each lies
/// within the reported size, and the engine's data ends exactly at that size
/// (an entry ending in a hole is reported with a final empty block there).
pub open spec fn entry_wf(e: ArchiveEntry) -> bool {
    &&& blocks_wf(e.blocks@)
    &&& blocks_end(e.blocks@) == e.size as int
    &&& forall|i: int|
        0 <= i < e.blocks@.len() ==> #[trigger] block_end(e.blocks@[i]) <= e.size as int
}

/// The byte at entry-relative offset `off`: the covering block's byte, or
/// zero inside a sparse gap.
pub open spec fn blocks_byte(blocks: Seq<DataBlock>, off: int) -> u8
    decreases blocks.len(),
{
    if blocks.len() == 0 {
        0
    } else if blocks[0].offset <= off < block_end(blocks[0]) {
        blocks[0].data@[off - blocks[0].offset]
    } else {
        blocks_byte(blocks.skip(1), off)
    }
}

/// The single logical byte stream an entry presents: its reported size many
/// bytes, real bytes where a data block covers the offset and zeros in the
/// sparse gaps between blocks.
pub open spec fn entry_content(e: ArchiveEntry) -> Seq<u8> {
    Seq::new(e.size as nat, |i: int| blocks_byte(e.blocks@, i))
}

proof fn lemma_wf_tail(blocks: Seq<DataBlock>)
    requires
        blocks_wf(blocks),
        blocks.len() > 0,
    ensures
        blocks_wf(blocks.skip(1)),
{
    let tail = blocks.skip(1);
    assert forall|i: int| 0 <= i < tail.len() - 1 implies #[trigger] block_end(tail[i]) <= tail[i
        + 1].offset by {
        assert(tail[i] == blocks[i + 1]);
        assert(tail[i + 1] == blocks[i + 2]);
        assert(block_end(blocks[i + 1]) <= blocks[i + 2].offset);
    }
}

/// Ordered disjoint blocks do not come back: every earlier block ends at or
/// before a later block's start.
proof fn lemma_blocks_order(blocks: Seq<DataBlock>, i: int, j: int)
    requires
        blocks_wf(blocks),
        0 <= i < j < blocks.len(),
    ensures
        block_end(blocks[i]) <= blocks[j].offset,
    decreases j - i,
{
    if j > i + 1 {
        lemma_blocks_order(blocks, i, j - 1);
        assert(block_end(blocks[j - 1]) <= blocks[j].offset);
    }
}

/// Before the first block every offset reads as zero.
proof fn lemma_blocks_byte_none(blocks: Seq<DataBlock>, off: int)
    requires
        blocks_wf(blocks),
        blocks.len() > 0 ==> off < blocks[0].offset,
    ensures
        blocks_byte(blocks, off) == 0,
    decreases blocks.len(),
{
    if blocks.len() > 0 {
        let tail = blocks.skip(1);
        lemma_wf_tail(blocks);
        if tail.len() > 0 {
            assert(block_end(blocks[0]) <= blocks[1].offset);
            assert(tail[0] == blocks[1]);
        }
        lemma_blocks_byte_none(tail, off);
    }
}

/// An offset inside block `k` reads that block's byte.
proof fn lemma_blocks_byte_in(blocks: Seq<DataBlock>, k: int, off: int)
    requires
        blocks_wf(blocks),
        0 <= k < blocks.len(),
        blocks[k].offset <= off < block_end(blocks[k]),
    ensures
        blocks_byte(blocks, off) == blocks[k].data@[off - blocks[k].offset],
    decreases k,
{
    if k > 0 {
        lemma_blocks_order(blocks, 0, k);
        let tail = blocks.skip(1);
        lemma_wf_tail(blocks);
        assert(tail[k - 1] == blocks[k]);
        lemma_blocks_byte_in(tail, k - 1, off);
    }
}

/// An offset in the gap right before block `k` reads as zero.
proof fn lemma_blocks_byte_gap(blocks: Seq<DataBlock>, k: int, off: int)
    requires
        blocks_wf(blocks),
        0 <= k < blocks.len(),
        0 <= off < blocks[k].offset,
        k > 0 ==> off >= block_end(blocks[k - 1]),
    ensures
        blocks_byte(blocks, off) == 0,
    decreases k,
{
    if k == 0 {
        lemma_blocks_byte_none(blocks, off);
    } else {
        if k - 1 > 0 {
            lemma_blocks_order(blocks, 0, k - 1);
        }
        let tail = blocks.skip(1);
        lemma_wf_tail(blocks);
        assert(tail[k - 1] == blocks[k]);
        if k - 1 > 0 {
            assert(tail[k - 2] == blocks[k - 1]);
        }
        lemma_blocks_byte_gap(tail, k - 1, off);
    }
}

/// The normalized component sequence of a byte path under Unix rules, where
/// repeated separators, interior current-directory markers and a trailing
/// separator do not count.
pub uninterp spec fn unix_components(path: Seq<u8>) -> Seq<Seq<u8>>;

/// Relies on typed_path::UnixPath: `new` borrows the bytes as a Unix path and
/// `==` compares the two paths' normalized component sequences, a function of
/// the bytes alone.
#[verifier::external_body]
fn unix_path_eq(a: &[u8], b: &[u8]) -> (r: bool)
    ensures
        r == (unix_components(a@) == unix_components(b@)),
{
    typed_path::UnixPath::new(a) == typed_path::UnixPath::new(b)
}

/// An entry answers for a requested path when the two normalize to the same
/// components.
pub open spec fn entry_matches(e: ArchiveEntry, target: Seq<u8>) -> bool {
    unix_components(e.path@) == unix_components(target)
}

/// What a linear forward scan of the entries finds: the first entry whose
/// path matches the target, or a not-found failure at end of entries.
pub open spec fn lookup_spec(entries: Seq<ArchiveEntry>, target: Seq<u8>) -> Result<
    ArchiveEntry,
    ArchiveError,
>
    decreases entries.len(),
{
    if entries.len() == 0 {
        Err(ArchiveError::NotFound)
    } else if entry_matches(entries[0], target) {
        Ok(entries[0])
    } else {
        lookup_spec(entries.skip(1), target)
    }
}

/// How the mode bits of an entry map to a file type; any other pattern is an
/// unsupported-type error.
pub open spec fn mode_file_type(mode: u32) -> Result<FileType, ArchiveError> {
    if mode == MODE_FILE {
        Ok(FileType::File)
    } else if mode == MODE_SYMLINK {
        Ok(FileType::SymLink)
    } else if mode == MODE_DIR {
        Ok(FileType::Dir)
    } else {
        Err(ArchiveError::UnsupportedFileType)
    }
}

/// What `metadata` reports: the first matching entry's type from its mode
/// bits, and its reported size as the length.
pub open spec fn metadata_spec(entries: Seq<ArchiveEntry>, target: Seq<u8>) -> Result<
    Metadata,
    ArchiveError,
> {
    match lookup_spec(entries, target) {
        Err(e) => Err(e),
        Ok(ent) => match mode_file_type(ent.mode) {
            Ok(t) => Ok(Metadata { file_type: t, len: ent.size }),
            Err(e) => Err(e),
        },
    }
}

/// Why `open` refuses a matching entry: it is a directory or symlink, or its
/// mode names no supported type at all.
pub open spec fn open_failure(mode: u32) -> ArchiveError {
    if mode == MODE_SYMLINK || mode == MODE_DIR {
        ArchiveError::NotAFile
    } else {
        ArchiveError::UnsupportedFileType
    }
}

/// What `metadata` reports and what `open` serves agree: for a regular-file
/// entry, the reported length is exactly the length of the logical byte
/// stream the file handle presents; for directories and symlinks the length
/// is their reported size with no stream behind it.
pub proof fn lemma_metadata_matches_content(entries: Seq<ArchiveEntry>, target: Seq<u8>)
    ensures
        match (metadata_spec(entries, target), lookup_spec(entries, target)) {
            (Ok(m), Ok(e)) => m.len == e.size && (e.mode == MODE_FILE ==> m.len as int
                == entry_content(e).len()),
            (Ok(m), Err(_)) => false,
            (Err(_), _) => true,
        },
{
}

/// An archive-backed filesystem over the entries a streaming archive-reading
/// engine reported: entry lookup is a linear forward scan repeated on every
/// call (the engine offers no random-access index), metadata maps POSIX mode
/// bits, and reads present each entry's data blocks as one logical byte
/// stream whose sparse gaps read as zeros. The entry table is shared, like
/// the engine session it stands for, by every file handle opened from this
/// backend.
pub struct LibArchiveFs {
    entries: Rc<Vec<ArchiveEntry>>,
}

impl LibArchiveFs {
    /// Every entry the engine reported is well formed.
    #[verifier::type_invariant]
    closed spec fn type_inv(self) -> bool {
        forall|i: int|
            0 <= i < self.entries@.len() ==> entry_wf(#[trigger] self.entries@[i])
    }

    /// The entries this backend answers for, in the engine's iteration order.
    pub closed spec fn entries_view(&self) -> Seq<ArchiveEntry> {
        self.entries@
    }

    /// An archive whose engine reported the given entries.
    pub fn from_entries(entries: Vec<ArchiveEntry>) -> (fs: LibArchiveFs)
        requires
            forall|i: int| 0 <= i < entries@.len() ==> entry_wf(#[trigger] entries@[i]),
        ensures
            fs.entries_view() == entries@,
    {
        LibArchiveFs { entries: Rc::new(entries) }
    }

    /// Scan forward for the first entry matching the path, comparing
    /// normalized paths; the whole scan is repeated on every call, as the
    /// engine's forward-only iteration demands.
    fn find_entry(&self, path: &[u8]) -> (r: Result<usize, ArchiveError>)
        ensures
            match r {
                Ok(i) => {
                    &&& (i as int) < self.entries_view().len()
                    &&& lookup_spec(self.entries_view(), path@) matches Ok(e) && e
                        == self.entries_view()[i as int]
                    &&& entry_matches(self.entries_view()[i as int], path@)
                },
                Err(e) => {
                    &&& e == ArchiveError::NotFound
                    &&& lookup_spec(self.entries_view(), path@) == Err::<
                        ArchiveEntry,
                        ArchiveError,
                    >(ArchiveError::NotFound)
                },
            },
    {
        let entries: &Vec<ArchiveEntry> = &self.entries;
        let ghost gv = self.entries_view();
        proof {
            assert(gv.skip(0) =~= gv);
        }
        let mut i: usize = 0;
        while i < entries.len()
            invariant
                self.entries_view() == gv,
                entries@ == gv,
                i <= gv.len(),
                lookup_spec(gv, path@) == lookup_spec(gv.skip(i as int), path@),
                forall|j: int| 0 <= j < i ==> !entry_matches(#[trigger] gv[j], path@),
            decreases gv.len() - i,
        {
            let hit = unix_path_eq(entries[i].path.as_slice(), path);
            proof {
                assert(gv.skip(i as int)[0] == gv[i as int]);
            }
            if hit {
                proof {
                    assert(entry_matches(gv.skip(i as int)[0], path@));
                    assert(lookup_spec(gv.skip(i as int), path@) == Ok::<
                        ArchiveEntry,
                        ArchiveError,
                    >(gv[i as int]));
                }
                return Ok(i);
            }
            proof {
                assert(gv.skip(i as int).skip(1) =~= gv.skip(i as int + 1));
            }
            i = i + 1;
        }
        proof {
            assert(gv.skip(i as int) =~= Seq::<ArchiveEntry>::empty());
        }
        Err(ArchiveError::NotFound)
    }

    /// Report the first matching entry's type and size; fail with not-found
    /// when no entry matches, and with an unsupported-type error when the
    /// entry's mode bits name no supported type.
    pub fn metadata(&self, path: &[u8]) -> (r: Result<Metadata, ArchiveError>)
        ensures
            r == metadata_spec(self.entries_view(), path@),
    {
        let i = match self.find_entry(path) {
            Ok(i) => i,
            Err(e) => {
                return Err(e);
            },
        };
        let entries: &Vec<ArchiveEntry> = &self.entries;
        let e = &entries[i];
        if e.mode == MODE_FILE {
            Ok(Metadata { file_type: FileType::File, len: e.size })
        } else if e.mode == MODE_SYMLINK {
            Ok(Metadata { file_type: FileType::SymLink, len: e.size })
        } else if e.mode == MODE_DIR {
            Ok(Metadata { file_type: FileType::Dir, len: e.size })
        } else {
            Err(ArchiveError::UnsupportedFileType)
        }
    }

    /// Open the first matching entry as a file handle: its sparse-aware byte
    /// stream wrapped by the page cache, positioned at offset zero. Exactly
    /// the regular-file entries open; a matching directory or symlink is
    /// refused as not-a-file, an unknown mode as unsupported.
    pub fn open(&self, path: &[u8]) -> (r: Result<File, ArchiveError>)
        ensures
            match r {
                Ok(f) => {
                    &&& lookup_spec(self.entries_view(), path@) matches Ok(e) && e.mode == MODE_FILE
                        && f.content() == entry_content(e)
                    &&& f.inv()
                    &&& f.pos() == 0
                },
                Err(err) => match lookup_spec(self.entries_view(), path@) {
                    Ok(e) => e.mode != MODE_FILE && err == open_failure(e.mode),
                    Err(e2) => err == e2,
                },
            },
    {
        proof {
            use_type_invariant(self);
        }
        let i = match self.find_entry(path) {
            Ok(i) => i,
            Err(e) => {
                return Err(e);
            },
        };
        let entries: &Vec<ArchiveEntry> = &self.entries;
        let e = &entries[i];
        if e.mode != MODE_FILE {
            if e.mode == MODE_SYMLINK || e.mode == MODE_DIR {
                return Err(ArchiveError::NotAFile);
            }
            return Err(ArchiveError::UnsupportedFileType);
        }
        let size = e.size;
        let cf = CachelessFile {
            fs: LibArchiveFs { entries: Rc::clone(&self.entries) },
            path: vstd::slice::slice_to_vec(path),
            size,
            offset: 0,
        };
        Ok(File { inner: CachedReadSeek::new(cf) })
    }
}

impl Fs for LibArchiveFs {
    type Path = [u8];

    type Error = ArchiveError;

    type File = File;

    fn metadata(&mut self, path: &[u8]) -> (r: Result<Metadata, ArchiveError>)
        ensures
            final(self).entries_view() == old(self).entries_view(),
            r == metadata_spec(old(self).entries_view(), path@),
    {
        LibArchiveFs::metadata(self, path)
    }

    fn open(&mut self, path: &[u8]) -> (r: Result<File, ArchiveError>)
        ensures
            final(self).entries_view() == old(self).entries_view(),
            match r {
                Ok(f) => {
                    &&& lookup_spec(old(self).entries_view(), path@) matches Ok(e) && e.mode
                        == MODE_FILE && f.content() == entry_content(e)
                    &&& f.inv()
                    &&& f.pos() == 0
                },
                Err(err) => match lookup_spec(old(self).entries_view(), path@) {
                    Ok(e) => e.mode != MODE_FILE && err == open_failure(e.mode),
                    Err(e2) => err == e2,
                },
            },
    {
        LibArchiveFs::open(self, path)
    }
}

/// The uncached byte stream of one archive entry. Every read re-runs the
/// entry lookup and walks the entry's data blocks until it finds the one —
/// real, or a virtual zero-filled block covering a sparse gap — that holds
/// the current offset, and produces bytes from that block alone; the page
/// cache wrapped around it absorbs the cost for adjacent reads.
pub struct CachelessFile {
    fs: LibArchiveFs,
    path: Vec<u8>,
    size: u64,
    offset: u64,
}

impl ReadSeek for CachelessFile {
    /// The entry's logical bytes: block bytes, zeros in the gaps.
    closed spec fn content(&self) -> Seq<u8> {
        match lookup_spec(self.fs.entries_view(), self.path@) {
            Ok(e) => entry_content(e),
            Err(_) => Seq::empty(),
        }
    }

    closed spec fn pos(&self) -> int {
        self.offset as int
    }

    /// The handle's path names a well-formed regular-file entry of its
    /// archive, whose reported size the handle carries.
    closed spec fn inv(&self) -> bool {
        match lookup_spec(self.fs.entries_view(), self.path@) {
            Ok(e) => e.mode == MODE_FILE && e.size == self.size && entry_wf(e),
            Err(_) => false,
        }
    }

    fn seek(&mut self, from: SeekFrom) -> (r: Result<u64, StreamError>) {
        proof {
            assert(self.content().len() == self.size as int);
        }
        let base: i128 = match from {
            SeekFrom::Start(o) => o as i128,
            SeekFrom::End(d) => self.size as i128 + d as i128,
            SeekFrom::Current(d) => self.offset as i128 + d as i128,
        };
        if 0 <= base && base <= u64::MAX as i128 {
            self.offset = base as u64;
            Ok(self.offset)
        } else {
            Err(StreamError::InvalidSeek)
        }
    }

    fn read(&mut self, buf: &mut Vec<u8>) -> (n: usize) {
        let ghost gcontent = self.content();
        let ghost gsize = self.size as int;
        let idx = self.fs.find_entry(self.path.as_slice()).unwrap();
        let ghost gent = self.fs.entries_view()[idx as int];
        proof {
            assert(gcontent == entry_content(gent));
            assert(gcontent.len() == gsize);
            assert forall|x: int| 0 <= x < gsize implies #[trigger] gcontent[x] == blocks_byte(
                gent.blocks@,
                x,
            ) by {}
        }
        if self.offset >= self.size {
            return 0;
        }
        let entries: &Vec<ArchiveEntry> = &self.fs.entries;
        let e = &entries[idx];
        let off = self.offset;
        let ghost bl = gent.blocks@;
        let mut k: usize = 0;
        let mut prev_end: u64 = 0;
        while k < e.blocks.len()
            invariant
                self.fs == old(self).fs,
                self.path == old(self).path,
                self.size == old(self).size,
                self.offset == old(self).offset,
                off == old(self).offset,
                self.inv(),
                self.content() == gcontent,
                gsize == self.size as int,
                e.blocks@ == bl,
                blocks_wf(bl),
                blocks_end(bl) == gsize,
                forall|i: int| 0 <= i < bl.len() ==> #[trigger] block_end(bl[i]) <= gsize,
                k <= bl.len(),
                prev_end as int == (if k == 0 {
                    0int
                } else {
                    block_end(bl[k as int - 1])
                }),
                off as int >= prev_end as int,
                (off as int) < gsize,
                gsize <= u64::MAX,
                gcontent.len() == gsize,
                forall|x: int| 0 <= x < gsize ==> #[trigger] gcontent[x] == blocks_byte(bl, x),
                buf@ == old(buf)@,
            decreases bl.len() - k,
        {
            let b = &e.blocks[k];
            proof {
                assert(block_end(bl[k as int]) <= gsize);
            }
            let data_len = b.data.len() as u64;
            let b_end = b.offset + data_len;
            if off < b.offset {
                // the offset lies in the sparse gap before this block: serve
                // a virtual zero-filled block covering exactly that gap
                let gap_rem = b.offset - off;
                let want = buf.len() as u64;
                let n64 = if want < gap_rem {
                    want
                } else {
                    gap_rem
                };
                let n = n64 as usize;
                let mut i2: usize = 0;
                while i2 < n
                    invariant
                        i2 <= n,
                        n <= buf.len(),
                        buf.len() == old(buf).len(),
                        forall|j: int| 0 <= j < i2 ==> buf@[j] == 0u8,
                        forall|j: int| i2 <= j < buf.len() ==> buf@[j] == old(buf)@[j],
                    decreases n - i2,
                {
                    buf.set(i2, 0);
                    i2 = i2 + 1;
                }
                proof {
                    assert forall|j: int| 0 <= j < n implies #[trigger] gcontent[off as int + j]
                        == 0u8 by {
                        lemma_blocks_byte_gap(bl, k as int, off as int + j);
                    }
                    if n > 0 {
                        assert(buf@.subrange(0, n as int).len() == n as int);
                        assert(gcontent.subrange(off as int, off as int + n as int).len()
                            == n as int);
                        assert forall|j: int|
                            0 <= j < n implies buf@.subrange(0, n as int)[j] == gcontent.subrange(
                            off as int,
                            off as int + n as int,
                        )[j] by {
                            assert(buf@[j] == 0u8);
                            assert(gcontent[off as int + j] == 0u8);
                        }
                        assert(buf@.subrange(0, n as int) =~= gcontent.subrange(
                            off as int,
                            off as int + n as int,
                        ));
                    }
                    assert(buf@.skip(n as int) =~= old(buf)@.skip(n as int));
                }
                self.offset = off + n64;
                return n;
            } else if off < b_end {
                // the offset lies inside this real block: copy from it
                let skip_len = (off - b.offset) as usize;
                let avail = b.data.len() - skip_len;
                let want = buf.len();
                let n = if want < avail {
                    want
                } else {
                    avail
                };
                let mut i2: usize = 0;
                while i2 < n
                    invariant
                        i2 <= n,
                        n <= buf.len(),
                        buf.len() == old(buf).len(),
                        skip_len + n <= b.data@.len(),
                        skip_len + n <= usize::MAX,
                        forall|j: int| 0 <= j < i2 ==> buf@[j] == b.data@[skip_len + j],
                        forall|j: int| i2 <= j < buf.len() ==> buf@[j] == old(buf)@[j],
                    decreases n - i2,
                {
                    let byte = b.data[skip_len + i2];
                    buf.set(i2, byte);
                    i2 = i2 + 1;
                }
                proof {
                    assert forall|j: int|
                        0 <= j < n implies #[trigger] gcontent[off as int + j] == b.data@[skip_len
                        + j] by {
                        lemma_blocks_byte_in(bl, k as int, off as int + j);
                    }
                    if n > 0 {
                        assert forall|j: int|
                            0 <= j < n implies buf@.subrange(0, n as int)[j] == gcontent.subrange(
                            off as int,
                            off as int + n as int,
                        )[j] by {
                            assert(buf@[j] == b.data@[skip_len + j]);
                            assert(gcontent[off as int + j] == b.data@[skip_len + j]);
                        }
                        assert(buf@.subrange(0, n as int) =~= gcontent.subrange(
                            off as int,
                            off as int + n as int,
                        ));
                    }
                    assert(buf@.skip(n as int) =~= old(buf)@.skip(n as int));
                }
                self.offset = off + n as u64;
                return n;
            } else {
                prev_end = b_end;
                k = k + 1;
            }
        }
        proof {
            assert(false);
        }
        0
    }
}

/// A file handle the archive backend hands out: one entry's byte stream
/// wrapped by the page cache.
pub struct File {
    inner: CachedReadSeek<CachelessFile>,
}

impl ReadSeek for File {
    closed spec fn content(&self) -> Seq<u8> {
        self.inner.content()
    }

    closed spec fn pos(&self) -> int {
        self.inner.pos()
    }

    closed spec fn inv(&self) -> bool {
        self.inner.inv()
    }

    fn seek(&mut self, from: SeekFrom) -> (r: Result<u64, StreamError>) {
        self.inner.seek(from)
    }

    fn read(&mut self, buf: &mut Vec<u8>) -> (n: usize) {
        self.inner.read(buf)
    }
}

} // verus!
