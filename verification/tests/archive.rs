use vfs::archive::{MODE_DIR, MODE_FILE, MODE_SYMLINK};
use vfs::Fs;
use vfs::{ArchiveEntry, ArchiveError, DataBlock, FileType, LibArchiveFs, Metadata, ReadSeek, SeekFrom};

fn entry(path: &str, mode: u32, blocks: Vec<(u64, Vec<u8>)>) -> ArchiveEntry {
    let size = blocks.last().map(|(o, d)| o + d.len() as u64).unwrap_or(0);
    ArchiveEntry {
        path: path.as_bytes().to_vec(),
        mode,
        size,
        blocks: blocks.into_iter().map(|(offset, data)| DataBlock { offset, data }).collect(),
    }
}

fn read_all(f: &mut vfs::File) -> Vec<u8> {
    let mut out = Vec::new();
    loop {
        let mut buf = vec![0u8; 7];
        let n = f.read(&mut buf);
        if n == 0 {
            return out;
        }
        out.extend_from_slice(&buf[..n]);
    }
}

fn sample_fs() -> LibArchiveFs {
    let b_data = b"Hello world! (B)".to_vec();
    let d_data = b"Hello world! (D)".to_vec();
    LibArchiveFs::from_entries(vec![
        entry("a", MODE_DIR, vec![]),
        entry("b", MODE_FILE, vec![(0, b_data)]),
        entry("c", MODE_SYMLINK, vec![]),
        entry("d", MODE_FILE, vec![(0, d_data)]),
    ])
}

#[test]
fn chain_resolution_end_to_end() {
    let fs = sample_fs();
    let b_data = b"Hello world! (B)".to_vec();
    let d_data = b"Hello world! (D)".to_vec();
    assert_eq!(
        fs.metadata(b"a").unwrap(),
        Metadata { file_type: FileType::Dir, len: 0 }
    );
    assert_eq!(
        fs.metadata(b"b").unwrap(),
        Metadata { file_type: FileType::File, len: b_data.len() as u64 }
    );
    assert_eq!(
        fs.metadata(b"c").unwrap(),
        Metadata { file_type: FileType::SymLink, len: 0 }
    );
    assert_eq!(
        fs.metadata(b"d").unwrap(),
        Metadata { file_type: FileType::File, len: d_data.len() as u64 }
    );
    let mut b = fs.open(b"b").unwrap();
    let mut d = fs.open(b"d").unwrap();
    assert_eq!(read_all(&mut b), b_data);
    assert_eq!(read_all(&mut d), d_data);
}

#[test]
fn metadata_through_capability_trait() {
    let mut fs = sample_fs();
    let m = <LibArchiveFs as Fs>::metadata(&mut fs, b"b").unwrap();
    assert_eq!(m.file_type, FileType::File);
    let f = <LibArchiveFs as Fs>::open(&mut fs, b"a");
    assert!(f.is_err());
}

#[test]
fn archive_errors() {
    let fs = LibArchiveFs::from_entries(vec![
        entry("a", MODE_DIR, vec![]),
        entry("dev", 0o060000, vec![]),
        entry("f", MODE_FILE, vec![(0, vec![1, 2, 3])]),
    ]);
    assert_eq!(fs.metadata(b"missing").unwrap_err(), ArchiveError::NotFound);
    assert_eq!(fs.open(b"missing").err(), Some(ArchiveError::NotFound));
    assert_eq!(
        fs.metadata(b"dev").unwrap_err(),
        ArchiveError::UnsupportedFileType
    );
    assert_eq!(fs.open(b"dev").err(), Some(ArchiveError::UnsupportedFileType));
    assert_eq!(fs.open(b"a").err(), Some(ArchiveError::NotAFile));
}

#[test]
fn entry_paths_compare_normalized() {
    let fs = LibArchiveFs::from_entries(vec![
        entry("dir//sub/./file", MODE_FILE, vec![(0, vec![9])]),
        entry("plain", MODE_FILE, vec![(0, vec![7])]),
    ]);
    // the stored path and the query normalize to the same components
    let m = fs.metadata(b"dir/sub/file").unwrap();
    assert_eq!(m.len, 1);
    let m2 = fs.metadata(b"plain/").unwrap();
    assert_eq!(m2.len, 1);
    // different components stay different
    assert_eq!(fs.metadata(b"dir/sub").unwrap_err(), ArchiveError::NotFound);
    assert_eq!(fs.metadata(b"plai").unwrap_err(), ArchiveError::NotFound);
}

#[test]
fn first_matching_entry_wins() {
    let fs = LibArchiveFs::from_entries(vec![
        entry("twice", MODE_FILE, vec![(0, vec![1])]),
        entry("twice", MODE_FILE, vec![(0, vec![2, 3])]),
    ]);
    assert_eq!(fs.metadata(b"twice").unwrap().len, 1);
}

#[test]
fn sparse_reconstruction() {
    // two real blocks with a sparse gap between them
    let fs = LibArchiveFs::from_entries(vec![entry(
        "sparse",
        MODE_FILE,
        vec![(0, b"ABCD".to_vec()), (10, b"WXYZ".to_vec())],
    )]);
    assert_eq!(fs.metadata(b"sparse").unwrap().len, 14);
    let mut f = fs.open(b"sparse").unwrap();
    // a single read spanning the gap yields the exact zero count in between
    let mut buf = vec![0xAAu8; 14];
    let mut got = Vec::new();
    while got.len() < 14 {
        let n = f.read(&mut buf);
        assert!(n > 0);
        got.extend_from_slice(&buf[..n]);
    }
    assert_eq!(got, b"ABCD\0\0\0\0\0\0WXYZ".to_vec());
    // reads positioned inside the gap see zeros, and real bytes after it
    f.seek(SeekFrom::Start(5)).unwrap();
    let mut small = vec![0xAAu8; 3];
    let n = f.read(&mut small);
    assert_eq!(&small[..n], &[0, 0, 0][..n]);
}

#[test]
fn leading_hole_reads_as_zeros() {
    let fs = LibArchiveFs::from_entries(vec![entry(
        "hole",
        MODE_FILE,
        vec![(3, b"Z".to_vec())],
    )]);
    let mut f = fs.open(b"hole").unwrap();
    assert_eq!(read_all(&mut f), vec![0, 0, 0, b'Z']);
}

#[test]
fn entry_file_seek() {
    let fs = LibArchiveFs::from_entries(vec![entry(
        "f",
        MODE_FILE,
        vec![(0, b"abcdef".to_vec())],
    )]);
    let mut f = fs.open(b"f").unwrap();
    assert_eq!(f.seek(SeekFrom::End(-2)).unwrap(), 4);
    let mut buf = vec![0u8; 4];
    let n = f.read(&mut buf);
    assert_eq!(&buf[..n], b"ef");
    assert_eq!(f.read(&mut buf), 0);
    assert!(f.seek(SeekFrom::Current(-100)).is_err());
}
