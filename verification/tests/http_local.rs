use vfs::http::{metadata_from_content_length, parse_content_length, CachelessHttpFile};
use vfs::{path_to_url, ContentLengthError, FileType, LocalError, LocalFs, Metadata, SeekFrom};

#[test]
fn content_length_parsing() {
    assert_eq!(parse_content_length(b"1256").unwrap(), 1256);
    assert_eq!(parse_content_length(b"0").unwrap(), 0);
    assert_eq!(
        parse_content_length(b"18446744073709551615").unwrap(),
        u64::MAX
    );
    assert_eq!(
        parse_content_length(b"").unwrap_err(),
        ContentLengthError::Empty
    );
    assert_eq!(
        parse_content_length(b"12a4").unwrap_err(),
        ContentLengthError::InvalidDigit
    );
    assert_eq!(
        parse_content_length(b" 12").unwrap_err(),
        ContentLengthError::InvalidDigit
    );
    assert_eq!(
        parse_content_length(b"18446744073709551616").unwrap_err(),
        ContentLengthError::Overflow
    );
    assert_eq!(
        parse_content_length(b"99999999999999999999999").unwrap_err(),
        ContentLengthError::Overflow
    );
    // an overflowing prefix followed by a non-digit is still no digit string
    assert_eq!(
        parse_content_length(b"99999999999999999999999x").unwrap_err(),
        ContentLengthError::InvalidDigit
    );
}

#[test]
fn http_metadata_reports_a_file() {
    assert_eq!(
        metadata_from_content_length(b"1256").unwrap(),
        Metadata { file_type: FileType::File, len: 1256 }
    );
    assert_eq!(
        metadata_from_content_length(b"x").unwrap_err(),
        ContentLengthError::InvalidDigit
    );
}

#[test]
fn url_rendering() {
    assert_eq!(path_to_url(true, "example.com"), "https://example.com");
    assert_eq!(
        path_to_url(false, "example.com/a/b"),
        "http://example.com/a/b"
    );
}

#[test]
fn http_file_offsets_and_ranges() {
    let mut f = CachelessHttpFile::new(1256);
    assert_eq!(f.range_request(64), b"bytes=0-64".to_vec());
    f.advance(64);
    assert_eq!(f.range_request(10), b"bytes=64-74".to_vec());
    assert_eq!(f.seek(SeekFrom::End(0)).unwrap(), 1256);
    assert_eq!(f.seek(SeekFrom::End(-56)).unwrap(), 1200);
    assert_eq!(f.seek(SeekFrom::Current(55)).unwrap(), 1255);
    assert!(f.seek(SeekFrom::Current(-9999)).is_err());
    assert_eq!(f.range_request(1), b"bytes=1255-1256".to_vec());
}

#[test]
fn local_classification() {
    assert_eq!(
        LocalFs::classify(true, false, false, 42).unwrap(),
        Metadata { file_type: FileType::File, len: 42 }
    );
    assert_eq!(
        LocalFs::classify(false, true, false, 0).unwrap(),
        Metadata { file_type: FileType::Dir, len: 0 }
    );
    assert_eq!(
        LocalFs::classify(false, false, true, 0).unwrap(),
        Metadata { file_type: FileType::SymLink, len: 0 }
    );
    assert_eq!(
        LocalFs::classify(false, false, false, 9).unwrap_err(),
        LocalError::UnsupportedFileType
    );
    // the OS's file bit wins over the others, as the passthrough checks in order
    assert_eq!(
        LocalFs::classify(true, true, true, 5).unwrap().file_type,
        FileType::File
    );
    let _ = LocalFs::new();
}
