use vfs::parser::ParseError;
use vfs::{IoBackedKind, MetaError, MetaFs, StandaloneKind};

#[test]
fn test() {
    // the deeply nested chain: one remote first hop, six archive hops
    let plan = MetaFs::resolve(
        [
            "http://www.unforgettable.dk/42.zip",
            "libarchive:lib 0.zip",
            "libarchive:book 0.zip",
            "libarchive:chapter 0.zip",
            "libarchive:doc 0.zip",
            "libarchive:page 0.zip",
            "libarchive:0.dll",
        ]
        .join("|")
        .as_bytes(),
    )
    .unwrap();
    assert_eq!(plan.first, StandaloneKind::Http);
    assert_eq!(plan.rest, vec![IoBackedKind::LibArchive; 6]);
    assert_eq!(
        plan.paths,
        vec![
            b"//www.unforgettable.dk/42.zip".to_vec(),
            b"lib 0.zip".to_vec(),
            b"book 0.zip".to_vec(),
            b"chapter 0.zip".to_vec(),
            b"doc 0.zip".to_vec(),
            b"page 0.zip".to_vec(),
            b"0.dll".to_vec(),
        ]
    );
}

#[test]
fn single_hop_plans() {
    let plan = MetaFs::resolve(b"local:/tmp/data").unwrap();
    assert_eq!(plan.first, StandaloneKind::Local);
    assert!(plan.rest.is_empty());
    assert_eq!(plan.paths, vec![b"/tmp/data".to_vec()]);
    let plan = MetaFs::resolve(b"https://host/a.zip").unwrap();
    assert_eq!(plan.first, StandaloneKind::Https);
    // an escaped separator stays in the hop's path
    let plan = MetaFs::resolve(b"local:a\\|b").unwrap();
    assert_eq!(plan.paths, vec![b"a|b".to_vec()]);
}

#[test]
fn unrecognized_protocols() {
    assert_eq!(
        MetaFs::resolve(b"ftp:host/file").unwrap_err(),
        MetaError::UnrecognizedProtocol { hop: 0, name: b"ftp".to_vec() }
    );
    // a stream-backed name cannot stand first
    assert_eq!(
        MetaFs::resolve(b"libarchive:x").unwrap_err(),
        MetaError::UnrecognizedProtocol { hop: 0, name: b"libarchive".to_vec() }
    );
    // and a self-contained name cannot stand later
    assert_eq!(
        MetaFs::resolve(b"local:x|http:y").unwrap_err(),
        MetaError::UnrecognizedProtocol { hop: 1, name: b"http".to_vec() }
    );
    assert_eq!(
        MetaFs::resolve(b"local:x|libarchive:y|zip:z").unwrap_err(),
        MetaError::UnrecognizedProtocol { hop: 2, name: b"zip".to_vec() }
    );
}

#[test]
fn grammar_failures_abort_the_chain() {
    assert_eq!(
        MetaFs::resolve(b"").unwrap_err(),
        MetaError::Grammar(ParseError::Empty)
    );
    assert_eq!(
        MetaFs::resolve(b"nocolon").unwrap_err(),
        MetaError::Grammar(ParseError::MissingColon)
    );
    assert_eq!(
        MetaFs::resolve(b"local:x\\").unwrap_err(),
        MetaError::Grammar(ParseError::UnterminatedEscape)
    );
}
