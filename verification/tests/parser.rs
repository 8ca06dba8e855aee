use vfs::parser::{parse, ParseError};

fn pairs(r: Vec<(Vec<u8>, Vec<u8>)>) -> Vec<(String, String)> {
    r.into_iter()
        .map(|(p, x)| {
            (
                String::from_utf8(p).unwrap(),
                String::from_utf8(x).unwrap(),
            )
        })
        .collect()
}

#[test]
fn grammar_round_trip() {
    // the five meta-path grammar scenarios
    let two = pairs(parse(b"a:x|b:y").unwrap());
    assert_eq!(
        two,
        vec![("a".to_string(), "x".to_string()), ("b".to_string(), "y".to_string())]
    );
    let escaped = pairs(parse(b"a:x\\|y").unwrap());
    assert_eq!(escaped, vec![("a".to_string(), "x|y".to_string())]);
    let single = pairs(parse(b"a:x").unwrap());
    assert_eq!(single, vec![("a".to_string(), "x".to_string())]);
    assert!(parse(b"x").is_err());
    assert!(parse(b"").is_err());
}

#[test]
fn escape_rules() {
    // a doubled escape byte resolves to one literal escape byte
    let r = pairs(parse(b"a:x\\\\y").unwrap());
    assert_eq!(r, vec![("a".to_string(), "x\\y".to_string())]);
    // an escape at the very end, or of an ordinary byte, is refused
    assert_eq!(parse(b"a:x\\").unwrap_err(), ParseError::UnterminatedEscape);
    assert_eq!(parse(b"a:x\\z").unwrap_err(), ParseError::InvalidEscape);
}

#[test]
fn grammar_errors() {
    assert_eq!(parse(b"").unwrap_err(), ParseError::Empty);
    assert_eq!(parse(b"x").unwrap_err(), ParseError::MissingColon);
    // a trailing separator starts a component that never finds its colon
    assert_eq!(parse(b"a:x|").unwrap_err(), ParseError::MissingColon);
}

#[test]
fn protocol_and_path_edge_cases() {
    // a path may contain the protocol separator
    let r = pairs(parse(b"https://host/file").unwrap());
    assert_eq!(r, vec![("https".to_string(), "//host/file".to_string())]);
    // the protocol runs to the first colon, even across a pipe
    let r = pairs(parse(b"a:x|b|c:y").unwrap());
    assert_eq!(
        r,
        vec![("a".to_string(), "x".to_string()), ("b|c".to_string(), "y".to_string())]
    );
    // empty protocol and empty path parse; recognition happens later
    let r = pairs(parse(b":p|q:").unwrap());
    assert_eq!(
        r,
        vec![("".to_string(), "p".to_string()), ("q".to_string(), "".to_string())]
    );
}
