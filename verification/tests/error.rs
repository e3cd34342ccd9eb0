use std::io;

use oxendb::Error;

#[test]
fn display_includes_kind_and_detail() {
    let err = Error::corruption("page 7 checksum mismatch");
    assert_eq!(
        err.to_string(),
        "data corruption detected: page 7 checksum mismatch"
    );
}

#[test]
fn io_errors_keep_their_source() {
    let err: Error = io::Error::new(io::ErrorKind::NotFound, "missing").into();
    assert!(matches!(err, Error::Io(_)));
    assert!(err.source().is_some());
}

#[test]
fn io_errors_show_their_source() {
    let err: Error = io::Error::new(io::ErrorKind::NotFound, "missing").into();
    assert_eq!(err.to_string(), "I/O error: missing");
    assert_eq!(err.display_with("elsewhere"), "I/O error: elsewhere");
}

#[test]
fn every_kind_has_its_text() {
    let detail = || "why".to_string();
    let cases = [
        (Error::Corruption(detail()), "data corruption detected: why"),
        (Error::UnsupportedFormat(detail()), "unsupported file format: why"),
        (Error::InvalidArgument(detail()), "invalid argument: why"),
        (Error::ResourceExhausted(detail()), "resource exhausted: why"),
        (Error::Poisoned(detail()), "poisoned: why"),
    ];
    for (err, text) in cases {
        assert_eq!(err.to_string(), text);
        assert!(err.source().is_none());
    }
}
