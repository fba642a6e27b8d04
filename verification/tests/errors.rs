use garage_sale_gen::error::{source_window, ErrorCollector, ErrorKind, ParserError};

#[test]
fn messages_of_each_kind() {
    assert_eq!(
        ParserError::file_not_found("a.md".to_string(), "No such file".to_string()).message(),
        "File not found: a.md (No such file)"
    );
    assert_eq!(ParserError::invalid_utf8("b.md".to_string()).message(), "File contains invalid UTF-8: b.md");
    assert_eq!(
        ParserError::invalid_front_matter("c.md".to_string(), "bad yaml".to_string(), "---\n".to_string(), (0, 4))
            .message(),
        "Invalid front matter: bad yaml"
    );
    assert_eq!(
        ParserError::path_not_under_base("/a/x.md".to_string(), "/b".to_string()).message(),
        "Path \"/a/x.md\" is not under base directory \"/b\""
    );
    assert_eq!(
        ParserError::invalid_child_reference("p".to_string(), "r".to_string(), "why".to_string()).message(),
        "Invalid child reference 'r' in p: why"
    );
    assert_eq!(
        ParserError::missing_child_reference("PageId(\"a\")".to_string(), "r".to_string()).message(),
        "Missing child reference 'r' in page PageId(\"a\")"
    );
    assert_eq!(ParserError::new("boom".to_string()).message(), "boom");
}

#[test]
fn messages_of_kinds_built_directly() {
    let e = |kind: ErrorKind| ParserError { kind, file: None, span: None, source_content: None };
    assert_eq!(
        e(ErrorKind::CircularDependency { chain: vec!["a".to_string(), "b".to_string(), "a".to_string()] }).message(),
        "Circular dependency detected: a -> b -> a"
    );
    assert_eq!(e(ErrorKind::CircularDependency { chain: Vec::new() }).message(), "Circular dependency detected: ");
    assert_eq!(
        e(ErrorKind::PageNotFound { id: "x".to_string(), context: "nav".to_string() }).message(),
        "Page not found: x (nav)"
    );
    assert_eq!(
        e(ErrorKind::MissingRequiredField { field: "title".to_string() }).message(),
        "Missing required field: title"
    );
    assert_eq!(e(ErrorKind::NoParentDir { path: "".to_string() }).message(), "Path has no parent directory: \"\"");
    assert_eq!(e(ErrorKind::NoFileStem { path: "..".to_string() }).message(), "Path has no file stem: ..");
}

#[test]
fn constructors_record_where() {
    let e = ParserError::invalid_front_matter("c.md".to_string(), "m".to_string(), "src".to_string(), (0, 3));
    assert_eq!(e.file, Some("c.md".to_string()));
    assert_eq!(e.span, Some((0, 3)));
    assert_eq!(e.source_content, Some("src".to_string()));
    let e = ParserError::file_not_found("d.md".to_string(), "gone".to_string());
    assert_eq!(e.file, Some("d.md".to_string()));
    assert!(e.span.is_none());
    let e = ParserError::new("m".to_string());
    assert!(e.file.is_none());
    assert!(matches!(e.kind, ErrorKind::Other { .. }));
}

#[test]
fn collector_counts_and_reports() {
    let mut c = ErrorCollector::new();
    assert!(!c.has_errors());
    assert_eq!(c.check(), Ok(()));
    c.add_warning(ParserError::new("w".to_string()));
    assert!(!c.has_errors());
    assert_eq!(c.warning_count(), 1);
    c.add_error(ParserError::new("e1".to_string()));
    c.add_error(ParserError::new("e2".to_string()));
    assert!(c.has_errors());
    assert_eq!(c.error_count(), 2);
    assert_eq!(c.error_at(1).message(), "e2");
    assert_eq!(c.warning_at(0).message(), "w");
    assert_eq!(c.check(), Err("2 error(s) occurred".to_string()));
    assert_eq!(c.into_result(), Err("2 error(s) occurred".to_string()));
}

#[test]
fn collector_with_warnings_only_succeeds() {
    let mut c = ErrorCollector::new();
    c.add_warning(ParserError::new("w".to_string()));
    assert_eq!(c.into_result(), Ok(()));
}

#[test]
fn source_window_of_a_span() {
    let src = "---\ntitle: [oops\n---\nbody\nmore";
    // a span at the start: line 0, shown from line 0, the lines it covers and two more
    assert_eq!(source_window(src, (0, 20)), (0, 0, 5));
    // a span starting on the third line
    assert_eq!(source_window(src, (17, 22)), (2, 1, 4));
    // an end beyond the text is cut to it
    assert_eq!(source_window(src, (4, 1000)), (1, 0, 6));
    assert_eq!(source_window("", (0, 0)), (0, 0, 3));
    // non-ASCII text, span on character boundaries
    assert_eq!(source_window("é\nü\n", (3, 5)), (1, 0, 3));
    assert_eq!(source_window("é\nü\n", (3, 6)), (1, 0, 4));
    // an end before the start on the same line shows the start's window
    assert_eq!(source_window(src, (10, 5)), (1, 0, 3));
}

#[test]
fn paths_in_messages_are_shown_as_paths() {
    // paths are shown in their Debug form
    assert_eq!(
        ParserError::path_not_under_base("/it's/x.md".to_string(), "/b".to_string()).message(),
        "Path \"/it's/x.md\" is not under base directory \"/b\""
    );
    assert_eq!(
        ParserError { kind: ErrorKind::NoParentDir { path: "it's".to_string() }, file: None, span: None, source_content: None }
            .message(),
        "Path has no parent directory: \"it's\""
    );
}
