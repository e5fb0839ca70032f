use utility_belt::parse::open_error_result;
use utility_belt::parse::parse_str;
use utility_belt::parse::FileError;
use utility_belt::parse::Parser;

fn invalid_ini() -> &'static str {
    "; This file is full of mistakes\n\nsome variable\n\n= some value\n\n[Bad Group\n\n# Bad comment\n"
}

#[test]
fn collect_all_parse_errors() {
    let conf = parse_str(invalid_ini(), "tests/invalid.ini");
    let errs = conf.unwrap_err();
    let mut errs = errs.iter();

    match errs.next() {
        Some(FileError::Parse { file, msg, data, line }) => {
            assert!(file.as_str() == "tests/invalid.ini");
            assert!(msg.contains("variable assignment"));
            assert_eq!(data, "some variable");
            assert_eq!(*line, 3);
        },
        _ => panic!("Expected a FileError::Parse"),
    }

    match errs.next() {
        Some(FileError::Parse { file, msg, data, line }) => {
            assert!(file.as_str() == "tests/invalid.ini");
            assert!(msg.contains("variable name"));
            assert_eq!(data, "= some value");
            assert_eq!(*line, 5);
        },
        _ => panic!("Expected a FileError::Parse"),
    }

    match errs.next() {
        Some(FileError::Parse { file, msg, data, line }) => {
            assert!(file.as_str() == "tests/invalid.ini");
            assert!(msg.contains("closing bracket"));
            assert_eq!(data, "[Bad Group");
            assert_eq!(*line, 7);
        },
        _ => panic!("Expected a FileError::Parse"),
    }

    match errs.next() {
        Some(FileError::Parse { file, msg, data, line }) => {
            assert!(file.as_str() == "tests/invalid.ini");
            assert!(msg.contains("variable assignment"));
            assert_eq!(data, "# Bad comment");
            assert_eq!(*line, 9);
        },
        _ => panic!("Expected a FileError::Parse"),
    }

    assert!(errs.next().is_none());
}

#[test]
fn nonexistent_file_is_err() {
    let conf = open_error_result("nopath/notexist.conf", "NotFound");
    assert!(conf.is_err());
}

#[test]
fn open_failure_is_exactly_one_io_error() {
    let errs = open_error_result("nopath/notexist.conf", "NotFound").unwrap_err();

    assert_eq!(errs.len(), 1);
    match &errs[0] {
        FileError::IO((file, kind)) => {
            assert_eq!(file, "nopath/notexist.conf");
            assert_eq!(kind, "NotFound");
        },
        _ => panic!("Expected a FileError::IO"),
    }
}

#[test]
fn missing_closing_bracket_is_one_error() {
    let errs = parse_str("\n; note\n[Bad Group\n", "b.ini").unwrap_err();

    assert_eq!(errs.len(), 1);
    match &errs[0] {
        FileError::Parse { file, msg, data, line } => {
            assert_eq!(file, "b.ini");
            assert_eq!(msg, "Missing closing bracket for group name");
            assert_eq!(data, "[Bad Group");
            assert_eq!(*line, 3);
        },
        _ => panic!("Expected a FileError::Parse"),
    }
}

#[test]
fn empty_variable_name_is_one_error() {
    let errs = parse_str("= some value\n", "v.ini").unwrap_err();

    assert_eq!(errs.len(), 1);
    match &errs[0] {
        FileError::Parse { msg, data, line, .. } => {
            assert_eq!(msg, "Assignment requires a variable name");
            assert_eq!(data, "= some value");
            assert_eq!(*line, 1);
        },
        _ => panic!("Expected a FileError::Parse"),
    }
}

#[test]
fn unclassifiable_line_is_one_error() {
    let errs = parse_str("# Bad comment\n", "c.ini").unwrap_err();

    assert_eq!(errs.len(), 1);
    match &errs[0] {
        FileError::Parse { msg, data, line, .. } => {
            assert_eq!(msg, "Expected a variable assignment");
            assert_eq!(data, "# Bad comment");
            assert_eq!(*line, 1);
        },
        _ => panic!("Expected a FileError::Parse"),
    }
}

#[test]
fn errors_discard_the_partial_store() {
    let result = parse_str("good = value\n[Bad Group\n", "d.ini");

    assert!(result.is_err());
    assert_eq!(result.unwrap_err().len(), 1);
}

#[test]
fn incremental_parser_records_read_failures() {
    let mut p = Parser::new("s.ini");
    p.feed_line("[G]");
    p.feed_line("a = 1");
    p.note_read_error("Interrupted");
    p.feed_line("b = 2");

    let errs = p.finish().unwrap_err();
    assert_eq!(errs.len(), 1);
    match &errs[0] {
        FileError::IO((file, kind)) => {
            assert_eq!(file, "s.ini");
            assert_eq!(kind, "Interrupted");
        },
        _ => panic!("Expected a FileError::IO"),
    }
}

#[test]
fn incremental_parser_builds_the_store() {
    let mut p = Parser::new("s.ini");
    p.feed_line("  a = 1  ");
    p.feed_line("[G]");
    p.feed_line("b = 2");

    let conf = p.finish().unwrap();
    assert_eq!(conf.get_default("a"), Some(&"1".to_string()));
    assert_eq!(conf.get("G", "b"), Some(&"2".to_string()));
}
