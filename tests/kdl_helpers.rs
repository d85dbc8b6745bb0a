use skel::config::document::{Document, Entry, Scalar};
use skel::config::kdl_helpers::{first_string_arg, kdl_entry_to_string, variables_from_kdl_document};
use skel::error::{ConfigErrorKind, SkelError, Span};

fn is_config(e: &SkelError, kind: ConfigErrorKind) -> bool {
    match e {
        SkelError::ConfigError(err) => err.kind == kind,
        _ => false,
    }
}

#[test]
fn returns_the_first_arg() {
    let doc = Document::parse("root \"/\"").unwrap();
    let result = first_string_arg(&doc, "root", "default".to_owned());
    assert!(result.is_ok());
    let value = result.unwrap();
    assert_eq!(value, "/".to_owned());
}

#[test]
fn returns_default_for_missing_node() {
    let doc = Document::parse("").unwrap();
    let result = first_string_arg(&doc, "root", "default".to_owned());
    assert!(result.is_ok());
    let value = result.unwrap();
    assert_eq!(value, "default".to_owned());
}

#[test]
fn errors_for_missing_argument() {
    let doc = Document::parse("root").unwrap();
    let result = first_string_arg(&doc, "root", "default".to_owned());
    assert!(result.is_err());
    assert!(is_config(&result.unwrap_err(), ConfigErrorKind::MissingArgument));
}

#[test]
fn errors_for_non_string_argument() {
    let doc = Document::parse("root 1.2").unwrap();
    let result = first_string_arg(&doc, "root", "default".to_owned());
    assert!(result.is_err());
    assert!(is_config(&result.unwrap_err(), ConfigErrorKind::InvalidString));
}

#[test]
fn values_print_as_text() {
    let span = Span { offset: 0, len: 0 };
    let cases = vec![
        (Scalar::Str("s".to_owned()), "s"),
        (Scalar::Int(-42), "-42"),
        (Scalar::Int(1007), "1007"),
        (Scalar::Float("2.5".to_owned()), "2.5"),
        (Scalar::Bool(true), "true"),
        (Scalar::Bool(false), "false"),
        (Scalar::Null, "null"),
    ];
    for (value, text) in cases {
        let entry = Entry { name: None, value, span };
        assert_eq!(kdl_entry_to_string(&entry), text);
    }
}

#[test]
fn parsed_numbers_keep_their_value() {
    let doc = Document::parse("n 0x10 2.3 true null").unwrap();
    let values: Vec<Scalar> = doc.nodes[0].entries.iter().map(|e| e.value.clone()).collect();
    assert_eq!(
        values,
        vec![Scalar::Int(16), Scalar::Float("2.3".to_owned()), Scalar::Bool(true), Scalar::Null]
    );
}

#[test]
fn later_variable_overrides_earlier() {
    let doc = Document::parse("variables {\n a 1\n b \"x\"\n a 2\n}").unwrap();
    let vars = variables_from_kdl_document(&doc).unwrap();
    assert_eq!(vars.len(), 2);
    assert_eq!(vars.get("a"), Some(&Scalar::Int(2)));
    assert_eq!(vars.get("b"), Some(&Scalar::Str("x".to_owned())));
}

#[test]
fn malformed_text_is_a_parse_error() {
    assert!(matches!(Document::parse("1."), Err(SkelError::KdlError(_))));
}

#[test]
fn missing_argument_suggests_one_after_the_name() {
    let doc = Document::parse("root").unwrap();
    match first_string_arg(&doc, "root", "default".to_owned()) {
        Err(SkelError::ConfigError(err)) => {
            assert_eq!(err.config, "root \"ARG\"");
            assert_eq!((err.span.offset, err.span.len), (5, 5));
            assert_eq!(err.label, Some("insert an argument here"));
            assert_eq!(err.help, Some("this node requires an argument"));
        }
        other => panic!("unexpected: {:?}", other),
    }
}

#[test]
fn missing_argument_is_inserted_on_the_offending_node() {
    let doc = Document::parse("variables {\n  é \"x\"\n  foo\n}").unwrap();
    match variables_from_kdl_document(&doc) {
        Err(SkelError::ConfigError(err)) => {
            assert_eq!(err.config, "variables {\n  é \"x\"\n  foo \"ARG\"\n}");
            let reparsed = Document::parse(&err.config).unwrap();
            let node = &reparsed.nodes[0].children.as_ref().unwrap().nodes[1];
            assert_eq!(node.entries[0].value, Scalar::Str("ARG".to_owned()));
            assert_eq!(node.entries[0].span, err.span);
        }
        other => panic!("unexpected: {:?}", other.map(|_| ())),
    }
}
