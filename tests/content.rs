use skel::content::{Content, ContentKind};
use skel::error::SkelError;

#[test]
fn from_source() {
    let full_path = "/tmp/root/file.txt";
    let content = Content::from_source(full_path, None).unwrap();
    assert_eq!(content.source, full_path);
    assert_eq!(content.destination, full_path);
    assert_eq!(content.kind, ContentKind::File);
}

#[test]
fn from_source_dot_prefix() {
    let full_path = "/tmp/root/dot_file.txt";
    let content = Content::from_source(full_path, None).unwrap();
    assert_eq!(content.source, full_path);
    assert_eq!(content.destination, "/tmp/root/.file.txt");
    assert_eq!(content.kind, ContentKind::File);
}

#[test]
fn from_source_kind_file() {
    let full_path = "/tmp/root/file.txt";
    let content = Content::from_source(full_path, Some("file")).unwrap();
    assert_eq!(content.source, full_path);
    assert_eq!(content.destination, full_path);
    assert_eq!(content.kind, ContentKind::File);
}

#[test]
fn from_source_kind_template() {
    let full_path = "/tmp/root/file.template";
    let content = Content::from_source(full_path, Some("template")).unwrap();
    assert_eq!(content.source, full_path);
    assert_eq!(content.destination, "/tmp/root/file.template");
    assert_eq!(content.kind, ContentKind::Template);
}

#[test]
fn dot_prefix_is_rewritten_under_a_directory() {
    let dotted = Content::from_source("home/dot_bashrc", None).unwrap();
    assert_eq!(dotted.destination, "home/.bashrc");
    let plain = Content::from_source("home/bashrc", None).unwrap();
    assert_eq!(plain.destination, "home/bashrc");
}

#[test]
fn bare_name_keeps_no_directory() {
    let c = Content::from_source("dot_profile", None).unwrap();
    assert_eq!(c.source, "dot_profile");
    assert_eq!(c.destination, ".profile");
    assert!(c.dependencies.is_empty());
}

#[test]
fn kind_string_is_trimmed_and_case_folded() {
    assert_eq!(ContentKind::from_str_opt(Some("  TeMpLaTe \n")).unwrap(), ContentKind::Template);
    assert_eq!(ContentKind::from_str_opt(Some("FILE")).unwrap(), ContentKind::File);
    assert_eq!(ContentKind::from_str_opt(None).unwrap(), ContentKind::File);
}

#[test]
fn unknown_kind_string_is_an_error() {
    match Content::from_source("a/b", Some("symlink")) {
        Err(SkelError::InvalidContentKind(s)) => assert_eq!(s, "symlink"),
        other => panic!("unexpected: {:?}", other),
    }
}

#[test]
fn normalized_kind_words() {
    assert_eq!(ContentKind::from_normalized("file"), Some(ContentKind::File));
    assert_eq!(ContentKind::from_normalized("template"), Some(ContentKind::Template));
    assert_eq!(ContentKind::from_normalized("File"), None);
}

#[test]
fn duplicate_keeps_every_field() {
    let mut c = Content::from_source("x/y", Some("template")).unwrap();
    c.dependencies.push("z".to_owned());
    assert_eq!(c.duplicate(), c);
}

#[test]
fn file_names_are_detected() {
    assert!(skel::content::path_has_file_name("a/b"));
    assert!(skel::content::path_has_file_name("b"));
    assert!(!skel::content::path_has_file_name(""));
    assert!(!skel::content::path_has_file_name("a/"));
}
