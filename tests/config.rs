use skel::config::document::{Document, Scalar};
use skel::config::fs_helpers::{is_scanned_name, sort_tree};
use skel::config::{ProjectConfig, SkeletonConfig, Task, TaskStep};
use skel::content::Content;
use skel::error::{ConfigErrorKind, SkelError};
use skel::table::Table;

fn is_config(e: &SkelError, kind: ConfigErrorKind) -> bool {
    match e {
        SkelError::ConfigError(err) => err.kind == kind,
        _ => false,
    }
}

fn env(pairs: &[(&str, &str)]) -> TaskStep {
    let mut t: Table<String> = Table::new();
    for (k, v) in pairs {
        t.insert((*k).to_owned(), (*v).to_owned());
    }
    TaskStep::Env(t)
}

fn expected_variables() -> Table<Scalar> {
    let mut t: Table<Scalar> = Table::new();
    t.insert("foo".to_owned(), Scalar::Str("bar".to_owned()));
    t.insert("bar".to_owned(), Scalar::Float("1.2".to_owned()));
    t.insert("baz".to_owned(), Scalar::Int(3));
    t.insert("oops".to_owned(), Scalar::Null);
    t.insert("error".to_owned(), Scalar::Bool(false));
    t
}

fn expected_test_task() -> Task {
    Task {
        name: "test".to_owned(),
        steps: vec![
            env(&[("foo", "bar")]),
            TaskStep::Exec("echo".to_owned(), vec!["hello world".to_owned()]),
            TaskStep::Task("subtask".to_owned(), vec!["args".to_owned()]),
        ],
    }
}

fn strings(v: &[&str]) -> Vec<String> {
    v.iter().map(|s| (*s).to_owned()).collect()
}

#[test]
fn can_create_a_task() {
    let doc = Document::parse(
        r#"
                env bool=true int=1 float=2.3 str="string" nil=null
                exec "command" "arg1" "arg2"
                env bool=false int=2 float=3.4 str="different_string"
                task "task" "arg1" "arg2"
            "#,
    )
    .unwrap();

    let task = Task::from_kdl_document(&doc, "test".to_owned()).unwrap();
    assert_eq!(task.name, "test".to_owned());
    assert_eq!(task.steps.len(), 4);

    let first_env = env(&[("bool", "true"), ("int", "1"), ("float", "2.3"), ("str", "string"), ("nil", "null")]);
    assert_eq!(task.steps[0], first_env);

    assert_eq!(task.steps[1], TaskStep::Exec("command".to_owned(), strings(&["arg1", "arg2"])));

    let second_env = env(&[("bool", "false"), ("int", "2"), ("float", "3.4"), ("str", "different_string")]);
    assert_eq!(task.steps[2], second_env);

    assert_eq!(task.steps[3], TaskStep::Task("task".to_owned(), strings(&["arg1", "arg2"])));
}

#[test]
fn deploy_task_has_three_steps() {
    let doc = Document::parse("task \"deploy\" {\n env region=\"us\"\n exec \"ssh\" \"host\"\n task \"cleanup\"\n}").unwrap();
    let children = doc.nodes[0].children.as_ref().unwrap();
    let task = Task::from_kdl_document(children, "deploy".to_owned()).unwrap();
    assert_eq!(task.name, "deploy");
    assert_eq!(
        task.steps,
        vec![
            env(&[("region", "us")]),
            TaskStep::Exec("ssh".to_owned(), strings(&["host"])),
            TaskStep::Task("cleanup".to_owned(), vec![]),
        ]
    );
}

#[test]
fn exec_without_command_is_an_error() {
    let doc = Document::parse("exec key=1").unwrap();
    let err = Task::from_kdl_document(&doc, "t".to_owned()).unwrap_err();
    assert!(is_config(&err, ConfigErrorKind::MissingArgument));
}

#[test]
fn project_wraps_kdl_errors() {
    let project_config = ProjectConfig::read_from("/tmp/project/.skeleton.kdl", Some("1."));
    assert!(project_config.is_err());
    assert!(matches!(project_config.unwrap_err(), SkelError::KdlError(_)));
}

#[test]
fn defaults() {
    let result = ProjectConfig::read_from("/A/PATH/THAT/DOES/NOT/EXIST", None);
    assert!(result.is_ok());
    let config = result.unwrap();
    assert_eq!(config.is_default, true);
    assert_eq!(config.root, "/A/PATH/THAT/DOES/NOT");
    assert_eq!(config.skeleton, "/A/PATH/THAT/DOES/NOT/.skeleton");
    assert_eq!(config.variables, Table::new());
    assert_eq!(config.tasks.len(), 0);
}

#[test]
fn reads_config_file() {
    let text = r#"root "/"
            skeleton "/etc/skeleton"
            variables {
              foo "bar"
              bar 1.2
              baz 3
              oops null
              error false
            }
            task "test" {
              env foo="bar"
              exec "echo" "hello world"
              task "subtask" "args"
            }"#;
    let result = ProjectConfig::read_from("/tmp/project/.skeleton.kdl", Some(text));
    assert!(result.is_ok());
    let config = result.unwrap();
    assert_eq!(config.is_default, false);
    assert_eq!(config.root, "/");
    assert_eq!(config.skeleton, "/etc/skeleton");
    assert_eq!(config.variables, expected_variables());
    assert_eq!(config.tasks.len(), 1);
    assert!(config.tasks.contains_key("test"));
    assert_eq!(config.tasks.get("test").unwrap(), &expected_test_task());
}

#[test]
fn project_errors_when_variable_is_missing_value() {
    let result = ProjectConfig::read_from("/tmp/p/.skeleton.kdl", Some("variables {\n                foo\n            }"));
    assert!(result.is_err());
    assert!(is_config(&result.unwrap_err(), ConfigErrorKind::MissingArgument));
}

#[test]
fn skeleton_wraps_kdl_errors() {
    let skeleton_config = SkeletonConfig::read_from("/tmp/s/skeleton.kdl", Some("1."), &vec![]);
    assert!(skeleton_config.is_err());
    assert!(matches!(skeleton_config.unwrap_err(), SkelError::KdlError(_)));
}

#[test]
fn reads_config() {
    let text = r#"variables {
                foo "bar"
                bar 1.2
                baz 3
                oops null
                error false
            }
            task "test" {
              env foo="bar"
              exec "echo" "hello world"
              task "subtask" "args"
            }"#;
    let result = SkeletonConfig::read_from("/tmp/s/skeleton.kdl", Some(text), &vec![]);
    assert!(result.is_ok());
    let config = result.unwrap();
    assert_eq!(config.is_default, false);
    assert_eq!(config.variables, expected_variables());
    assert_eq!(config.tasks.len(), 1);
    assert!(config.tasks.contains_key("test"));
    assert_eq!(config.tasks.get("test").unwrap(), &expected_test_task());
}

#[test]
fn skeleton_errors_when_variable_is_missing_value() {
    let result = SkeletonConfig::read_from("/tmp/s/skeleton.kdl", Some("variables {\n                foo\n            }"), &vec![]);
    assert!(result.is_err());
    assert!(is_config(&result.unwrap_err(), ConfigErrorKind::MissingArgument));
}

#[test]
fn errors_when_content_is_missing_source() {
    let result = SkeletonConfig::read_from("/tmp/s/skeleton.kdl", Some("\n                content\n            "), &vec![]);
    assert!(result.is_err());
    assert!(is_config(&result.unwrap_err(), ConfigErrorKind::MissingArgument));
}

#[test]
fn errors_when_content_has_invalid_value() {
    let result = SkeletonConfig::read_from("/tmp/s/skeleton.kdl", Some("\n                content false\n            "), &vec![]);
    assert!(result.is_err());
    assert!(is_config(&result.unwrap_err(), ConfigErrorKind::InvalidString));
}

#[test]
fn errors_when_source_does_not_exist() {
    let result = SkeletonConfig::read_from("/tmp/s/skeleton.kdl", Some("\n                content \"missing/file\"\n            "), &vec![]);
    assert!(result.is_err());
    assert!(is_config(&result.unwrap_err(), ConfigErrorKind::MissingSource));
}

#[test]
fn reads_implicit_content() {
    let result = SkeletonConfig::read_from("/tmp/s/skeleton.kdl", None, &strings(&["one"]));
    assert!(result.is_ok());
    let skeleton = result.unwrap();
    assert!(skeleton.is_default);
    assert_eq!(skeleton.root, "/tmp/s/content");
    let mut content_map: Table<Content> = Table::new();
    content_map.insert("one".to_owned(), Content::from_source("one", None).unwrap());
    assert_eq!(skeleton.content, content_map);
    assert_eq!(skeleton.variables, Table::new());
}

#[test]
fn allows_overriding_destination() {
    let text = r#"
                content "one" {
                    destination "two"
                }
            "#;
    let result = SkeletonConfig::read_from("/tmp/s/skeleton.kdl", Some(text), &strings(&["one"]));
    assert!(result.is_ok());
    let skeleton = result.unwrap();
    assert_eq!(skeleton.is_default, false);
    assert_eq!(skeleton.root, "/tmp/s/content");
    let mut content_map: Table<Content> = Table::new();
    let mut content = Content::from_source("one", None).unwrap();
    content.destination = "two".to_owned();
    content_map.insert("one".to_owned(), content);
    assert_eq!(skeleton.content, content_map);
    assert_eq!(skeleton.variables, Table::new());
}

#[test]
fn allows_declaring_dependencies() {
    let text = r#"
            content "one" {
                depends_on "two" "three"
            }
            content "two" {
                depends_on "three"
            }
            "#;
    let tree = sort_tree(&strings(&["one", "two", "three"]));
    let result = SkeletonConfig::read_from("/tmp/s/skeleton.kdl", Some(text), &tree);
    assert!(result.is_ok());
    let skeleton = result.unwrap();
    assert_eq!(skeleton.is_default, false);
    assert_eq!(skeleton.root, "/tmp/s/content");

    let mut content_one = Content::from_source("one", None).unwrap();
    content_one.dependencies.push("two".to_owned());
    content_one.dependencies.push("three".to_owned());
    let mut content_two = Content::from_source("two", None).unwrap();
    content_two.dependencies.push("three".to_owned());
    let content_three = Content::from_source("three", None).unwrap();
    assert_eq!(skeleton.content.len(), 3);
    assert_eq!(skeleton.content.get("one"), Some(&content_one));
    assert_eq!(skeleton.content.get("two"), Some(&content_two));
    assert_eq!(skeleton.content.get("three"), Some(&content_three));

    let steps = skeleton.calculate().unwrap();
    assert_eq!(steps.len(), 3);
    assert_eq!(steps[0].source, "three");
    assert_eq!(steps[1].source, "two");
    assert_eq!(steps[2].source, "one");
}

#[test]
fn ignores_non_destination_children() {
    let text = r#"
                content "one" {
                    not_destination "two"
                }
            "#;
    let result = SkeletonConfig::read_from("/tmp/s/skeleton.kdl", Some(text), &strings(&["one"]));
    assert!(result.is_ok());
    let skeleton = result.unwrap();
    assert_eq!(skeleton.is_default, false);
    assert_eq!(skeleton.root, "/tmp/s/content");
    let mut content_map: Table<Content> = Table::new();
    content_map.insert("one".to_owned(), Content::from_source("one", None).unwrap());
    assert_eq!(skeleton.content, content_map);
    assert_eq!(skeleton.variables, Table::new());
}

#[test]
fn returns_relative_paths_recursively() {
    let names = [".hidden", "node_modules", "one.txt", "subdirectory"];
    let kept: Vec<&str> = names.iter().copied().filter(|n| is_scanned_name(n)).collect();
    assert_eq!(kept, vec!["one.txt", "subdirectory"]);
    let tree = sort_tree(&strings(&[
        "subdirectory/two.txt",
        "subdirectory/subsubdirectory/four.txt",
        "one.txt",
        "subdirectory/three.txt",
    ]));
    assert_eq!(
        tree,
        strings(&[
            "one.txt",
            "subdirectory/three.txt",
            "subdirectory/two.txt",
            "subdirectory/subsubdirectory/four.txt",
        ])
    );
}

#[test]
fn chained_dependencies_come_first() {
    let text = "content \"a\" {\n depends_on \"b\" \"c\"\n}\ncontent \"b\" {\n depends_on \"c\"\n}";
    let skeleton = SkeletonConfig::read_from("/s/skeleton.kdl", Some(text), &strings(&["a", "b", "c"])).unwrap();
    let order: Vec<String> = skeleton.calculate().unwrap().into_iter().map(|c| c.source).collect();
    assert_eq!(order, strings(&["c", "b", "a"]));
}

#[test]
fn unconstrained_entries_follow_directory_then_name() {
    let skeleton = SkeletonConfig::read_from("/s/skeleton.kdl", None, &strings(&["b/x", "a", "b/a", "c"])).unwrap();
    let order: Vec<String> = skeleton.calculate().unwrap().into_iter().map(|c| c.source).collect();
    assert_eq!(order, strings(&["a", "c", "b/a", "b/x"]));
}

#[test]
fn mutual_dependency_is_a_cycle() {
    let text = "content \"a\" {\n depends_on \"b\"\n}\ncontent \"b\" {\n depends_on \"a\"\n}";
    let skeleton = SkeletonConfig::read_from("/s/skeleton.kdl", Some(text), &strings(&["a", "b", "c"])).unwrap();
    match skeleton.calculate() {
        Err(SkelError::CycleDetected(mut left)) => {
            left.sort();
            assert_eq!(left, strings(&["a", "b"]));
        },
        other => panic!("unexpected: {:?}", other),
    }
}

#[test]
fn self_dependency_is_a_cycle() {
    let text = "content \"a\" {\n depends_on \"a\"\n}";
    let skeleton = SkeletonConfig::read_from("/s/skeleton.kdl", Some(text), &strings(&["a"])).unwrap();
    assert!(matches!(skeleton.calculate(), Err(SkelError::CycleDetected(_))));
}

#[test]
fn unknown_dependency_is_refused_at_load() {
    let text = "content \"a\" {\n depends_on \"nope\"\n}";
    match SkeletonConfig::read_from("/s/skeleton.kdl", Some(text), &strings(&["a"])) {
        Err(SkelError::UnknownDependency { from, to }) => {
            assert_eq!(from, "a");
            assert_eq!(to, "nope");
        },
        other => panic!("unexpected: {:?}", other.map(|_| ())),
    }
}

#[test]
fn non_string_dependency_is_refused() {
    let text = "content \"a\" {\n depends_on 3\n}";
    let err = SkeletonConfig::read_from("/s/skeleton.kdl", Some(text), &strings(&["a"])).unwrap_err();
    assert!(is_config(&err, ConfigErrorKind::InvalidString));
}

#[test]
fn content_root_is_beside_the_configuration() {
    assert_eq!(SkeletonConfig::content_root("/srv/skel/skeleton.kdl"), "/srv/skel/content");
}

#[test]
fn calculating_twice_gives_the_same_order() {
    let text = "content \"x/b\" {\n depends_on \"y\"\n}";
    let skeleton = SkeletonConfig::read_from("/s/skeleton.kdl", Some(text), &strings(&["x/b", "y", "x/a", "z"])).unwrap();
    let first: Vec<String> = skeleton.calculate().unwrap().into_iter().map(|c| c.source).collect();
    let second: Vec<String> = skeleton.calculate().unwrap().into_iter().map(|c| c.source).collect();
    assert_eq!(first, second);
    assert_eq!(first, strings(&["y", "z", "x/a", "x/b"]));
}
