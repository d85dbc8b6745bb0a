use skel::config::document::Scalar;
use skel::config::{ProjectConfig, SkeletonConfig, Task, TaskStep};
use skel::table::Table;
use skel::util::{join, parent_of};
use skel::Skeleton;

#[test]
fn creates_a_default_skeleton() {
    let skeleton = Skeleton::new();
    assert_eq!(skeleton.project, "");
    assert_eq!(skeleton.skeleton, "");
    assert_eq!(skeleton.content.len(), 0);
    assert_eq!(skeleton.variables, Table::new());
    assert_eq!(skeleton.tasks.len(), 0);
}

#[test]
fn creates_a_default_from_missing_config() {
    let config_path = "/tmp/skel-missing";
    let file = join(config_path, "skeleton.kdl");
    let project = ProjectConfig::read_from(&file, None).unwrap();
    let shared = SkeletonConfig::read_from(&join(&project.skeleton, "skeleton.kdl"), None, &vec![]).unwrap();
    let skeleton = Skeleton::from_layers(project, shared);
    assert_eq!(skeleton.project, config_path);
    assert_eq!(skeleton.skeleton, join(config_path, ".skeleton"));
    assert_eq!(skeleton.content.len(), 0);
    assert_eq!(skeleton.variables, Table::new());
    assert_eq!(skeleton.tasks.len(), 0);
}

#[test]
fn project_layer_overrides_shared_layer() {
    let shared_text = "variables {\n color \"red\"\n size 1\n}\ntask \"build\" {\n exec \"make\"\n exec \"strip\"\n}\ntask \"lint\" {\n exec \"clippy\"\n}";
    let project_text = "variables {\n color \"blue\"\n}\ntask \"build\" {\n exec \"cargo\" \"build\"\n}";
    let project = ProjectConfig::read_from("/p/.skeleton.kdl", Some(project_text)).unwrap();
    let shared = SkeletonConfig::read_from("/p/.skeleton/skeleton.kdl", Some(shared_text), &vec![]).unwrap();
    let merged = Skeleton::from_layers(project, shared);
    assert_eq!(merged.variables.get("color"), Some(&Scalar::Str("blue".to_owned())));
    assert_eq!(merged.variables.get("size"), Some(&Scalar::Int(1)));
    assert_eq!(
        merged.tasks.get("build"),
        Some(&Task {
            name: "build".to_owned(),
            steps: vec![TaskStep::Exec("cargo".to_owned(), vec!["build".to_owned()])],
        })
    );
    assert!(merged.tasks.contains_key("lint"));
    assert_eq!(merged.tasks.len(), 2);
    assert_eq!(merged.project, "/p");
    assert_eq!(merged.skeleton, "/p/.skeleton");
}

#[test]
fn paths_join_and_split() {
    assert_eq!(parent_of("/a/b/c"), "/a/b");
    assert_eq!(parent_of("/a"), "/");
    assert_eq!(parent_of("a"), "");
    assert_eq!(join("/a", "b"), "/a/b");
    assert_eq!(join("/a/", "b"), "/a/b");
    assert_eq!(join("/a", "/b"), "/b");
    assert_eq!(join("", "b"), "b");
}

#[test]
fn table_insert_replaces_and_keeps_order() {
    let mut t: Table<i32> = Table::new();
    t.insert("x".to_owned(), 1);
    t.insert("y".to_owned(), 2);
    t.insert("x".to_owned(), 3);
    assert_eq!(t.len(), 2);
    assert_eq!(t.get("x"), Some(&3));
    assert_eq!(t.key_at(0), "x");
    assert_eq!(t.value_at(1), &2);
    assert_eq!(t.get("z"), None);
}

#[test]
fn normalizes_root_path() {
    let from = "/home/user/project";
    let result = skel::util::normalize_path(from, "/test").unwrap();
    assert_eq!(result, "/test");
}

#[test]
fn normalizes_parent_dir() {
    let from = "/home/user/project";
    let result = skel::util::normalize_path(from, "../test").unwrap();
    assert_eq!(result, join(&parent_of(from), "test"));
}

#[test]
fn normalizes_current_dir() {
    let from = "/home/user/project";
    let result = skel::util::normalize_path(from, "./test").unwrap();
    assert_eq!(result, join(from, "test"));
}

#[test]
fn normalize_drops_repeated_slashes_and_climbs() {
    assert_eq!(skel::util::normalize_path("/a/b", "c//d/../e/").unwrap(), "/a/b/c/e");
    assert_eq!(skel::util::normalize_path("rel", "x").unwrap(), "rel/x");
    assert_eq!(skel::util::normalize_path("/", "..").unwrap(), "");
}
