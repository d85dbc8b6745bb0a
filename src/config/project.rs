use vstd::prelude::*;

use crate::config::document::{kdl_accepts, kdl_tree, Document, Scalar};
use crate::config::kdl_helpers::{first_string_arg, first_string_arg_of, variables_from_kdl_document, variables_of};
use crate::config::task::{task_views, tasks_from_document, tasks_of, Task};
use crate::error::{ConfigErrorKind, SkelError};
use crate::table::Table;
use crate::util::{join, join_path, parent_of, parent_path};

verus! {

/// The per-project layer: where the project and its skeleton are, and the
/// variables and tasks that override the skeleton's.
#[derive(Debug)]
pub struct ProjectConfig {
    pub root: String,
    pub skeleton: String,
    pub variables: Table<Scalar>,
    pub tasks: Table<Task>,
    /// The configuration file was absent and defaults were used.
    pub is_default: bool,
}

/// What loading the per-project layer from a document at `path` gives.
pub open spec fn project_loaded(
    path: Seq<char>,
    doc: Document,
    is_default: bool,
    r: Result<ProjectConfig, SkelError>,
) -> bool {
    match first_string_arg_of(doc, "root"@, parent_path(path)) {
        Err(k) => r matches Err(e) && e.is_config(k),
        Ok(root) => match first_string_arg_of(doc, "skeleton"@, join_path(root, ".skeleton"@)) {
            Err(k) => r matches Err(e) && e.is_config(k),
            Ok(skeleton) => match variables_of(doc) {
                Err(_) => r matches Err(e) && e.is_config(ConfigErrorKind::MissingArgument),
                Ok(vars) => match tasks_of(doc.nodes@) {
                    Err(k) => r matches Err(e) && e.is_config(k),
                    Ok(tasks) => r matches Ok(c) && {
                        &&& c.root@ == root
                        &&& c.skeleton@ == skeleton
                        &&& c.variables@ == vars
                        &&& task_views(c.tasks@) == tasks
                        &&& c.is_default == is_default
                    },
                },
            },
        },
    }
}

impl ProjectConfig {
    /// The layer a parsed document at `path` describes.
    pub fn from_document(path: &str, doc: &Document, is_default: bool) -> (r: Result<
        ProjectConfig,
        SkelError,
    >)
        ensures
            project_loaded(path@, *doc, is_default, r),
    {
        let root = match first_string_arg(doc, "root", parent_of(path)) {
            Ok(s) => s,
            Err(e) => {
                return Err(e);
            },
        };
        let skeleton = match first_string_arg(doc, "skeleton", join(root.as_str(), ".skeleton")) {
            Ok(s) => s,
            Err(e) => {
                return Err(e);
            },
        };
        let variables = match variables_from_kdl_document(doc) {
            Ok(v) => v,
            Err(e) => {
                return Err(e);
            },
        };
        let tasks = match tasks_from_document(doc) {
            Ok(t) => t,
            Err(e) => {
                return Err(e);
            },
        };
        Ok(ProjectConfig { root, skeleton, variables, tasks, is_default })
    }

    /// The layer that the configuration file at `path` describes; `config`
    /// is the file's text, or `None` where there is no such file.
    pub fn read_from(path: &str, config: Option<&str>) -> (r: Result<ProjectConfig, SkelError>)
        ensures
            config is None ==> (r matches Ok(c) && {
                &&& c.is_default
                &&& c.root@ == parent_path(path@)
                &&& c.skeleton@ == join_path(parent_path(path@), ".skeleton"@)
                &&& c.variables@ == Map::<Seq<char>, Scalar>::empty()
                &&& c.tasks@ == Map::<Seq<char>, Task>::empty()
            }),
            config is Some ==> (r matches Ok(c) ==> !c.is_default),
            config is Some && !kdl_accepts(config->Some_0@) ==> r matches Err(SkelError::KdlError(_)),
            config is Some && kdl_accepts(config->Some_0@) ==> project_loaded(
                path@,
                kdl_tree(config->Some_0@),
                false,
                r,
            ),
    {
        match config {
            None => {
                let doc = Document::empty("");
                let r = ProjectConfig::from_document(path, &doc, true);
                proof {
                    assert(doc.nodes@ =~= Seq::empty());
                    assert(task_views(Map::<Seq<char>, Task>::empty()) =~= Map::empty());
                }
                r
            },
            Some(text) => match Document::parse(text) {
                Ok(doc) => {
                    let r = ProjectConfig::from_document(path, &doc, false);
                    r
                },
                Err(e) => Err(e),
            },
        }
    }
}

} // verus!
