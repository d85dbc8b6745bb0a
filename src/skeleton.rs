use vstd::prelude::*;

use crate::config::document::Scalar;
use crate::config::project::ProjectConfig;
use crate::config::skeleton::SkeletonConfig;
use crate::config::task::Task;
use crate::content::Content;
use crate::table::Table;

verus! {

/// The plan for a project: where it and its skeleton are, the skeleton's
/// content, and the variables and tasks of both layers merged.
#[derive(Debug)]
pub struct Skeleton {
    pub project: String,
    pub skeleton: String,
    pub content: Table<Content>,
    pub variables: Table<Scalar>,
    pub tasks: Table<Task>,
}

impl Skeleton {
    /// A plan with empty paths and nothing in it.
    pub fn new() -> (r: Skeleton)
        ensures
            r.project@.len() == 0,
            r.skeleton@.len() == 0,
            r.content@ == Map::<Seq<char>, Content>::empty(),
            r.variables@ == Map::<Seq<char>, Scalar>::empty(),
            r.tasks@ == Map::<Seq<char>, Task>::empty(),
    {
        Skeleton {
            project: String::new(),
            skeleton: String::new(),
            content: Table::new(),
            variables: Table::new(),
            tasks: Table::new(),
        }
    }

    /// The per-project layer merged over the shared one: the project's
    /// variables and tasks replace the shared ones of the same name, whole;
    /// content comes from the shared layer alone.
    pub fn from_layers(project: ProjectConfig, skeleton: SkeletonConfig) -> (r: Skeleton)
        ensures
            r.project@ == project.root@,
            r.skeleton@ == project.skeleton@,
            r.content@ == skeleton.content@,
            r.content.keys_seq() == skeleton.content.keys_seq(),
            r.variables@ == skeleton.variables@.union_prefer_right(project.variables@),
            r.tasks@ == skeleton.tasks@.union_prefer_right(project.tasks@),
    {
        let ProjectConfig { root, skeleton: skeleton_path, variables: project_variables, tasks: project_tasks, .. } = project;
        let SkeletonConfig { content, tasks, variables, .. } = skeleton;
        let mut variables = variables;
        variables.extend(project_variables);
        let mut tasks = tasks;
        tasks.extend(project_tasks);
        Skeleton { project: root, skeleton: skeleton_path, content, variables, tasks }
    }
}

/// Whatever the shared layer binds a name to, a binding of the project layer
/// wins in the merge; a name that only the shared layer binds keeps its value.
pub proof fn lemma_project_layer_wins<V>(
    shared: Map<Seq<char>, V>,
    project: Map<Seq<char>, V>,
    name: Seq<char>,
)
    ensures
        project.contains_key(name) ==> shared.union_prefer_right(project)[name] == project[name],
        shared.contains_key(name) && !project.contains_key(name) ==> shared.union_prefer_right(
            project,
        )[name] == shared[name],
        shared.union_prefer_right(project).contains_key(name) <==> (shared.contains_key(name)
            || project.contains_key(name)),
{
}

} // verus!
