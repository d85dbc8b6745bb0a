use vstd::prelude::*;

use crate::config::document::{Document, Entry, Node, Scalar};
use crate::config::kdl_helpers::{find_arg, first_arg, string_arg, string_arg_of, text_of};
use crate::error::{ConfigError, ConfigErrorKind, SkelError};
use crate::order::views;
use crate::table::Table;
use crate::text::str_eq;

verus! {

/// A named sequence of steps.
#[derive(Debug, PartialEq, Eq)]
pub struct Task {
    pub name: String,
    pub steps: Vec<TaskStep>,
}

#[derive(Debug, PartialEq, Eq)]
pub enum TaskStep {
    /// Sets each variable to its value.
    Env(Table<String>),
    /// Runs a command with its arguments.
    Exec(String, Vec<String>),
    /// Runs the task of that name with its arguments.
    Task(String, Vec<String>),
}

/// A step with each text as its characters.
pub enum StepView {
    Env(Map<Seq<char>, Seq<char>>),
    Exec(Seq<char>, Seq<Seq<char>>),
    Invoke(Seq<char>, Seq<Seq<char>>),
}

impl TaskStep {
    pub open spec fn view_step(&self) -> StepView {
        match self {
            TaskStep::Env(t) => StepView::Env(t@.map_values(|s: String| s@)),
            TaskStep::Exec(c, a) => StepView::Exec(c@, views(a@)),
            TaskStep::Task(c, a) => StepView::Invoke(c@, views(a@)),
        }
    }
}

/// The views of a sequence of steps.
pub open spec fn step_views(s: Seq<TaskStep>) -> Seq<StepView> {
    s.map_values(|st: TaskStep| st.view_step())
}

/// The properties of a node as texts; a later one overrides an earlier one
/// of the same name.
pub open spec fn env_bindings(entries: Seq<Entry>) -> Map<Seq<char>, Seq<char>>
    decreases entries.len(),
{
    if entries.len() == 0 {
        Map::empty()
    } else {
        let m = env_bindings(entries.drop_last());
        match entries.last().name {
            Some(n) => m.insert(n@, text_of(entries.last().value)),
            None => m,
        }
    }
}

/// The arguments among `entries`, as texts, in order.
pub open spec fn arg_texts(entries: Seq<Entry>) -> Seq<Seq<char>>
    decreases entries.len(),
{
    if entries.len() == 0 {
        Seq::empty()
    } else {
        let p = arg_texts(entries.drop_last());
        match entries.last().name {
            None => p.push(text_of(entries.last().value)),
            Some(_) => p,
        }
    }
}

/// The first argument of a node, which must be a string, and the texts of the
/// arguments after it.
pub open spec fn command_of(node: Node) -> Result<(Seq<char>, Seq<Seq<char>>), ConfigErrorKind> {
    let es = node.entries@;
    let i = first_arg(es);
    if i < 0 {
        Err(ConfigErrorKind::MissingArgument)
    } else {
        match es[i].value {
            Scalar::Str(s) => Ok((s@, arg_texts(es.subrange(i + 1, es.len() as int)))),
            _ => Err(ConfigErrorKind::MissingArgument),
        }
    }
}

/// The step a node of a task body stands for; `None` for a node that is no step.
pub open spec fn step_of(node: Node) -> Option<Result<StepView, ConfigErrorKind>> {
    if node.name@ == "env"@ {
        Some(Ok(StepView::Env(env_bindings(node.entries@))))
    } else if node.name@ == "exec"@ {
        Some(
            match command_of(node) {
                Ok(c) => Ok(StepView::Exec(c.0, c.1)),
                Err(k) => Err(k),
            },
        )
    } else if node.name@ == "task"@ {
        Some(
            match command_of(node) {
                Ok(c) => Ok(StepView::Invoke(c.0, c.1)),
                Err(k) => Err(k),
            },
        )
    } else {
        None
    }
}

/// The steps of a task body, one for each step node, in order; the first
/// refusal among them otherwise.
pub open spec fn steps_of(nodes: Seq<Node>) -> Result<Seq<StepView>, ConfigErrorKind>
    decreases nodes.len(),
{
    if nodes.len() == 0 {
        Ok(Seq::empty())
    } else {
        match steps_of(nodes.drop_last()) {
            Err(k) => Err(k),
            Ok(v) => match step_of(nodes.last()) {
                None => Ok(v),
                Some(Ok(st)) => Ok(v.push(st)),
                Some(Err(k)) => Err(k),
            },
        }
    }
}

proof fn lemma_steps_err(nodes: Seq<Node>, i: int, k: ConfigErrorKind)
    requires
        0 <= i <= nodes.len(),
        steps_of(nodes.subrange(0, i)) == Err::<Seq<StepView>, ConfigErrorKind>(k),
    ensures
        steps_of(nodes) == Err::<Seq<StepView>, ConfigErrorKind>(k),
    decreases nodes.len(),
{
    if i == nodes.len() {
        assert(nodes.subrange(0, i) =~= nodes);
    } else {
        assert(nodes.drop_last().subrange(0, i) =~= nodes.subrange(0, i));
        lemma_steps_err(nodes.drop_last(), i, k);
    }
}

/// The variables an `env` node sets.
fn env_step(node: &Node) -> (r: Table<String>)
    ensures
        r@.map_values(|s: String| s@) == env_bindings(node.entries@),
{
    let mut vars: Table<String> = Table::new();
    let mut i: usize = 0;
    assert(vars@.map_values(|s: String| s@) =~= env_bindings(node.entries@.subrange(0, 0)));
    while i < node.entries.len()
        invariant
            i <= node.entries@.len(),
            vars@.map_values(|s: String| s@) == env_bindings(node.entries@.subrange(0, i as int)),
        decreases node.entries@.len() - i,
    {
        let e = &node.entries[i];
        let ghost pre = node.entries@.subrange(0, i + 1);
        let ghost before = vars@;
        proof {
            assert(pre.drop_last() =~= node.entries@.subrange(0, i as int));
            assert(pre.last() == *e);
        }
        match &e.name {
            Some(n) => {
                let value = e.value.to_text();
                let ghost vv = value@;
                vars.insert(n.clone(), value);
                proof {
                    assert(vars@.map_values(|s: String| s@) =~= before.map_values(|s: String| s@).insert(n@, vv));
                }
            },
            None => {},
        }
        i = i + 1;
    }
    assert(node.entries@.subrange(0, i as int) =~= node.entries@);
    vars
}

/// The command of an `exec` or `task` node and its arguments.
fn command_parts(doc: &Document, node: &Node) -> (r: Result<(String, Vec<String>), SkelError>)
    ensures
        match command_of(*node) {
            Ok(c) => r matches Ok(p) && p.0@ == c.0 && views(p.1@) == c.1,
            Err(k) => r matches Err(e) && e.is_config(k),
        },
{
    let first = match find_arg(&node.entries) {
        None => {
            return Err(SkelError::ConfigError(ConfigError::from_missing_argument(doc, node)));
        },
        Some(i) => i,
    };
    let command = match &node.entries[first].value {
        Scalar::Str(s) => s.clone(),
        _ => {
            return Err(SkelError::ConfigError(ConfigError::from_missing_argument(doc, node)));
        },
    };
    let ghost es = node.entries@;
    let n = node.entries.len();
    assert(first < n);
    let mut i: usize = first + 1;
    let ghost start: int = i as int;
    let mut args: Vec<String> = Vec::new();
    assert(es.subrange(start, start) =~= Seq::<Entry>::empty());
    assert(views(args@) =~= Seq::<Seq<char>>::empty());
    while i < node.entries.len()
        invariant
            es == node.entries@,
            0 <= start <= i <= es.len(),
            views(args@) == arg_texts(es.subrange(start, i as int)),
        decreases es.len() - i,
    {
        let e = &node.entries[i];
        let ghost pre = es.subrange(start, i + 1);
        let ghost a0 = args@;
        proof {
            assert(pre.drop_last() =~= es.subrange(start, i as int));
            assert(pre.last() == *e);
        }
        if e.name.is_none() {
            let t = e.value.to_text();
            let ghost tv = t@;
            args.push(t);
            proof {
                assert(views(args@) =~= views(a0).push(tv));
            }
        }
        i = i + 1;
    }
    Ok((command, args))
}

impl Task {
    /// A task named `name` whose steps are the step nodes of `doc`: `env`,
    /// `exec` and `task`; other nodes are passed over.
    pub fn from_kdl_document(doc: &Document, name: String) -> (r: Result<Task, SkelError>)
        ensures
            match steps_of(doc.nodes@) {
                Ok(v) => r matches Ok(t) && t.name@ == name@ && step_views(t.steps@) == v,
                Err(k) => r matches Err(e) && e.is_config(k),
            },
    {
        let mut steps: Vec<TaskStep> = Vec::new();
        let mut i: usize = 0;
        assert(step_views(steps@) =~= Seq::<StepView>::empty());
        while i < doc.nodes.len()
            invariant
                i <= doc.nodes@.len(),
                steps_of(doc.nodes@.subrange(0, i as int)) == Ok::<Seq<StepView>, ConfigErrorKind>(
                    step_views(steps@),
                ),
            decreases doc.nodes@.len() - i,
        {
            let node = &doc.nodes[i];
            let ghost pre = doc.nodes@.subrange(0, i + 1);
            let ghost s0 = steps@;
            proof {
                assert(pre.drop_last() =~= doc.nodes@.subrange(0, i as int));
                assert(pre.last() == *node);
                reveal_strlit("env");
                reveal_strlit("exec");
                reveal_strlit("task");
            }
            if str_eq(node.name.as_str(), "env") {
                let step = TaskStep::Env(env_step(node));
                let ghost sv = step.view_step();
                steps.push(step);
                proof {
                    assert(step_views(steps@) =~= step_views(s0).push(sv));
                }
            } else if str_eq(node.name.as_str(), "exec") || str_eq(node.name.as_str(), "task") {
                let is_exec = str_eq(node.name.as_str(), "exec");
                match command_parts(doc, node) {
                    Ok((command, args)) => {
                        let step = if is_exec {
                            TaskStep::Exec(command, args)
                        } else {
                            TaskStep::Task(command, args)
                        };
                        let ghost sv = step.view_step();
                        steps.push(step);
                        proof {
                            assert(step_views(steps@) =~= step_views(s0).push(sv));
                        }
                    },
                    Err(e) => {
                        proof {
                            let k = match command_of(*node) {
                                Err(k) => k,
                                Ok(_) => ConfigErrorKind::MissingArgument,
                            };
                            assert(steps_of(pre) == Err::<Seq<StepView>, ConfigErrorKind>(k));
                            lemma_steps_err(doc.nodes@, i + 1, k);
                        }
                        return Err(e);
                    },
                }
            }
            i = i + 1;
        }
        assert(doc.nodes@.subrange(0, i as int) =~= doc.nodes@);
        Ok(Task { name, steps })
    }
}


/// A task with each text as its characters.
pub open spec fn task_view(t: Task) -> (Seq<char>, Seq<StepView>) {
    (t.name@, step_views(t.steps@))
}

/// The views of the tasks of a table.
pub open spec fn task_views(t: Map<Seq<char>, Task>) -> Map<Seq<char>, (Seq<char>, Seq<StepView>)> {
    t.map_values(|x: Task| task_view(x))
}

/// The tasks that the top-level `task` nodes define, by name: a node with a
/// body defines the task its name gives (a later one replaces an earlier
/// one); a node without one defines nothing. The first refusal otherwise.
pub open spec fn tasks_of(nodes: Seq<Node>) -> Result<
    Map<Seq<char>, (Seq<char>, Seq<StepView>)>,
    ConfigErrorKind,
>
    decreases nodes.len(),
{
    if nodes.len() == 0 {
        Ok(Map::empty())
    } else {
        match tasks_of(nodes.drop_last()) {
            Err(k) => Err(k),
            Ok(m) => {
                let n = nodes.last();
                if n.name@ != "task"@ {
                    Ok(m)
                } else {
                    match string_arg(n) {
                        Err(k) => Err(k),
                        Ok(name) => match n.children {
                            None => Ok(m),
                            Some(c) => match steps_of(c.nodes@) {
                                Err(k) => Err(k),
                                Ok(v) => Ok(m.insert(name, (name, v))),
                            },
                        },
                    }
                }
            },
        }
    }
}

proof fn lemma_tasks_err(nodes: Seq<Node>, i: int, k: ConfigErrorKind)
    requires
        0 <= i <= nodes.len(),
        tasks_of(nodes.subrange(0, i)) == Err::<Map<Seq<char>, (Seq<char>, Seq<StepView>)>, ConfigErrorKind>(k),
    ensures
        tasks_of(nodes) == Err::<Map<Seq<char>, (Seq<char>, Seq<StepView>)>, ConfigErrorKind>(k),
    decreases nodes.len(),
{
    if i == nodes.len() {
        assert(nodes.subrange(0, i) =~= nodes);
    } else {
        assert(nodes.drop_last().subrange(0, i) =~= nodes.subrange(0, i));
        lemma_tasks_err(nodes.drop_last(), i, k);
    }
}

/// The tasks a document defines.
pub fn tasks_from_document(doc: &Document) -> (r: Result<Table<Task>, SkelError>)
    ensures
        match tasks_of(doc.nodes@) {
            Ok(m) => r matches Ok(t) && task_views(t@) == m,
            Err(k) => r matches Err(e) && e.is_config(k),
        },
{
    let mut tasks: Table<Task> = Table::new();
    let mut i: usize = 0;
    assert(task_views(tasks@) =~= Map::<Seq<char>, (Seq<char>, Seq<StepView>)>::empty());
    while i < doc.nodes.len()
        invariant
            i <= doc.nodes@.len(),
            tasks_of(doc.nodes@.subrange(0, i as int)) == Ok::<
                Map<Seq<char>, (Seq<char>, Seq<StepView>)>,
                ConfigErrorKind,
            >(task_views(tasks@)),
        decreases doc.nodes@.len() - i,
    {
        let node = &doc.nodes[i];
        let ghost pre = doc.nodes@.subrange(0, i + 1);
        let ghost before = tasks@;
        proof {
            assert(pre.drop_last() =~= doc.nodes@.subrange(0, i as int));
            assert(pre.last() == *node);
            reveal_strlit("task");
        }
        if str_eq(node.name.as_str(), "task") {
            let name = match string_arg_of(doc, node) {
                Ok(n) => n,
                Err(e) => {
                    proof {
                        let k = string_arg(*node)->Err_0;
                        lemma_tasks_err(doc.nodes@, i + 1, k);
                    }
                    return Err(e);
                },
            };
            match &node.children {
                None => {},
                Some(children) => {
                    match Task::from_kdl_document(children, name.clone()) {
                        Ok(task) => {
                            let ghost tv = task_view(task);
                            tasks.insert(name, task);
                            proof {
                                assert(task_views(tasks@) =~= task_views(before).insert(tv.0, tv));
                            }
                        },
                        Err(e) => {
                            proof {
                                let k = steps_of(children.nodes@)->Err_0;
                                lemma_tasks_err(doc.nodes@, i + 1, k);
                            }
                            return Err(e);
                        },
                    }
                },
            }
        }
        i = i + 1;
    }
    assert(doc.nodes@.subrange(0, i as int) =~= doc.nodes@);
    Ok(tasks)
}

} // verus!
