use vstd::prelude::*;

use crate::config::document::{kdl_accepts, kdl_tree, Document, Entry, Node, Scalar};
use crate::config::kdl_helpers::{
    find_arg, first_arg, string_arg, string_arg_of, variables_from_kdl_document, variables_of,
};
use crate::config::task::{task_views, tasks_from_document, tasks_of, Task};
use crate::content::{default_destination, has_file_name, Content, ContentKind};
use crate::error::{ConfigError, ConfigErrorKind, SkelError};
use crate::order::{
    application_order, deps_of, has_unknown_dependency, place_in_passes, sort_by_path, views,
};
use crate::table::Table;
use crate::text::str_eq;
use crate::util::{join, join_path, parent_of, parent_path};

verus! {

/// The shared layer: its content root, its content table, and the tasks and
/// variables it defines.
#[derive(Debug)]
pub struct SkeletonConfig {
    pub root: String,
    pub content: Table<Content>,
    pub tasks: Table<Task>,
    pub variables: Table<Scalar>,
    /// The configuration file was absent and defaults were used.
    pub is_default: bool,
}

/// An entry with each text as its characters: source, destination, kind,
/// dependencies.
pub type ContentView = (Seq<char>, Seq<char>, ContentKind, Seq<Seq<char>>);

pub open spec fn content_view(c: Content) -> ContentView {
    (c.source@, c.destination@, c.kind, c.view_deps())
}

pub open spec fn content_views(m: Map<Seq<char>, Content>) -> Map<Seq<char>, ContentView> {
    m.map_values(|c: Content| content_view(c))
}

/// The entries that scanning the content root yields: one for each file, by
/// its path, placed by default, with no dependencies.
pub open spec fn scanned(tree: Seq<Seq<char>>) -> Map<Seq<char>, ContentView>
    decreases tree.len(),
{
    if tree.len() == 0 {
        Map::empty()
    } else {
        let p = tree.last();
        scanned(tree.drop_last()).insert(p, (p, default_destination(p), ContentKind::File, Seq::empty()))
    }
}

/// The arguments of a `depends_on` node, each of which must be a string.
pub open spec fn dep_args(entries: Seq<Entry>) -> Result<Seq<Seq<char>>, ConfigErrorKind>
    decreases entries.len(),
{
    if entries.len() == 0 {
        Ok(Seq::empty())
    } else {
        match dep_args(entries.drop_last()) {
            Err(k) => Err(k),
            Ok(ds) => {
                let e = entries.last();
                if e.name is Some {
                    Ok(ds)
                } else {
                    match e.value {
                        Scalar::Str(s) => Ok(ds.push(s@)),
                        _ => Err(ConfigErrorKind::InvalidString),
                    }
                }
            },
        }
    }
}

/// What one child of a `content` node does to its entry.
pub open spec fn apply_child(cv: ContentView, child: Node) -> Result<ContentView, ConfigErrorKind> {
    if child.name@ == "destination"@ {
        match string_arg(child) {
            Ok(d) => Ok((cv.0, d, cv.2, cv.3)),
            Err(k) => Err(k),
        }
    } else if child.name@ == "depends_on"@ {
        match dep_args(child.entries@) {
            Ok(ds) => Ok((cv.0, cv.1, cv.2, cv.3 + ds)),
            Err(k) => Err(k),
        }
    } else {
        Ok(cv)
    }
}

/// What the children of a `content` node do to its entry, in order.
pub open spec fn apply_children(cv: ContentView, children: Seq<Node>) -> Result<
    ContentView,
    ConfigErrorKind,
>
    decreases children.len(),
{
    if children.len() == 0 {
        Ok(cv)
    } else {
        match apply_children(cv, children.drop_last()) {
            Err(k) => Err(k),
            Ok(c) => apply_child(c, children.last()),
        }
    }
}

/// What the top-level `content` nodes do to the scanned entries: each names
/// an entry that must exist, and its children adjust it.
pub open spec fn apply_content_nodes(m: Map<Seq<char>, ContentView>, nodes: Seq<Node>) -> Result<
    Map<Seq<char>, ContentView>,
    ConfigErrorKind,
>
    decreases nodes.len(),
{
    if nodes.len() == 0 {
        Ok(m)
    } else {
        match apply_content_nodes(m, nodes.drop_last()) {
            Err(k) => Err(k),
            Ok(cur) => {
                let n = nodes.last();
                if n.name@ != "content"@ {
                    Ok(cur)
                } else {
                    match string_arg(n) {
                        Err(k) => Err(k),
                        Ok(src) => if !cur.contains_key(src) {
                            Err(ConfigErrorKind::MissingSource)
                        } else {
                            match n.children {
                                None => Ok(cur),
                                Some(c) => match apply_children(cur[src], c.nodes@) {
                                    Err(k) => Err(k),
                                    Ok(cv) => Ok(cur.insert(src, cv)),
                                },
                            }
                        },
                    }
                }
            },
        }
    }
}

proof fn lemma_dep_args_err(s: Seq<Entry>, i: int)
    requires
        0 <= i <= s.len(),
        dep_args(s.subrange(0, i)) is Err,
    ensures
        dep_args(s) == dep_args(s.subrange(0, i)),
    decreases s.len(),
{
    if i == s.len() {
        assert(s.subrange(0, i) =~= s);
    } else {
        assert(s.drop_last().subrange(0, i) =~= s.subrange(0, i));
        lemma_dep_args_err(s.drop_last(), i);
    }
}

proof fn lemma_apply_children_err(cv: ContentView, s: Seq<Node>, i: int)
    requires
        0 <= i <= s.len(),
        apply_children(cv, s.subrange(0, i)) is Err,
    ensures
        apply_children(cv, s) == apply_children(cv, s.subrange(0, i)),
    decreases s.len(),
{
    if i == s.len() {
        assert(s.subrange(0, i) =~= s);
    } else {
        assert(s.drop_last().subrange(0, i) =~= s.subrange(0, i));
        lemma_apply_children_err(cv, s.drop_last(), i);
    }
}

proof fn lemma_apply_content_nodes_err(m: Map<Seq<char>, ContentView>, s: Seq<Node>, i: int)
    requires
        0 <= i <= s.len(),
        apply_content_nodes(m, s.subrange(0, i)) is Err,
    ensures
        apply_content_nodes(m, s) == apply_content_nodes(m, s.subrange(0, i)),
    decreases s.len(),
{
    if i == s.len() {
        assert(s.subrange(0, i) =~= s);
    } else {
        assert(s.drop_last().subrange(0, i) =~= s.subrange(0, i));
        lemma_apply_content_nodes_err(m, s.drop_last(), i);
    }
}

/// Some entry depends on a key that the entries lack.
pub open spec fn view_has_unknown_dependency(m: Map<Seq<char>, ContentView>) -> bool {
    exists|k: Seq<char>, j: int|
        m.contains_key(k) && 0 <= j < m[k].3.len() && !m.contains_key(#[trigger] m[k].3[j])
}

/// The content a document at a content root with files `tree` describes.
pub open spec fn content_of(tree: Seq<Seq<char>>, doc: Document) -> Result<
    Map<Seq<char>, ContentView>,
    ConfigErrorKind,
> {
    apply_content_nodes(scanned(tree), doc.nodes@)
}

/// What loading the shared layer from a document at `path`, with the files
/// `tree` under its content root, gives.
pub open spec fn skeleton_loaded(
    path: Seq<char>,
    doc: Document,
    is_default: bool,
    tree: Seq<Seq<char>>,
    r: Result<SkeletonConfig, SkelError>,
) -> bool {
    match tasks_of(doc.nodes@) {
        Err(k) => r matches Err(e) && e.is_config(k),
        Ok(tasks) => match content_of(tree, doc) {
            Err(k) => r matches Err(e) && e.is_config(k),
            Ok(content) => if view_has_unknown_dependency(content) {
                r matches Err(e) && (e matches SkelError::UnknownDependency { from, to }
                    && content.contains_key(from@) && content[from@].3.contains(to@)
                    && !content.contains_key(to@))
            } else {
                match variables_of(doc) {
                    Err(_) => r matches Err(e) && e.is_config(ConfigErrorKind::MissingArgument),
                    Ok(vars) => r matches Ok(c) && {
                        &&& c.root@ == join_path(parent_path(path), "content"@)
                        &&& content_views(c.content@) == content
                        &&& task_views(c.tasks@) == tasks
                        &&& c.variables@ == vars
                        &&& c.is_default == is_default
                    },
                }
            },
        },
    }
}

/// Checks that every dependency names an entry of the table.
pub fn check_dependencies(t: &Table<Content>) -> (r: Result<(), SkelError>)
    ensures
        r is Ok <==> !has_unknown_dependency(t@),
        r matches Err(e) ==> (e matches SkelError::UnknownDependency { from, to } && t@.contains_key(
            from@,
        ) && deps_of(t@, from@).contains(to@) && !t@.contains_key(to@)),
{
    let n = t.len();
    let mut i: usize = 0;
    proof {
        t.lemma_keys();
    }
    while i < n
        invariant
            n == t.keys_seq().len(),
            i <= n,
            forall|k: Seq<char>| #[trigger] t@.contains_key(k) <==> t.keys_seq().contains(k),
            forall|m: int, j: int|
                0 <= m < i && 0 <= j < deps_of(t@, t.keys_seq()[m]).len() ==> t@.contains_key(
                    #[trigger] deps_of(t@, t.keys_seq()[m])[j],
                ),
        decreases n - i,
    {
        let c = t.value_at(i);
        let key = t.key_at(i);
        let mut j: usize = 0;
        while j < c.dependencies.len()
            invariant
                j <= c.dependencies@.len(),
                forall|l: int| 0 <= l < j ==> t@.contains_key(#[trigger] c.view_deps()[l]),
                t@.contains_key(key@),
                *c == t@[key@],
                key@ == t.keys_seq()[i as int],
            decreases c.dependencies@.len() - j,
        {
            let d = &c.dependencies[j];
            assert(c.view_deps()[j as int] == d@);
            if !t.contains_key(d.as_str()) {
                proof {
                    assert(deps_of(t@, key@)[j as int] == d@);
                    assert(deps_of(t@, key@).contains(d@));
                }
                return Err(SkelError::UnknownDependency { from: key.clone(), to: d.clone() });
            }
            j = j + 1;
        }
        i = i + 1;
    }
    proof {
        assert forall|k: Seq<char>, j: int|
            t@.contains_key(k) && 0 <= j < deps_of(t@, k).len() implies t@.contains_key(
            #[trigger] deps_of(t@, k)[j],
        ) by {
            let m = choose|m: int| 0 <= m < t.keys_seq().len() && t.keys_seq()[m] == k;
            assert(deps_of(t@, t.keys_seq()[m])[j] == deps_of(t@, k)[j]);
        }
    }
    Ok(())
}


/// The entries for the files under the content root.
fn scan_tree(tree: &Vec<String>) -> (r: Table<Content>)
    requires
        forall|i: int| 0 <= i < tree@.len() ==> has_file_name(#[trigger] tree@[i]@),
    ensures
        content_views(r@) == scanned(views(tree@)),
{
    let mut content: Table<Content> = Table::new();
    let mut i: usize = 0;
    assert(content_views(content@) =~= scanned(views(tree@).subrange(0, 0)));
    while i < tree.len()
        invariant
            i <= tree@.len(),
            content_views(content@) == scanned(views(tree@).subrange(0, i as int)),
            forall|i: int| 0 <= i < tree@.len() ==> has_file_name(#[trigger] tree@[i]@),
        decreases tree@.len() - i,
    {
        let p = &tree[i];
        let ghost pre = views(tree@).subrange(0, i + 1);
        let ghost before = content@;
        proof {
            assert(pre.drop_last() =~= views(tree@).subrange(0, i as int));
            assert(pre.last() == p@);
        }
        match Content::from_source(p.as_str(), None) {
            Ok(c) => {
                let ghost cv = content_view(c);
                proof {
                    assert(c.view_deps() =~= Seq::<Seq<char>>::empty());
                }
                content.insert(p.clone(), c);
                proof {
                    assert(content_views(content@) =~= content_views(before).insert(p@, cv));
                }
            },
            Err(_) => {},
        }
        i = i + 1;
    }
    assert(views(tree@).subrange(0, i as int) =~= views(tree@));
    content
}

/// The arguments of a `depends_on` node.
fn dependency_args(doc: &Document, node: &Node) -> (r: Result<Vec<String>, SkelError>)
    ensures
        match dep_args(node.entries@) {
            Ok(ds) => r matches Ok(v) && views(v@) == ds,
            Err(k) => r matches Err(e) && e.is_config(k),
        },
{
    let mut deps: Vec<String> = Vec::new();
    let mut i: usize = 0;
    assert(views(deps@) =~= Seq::<Seq<char>>::empty());
    while i < node.entries.len()
        invariant
            i <= node.entries@.len(),
            dep_args(node.entries@.subrange(0, i as int)) == Ok::<Seq<Seq<char>>, ConfigErrorKind>(
                views(deps@),
            ),
        decreases node.entries@.len() - i,
    {
        let e = &node.entries[i];
        let ghost pre = node.entries@.subrange(0, i + 1);
        let ghost d0 = deps@;
        proof {
            assert(pre.drop_last() =~= node.entries@.subrange(0, i as int));
            assert(pre.last() == *e);
        }
        if e.name.is_none() {
            match &e.value {
                Scalar::Str(s) => {
                    deps.push(s.clone());
                    proof {
                        assert(views(deps@) =~= views(d0).push(s@));
                    }
                },
                _ => {
                    proof {
                        lemma_dep_args_err(node.entries@, i + 1);
                    }
                    return Err(
                        SkelError::ConfigError(
                            ConfigError::from_invalid_string_argument(doc, node, i),
                        ),
                    );
                },
            }
        }
        i = i + 1;
    }
    assert(node.entries@.subrange(0, i as int) =~= node.entries@);
    Ok(deps)
}

/// What the children of a `content` node do to its entry.
fn apply_content_children(doc: &Document, children: &Document, entry: Content) -> (r: Result<
    Content,
    SkelError,
>)
    ensures
        match apply_children(content_view(entry), children.nodes@) {
            Ok(cv) => r matches Ok(c) && content_view(c) == cv,
            Err(k) => r matches Err(e) && e.is_config(k),
        },
{
    let ghost cv0 = content_view(entry);
    let mut cur = entry;
    let mut i: usize = 0;
    assert(children.nodes@.subrange(0, 0) =~= Seq::<Node>::empty());
    while i < children.nodes.len()
        invariant
            i <= children.nodes@.len(),
            cv0 == content_view(entry),
            apply_children(cv0, children.nodes@.subrange(0, i as int)) == Ok::<
                ContentView,
                ConfigErrorKind,
            >(content_view(cur)),
        decreases children.nodes@.len() - i,
    {
        let child = &children.nodes[i];
        let ghost pre = children.nodes@.subrange(0, i + 1);
        let ghost before = content_view(cur);
        proof {
            assert(pre.drop_last() =~= children.nodes@.subrange(0, i as int));
            assert(pre.last() == *child);
            reveal_strlit("destination");
            reveal_strlit("depends_on");
        }
        if str_eq(child.name.as_str(), "destination") {
            match string_arg_of(doc, child) {
                Ok(d) => {
                    cur.destination = d;
                },
                Err(e) => {
                    proof {
                        assert(apply_children(cv0, pre) == apply_child(before, *child));
                        lemma_apply_children_err(cv0, children.nodes@, i + 1);
                    }
                    return Err(e);
                },
            }
        } else if str_eq(child.name.as_str(), "depends_on") {
            match dependency_args(doc, child) {
                Ok(ds) => {
                    let ghost added = views(ds@);
                    let mut j: usize = 0;
                    let ghost base = cur.view_deps();
                    assert(ds@.subrange(0, 0) =~= Seq::<String>::empty());
                    while j < ds.len()
                        invariant
                            j <= ds@.len(),
                            added == views(ds@),
                            cur.view_deps() == base + views(ds@.subrange(0, j as int)),
                            cur.source@ == before.0,
                            cur.destination@ == before.1,
                            cur.kind == before.2,
                        decreases ds@.len() - j,
                    {
                        let ghost c0 = cur.dependencies@;
                        cur.dependencies.push(ds[j].clone());
                        proof {
                            assert(cur.view_deps() =~= Seq::new(c0.len(), |l: int| c0[l]@).push(ds@[j as int]@));
                            assert(views(ds@.subrange(0, j + 1)) =~= views(ds@.subrange(0, j as int)).push(ds@[j as int]@));
                            assert(base + views(ds@.subrange(0, j + 1)) =~= (base + views(ds@.subrange(0, j as int))).push(ds@[j as int]@));
                        }
                        j = j + 1;
                    }
                    proof {
                        assert(ds@.subrange(0, j as int) =~= ds@);
                    }
                },
                Err(e) => {
                    proof {
                        assert(apply_children(cv0, pre) == apply_child(before, *child));
                        lemma_apply_children_err(cv0, children.nodes@, i + 1);
                    }
                    return Err(e);
                },
            }
        }
        proof {
            assert(content_view(cur) == apply_child(before, *child)->Ok_0);
        }
        i = i + 1;
    }
    assert(children.nodes@.subrange(0, i as int) =~= children.nodes@);
    Ok(cur)
}

/// The content a document describes for the files `tree`.
fn content_from_document(doc: &Document, tree: &Vec<String>) -> (r: Result<Table<Content>, SkelError>)
    requires
        forall|i: int| 0 <= i < tree@.len() ==> has_file_name(#[trigger] tree@[i]@),
    ensures
        match content_of(views(tree@), *doc) {
            Ok(m) => r matches Ok(t) && content_views(t@) == m,
            Err(k) => r matches Err(e) && e.is_config(k),
        },
{
    let mut content = scan_tree(tree);
    let ghost m0 = scanned(views(tree@));
    let mut i: usize = 0;
    assert(doc.nodes@.subrange(0, 0) =~= Seq::<Node>::empty());
    while i < doc.nodes.len()
        invariant
            i <= doc.nodes@.len(),
            m0 == scanned(views(tree@)),
            apply_content_nodes(m0, doc.nodes@.subrange(0, i as int)) == Ok::<
                Map<Seq<char>, ContentView>,
                ConfigErrorKind,
            >(content_views(content@)),
        decreases doc.nodes@.len() - i,
    {
        let node = &doc.nodes[i];
        let ghost pre = doc.nodes@.subrange(0, i + 1);
        let ghost before = content@;
        proof {
            assert(pre.drop_last() =~= doc.nodes@.subrange(0, i as int));
            assert(pre.last() == *node);
            reveal_strlit("content");
        }
        if str_eq(node.name.as_str(), "content") {
            let source = match string_arg_of(doc, node) {
                Ok(s) => s,
                Err(e) => {
                    proof {
                        lemma_apply_content_nodes_err(m0, doc.nodes@, i + 1);
                    }
                    return Err(e);
                },
            };
            let cur = match content.get(source.as_str()) {
                Some(c) => c.duplicate(),
                None => {
                    proof {
                        assert(!content_views(before).contains_key(source@));
                        lemma_apply_content_nodes_err(m0, doc.nodes@, i + 1);
                    }
                    let at = match find_arg(&node.entries) {
                        Some(j) => j,
                        None => 0,
                    };
                    proof {
                        assert(at < node.entries@.len());
                    }
                    return Err(
                        SkelError::ConfigError(ConfigError::from_missing_source(doc, node, at)),
                    );
                },
            };
            proof {
                assert(content_views(before)[source@] == content_view(cur));
            }
            match &node.children {
                None => {},
                Some(children) => match apply_content_children(doc, children, cur) {
                    Ok(c) => {
                        let ghost cv = content_view(c);
                        content.insert(source, c);
                        proof {
                            assert(content_views(content@) =~= content_views(before).insert(
                                source@,
                                cv,
                            ));
                        }
                    },
                    Err(e) => {
                        proof {
                            lemma_apply_content_nodes_err(m0, doc.nodes@, i + 1);
                        }
                        return Err(e);
                    },
                },
            }
        }
        i = i + 1;
    }
    assert(doc.nodes@.subrange(0, i as int) =~= doc.nodes@);
    Ok(content)
}


proof fn lemma_unknown_dependency_views(t: Map<Seq<char>, Content>)
    ensures
        has_unknown_dependency(t) <==> view_has_unknown_dependency(content_views(t)),
{
    let m = content_views(t);
    if has_unknown_dependency(t) {
        let (k, j) = choose|k: Seq<char>, j: int|
            t.contains_key(k) && 0 <= j < deps_of(t, k).len() && !t.contains_key(
                #[trigger] deps_of(t, k)[j],
            );
        assert(m[k].3 == deps_of(t, k));
        assert(!m.contains_key(m[k].3[j]));
    }
    if view_has_unknown_dependency(m) {
        let (k, j) = choose|k: Seq<char>, j: int|
            m.contains_key(k) && 0 <= j < m[k].3.len() && !m.contains_key(#[trigger] m[k].3[j]);
        assert(m[k].3 == deps_of(t, k));
        assert(!t.contains_key(deps_of(t, k)[j]));
    }
}

/// `cs` holds copies of the entries under the keys `v`, in that order.
pub open spec fn entries_match(cs: Seq<Content>, v: Seq<Seq<char>>, t: Map<Seq<char>, Content>) -> bool {
    &&& cs.len() == v.len()
    &&& forall|i: int| 0 <= i < cs.len() ==> #[trigger] cs[i].same_as(&t[v[i]])
}

impl SkeletonConfig {
    /// Where the content of the shared layer configured at `path` lies.
    pub fn content_root(path: &str) -> (r: String)
        ensures
            r@ == join_path(parent_path(path@), "content"@),
    {
        join(parent_of(path).as_str(), "content")
    }

    /// The layer a parsed document at `path` describes, with the files
    /// `tree` (relative paths) under its content root.
    pub fn from_document(path: &str, doc: &Document, is_default: bool, tree: &Vec<String>) -> (r:
        Result<SkeletonConfig, SkelError>)
        requires
            forall|i: int| 0 <= i < tree@.len() ==> has_file_name(#[trigger] tree@[i]@),
        ensures
            skeleton_loaded(path@, *doc, is_default, views(tree@), r),
    {
        let root = SkeletonConfig::content_root(path);
        let tasks = match tasks_from_document(doc) {
            Ok(t) => t,
            Err(e) => {
                return Err(e);
            },
        };
        let content = match content_from_document(doc, tree) {
            Ok(c) => c,
            Err(e) => {
                return Err(e);
            },
        };
        proof {
            lemma_unknown_dependency_views(content@);
        }
        match check_dependencies(&content) {
            Ok(()) => {},
            Err(e) => {
                return Err(e);
            },
        }
        let variables = match variables_from_kdl_document(doc) {
            Ok(v) => v,
            Err(e) => {
                return Err(e);
            },
        };
        Ok(SkeletonConfig { root, content, tasks, variables, is_default })
    }

    /// The layer that the configuration file at `path` describes; `config`
    /// is the file's text, or `None` where there is no such file, and `tree`
    /// lists the files under the content root.
    pub fn read_from(path: &str, config: Option<&str>, tree: &Vec<String>) -> (r: Result<
        SkeletonConfig,
        SkelError,
    >)
        requires
            forall|i: int| 0 <= i < tree@.len() ==> has_file_name(#[trigger] tree@[i]@),
        ensures
            config is None ==> (r matches Ok(c) && {
                &&& c.is_default
                &&& c.root@ == join_path(parent_path(path@), "content"@)
                &&& content_views(c.content@) == scanned(views(tree@))
                &&& c.variables@ == Map::<Seq<char>, Scalar>::empty()
                &&& c.tasks@ == Map::<Seq<char>, Task>::empty()
            }),
            config is Some ==> (r matches Ok(c) ==> !c.is_default),
            config is Some && !kdl_accepts(config->Some_0@) ==> r matches Err(SkelError::KdlError(_)),
            config is Some && kdl_accepts(config->Some_0@) ==> skeleton_loaded(
                path@,
                kdl_tree(config->Some_0@),
                false, views(tree@),
                r,
            ),
    {
        match config {
            None => {
                let doc = Document::empty("");
                proof {
                    assert(doc.nodes@ =~= Seq::empty());
                    assert(task_views(Map::<Seq<char>, Task>::empty()) =~= Map::empty());
                    lemma_scanned_has_no_dependencies(views(tree@));
                }
                SkeletonConfig::from_document(path, &doc, true, tree)
            },
            Some(text) => match Document::parse(text) {
                Ok(doc) => {
                    let r = SkeletonConfig::from_document(path, &doc, false, tree);
                    r
                },
                Err(e) => Err(e),
            },
        }
    }

    /// The content entries in the order in which they are applied: each
    /// after the entries it depends on, and otherwise by directory, then file
    /// name. Fails on a dependency that names no entry, and on a cycle.
    pub fn calculate(&self) -> (r: Result<Vec<Content>, SkelError>)
        ensures
            has_unknown_dependency(self.content@) ==> (r matches Err(e) && (e matches SkelError::UnknownDependency { from, to } && self.content@.contains_key(from@)
                && deps_of(self.content@, from@).contains(to@) && !self.content@.contains_key(to@))),
            !has_unknown_dependency(self.content@) ==> match application_order(&self.content) {
                Ok(v) => r matches Ok(cs) && entries_match(cs@, v, self.content@),
                Err(rem) => r matches Err(e) && (e matches SkelError::CycleDetected(ks) && views(ks@) == rem),
            },
            !has_unknown_dependency(self.content@) ==> (r is Ok <==> crate::order::acyclic(
                self.content@,
            )),
            r matches Ok(cs) ==> exists|v: Seq<Seq<char>>|
                #[trigger] entries_match(cs@, v, self.content@)
                && crate::order::is_permutation_of(v, self.content.keys_seq())
                && crate::order::dependencies_first(self.content@, v),
    {
        match check_dependencies(&self.content) {
            Ok(()) => {},
            Err(e) => {
                return Err(e);
            },
        }
        let n = self.content.len();
        proof {
            crate::order::lemma_order_exists_iff_acyclic(&self.content);
        }
        let mut keys: Vec<String> = Vec::new();
        let mut i: usize = 0;
        while i < n
            invariant
                n == self.content.keys_seq().len(),
                i <= n,
                views(keys@) == self.content.keys_seq().subrange(0, i as int),
            decreases n - i,
        {
            let ghost k0 = keys@;
            keys.push(self.content.key_at(i).clone());
            proof {
                assert(views(keys@) =~= views(k0).push(self.content.keys_seq()[i as int]));
            }
            i = i + 1;
        }
        proof {
            assert(self.content.keys_seq().subrange(0, n as int) =~= self.content.keys_seq());
        }
        let base = sort_by_path(&keys);
        let order = match place_in_passes(&self.content, base) {
            Ok(v) => v,
            Err(rem) => {
                return Err(SkelError::CycleDetected(rem));
            },
        };
        proof {
            crate::order::lemma_application_order_is_topological(&self.content);
            self.content.lemma_keys();
        }
        let ghost v = views(order@);
        let mut result: Vec<Content> = Vec::new();
        let mut j: usize = 0;
        while j < order.len()
            invariant
                j <= order@.len(),
                v == views(order@),
                application_order(&self.content) == Ok::<Seq<Seq<char>>, Seq<Seq<char>>>(v),
                crate::order::is_permutation_of(v, self.content.keys_seq()),
                forall|k: Seq<char>| #[trigger]
                    self.content@.contains_key(k) <==> self.content.keys_seq().contains(k),
                result@.len() == j,
                forall|l: int| 0 <= l < j ==> #[trigger] result@[l].same_as(&self.content@[v[l]]),
            decreases order@.len() - j,
        {
            proof {
                assert(v.contains(v[j as int]));
            }
            match self.content.get(order[j].as_str()) {
                Some(c) => {
                    result.push(c.duplicate());
                },
                None => {
                    proof {
                        assert(false);
                    }
                },
            }
            j = j + 1;
        }
        proof {
            assert(entries_match(result@, v, self.content@));
        }
        Ok(result)
    }
}

/// Scanned entries depend on nothing.
proof fn lemma_scanned_has_no_dependencies(tree: Seq<Seq<char>>)
    ensures
        !view_has_unknown_dependency(scanned(tree)),
        forall|k: Seq<char>| #[trigger] scanned(tree).contains_key(k) ==> scanned(tree)[k].3.len() == 0,
    decreases tree.len(),
{
    if tree.len() > 0 {
        lemma_scanned_has_no_dependencies(tree.drop_last());
    }
}

} // verus!
