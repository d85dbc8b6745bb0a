use vstd::prelude::*;

use crate::config::document::{Document, Entry, Node, Scalar};
use crate::error::{ConfigError, ConfigErrorKind, SkelError};
use crate::table::Table;
use crate::text::str_eq;

verus! {

/// Index of the first node called `name`, or -1.
pub open spec fn first_node_named(nodes: Seq<Node>, name: Seq<char>) -> int
    decreases nodes.len(),
{
    if nodes.len() == 0 {
        -1
    } else if nodes[0].name@ == name {
        0
    } else {
        let r = first_node_named(nodes.drop_first(), name);
        if r < 0 {
            -1
        } else {
            r + 1
        }
    }
}

/// Index of the first argument (an entry with no name), or -1.
pub open spec fn first_arg(entries: Seq<Entry>) -> int
    decreases entries.len(),
{
    if entries.len() == 0 {
        -1
    } else if entries[0].name is None {
        0
    } else {
        let r = first_arg(entries.drop_first());
        if r < 0 {
            -1
        } else {
            r + 1
        }
    }
}

pub proof fn lemma_first_node_named(nodes: Seq<Node>, name: Seq<char>)
    ensures
        -1 <= first_node_named(nodes, name) < nodes.len(),
        first_node_named(nodes, name) >= 0 ==> nodes[first_node_named(nodes, name)].name@ == name,
        forall|j: int|
            0 <= j < nodes.len() && (first_node_named(nodes, name) < 0 || j < first_node_named(
                nodes,
                name,
            )) ==> #[trigger] nodes[j].name@ != name,
    decreases nodes.len(),
{
    if nodes.len() > 0 && nodes[0].name@ != name {
        let rest = nodes.drop_first();
        lemma_first_node_named(rest, name);
        assert forall|j: int|
            0 <= j < nodes.len() && (first_node_named(nodes, name) < 0 || j < first_node_named(
                nodes,
                name,
            )) implies #[trigger] nodes[j].name@ != name by {
            if j > 0 {
                assert(nodes[j] == rest[j - 1]);
            }
        }
    }
}

pub proof fn lemma_first_arg(entries: Seq<Entry>)
    ensures
        -1 <= first_arg(entries) < entries.len(),
        first_arg(entries) >= 0 ==> entries[first_arg(entries)].name is None,
        forall|j: int|
            0 <= j < entries.len() && (first_arg(entries) < 0 || j < first_arg(entries))
                ==> #[trigger] entries[j].name is Some,
    decreases entries.len(),
{
    if entries.len() > 0 && entries[0].name is Some {
        let rest = entries.drop_first();
        lemma_first_arg(rest);
        assert forall|j: int|
            0 <= j < entries.len() && (first_arg(entries) < 0 || j < first_arg(entries))
                implies #[trigger] entries[j].name is Some by {
            if j > 0 {
                assert(entries[j] == rest[j - 1]);
            }
        }
    }
}

/// The first argument of a node, which must be a string.
pub open spec fn string_arg(node: Node) -> Result<Seq<char>, ConfigErrorKind> {
    let i = first_arg(node.entries@);
    if i < 0 {
        Err(ConfigErrorKind::MissingArgument)
    } else {
        match node.entries@[i].value {
            Scalar::Str(s) => Ok(s@),
            _ => Err(ConfigErrorKind::InvalidString),
        }
    }
}

/// The string argument of the first node called `name`, or `default` when
/// there is no such node.
pub open spec fn first_string_arg_of(doc: Document, name: Seq<char>, default: Seq<char>) -> Result<
    Seq<char>,
    ConfigErrorKind,
> {
    let i = first_node_named(doc.nodes@, name);
    if i < 0 {
        Ok(default)
    } else {
        string_arg(doc.nodes@[i])
    }
}

/// A `Result` of a text matches a `Result` of its characters.
pub open spec fn text_result(r: Result<String, SkelError>, s: Result<Seq<char>, ConfigErrorKind>) -> bool {
    match s {
        Ok(t) => r matches Ok(x) && x@ == t,
        Err(k) => r matches Err(e) && e.is_config(k),
    }
}

/// The decimal digit `d`.
pub open spec fn digit_char(d: int) -> char {
    if d == 0 {
        '0'
    } else if d == 1 {
        '1'
    } else if d == 2 {
        '2'
    } else if d == 3 {
        '3'
    } else if d == 4 {
        '4'
    } else if d == 5 {
        '5'
    } else if d == 6 {
        '6'
    } else if d == 7 {
        '7'
    } else if d == 8 {
        '8'
    } else {
        '9'
    }
}

/// The decimal digits of a natural number.
pub open spec fn digits(n: nat) -> Seq<char>
    decreases n,
{
    if n < 10 {
        seq![digit_char(n as int)]
    } else {
        digits(n / 10).push(digit_char((n % 10) as int))
    }
}

/// An integer in decimal, with a leading `-` when negative.
pub open spec fn decimal(i: int) -> Seq<char> {
    if i < 0 {
        seq!['-'] + digits((-i) as nat)
    } else {
        digits(i as nat)
    }
}

/// Relies on `ToString` for `i64`: its decimal form.
#[verifier::external_body]
fn int_text(i: i64) -> (r: String)
    ensures
        r@ == decimal(i as int),
{
    i.to_string()
}

/// The text a value stands for where a text is wanted.
pub open spec fn text_of(v: Scalar) -> Seq<char> {
    match v {
        Scalar::Str(s) => s@,
        Scalar::Int(i) => decimal(i as int),
        Scalar::Float(t) => t@,
        Scalar::Bool(b) => if b {
            "true"@
        } else {
            "false"@
        },
        Scalar::Null => "null"@,
    }
}

impl Scalar {
    /// The value as text: strings as they are, numbers and booleans printed,
    /// null as `null`.
    pub fn to_text(&self) -> (r: String)
        ensures
            r@ == text_of(*self),
    {
        match self {
            Scalar::Str(s) => s.clone(),
            Scalar::Int(i) => int_text(*i),
            Scalar::Float(t) => t.clone(),
            Scalar::Bool(b) => {
                if *b {
                    String::from_str("true")
                } else {
                    String::from_str("false")
                }
            },
            Scalar::Null => String::from_str("null"),
        }
    }
}

/// The text of an entry's value.
pub fn kdl_entry_to_string(entry: &Entry) -> (r: String)
    ensures
        r@ == text_of(entry.value),
{
    entry.value.to_text()
}

/// Where the first node called `name` stands.
pub fn find_node(nodes: &Vec<Node>, name: &str) -> (r: Option<usize>)
    ensures
        match r {
            Some(i) => i as int == first_node_named(nodes@, name@) && i < nodes@.len()
                && nodes@[i as int].name@ == name@,
            None => first_node_named(nodes@, name@) == -1,
        },
{
    proof {
        lemma_first_node_named(nodes@, name@);
    }
    let mut i: usize = 0;
    while i < nodes.len()
        invariant
            i <= nodes@.len(),
            forall|j: int| 0 <= j < i ==> #[trigger] nodes@[j].name@ != name@,
            -1 <= first_node_named(nodes@, name@) < nodes@.len(),
            first_node_named(nodes@, name@) >= 0 ==> nodes@[first_node_named(nodes@, name@)].name@
                == name@,
            forall|j: int|
                0 <= j < nodes@.len() && (first_node_named(nodes@, name@) < 0 || j
                    < first_node_named(nodes@, name@)) ==> #[trigger] nodes@[j].name@ != name@,
        decreases nodes@.len() - i,
    {
        if str_eq(nodes[i].name.as_str(), name) {
            return Some(i);
        }
        i = i + 1;
    }
    None
}

/// Where the first argument of a node stands.
pub fn find_arg(entries: &Vec<Entry>) -> (r: Option<usize>)
    ensures
        match r {
            Some(i) => i as int == first_arg(entries@) && i < entries@.len() && entries@[i as int].name is None,
            None => first_arg(entries@) == -1,
        },
{
    proof {
        lemma_first_arg(entries@);
    }
    let mut i: usize = 0;
    while i < entries.len()
        invariant
            i <= entries@.len(),
            forall|j: int| 0 <= j < i ==> #[trigger] entries@[j].name is Some,
            -1 <= first_arg(entries@) < entries@.len(),
            first_arg(entries@) >= 0 ==> entries@[first_arg(entries@)].name is None,
            forall|j: int|
                0 <= j < entries@.len() && (first_arg(entries@) < 0 || j < first_arg(entries@))
                    ==> #[trigger] entries@[j].name is Some,
        decreases entries@.len() - i,
    {
        if entries[i].name.is_none() {
            return Some(i);
        }
        i = i + 1;
    }
    None
}

/// The first argument of `node`, which must be a string.
pub fn string_arg_of(doc: &Document, node: &Node) -> (r: Result<String, SkelError>)
    ensures
        text_result(r, string_arg(*node)),
{
    match find_arg(&node.entries) {
        None => Err(SkelError::ConfigError(ConfigError::from_missing_argument(doc, node))),
        Some(i) => match &node.entries[i].value {
            Scalar::Str(s) => Ok(s.clone()),
            _ => Err(SkelError::ConfigError(ConfigError::from_invalid_string_argument(doc, node, i))),
        },
    }
}

/// The string argument of the first node called `name`; `default` when no
/// node is called so.
pub fn first_string_arg(document: &Document, name: &str, default: String) -> (r: Result<
    String,
    SkelError,
>)
    ensures
        text_result(r, first_string_arg_of(*document, name@, default@)),
{
    match find_node(&document.nodes, name) {
        None => Ok(default),
        Some(i) => string_arg_of(document, &document.nodes[i]),
    }
}

/// The bindings of the children of a `variables` node, each the first
/// argument of a child under the child's name; a later child overrides an
/// earlier one of the same name. `Err` when some child has no argument.
pub open spec fn var_bindings(nodes: Seq<Node>) -> Result<Map<Seq<char>, Scalar>, ()>
    decreases nodes.len(),
{
    if nodes.len() == 0 {
        Ok(Map::empty())
    } else {
        match var_bindings(nodes.drop_last()) {
            Err(u) => Err(u),
            Ok(m) => {
                let n = nodes.last();
                let i = first_arg(n.entries@);
                if i < 0 {
                    Err(())
                } else {
                    Ok(m.insert(n.name@, n.entries@[i].value))
                }
            },
        }
    }
}

proof fn lemma_var_bindings_err(nodes: Seq<Node>, i: int)
    requires
        0 <= i <= nodes.len(),
        var_bindings(nodes.subrange(0, i)) is Err,
    ensures
        var_bindings(nodes) is Err,
    decreases nodes.len(),
{
    if i == nodes.len() {
        assert(nodes.subrange(0, i) =~= nodes);
    } else {
        assert(nodes.drop_last().subrange(0, i) =~= nodes.subrange(0, i));
        lemma_var_bindings_err(nodes.drop_last(), i);
    }
}

/// The variables a document binds: those of its first `variables` node.
pub open spec fn variables_of(doc: Document) -> Result<Map<Seq<char>, Scalar>, ()> {
    let i = first_node_named(doc.nodes@, "variables"@);
    if i < 0 {
        Ok(Map::empty())
    } else {
        match doc.nodes@[i].children {
            None => Ok(Map::empty()),
            Some(c) => var_bindings(c.nodes@),
        }
    }
}

/// The variables that a document binds.
pub fn variables_from_kdl_document(doc: &Document) -> (r: Result<Table<Scalar>, SkelError>)
    ensures
        match variables_of(*doc) {
            Ok(m) => r matches Ok(t) && t@ == m,
            Err(_) => r matches Err(e) && e.is_config(ConfigErrorKind::MissingArgument),
        },
{
    let mut variables: Table<Scalar> = Table::new();
    let node = match find_node(&doc.nodes, "variables") {
        None => {
            return Ok(variables);
        },
        Some(i) => &doc.nodes[i],
    };
    let children = match &node.children {
        None => {
            return Ok(variables);
        },
        Some(c) => c,
    };
    let mut i: usize = 0;
    while i < children.nodes.len()
        invariant
            i <= children.nodes@.len(),
            var_bindings(children.nodes@.subrange(0, i as int)) == Ok::<
                Map<Seq<char>, Scalar>,
                (),
            >(variables@),
            variables_of(*doc) == var_bindings(children.nodes@),
        decreases children.nodes@.len() - i,
    {
        let child = &children.nodes[i];
        let ghost pre = children.nodes@.subrange(0, i + 1);
        proof {
            assert(pre.drop_last() =~= children.nodes@.subrange(0, i as int));
            assert(pre.last() == *child);
        }
        match find_arg(&child.entries) {
            None => {
                proof {
                    assert(first_arg(pre.last().entries@) < 0);
                    assert(var_bindings(pre) is Err);
                    lemma_var_bindings_err(children.nodes@, i + 1);
                }
                return Err(
                    SkelError::ConfigError(ConfigError::from_missing_argument(children, child)),
                );
            },
            Some(j) => {
                variables.insert(child.name.clone(), child.entries[j].value.copy());
            },
        }
        i = i + 1;
    }
    proof {
        assert(children.nodes@.subrange(0, i as int) =~= children.nodes@);
    }
    Ok(variables)
}

} // verus!
