use vstd::prelude::*;

use crate::error::{SkelError, Span};

verus! {

/// kdl's parsed document, held opaque.
#[verifier::external_type_specification]
#[verifier::external_body]
pub struct ExKdlDocument(kdl::KdlDocument);

/// kdl's node, held opaque.
#[verifier::external_type_specification]
#[verifier::external_body]
pub struct ExKdlNode(kdl::KdlNode);

/// kdl's entry (an argument or a property), held opaque.
#[verifier::external_type_specification]
#[verifier::external_body]
pub struct ExKdlEntry(kdl::KdlEntry);

/// kdl's identifier (a node or property name), held opaque.
#[verifier::external_type_specification]
#[verifier::external_body]
pub struct ExKdlIdentifier(kdl::KdlIdentifier);

/// kdl's value enum, with its variants visible: strings, integers in four
/// radixes, a float, a boolean, null.
#[verifier::external_type_specification]
pub struct ExKdlValue(kdl::KdlValue);

/// miette's span (offset and length), held opaque.
#[verifier::external_type_specification]
#[verifier::external_body]
pub struct ExSourceSpan(miette::SourceSpan);

/// Relies on `KdlDocument::nodes`: the document's top-level nodes.
pub assume_specification[ kdl::KdlDocument::nodes ](d: &kdl::KdlDocument) -> &[kdl::KdlNode];

/// Relies on `KdlNode::name`: the node's name.
pub assume_specification[ kdl::KdlNode::name ](n: &kdl::KdlNode) -> &kdl::KdlIdentifier;

/// Relies on `KdlNode::entries`: the node's arguments and properties, in order.
pub assume_specification[ kdl::KdlNode::entries ](n: &kdl::KdlNode) -> &[kdl::KdlEntry];

/// Relies on `KdlNode::children`: the node's braced children, if any.
pub assume_specification[ kdl::KdlNode::children ](n: &kdl::KdlNode) -> Option<&kdl::KdlDocument>;

/// Relies on `KdlNode::span`: where the node stands in the parsed text.
pub assume_specification[ kdl::KdlNode::span ](n: &kdl::KdlNode) -> &miette::SourceSpan;

/// Relies on `KdlIdentifier::span`: where the identifier stands in the parsed text.
pub assume_specification[ kdl::KdlIdentifier::span ](i: &kdl::KdlIdentifier) -> &miette::SourceSpan;

/// Relies on `KdlIdentifier::value`: the identifier's text.
pub assume_specification[ kdl::KdlIdentifier::value ](i: &kdl::KdlIdentifier) -> &str;

/// Relies on `KdlEntry::name`: a property's name; none for an argument.
pub assume_specification[ kdl::KdlEntry::name ](e: &kdl::KdlEntry) -> Option<&kdl::KdlIdentifier>;

/// Relies on `KdlEntry::value`: the entry's value.
pub assume_specification[ kdl::KdlEntry::value ](e: &kdl::KdlEntry) -> &kdl::KdlValue;

/// Relies on `KdlEntry::span`: where the entry stands in the parsed text.
pub assume_specification[ kdl::KdlEntry::span ](e: &kdl::KdlEntry) -> &miette::SourceSpan;

/// Relies on `SourceSpan::offset`: where a span starts.
pub assume_specification[ miette::SourceSpan::offset ](s: &miette::SourceSpan) -> usize;

/// Relies on `SourceSpan::len`: how long a span is.
pub assume_specification[ miette::SourceSpan::len ](s: &miette::SourceSpan) -> usize;

/// Whether the KDL parser accepts a text.
pub uninterp spec fn kdl_accepts(text: Seq<char>) -> bool;

/// The library's copy of the document that the KDL parser makes of a text.
pub uninterp spec fn kdl_tree(text: Seq<char>) -> Document;

/// Relies on `FromStr for kdl::KdlDocument`: the KDL parser, whose verdict and
/// tree depend on the text alone; the tree is handed to `Document::from_kdl`.
#[verifier::external_body]
fn parse_kdl(text: &str) -> (r: Result<Document, kdl::KdlError>)
    ensures
        r is Ok <==> kdl_accepts(text@),
        r matches Ok(d) ==> d == kdl_tree(text@) && d.source@ == text@,
{
    text.parse::<kdl::KdlDocument>().map(|d| Document::from_kdl(&d, text, text.len()))
}

/// Relies on `ToString` of the float that a `Base10Float` holds.
#[verifier::external_body]
fn float_text(v: &kdl::KdlValue) -> (r: String)
    requires
        v is Base10Float,
{
    match v {
        kdl::KdlValue::Base10Float(f) => f.to_string(),
        _ => String::new(),
    }
}

/// A scalar value of a configuration document.
#[derive(Clone, Debug, PartialEq, Eq)]
pub enum Scalar {
    Str(String),
    Int(i64),
    /// A floating-point number, as the text it prints as.
    Float(String),
    Bool(bool),
    Null,
}

/// An argument (no name) or a property (a name) of a node.
#[derive(Clone, Debug, PartialEq, Eq)]
pub struct Entry {
    pub name: Option<String>,
    pub value: Scalar,
    pub span: Span,
}

/// A named node with its entries and, in braces, its children.
#[derive(Debug)]
pub struct Node {
    pub name: String,
    pub entries: Vec<Entry>,
    pub children: Option<Document>,
    pub span: Span,
    /// Where the node's name stands.
    pub name_span: Span,
}

/// A parsed configuration document, with the whole text it came from.
#[derive(Debug)]
pub struct Document {
    pub source: String,
    pub nodes: Vec<Node>,
}

impl Scalar {
    /// A copy of this value.
    pub fn copy(&self) -> (r: Scalar)
        ensures
            r == *self,
    {
        match self {
            Scalar::Str(s) => Scalar::Str(s.clone()),
            Scalar::Int(i) => Scalar::Int(*i),
            Scalar::Float(s) => Scalar::Float(s.clone()),
            Scalar::Bool(b) => Scalar::Bool(*b),
            Scalar::Null => Scalar::Null,
        }
    }
}

impl Document {
    /// A document with no nodes.
    pub fn empty(source: &str) -> (r: Document)
        ensures
            r.source@ == source@,
            r.nodes@.len() == 0,
    {
        Document { source: String::from_str(source), nodes: Vec::new() }
    }

    /// Parses a configuration text: a document holding the text when the
    /// KDL parser accepts it, the parser's error otherwise.
    pub fn parse(text: &str) -> (r: Result<Document, SkelError>)
        ensures
            kdl_accepts(text@) ==> (r matches Ok(d) && d == kdl_tree(text@) && d.source@ == text@),
            !kdl_accepts(text@) ==> r matches Err(SkelError::KdlError(_)),
    {
        match parse_kdl(text) {
            Ok(d) => Ok(d),
            Err(e) => Err(SkelError::KdlError(e)),
        }
    }

    /// The library's copy of a parsed document, down to `depth` levels of
    /// children. Every level of children opens with a `{` in the parsed
    /// text, so a depth of the text's length in bytes copies the whole tree.
    fn from_kdl(d: &kdl::KdlDocument, source: &str, depth: usize) -> (r: Document)
        ensures
            r.source@ == source@,
        decreases depth,
    {
        let kdl_nodes = d.nodes();
        let mut nodes: Vec<Node> = Vec::new();
        let mut i: usize = 0;
        while i < kdl_nodes.len()
            invariant
                i <= kdl_nodes@.len(),
            decreases kdl_nodes@.len() - i,
        {
            let n = &kdl_nodes[i];
            let children = match n.children() {
                Some(c) => {
                    if depth == 0 {
                        None
                    } else {
                        Some(Document::from_kdl(c, source, depth - 1))
                    }
                },
                None => None,
            };
            let kdl_entries = n.entries();
            let mut entries: Vec<Entry> = Vec::new();
            let mut j: usize = 0;
            while j < kdl_entries.len()
                invariant
                    j <= kdl_entries@.len(),
                decreases kdl_entries@.len() - j,
            {
                let e = &kdl_entries[j];
                let name = match e.name() {
                    Some(id) => Some(String::from_str(id.value())),
                    None => None,
                };
                let value = scalar_from_kdl(e.value());
                let span = Span { offset: e.span().offset(), len: e.span().len() };
                entries.push(Entry { name, value, span });
                j = j + 1;
            }
            let span = Span { offset: n.span().offset(), len: n.span().len() };
            let name_span = Span { offset: n.name().span().offset(), len: n.name().span().len() };
            nodes.push(
                Node { name: String::from_str(n.name().value()), entries, children, span, name_span },
            );
            i = i + 1;
        }
        Document { source: String::from_str(source), nodes }
    }
}

/// The library's copy of a KDL value.
fn scalar_from_kdl(v: &kdl::KdlValue) -> (r: Scalar) {
    match v {
        kdl::KdlValue::RawString(s) => Scalar::Str(s.clone()),
        kdl::KdlValue::String(s) => Scalar::Str(s.clone()),
        kdl::KdlValue::Base2(i) => Scalar::Int(*i),
        kdl::KdlValue::Base8(i) => Scalar::Int(*i),
        kdl::KdlValue::Base10(i) => Scalar::Int(*i),
        kdl::KdlValue::Base16(i) => Scalar::Int(*i),
        kdl::KdlValue::Base10Float(_) => Scalar::Float(float_text(v)),
        kdl::KdlValue::Bool(b) => Scalar::Bool(*b),
        kdl::KdlValue::Null => Scalar::Null,
    }
}

} // verus!
