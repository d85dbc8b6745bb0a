use vstd::prelude::*;

use crate::config::document::{Document, Node};

verus! {

/// std's I/O error, held opaque; only the code around the library makes one.
#[verifier::external_type_specification]
#[verifier::external_body]
pub struct ExIoError(std::io::Error);

/// kdl's parse error, held opaque and handed on.
#[verifier::external_type_specification]
#[verifier::external_body]
pub struct ExKdlError(kdl::KdlError);

/// A region of a configuration text, in bytes from its start.
#[derive(Clone, Copy, Debug, PartialEq, Eq, Structural)]
pub struct Span {
    pub offset: usize,
    pub len: usize,
}

/// Every failure that loading, ordering or merging can report.
#[derive(Debug)]
pub enum SkelError {
    /// Reading a configuration file failed for a reason other than its absence.
    IoError(std::io::Error),
    /// The configuration text is not a well-formed document.
    KdlError(kdl::KdlError),
    /// The document is well formed but says something the loader refuses.
    ConfigError(ConfigError),
    /// A failure not otherwise modelled.
    Other(String),
    /// The content entries left over when no further entry could be placed.
    CycleDetected(Vec<String>),
    /// `from` depends on `to`, which is no content key.
    UnknownDependency { from: String, to: String },
    /// A content kind that is neither `file` nor `template`.
    InvalidContentKind(String),
}

/// A refusal that points at a place in the configuration text.
#[derive(Clone, Debug, PartialEq, Eq)]
pub struct ConfigError {
    pub config: String,
    pub span: Span,
    pub label: Option<&'static str>,
    pub help: Option<&'static str>,
    pub kind: ConfigErrorKind,
}

#[derive(Clone, Copy, Debug, PartialEq, Eq, Structural)]
pub enum ConfigErrorKind {
    MissingArgument,
    InvalidString,
    MissingSource,
    InvalidFloat,
}

impl ConfigErrorKind {
    /// The message shown for this kind of refusal.
    pub fn message(&self) -> (r: &'static str)
        ensures
            r@ == match *self {
                ConfigErrorKind::MissingArgument => "missing required argument"@,
                ConfigErrorKind::InvalidString => "invalid string value"@,
                ConfigErrorKind::MissingSource => "missing source file"@,
                ConfigErrorKind::InvalidFloat => "invalid float"@,
            },
    {
        match self {
            ConfigErrorKind::MissingArgument => "missing required argument",
            ConfigErrorKind::InvalidString => "invalid string value",
            ConfigErrorKind::MissingSource => "missing source file",
            ConfigErrorKind::InvalidFloat => "invalid float",
        }
    }
}

impl SkelError {
    /// Whether this is a refusal of the given kind.
    pub open spec fn is_config(&self, kind: ConfigErrorKind) -> bool {
        match self {
            SkelError::ConfigError(e) => e.kind == kind,
            _ => false,
        }
    }
}

} // verus!

verus! {

/// How many bytes UTF-8 takes for a character.
pub open spec fn utf8_len(c: char) -> int {
    if (c as u32) < 0x80 {
        1
    } else if (c as u32) < 0x800 {
        2
    } else if (c as u32) < 0x10000 {
        3
    } else {
        4
    }
}

/// The index of the character that starts at byte `b` of the UTF-8 form of
/// `s` (or `s`'s length, where `b` is its end), or -1 where none does.
pub open spec fn char_index_at_byte(s: Seq<char>, b: int) -> int
    decreases s.len(),
{
    if b == 0 {
        0
    } else if b < 0 || s.len() == 0 {
        -1
    } else {
        let r = char_index_at_byte(s.drop_first(), b - utf8_len(s[0]));
        if r < 0 {
            -1
        } else {
            r + 1
        }
    }
}

proof fn lemma_char_index_bound(s: Seq<char>, b: int)
    ensures
        char_index_at_byte(s, b) <= s.len(),
        char_index_at_byte(s, b) >= -1,
    decreases s.len(),
{
    if b != 0 && b >= 0 && s.len() > 0 {
        lemma_char_index_bound(s.drop_first(), b - utf8_len(s[0]));
    }
}

/// The byte just after a node's name, where it fits in a `usize` with room
/// for one more.
pub open spec fn name_end(node: &Node) -> Option<int> {
    let end = node.name_span.offset + node.name_span.len;
    if end < usize::MAX {
        Some(end)
    } else {
        None
    }
}

fn utf8_width(c: char) -> (r: usize)
    ensures
        r as int == utf8_len(c),
{
    let u = c as u32;
    if u < 0x80 {
        1
    } else if u < 0x800 {
        2
    } else if u < 0x10000 {
        3
    } else {
        4
    }
}

/// The character index just after a node's name in `source`, with the byte
/// offset it stands for.
fn insertion_point(source: &str, node: &Node) -> (r: Option<(usize, usize)>)
    ensures
        match name_end(node) {
            Some(end) if char_index_at_byte(source@, end) >= 0 => r == Some(
                (char_index_at_byte(source@, end) as usize, end as usize),
            ) && char_index_at_byte(source@, end) <= source@.len(),
            _ => r is None,
        },
{
    if node.name_span.len >= usize::MAX - node.name_span.offset {
        return None;
    }
    let end = node.name_span.offset + node.name_span.len;
    let n = source.unicode_len();
    let mut i: usize = 0;
    let mut acc: usize = 0;
    proof {
        assert(source@.subrange(0, n as int) =~= source@);
        lemma_char_index_bound(source@, end as int);
    }
    while acc < end && i < n
        invariant
            n == source@.len(),
            i <= n,
            acc <= end,
            name_end(node) == Some(end as int),
            char_index_at_byte(source@, end as int) == {
                let r = char_index_at_byte(source@.subrange(i as int, n as int), end - acc);
                if r < 0 {
                    -1
                } else {
                    r + i
                }
            },
            char_index_at_byte(source@.subrange(i as int, n as int), end - acc) <= n - i,
        decreases n - i,
    {
        let c = source.get_char(i);
        let w = utf8_width(c);
        let ghost rest = source@.subrange(i as int, n as int);
        proof {
            assert(rest[0] == c);
            assert(rest.drop_first() =~= source@.subrange(i + 1, n as int));
            lemma_char_index_bound(rest.drop_first(), end - acc - w);
        }
        if w > end - acc {
            proof {
                assert(end - acc - w < 0);
                assert(char_index_at_byte(rest.drop_first(), end - acc - w) == -1);
                assert(rest.len() > 0);
                assert(char_index_at_byte(rest, end - acc) == -1);
            }
            return None;
        }
        acc = acc + w;
        i = i + 1;
    }
    if acc == end {
        Some((i, end))
    } else {
        proof {
            assert(source@.subrange(i as int, n as int).len() == 0);
        }
        None
    }
}

impl ConfigError {
    /// A node that lacks its argument: the text with an argument `"ARG"`
    /// put after the node's name, pointing at it. Where the name's place
    /// cannot be found in the text, the text as it is, pointing at the node.
    pub fn from_missing_argument(doc: &Document, node: &Node) -> (r: ConfigError)
        ensures
            r.kind == ConfigErrorKind::MissingArgument,
            r.help == Some("this node requires an argument"),
            r.label == Some("insert an argument here"),
            match name_end(node) {
                Some(end) if char_index_at_byte(doc.source@, end) >= 0 => {
                    let i = char_index_at_byte(doc.source@, end);
                    &&& r.config@ == doc.source@.subrange(0, i) + " \"ARG\""@ + doc.source@.subrange(
                        i,
                        doc.source@.len() as int,
                    )
                    &&& r.span == Span { offset: (end + 1) as usize, len: 5 }
                },
                _ => r.config@ == doc.source@ && r.span == node.span,
            },
    {
        let (config, span) = match insertion_point(doc.source.as_str(), node) {
            Some((i, end)) => {
                let n = doc.source.unicode_len();
                let mut text = String::from_str(doc.source.as_str().substring_char(0, i));
                text.append(" \"ARG\"");
                text.append(doc.source.as_str().substring_char(i, n));
                (text, Span { offset: end + 1, len: 5 })
            },
            None => (doc.source.clone(), node.span),
        };
        ConfigError {
            config,
            span,
            help: Some("this node requires an argument"),
            label: Some("insert an argument here"),
            kind: ConfigErrorKind::MissingArgument,
        }
    }

    /// An entry that should hold a string and does not.
    pub fn from_invalid_string_argument(doc: &Document, node: &Node, index: usize) -> (r: ConfigError)
        requires
            index < node.entries@.len(),
        ensures
            r.kind == ConfigErrorKind::InvalidString,
            r.config@ == doc.source@,
            r.span == node.entries@[index as int].span,
            r.help == Some("the indicated argument must be a string"),
            r.label == None::<&'static str>,
    {
        ConfigError {
            config: doc.source.clone(),
            span: node.entries[index].span,
            help: Some("the indicated argument must be a string"),
            label: None,
            kind: ConfigErrorKind::InvalidString,
        }
    }

    /// A `content` node naming a source that the content root lacks; `index`
    /// is where its argument stands.
    pub fn from_missing_source(doc: &Document, node: &Node, index: usize) -> (r: ConfigError)
        requires
            index < node.entries@.len(),
        ensures
            r.kind == ConfigErrorKind::MissingSource,
            r.config@ == doc.source@,
            r.span == node.entries@[index as int].span,
            r.help == Some("the file indicated does not exist"),
            r.label == None::<&'static str>,
    {
        ConfigError {
            config: doc.source.clone(),
            span: node.entries[index].span,
            help: Some("the file indicated does not exist"),
            label: None,
            kind: ConfigErrorKind::MissingSource,
        }
    }
}

} // verus!
