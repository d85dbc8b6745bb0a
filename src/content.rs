use vstd::prelude::*;

use crate::error::SkelError;
use crate::text::{find_last, last_index_of, starts_with, str_eq};

verus! {

/// One piece of skeleton content and where it is placed.
#[derive(Clone, Debug, PartialEq, Eq)]
pub struct Content {
    /// Path relative to the content root; the entry's key.
    pub source: String,
    /// Path under the project root.
    pub destination: String,
    pub kind: ContentKind,
    /// Keys of the entries that are placed before this one.
    pub dependencies: Vec<String>,
}

#[derive(Clone, Copy, Debug, PartialEq, Eq, Structural)]
pub enum ContentKind {
    File,
    Template,
}

/// What `str::trim` returns for a text.
pub uninterp spec fn trimmed(s: Seq<char>) -> Seq<char>;

/// What `str::to_lowercase` returns for a text.
pub uninterp spec fn lowercased(s: Seq<char>) -> Seq<char>;

/// Relies on `str::trim`: leading and trailing whitespace removed, a function
/// of the text alone.
#[verifier::external_body]
fn trim(s: &str) -> (r: &str)
    ensures
        r@ == trimmed(s@),
{
    s.trim()
}

/// Relies on `str::to_lowercase`: the lowercase mapping of each character, a
/// function of the text alone.
#[verifier::external_body]
fn to_lowercase(s: &str) -> (r: String)
    ensures
        r@ == lowercased(s@),
{
    s.to_lowercase()
}

/// The kind named by an already trimmed, lowercased word.
pub open spec fn kind_named(word: Seq<char>) -> Option<ContentKind> {
    if word == "file"@ {
        Some(ContentKind::File)
    } else if word == "template"@ {
        Some(ContentKind::Template)
    } else {
        None
    }
}

/// The kind a kind string selects: trimmed and lowercased, it must read
/// `file` or `template`.
pub open spec fn kind_of_text(input: Seq<char>) -> Option<ContentKind> {
    kind_named(lowercased(trimmed(input)))
}

/// The last segment of a path with a leading `dot_` turned into `.`.
pub open spec fn undot(name: Seq<char>) -> Seq<char> {
    if name.len() >= 4 && name.subrange(0, 4) == "dot_"@ {
        seq!['.'] + name.subrange(4, name.len() as int)
    } else {
        name
    }
}

/// Where a source path is placed by default: the same directory, with the
/// file name undotted.
pub open spec fn default_destination(source: Seq<char>) -> Seq<char> {
    let k = last_index_of(source, '/') + 1;
    source.subrange(0, k) + undot(source.subrange(k, source.len() as int))
}

/// Whether a path has a file name: something after its last `/`.
pub open spec fn has_file_name(p: Seq<char>) -> bool {
    let name = p.subrange(last_index_of(p, '/') + 1, p.len() as int);
    name.len() > 0 && name != "."@ && name != ".."@
}

/// Whether a path has a file name.
pub fn path_has_file_name(path: &str) -> (r: bool)
    ensures
        r == has_file_name(path@),
{
    proof {
        crate::text::lemma_last_index_of_bounds(path@, '/');
    }
    let n = path.unicode_len();
    let k: usize = match find_last(path, '/') {
        Some(i) => i + 1,
        None => 0,
    };
    let name = path.substring_char(k, n);
    name.unicode_len() > 0 && !str_eq(name, ".") && !str_eq(name, "..")
}

impl ContentKind {
    /// The kind named by a trimmed, lowercased word, if it names one.
    pub fn from_normalized(word: &str) -> (r: Option<ContentKind>)
        ensures
            r == kind_named(word@),
    {
        let file = "file";
        let template = "template";
        if str_eq(word, file) {
            proof {
                reveal_strlit("file");
            }
            Some(ContentKind::File)
        } else if str_eq(word, template) {
            proof {
                reveal_strlit("file");
                reveal_strlit("template");
            }
            Some(ContentKind::Template)
        } else {
            None
        }
    }

    /// The kind that an optional kind string selects; no string means `File`.
    pub fn from_str_opt(input: Option<&str>) -> (r: Result<ContentKind, SkelError>)
        ensures
            match input {
                None => r == Ok::<ContentKind, SkelError>(ContentKind::File),
                Some(s) => match kind_of_text(s@) {
                    Some(k) => r == Ok::<ContentKind, SkelError>(k),
                    None => r matches Err(SkelError::InvalidContentKind(t)) && t@ == s@,
                },
            },
    {
        match input {
            None => Ok(ContentKind::File),
            Some(s) => {
                let lowered = to_lowercase(trim(s));
                match ContentKind::from_normalized(lowered.as_str()) {
                    Some(k) => Ok(k),
                    None => Err(SkelError::InvalidContentKind(String::from_str(s))),
                }
            },
        }
    }
}

impl Content {
    /// The dependencies of an entry, each as its characters.
    pub open spec fn view_deps(&self) -> Seq<Seq<char>> {
        self.dependencies@.map_values(|d: String| d@)
    }

    /// Whether two entries hold the same texts and kind.
    pub open spec fn same_as(&self, other: &Content) -> bool {
        &&& self.source@ == other.source@
        &&& self.destination@ == other.destination@
        &&& self.kind == other.kind
        &&& self.view_deps() == other.view_deps()
    }

    /// An entry for a source path, placed by default and with no dependencies.
    pub fn from_source(path: &str, kind: Option<&str>) -> (r: Result<Content, SkelError>)
        requires
            has_file_name(path@),
        ensures
            match kind {
                Some(s) if kind_of_text(s@) is None => r matches Err(
                    SkelError::InvalidContentKind(t),
                ) && t@ == s@,
                _ => r matches Ok(c) && {
                    &&& c.source@ == path@
                    &&& c.destination@ == default_destination(path@)
                    &&& c.kind == match kind {
                        Some(s) => kind_of_text(s@)->Some_0,
                        None => ContentKind::File,
                    }
                    &&& c.dependencies@.len() == 0
                },
            },
    {
        let kind = match ContentKind::from_str_opt(kind) {
            Ok(k) => k,
            Err(e) => {
                return Err(e);
            },
        };
        let n = path.unicode_len();
        proof {
            crate::text::lemma_last_index_of_bounds(path@, '/');
        }
        let k: usize = match find_last(path, '/') {
            Some(i) => i + 1,
            None => 0,
        };
        let dir = path.substring_char(0, k);
        let name = path.substring_char(k, n);
        let mut destination = String::from_str(dir);
        let prefix = "dot_";
        proof {
            reveal_strlit("dot_");
        }
        if starts_with(name, prefix) {
            destination.append(".");
            destination.append(name.substring_char(4, name.unicode_len()));
            proof {
                reveal_strlit(".");
                assert(destination@ =~= default_destination(path@));
            }
        } else {
            destination.append(name);
            proof {
                assert(destination@ =~= default_destination(path@));
            }
        }
        Ok(Content { source: String::from_str(path), destination, kind, dependencies: Vec::new() })
    }

    /// A copy of this entry holding the same texts.
    pub fn duplicate(&self) -> (r: Content)
        ensures
            r.same_as(self),
    {
        let mut dependencies: Vec<String> = Vec::new();
        let mut i: usize = 0;
        while i < self.dependencies.len()
            invariant
                i <= self.dependencies@.len(),
                dependencies@.len() == i,
                forall|j: int| 0 <= j < i ==> dependencies@[j]@ == self.dependencies@[j]@,
            decreases self.dependencies@.len() - i,
        {
            dependencies.push(self.dependencies[i].clone());
            i = i + 1;
        }
        let r = Content {
            source: self.source.clone(),
            destination: self.destination.clone(),
            kind: self.kind,
            dependencies,
        };
        assert(r.view_deps() =~= self.view_deps());
        r
    }
}

} // verus!
