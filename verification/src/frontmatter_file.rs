//! Documents: a Markdown file with an optional frontmatter header.
//!
//! A document is the parsed form of one file: its name, optional structured
//! frontmatter, body text and filesystem timestamps. The frontmatter framing
//! (the leading `---` delimited block) is split off here, verified; decoding
//! the block's YAML text into a [`Mapping`] happens outside the crate.

use vstd::prelude::*;

use crate::frontmatter_query::{query_is_intersect, query_is_subset, QueryView};
use crate::time::Timestamp;
use crate::value::{Mapping, ValueView};

verus! {

/// One document of the store.
#[derive(Debug)]
pub struct FrontmatterFile {
    pub name: String,
    pub frontmatter: Option<Mapping>,
    pub body: String,
    pub modified: Timestamp,
    pub created: Timestamp,
}

/// The mathematical shape of a document.
#[verifier::ext_equal]
pub struct DocView {
    pub name: Seq<char>,
    pub frontmatter: Option<Seq<(Seq<char>, ValueView)>>,
    pub body: Seq<char>,
    pub modified: int,
    pub created: int,
}

impl View for FrontmatterFile {
    type V = DocView;

    open spec fn view(&self) -> DocView {
        DocView {
            name: self.name@,
            frontmatter: match self.frontmatter {
                Some(m) => Some(m@),
                None => None,
            },
            body: self.body@,
            modified: self.modified@,
            created: self.created@,
        }
    }
}

impl FrontmatterFile {
    pub fn name(&self) -> (r: &str)
        ensures
            r@ == self@.name,
    {
        self.name.as_str()
    }

    pub fn frontmatter(&self) -> (r: Option<&Mapping>)
        ensures
            match r {
                Some(m) => self@.frontmatter == Some(m@),
                None => self@.frontmatter is None,
            },
    {
        self.frontmatter.as_ref()
    }

    pub fn body(&self) -> (r: &str)
        ensures
            r@ == self@.body,
    {
        self.body.as_str()
    }

    pub fn created(&self) -> (r: &Timestamp)
        ensures
            r@ == self@.created,
    {
        &self.created
    }

    pub fn modified(&self) -> (r: &Timestamp)
        ensures
            r@ == self@.modified,
    {
        &self.modified
    }
}

impl Clone for FrontmatterFile {
    /// A clone has the same view.
    fn clone(&self) -> (res: Self)
        ensures
            res@ == self@,
    {
        FrontmatterFile {
            name: self.name.clone(),
            frontmatter: match &self.frontmatter {
                Some(m) => Some(m.clone()),
                None => None,
            },
            body: self.body.clone(),
            modified: self.modified,
            created: self.created,
        }
    }
}

/// An error met while turning one file into a document. The path reading and
/// YAML decoding that can raise it happen outside the crate; the variants
/// carry the offending file's name or path and a description.
#[derive(Debug)]
pub enum ReadFromPathError {
    /// The frontmatter block of the named file was not a valid mapping.
    Yaml(String),
    /// The file could not be read; the payload describes the failure.
    Io(String),
    /// The path names no file (it is empty, a root, or ends in `..`).
    NoFileNamePath(String),
}

/// A read-only projection of a document: the body is condensed to
/// `one_liner`, present only when the body is exactly one line.
#[derive(Debug)]
pub struct Short {
    pub name: String,
    pub frontmatter: Option<Mapping>,
    one_liner: Option<String>,
    pub modified: Timestamp,
    pub created: Timestamp,
}

/// The mathematical shape of a [`Short`].
#[verifier::ext_equal]
pub struct ShortView {
    pub name: Seq<char>,
    pub frontmatter: Option<Seq<(Seq<char>, ValueView)>>,
    pub one_liner: Option<Seq<char>>,
    pub modified: int,
    pub created: int,
}

impl View for Short {
    type V = ShortView;

    closed spec fn view(&self) -> ShortView {
        ShortView {
            name: self.name@,
            frontmatter: match self.frontmatter {
                Some(m) => Some(m@),
                None => None,
            },
            one_liner: match self.one_liner {
                Some(s) => Some(s@),
                None => None,
            },
            modified: self.modified@,
            created: self.created@,
        }
    }
}

impl Clone for Short {
    /// A clone has the same view.
    fn clone(&self) -> (res: Self)
        ensures
            res@ == self@,
    {
        Short {
            name: self.name.clone(),
            frontmatter: match &self.frontmatter {
                Some(m) => Some(m.clone()),
                None => None,
            },
            one_liner: match &self.one_liner {
                Some(s) => Some(s.clone()),
                None => None,
            },
            modified: self.modified,
            created: self.created,
        }
    }
}

/// A body with its one trailing line ending removed: a final `\n`, together
/// with the `\r` right before it if there is one. A `\r` that no `\n`
/// follows is ordinary text, as Rust's line iteration has it.
pub open spec fn spec_trim_line_ending(body: Seq<char>) -> Seq<char> {
    if body.len() >= 2 && body[body.len() - 2] == '\r' && body.last() == '\n' {
        body.take(body.len() - 2)
    } else if body.len() >= 1 && body.last() == '\n' {
        body.drop_last()
    } else {
        body
    }
}

/// The one-line condensation of a body: the body less its line ending, if
/// the body is exactly one line, else nothing.
pub open spec fn spec_one_liner(body: Seq<char>) -> Option<Seq<char>> {
    let t = spec_trim_line_ending(body);
    if body.len() > 0 && !t.contains('\n') {
        Some(t)
    } else {
        None
    }
}

/// The projection a [`Short`] makes of a document.
pub open spec fn short_of(d: DocView) -> ShortView {
    ShortView {
        name: d.name,
        frontmatter: d.frontmatter,
        one_liner: spec_one_liner(d.body),
        modified: d.modified,
        created: d.created,
    }
}

impl Short {
    /// The body, condensed: present only when the body was one line.
    pub fn one_liner(&self) -> (r: Option<&String>)
        ensures
            match r {
                Some(s) => self@.one_liner == Some(s@),
                None => self@.one_liner is None,
            },
    {
        self.one_liner.as_ref()
    }

    /// Projects a document to its summary form.
    pub fn from_file(file: &FrontmatterFile) -> (s: Short)
        ensures
            s@ == short_of(file@),
    {
        let one_liner = body_one_liner(file.body.as_str());
        Short {
            name: file.name.clone(),
            frontmatter: match &file.frontmatter {
                Some(m) => Some(m.clone()),
                None => None,
            },
            one_liner,
            modified: file.modified,
            created: file.created,
        }
    }
}

/// Computes the one-line condensation of a body.
fn body_one_liner(body: &str) -> (r: Option<String>)
    ensures
        match r {
            Some(s) => spec_one_liner(body@) == Some(s@),
            None => spec_one_liner(body@) is None,
        },
{
    let n = body.unicode_len();
    if n == 0 {
        return None;
    }
    let mut end = n;
    if body.get_char(end - 1) == '\n' {
        end -= 1;
        if end >= 1 && body.get_char(end - 1) == '\r' {
            end -= 1;
        }
    }
    proof {
        assert(body@.take(end as int) =~= spec_trim_line_ending(body@));
    }
    let mut i: usize = 0;
    while i < end
        invariant
            n == body@.len(),
            0 <= i <= end <= n,
            body@.take(end as int) == spec_trim_line_ending(body@),
            forall|j: int| 0 <= j < i ==> body@[j] != '\n',
        decreases end - i,
    {
        if body.get_char(i) == '\n' {
            proof {
                assert(spec_trim_line_ending(body@)[i as int] == '\n');
                assert(spec_trim_line_ending(body@).contains('\n'));
            }
            return None;
        }
        i += 1;
    }
    proof {
        assert forall|j: int|
            0 <= j < spec_trim_line_ending(body@).len() implies spec_trim_line_ending(body@)[j]
            != '\n' by {
            assert(body@.take(end as int)[j] == body@[j]);
        }
        assert(!spec_trim_line_ending(body@).contains('\n'));
    }
    Some(body.substring_char(0, end).to_owned())
}

/// The four characters that open and close a frontmatter block.
pub open spec fn fm_delim() -> Seq<char> {
    seq!['-', '-', '-', '\n']
}

/// Whether the delimiter line stands at position `i` of `s`.
pub open spec fn is_delim_at(s: Seq<char>, i: int) -> bool {
    0 <= i && i + 4 <= s.len() && s.subrange(i, i + 4) == fm_delim()
}

/// Whether `s` opens with a delimiter and closes it again later: exactly the
/// contents that carry a frontmatter block.
pub open spec fn has_frontmatter_split(s: Seq<char>) -> bool {
    is_delim_at(s, 0) && exists|i: int| 4 <= i && #[trigger] is_delim_at(s, i)
}

/// Whether the delimiter stands at character position `i` of `content`.
fn delim_at(content: &str, n: usize, i: usize) -> (r: bool)
    requires
        n == content@.len(),
        i + 4 <= n,
    ensures
        r == is_delim_at(content@, i as int),
{
    let r = content.get_char(i) == '-' && content.get_char(i + 1) == '-' && content.get_char(
        i + 2,
    ) == '-' && content.get_char(i + 3) == '\n';
    proof {
        if r {
            assert(content@.subrange(i as int, i + 4) =~= fm_delim());
        } else {
            assert(content@.subrange(i as int, i + 4) != fm_delim()) by {
                if content@.subrange(i as int, i + 4) == fm_delim() {
                    assert(content@.subrange(i as int, i + 4)[0] == content@[i as int]);
                    assert(content@.subrange(i as int, i + 4)[1] == content@[i + 1]);
                    assert(content@.subrange(i as int, i + 4)[2] == content@[i + 2]);
                    assert(content@.subrange(i as int, i + 4)[3] == content@[i + 3]);
                }
            }
        }
    }
    r
}

/// Splits a file's content into its frontmatter block's text and the body
/// after it.
///
/// The content carries a frontmatter block when it opens with a `---` line
/// and that delimiter occurs again; the block is everything between the
/// opening delimiter and the next one, and the body everything after. Any
/// other content is all body, `None` here.
pub fn split_frontmatter(content: &str) -> (r: Option<(String, String)>)
    ensures
        (r is Some) == has_frontmatter_split(content@),
        r is Some ==> exists|i: int|
            {
                &&& 4 <= i
                &&& #[trigger] is_delim_at(content@, i)
                &&& forall|j: int| 4 <= j < i ==> !is_delim_at(content@, j)
                &&& r.unwrap().0@ == content@.subrange(4, i)
                &&& r.unwrap().1@ == content@.subrange(i + 4, content@.len() as int)
            },
{
    let n = content.unicode_len();
    if n < 4 || !delim_at(content, n, 0) {
        return None;
    }
    let mut i: usize = 4;
    while i <= n - 4
        invariant
            n == content@.len(),
            4 <= n,
            4 <= i <= n,
            is_delim_at(content@, 0),
            forall|j: int| 4 <= j < i ==> !is_delim_at(content@, j),
        decreases n - i,
    {
        if delim_at(content, n, i) {
            let fm = content.substring_char(4, i).to_owned();
            let body = content.substring_char(i + 4, n).to_owned();
            return Some((fm, body));
        }
        i += 1;
    }
    proof {
        assert forall|j: int| 4 <= j implies !is_delim_at(content@, j) by {
            if i <= j {
                assert(j + 4 > n);
            }
        }
    }
    None
}

/// The views of a sequence of documents, elementwise.
pub open spec fn doc_views(s: Seq<FrontmatterFile>) -> Seq<DocView> {
    Seq::new(s.len(), |i: int| s[i]@)
}

/// Whether a document matches a query under the given mode: a document with
/// no frontmatter matches only the empty query; one with frontmatter matches
/// by subset, or by intersect when `intersect` is set.
pub open spec fn file_matches(d: DocView, q: QueryView, intersect: bool) -> bool {
    match d.frontmatter {
        None => q.len() == 0,
        Some(m) => if intersect {
            query_is_intersect(q, m)
        } else {
            query_is_subset(q, m)
        },
    }
}

impl FrontmatterFile {
    /// Whether this document matches `query` under the given mode.
    pub fn matches_query(&self, query: &crate::frontmatter_query::FrontmatterQuery, intersect: bool) -> (r:
        bool)
        ensures
            r == file_matches(self@, query@, intersect),
    {
        match &self.frontmatter {
            None => query.is_empty(),
            Some(m) => if intersect {
                query.is_intersect(m)
            } else {
                query.is_subset(m)
            },
        }
    }
}

} // verus!
