//! File paths as UTF-8 strings, with their file name and extension.
//!
//! The store keys documents by path. A path here is plain text. Its file
//! name is the last real segment, as std's path parsing finds it: trailing
//! separators and lone-dot segments are skipped, and a path with nothing
//! left, or whose last segment is `..`, names no file and is rejected. What
//! follows the last `.` inside the name (not at its start) is the extension.

use vstd::prelude::*;

verus! {

/// A path that names a file, with the file name and extension split out.
#[derive(Debug)]
pub struct UTF8FilePath {
    path: String,
    name: String,
    extension: Option<String>,
}

/// Why a string could not become a [`UTF8FilePath`].
#[derive(Debug, PartialEq, Eq, Structural, Clone, Copy)]
pub enum Error {
    /// The path has no file-name component: nothing remains before its
    /// trailing separators and `.` segments, or its last segment is `..`.
    NoFileName,
    /// The path's bytes are not UTF-8 (raised where a raw path is turned
    /// into text, outside this crate).
    NonUTF8,
}

/// The position right after the last `/` of `p`: where the file name starts.
pub open spec fn file_name_start(p: Seq<char>) -> int
    decreases p.len(),
{
    if p.len() == 0 {
        0
    } else if p.last() == '/' {
        p.len() as int
    } else {
        file_name_start(p.drop_last())
    }
}

/// A path with its trailing separators and lone-dot segments removed: what
/// remains decides the file name, as std's path parsing has it.
pub open spec fn trim_trailing(p: Seq<char>) -> Seq<char>
    decreases p.len(),
{
    if p.len() >= 1 && p.last() == '/' {
        trim_trailing(p.drop_last())
    } else if p == seq!['.'] {
        Seq::empty()
    } else if p.len() >= 2 && p[p.len() - 2] == '/' && p.last() == '.' {
        trim_trailing(p.drop_last())
    } else {
        p
    }
}

/// The file name of `p`: the last segment once trailing separators and
/// lone-dot segments are skipped, unless nothing remains or that segment is
/// `..`.
pub open spec fn spec_file_name(p: Seq<char>) -> Option<Seq<char>> {
    let t = trim_trailing(p);
    let nm = t.skip(file_name_start(t));
    if nm.len() == 0 || nm == seq!['.', '.'] {
        None
    } else {
        Some(nm)
    }
}

/// The position right after the last `.` of a file name.
pub open spec fn ext_start(nm: Seq<char>) -> int
    decreases nm.len(),
{
    if nm.len() == 0 {
        0
    } else if nm.last() == '.' {
        nm.len() as int
    } else {
        ext_start(nm.drop_last())
    }
}

/// The extension of a file name: what follows its last `.`, provided that
/// dot is neither absent nor the name's first character.
pub open spec fn spec_extension(nm: Seq<char>) -> Option<Seq<char>> {
    if ext_start(nm) >= 2 {
        Some(nm.skip(ext_start(nm)))
    } else {
        None
    }
}

/// Finds the end of `trim_trailing` of the view of `s`.
fn find_trimmed_end(s: &str, n: usize) -> (r: usize)
    requires
        n == s@.len(),
    ensures
        r <= n,
        s@.take(r as int) == trim_trailing(s@),
{
    let mut end = n;
    proof {
        assert(s@.take(n as int) =~= s@);
    }
    loop
        invariant
            n == s@.len(),
            0 <= end <= n,
            trim_trailing(s@) == trim_trailing(s@.take(end as int)),
        decreases end,
    {
        let ghost t = s@.take(end as int);
        proof {
            if end >= 1 {
                assert(t.last() == s@[end - 1]);
                assert(t.drop_last() =~= s@.take(end - 1));
            }
            if end >= 2 {
                assert(t[end - 2] == s@[end - 2]);
            }
        }
        if end >= 1 && s.get_char(end - 1) == '/' {
            end -= 1;
        } else if end == 1 && s.get_char(0) == '.' {
            proof {
                assert(t =~= seq!['.']);
                assert(s@.take(0) =~= Seq::<char>::empty());
            }
            end -= 1;
        } else if end >= 2 && s.get_char(end - 2) == '/' && s.get_char(end - 1) == '.' {
            end -= 1;
        } else {
            proof {
                assert(t != seq!['.']) by {
                    if t == seq!['.'] {
                        assert(t.len() == 1);
                        assert(t[0] == '.');
                        assert(s@[0] == '.');
                    }
                }
                assert(trim_trailing(t) == t);
            }
            return end;
        }
    }
}

/// Finds `file_name_start` of the first `end` characters of `s`.
fn find_file_name_start(s: &str, end: usize) -> (r: usize)
    requires
        end <= s@.len(),
    ensures
        r == file_name_start(s@.take(end as int)),
        r <= end,
{
    let mut i = end;
    while i > 0
        invariant
            end <= s@.len(),
            0 <= i <= end,
            file_name_start(s@.take(end as int)) == file_name_start(s@.take(i as int)),
        decreases i,
    {
        proof {
            assert(s@.take(i as int).last() == s@[i - 1]);
            assert(s@.take(i as int).drop_last() =~= s@.take(i - 1));
        }
        if s.get_char(i - 1) == '/' {
            return i;
        }
        i -= 1;
    }
    proof {
        assert(s@.take(0) =~= Seq::<char>::empty());
    }
    0
}

/// Finds `ext_start` of the view of `s` within its first `n` characters.
fn find_ext_start(s: &str, n: usize) -> (r: usize)
    requires
        n == s@.len(),
    ensures
        r == ext_start(s@),
        r <= n,
{
    let mut i = n;
    proof {
        assert(s@.take(n as int) =~= s@);
    }
    while i > 0
        invariant
            n == s@.len(),
            0 <= i <= n,
            ext_start(s@) == ext_start(s@.take(i as int)),
        decreases i,
    {
        proof {
            assert(s@.take(i as int).last() == s@[i - 1]);
            assert(s@.take(i as int).drop_last() =~= s@.take(i - 1));
        }
        if s.get_char(i - 1) == '.' {
            return i;
        }
        i -= 1;
    }
    0
}

impl UTF8FilePath {
    #[verifier::type_invariant]
    spec fn type_inv(self) -> bool {
        &&& spec_file_name(self.path@) == Some(self.name@)
        &&& match self.extension {
            Some(e) => spec_extension(self.name@) == Some(e@),
            None => spec_extension(self.name@) is None,
        }
    }

    /// Parses a path string; the last segment after trailing separators and
    /// lone-dot segments becomes the file name. A path without a proper file
    /// name is rejected, and only such paths are.
    pub fn new(path: String) -> (r: Result<UTF8FilePath, Error>)
        ensures
            match r {
                Ok(p) => p@ == path@ && spec_file_name(path@) is Some,
                Err(e) => spec_file_name(path@) is None && e == Error::NoFileName,
            },
    {
        let ghost t = trim_trailing(path@);
        let n = path.as_str().unicode_len();
        let end = find_trimmed_end(path.as_str(), n);
        let start = find_file_name_start(path.as_str(), end);
        let name_len = end - start;
        if name_len == 0 {
            return Err(Error::NoFileName);
        }
        proof {
            assert(t.skip(file_name_start(t)) =~= path@.subrange(start as int, end as int));
        }
        if name_len == 2 && path.as_str().get_char(start) == '.' && path.as_str().get_char(
            start + 1,
        ) == '.' {
            proof {
                assert(t.skip(file_name_start(t)) =~= seq!['.', '.']);
            }
            return Err(Error::NoFileName);
        }
        proof {
            let nm = t.skip(file_name_start(t));
            if nm == seq!['.', '.'] {
                assert(nm.len() == 2);
                assert(nm[0] == '.');
                assert(nm[1] == '.');
            }
        }
        let name = path.as_str().substring_char(start, end).to_owned();
        let ne = name.as_str().unicode_len();
        let es = find_ext_start(name.as_str(), ne);
        let extension = if es >= 2 {
            Some(name.as_str().substring_char(es, ne).to_owned())
        } else {
            None
        };
        Ok(UTF8FilePath { path, name, extension })
    }

    /// The file name: the path's last real segment.
    pub fn name(&self) -> (r: &str)
        ensures
            Some(r@) == spec_file_name(self@),
    {
        proof {
            use_type_invariant(self);
        }
        self.name.as_str()
    }

    /// The whole path.
    pub fn as_str(&self) -> (r: &str)
        ensures
            r@ == self@,
    {
        self.path.as_str()
    }

    /// The file name's extension, if it has one.
    pub fn extension(&self) -> (r: Option<&str>)
        ensures
            match r {
                Some(e) => spec_extension(spec_file_name(self@).unwrap()) == Some(e@),
                None => spec_extension(spec_file_name(self@).unwrap()) is None,
            },
            spec_file_name(self@) is Some,
    {
        proof {
            use_type_invariant(self);
        }
        match &self.extension {
            Some(e) => Some(e.as_str()),
            None => None,
        }
    }

    /// Whether two paths are the same text.
    pub fn path_eq(&self, other: &UTF8FilePath) -> (r: bool)
        ensures
            r == (self@ == other@),
    {
        crate::text::str_eq(self.path.as_str(), other.path.as_str())
    }
}

impl View for UTF8FilePath {
    type V = Seq<char>;

    closed spec fn view(&self) -> Seq<char> {
        self.path@
    }
}

impl Clone for UTF8FilePath {
    /// A clone is the same path.
    fn clone(&self) -> (res: Self)
        ensures
            res@ == self@,
    {
        proof {
            use_type_invariant(self);
        }
        UTF8FilePath {
            path: self.path.clone(),
            name: self.name.clone(),
            extension: match &self.extension {
                Some(e) => Some(e.clone()),
                None => None,
            },
        }
    }
}

} // verus!
