//! A single snippet file: title, tags and body parsed from its lines.

use crate::parse::join_from;
use crate::parse::join_nl;
use crate::parse::split_tags;
use crate::parse::tags_of;
use vstd::prelude::*;
use vstd::string::StrSliceExecFns;

verus! {

/// The characters of `p` after its last slash; all of `p` when there is
/// no slash, and empty when `p` ends with one.
pub open spec fn last_component(p: Seq<char>) -> Seq<char>
    decreases p.len(),
{
    if p.len() == 0 {
        Seq::empty()
    } else if p.last() == '/' {
        Seq::empty()
    } else {
        last_component(p.drop_last()).push(p.last())
    }
}

/// The file-name component of the path `p`, found the way
/// `std::path::Path::file_name` finds it on Unix-style paths: trailing
/// slashes are ignored, a trailing `.` component stands for the directory
/// itself and is skipped, and a path that is empty, all slashes, or ends
/// in a `..` component has no file-name component.
pub open spec fn file_name_of(p: Seq<char>) -> Option<Seq<char>>
    decreases p.len(),
{
    if p.len() == 0 {
        None
    } else if p.last() == '/' {
        file_name_of(p.drop_last())
    } else {
        let name = last_component(p);
        if name == seq!['.'] {
            file_name_of(p.drop_last())
        } else if name == seq!['.', '.'] {
            None
        } else {
            Some(name)
        }
    }
}

/// The file-name extension that marks a snippet file.
pub open spec fn snip_suffix() -> Seq<char> {
    seq!['.', 's', 'n', 'i', 'p']
}

/// `p` names a snippet file: its last component carries the snippet
/// extension behind a non-empty stem.
pub open spec fn is_snip_path(p: Seq<char>) -> bool {
    let name = last_component(p);
    name.len() > snip_suffix().len() && name.skip(name.len() - snip_suffix().len() as int)
        == snip_suffix()
}

/// When no slash stands at or after position `j`, and a slash stands just
/// before it (or `j` is the start), the last component is everything from
/// `j` on.
proof fn lemma_last_component_at(p: Seq<char>, j: int)
    requires
        0 <= j <= p.len(),
        forall|k: int| j <= k < p.len() ==> p[k] != '/',
        j > 0 ==> p[j - 1] == '/',
    ensures
        last_component(p) == p.subrange(j, p.len() as int),
    decreases p.len(),
{
    if j == p.len() {
        assert(p.subrange(j, p.len() as int) =~= Seq::<char>::empty());
        if p.len() > 0 {
            assert(p.last() == '/');
        }
    } else {
        assert(p.last() != '/');
        lemma_last_component_at(p.drop_last(), j);
        assert(p.drop_last().subrange(j, p.len() - 1) =~= p.subrange(j, p.len() - 1));
        assert(p.subrange(j, p.len() - 1).push(p.last()) =~= p.subrange(j, p.len() as int));
    }
}

/// The position right after the last slash of `path`; zero when there is
/// no slash.
fn component_start(path: &str) -> (j: usize)
    ensures
        j <= path@.len(),
        forall|k: int| j <= k < path@.len() ==> path@[k] != '/',
        j > 0 ==> path@[j - 1] == '/',
        last_component(path@) == path@.subrange(j as int, path@.len() as int),
{
    let n = path.unicode_len();
    let mut j: usize = 0;
    let mut i: usize = 0;
    while i < n
        invariant
            j <= i <= n,
            n == path@.len(),
            forall|k: int| j <= k < i ==> path@[k] != '/',
            j > 0 ==> path@[j - 1] == '/',
        decreases n - i,
    {
        if path.get_char(i) == '/' {
            j = i + 1;
        }
        i = i + 1;
    }
    proof {
        lemma_last_component_at(path@, j as int);
    }
    j
}

/// The start of the run of non-slash characters that ends at `end`.
fn run_start(path: &str, end: usize) -> (start: usize)
    requires
        end <= path@.len(),
    ensures
        start <= end,
        forall|k: int| start <= k < end ==> path@[k] != '/',
        start > 0 ==> path@[start - 1] == '/',
{
    let mut start: usize = end;
    while start > 0
        invariant
            start <= end <= path@.len(),
            forall|k: int| start <= k < end ==> path@[k] != '/',
        decreases start,
    {
        if path.get_char(start - 1) == '/' {
            return start;
        }
        start = start - 1;
    }
    start
}

/// `path` names a snippet file, by [`is_snip_path`].
pub fn is_snip_filename(path: &str) -> (r: bool)
    ensures
        r == is_snip_path(path@),
{
    let j = component_start(path);
    let n = path.unicode_len();
    let ghost name = last_component(path@);
    if n - j <= 5 {
        return false;
    }
    let r = path.get_char(n - 5) == '.' && path.get_char(n - 4) == 's' && path.get_char(n - 3)
        == 'n' && path.get_char(n - 2) == 'i' && path.get_char(n - 1) == 'p';
    proof {
        assert(name.len() == n - j);
        if r {
            assert(name.skip(name.len() - 5) =~= snip_suffix());
        } else {
            assert(name.skip(name.len() - 5) != snip_suffix()) by {
                if name.skip(name.len() - 5) == snip_suffix() {
                    assert(name.skip(name.len() - 5)[0] == path@[n - 5]);
                    assert(name.skip(name.len() - 5)[1] == path@[n - 4]);
                    assert(name.skip(name.len() - 5)[2] == path@[n - 3]);
                    assert(name.skip(name.len() - 5)[3] == path@[n - 2]);
                    assert(name.skip(name.len() - 5)[4] == path@[n - 1]);
                }
            }
        }
    }
    r
}

/// Errors reported by snippet and folder operations.
///
/// `Io` stands for a file or directory that could not be read;
/// `InvalidPath` for a path without a file-name component.
#[derive(Clone, Copy, Debug, PartialEq, Eq, Structural)]
pub enum SnippetError {
    Io,
    InvalidPath,
}

/// The mathematical value of a [`Snippet`]: every field as a sequence of
/// characters.
pub struct SnippetModel {
    pub path: Seq<char>,
    pub title: Seq<char>,
    pub tags: Seq<Seq<char>>,
    pub contents: Seq<char>,
}

/// One snippet file. Created with only its path; the parsed fields are
/// filled in by a later load.
pub struct Snippet {
    pub title: String,
    pub contents: String,
    pub absolute_path: String,
    pub tags: Vec<String>,
}

/// The model of a snippet that has been constructed but not loaded:
/// everything but the path is empty.
pub open spec fn blank_snippet(path: Seq<char>) -> SnippetModel {
    SnippetModel { path, title: Seq::empty(), tags: Seq::empty(), contents: Seq::empty() }
}

/// What loading a file with the given lines yields: the first line is the
/// title; only when a second line exists does it carry the tags, and the
/// lines after it, joined with newlines, the contents.
pub open spec fn parsed_snippet(path: Seq<char>, lines: Seq<Seq<char>>) -> SnippetModel {
    SnippetModel {
        path,
        title: if lines.len() >= 1 {
            lines[0]
        } else {
            Seq::empty()
        },
        tags: if lines.len() >= 2 {
            tags_of(lines[1])
        } else {
            Seq::empty()
        },
        contents: if lines.len() >= 2 {
            join_nl(lines.skip(2))
        } else {
            Seq::empty()
        },
    }
}

/// A snippet constructed at any path but not yet loaded has an empty
/// title, no tags, empty contents, and is not valid.
pub proof fn lemma_unloaded_snippet_invalid(path: Seq<char>)
    ensures
        !spec_is_valid(blank_snippet(path)),
        blank_snippet(path).title.len() == 0,
        blank_snippet(path).tags.len() == 0,
        blank_snippet(path).contents.len() == 0,
{
}

/// A snippet is valid exactly when its body is non-empty.
pub open spec fn spec_is_valid(s: SnippetModel) -> bool {
    s.contents.len() > 0
}

impl View for Snippet {
    type V = SnippetModel;

    open spec fn view(&self) -> SnippetModel {
        SnippetModel {
            path: self.absolute_path@,
            title: self.title@,
            tags: self.tags.deep_view(),
            contents: self.contents@,
        }
    }
}

impl Snippet {
    /// A snippet at `path` with empty title, tags and contents.
    pub fn new(path: &str) -> (s: Snippet)
        ensures
            s@ == blank_snippet(path@),
    {
        let s = Snippet {
            title: String::new(),
            contents: String::new(),
            absolute_path: path.to_owned(),
            tags: Vec::new(),
        };
        proof {
            assert(s@.tags =~= Seq::<Seq<char>>::empty());
            assert(s@ =~= blank_snippet(path@));
        }
        s
    }

    /// True exactly when the loaded body is non-empty.
    pub fn is_valid(&self) -> (r: bool)
        ensures
            r == spec_is_valid(self@),
    {
        !self.contents.as_str().is_empty()
    }

    /// Parses the lines of the snippet file into this snippet, replacing
    /// whatever was loaded before. The caller reads the file at
    /// `absolute_path` and hands its lines in; lines that could not be
    /// decoded are expected to have been dropped by the reader.
    pub fn load_from_lines(&mut self, lines: &Vec<String>)
        ensures
            final(self)@ == parsed_snippet(old(self)@.path, lines.deep_view()),
    {
        if lines.len() >= 1 {
            self.title = lines[0].clone();
        } else {
            self.title = String::new();
        }
        if lines.len() >= 2 {
            self.tags = split_tags(lines[1].as_str());
            self.contents = join_from(lines, 2);
        } else {
            self.tags = Vec::new();
            self.contents = String::new();
        }
        proof {
            let dv = lines.deep_view();
            assert(dv.len() == lines@.len());
            if lines@.len() >= 1 {
                assert(dv[0] == lines@[0]@);
            }
            if lines@.len() >= 2 {
                assert(dv[1] == lines@[1]@);
            }
            assert(final(self)@.tags =~= parsed_snippet(old(self)@.path, dv).tags);
            assert(final(self)@ =~= parsed_snippet(old(self)@.path, dv));
        }
    }

    /// The file name of `absolute_path`: its last path component, found
    /// the way `std::path::Path::file_name` finds it — trailing slashes
    /// and a trailing `.` component are ignored. An `InvalidPath` error
    /// when the path has no file-name component: it is empty, all
    /// slashes, or ends in `..`.
    pub fn filename(&self) -> (r: Result<String, SnippetError>)
        ensures
            match file_name_of(self@.path) {
                Some(name) => r matches Ok(f) && f@ == name,
                None => r == Err::<String, SnippetError>(SnippetError::InvalidPath),
            },
    {
        let path = self.absolute_path.as_str();
        let mut end = path.unicode_len();
        proof {
            assert(path@.subrange(0, end as int) =~= path@);
        }
        while end > 0
            invariant
                end <= path@.len(),
                path@ == self@.path,
                file_name_of(path@.subrange(0, end as int)) == file_name_of(path@),
            decreases end,
        {
            let ghost q = path@.subrange(0, end as int);
            proof {
                assert(q.drop_last() =~= path@.subrange(0, end - 1));
                assert(q.last() == path@[end - 1]);
            }
            if path.get_char(end - 1) == '/' {
                end = end - 1;
            } else {
                let start = run_start(path, end);
                let ghost name = last_component(q);
                proof {
                    lemma_last_component_at(q, start as int);
                    assert(name == q.subrange(start as int, end as int));
                    assert forall|k: int| start <= k < end implies name[k - start]
                        == path@[k] by {
                        assert(q[k] == path@[k]);
                    }
                    assert(name.len() == end - start);
                }
                if end - start == 1 && path.get_char(start) == '.' {
                    proof {
                        assert(name =~= seq!['.']);
                    }
                    end = end - 1;
                } else if end - start == 2 && path.get_char(start) == '.' && path.get_char(
                    start + 1,
                ) == '.' {
                    proof {
                        assert(name =~= seq!['.', '.']);
                        assert(seq!['.'].len() == 1);
                    }
                    return Err(SnippetError::InvalidPath);
                } else {
                    proof {
                        assert(name != seq!['.']) by {
                            if name == seq!['.'] {
                                assert(name.len() == 1);
                                assert(name[0] == '.');
                                assert(path@[start as int] == '.');
                            }
                        }
                        assert(name != seq!['.', '.']) by {
                            if name == seq!['.', '.'] {
                                assert(name.len() == 2);
                                assert(name[0] == '.');
                                assert(name[1] == '.');
                                assert(path@[start as int] == '.');
                                assert(path@[start + 1] == '.');
                            }
                        }
                        assert(file_name_of(q) == Some(name));
                    }
                    let f = path.substring_char(start, end);
                    proof {
                        assert(f@ =~= name);
                    }
                    return Ok(f.to_owned());
                }
            }
        }
        proof {
            assert(path@.subrange(0, 0) =~= Seq::<char>::empty());
        }
        Err(SnippetError::InvalidPath)
    }
}

} // verus!
