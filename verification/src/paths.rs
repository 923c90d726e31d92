//! Unix path text: joining, home expansion, and the parent and extension of a path.
use crate::text::{chars_of, extend, string_from};
use vstd::prelude::*;

verus! {

/// Joins `p` onto `base` as `PathBuf::push` does on Unix: an absolute `p` replaces the
/// base; otherwise one `/` separates them unless the base is empty or already ends in one.
pub open spec fn join_path(base: Seq<char>, p: Seq<char>) -> Seq<char> {
    if p.len() > 0 && p[0] == '/' {
        p
    } else if base.len() == 0 || base.last() == '/' {
        base + p
    } else {
        base + seq!['/'] + p
    }
}

/// Joins two paths; see `join_path`.
pub fn join(base: &str, p: &str) -> (r: String)
    ensures
        r@ == join_path(base@, p@),
{
    let b = chars_of(base);
    let q = chars_of(p);
    let mut out: Vec<char> = Vec::new();
    if q.len() > 0 && q[0] == '/' {
        extend(&mut out, &q);
    } else {
        extend(&mut out, &b);
        if b.len() > 0 && b[b.len() - 1] != '/' {
            out.push('/');
        }
        extend(&mut out, &q);
        proof {
            if b@.len() > 0 && b@.last() != '/' {
                assert(out@ =~= b@ + seq!['/'] + q@);
            } else {
                assert(out@ =~= b@ + q@);
            }
        }
    }
    string_from(out.as_slice())
}

/// A leading `~` names the home directory: `~` alone is the home directory and `~/rest`
/// is `rest` joined onto it; any other text is taken as it is.
pub open spec fn spec_expand(s: Seq<char>, home: Seq<char>) -> Seq<char> {
    if s == seq!['~'] {
        home
    } else if s.len() >= 2 && s[0] == '~' && s[1] == '/' {
        join_path(home, s.skip(2))
    } else {
        s
    }
}

/// The parent of a path, as `std::path::Path::parent` computes it.
pub uninterp spec fn path_parent(p: Seq<char>) -> Option<Seq<char>>;

/// `Path::parent`: the path without its final component; `None` for the empty path and
/// for a path that ends in a root. Which text the parent keeps after the component
/// normalisation of `std::path` is left to std.
#[verifier::external_body]
pub(crate) fn parent(p: &str) -> (r: Option<String>)
    ensures
        r matches Some(q) ==> path_parent(p@) == Some(q@),
        r is None ==> path_parent(p@) is None,
        p@.len() == 0 ==> r is None,
        p@ == seq!['/'] ==> r is None,
{
    std::path::Path::new(p).parent().map(|q| q.to_string_lossy().into_owned())
}

/// Index of the last `c` in `s`; -1 when there is none.
pub open spec fn last_index(s: Seq<char>, c: char) -> int
    decreases s.len(),
{
    if s.len() == 0 {
        -1
    } else if s.last() == c {
        s.len() - 1
    } else {
        last_index(s.drop_last(), c)
    }
}

/// The final component of a path, as `Path::file_name` finds it: trailing `/` and `.`
/// components are passed over, and `..` or no component at all gives `None`.
pub open spec fn file_name(p: Seq<char>) -> Option<Seq<char>>
    decreases p.len(),
{
    proof {
        lemma_last_index(p, '/');
    }
    let k = last_index(p, '/');
    let tail = p.subrange(k + 1, p.len() as int);
    if tail.len() == 0 || tail == seq!['.'] {
        if k < 0 {
            None
        } else {
            file_name(p.subrange(0, k))
        }
    } else if tail == seq!['.', '.'] {
        None
    } else {
        Some(tail)
    }
}

/// The last index of a character lies between -1 and the last position.
pub proof fn lemma_last_index(s: Seq<char>, c: char)
    ensures
        -1 <= last_index(s, c) < s.len(),
    decreases s.len(),
{
    if s.len() > 0 && s.last() != c {
        lemma_last_index(s.drop_last(), c);
    }
}

/// The extension of a path, as `Path::extension` documents it: the text after the last `.`
/// of the file name; `None` without a file name, without a `.` in it, or when its only `.`
/// leads it.
pub open spec fn path_extension(p: Seq<char>) -> Option<Seq<char>> {
    match file_name(p) {
        Some(n) => if last_index(n, '.') > 0 {
            Some(n.subrange(last_index(n, '.') + 1, n.len() as int))
        } else {
            None
        },
        None => None,
    }
}

/// `Path::extension`, as `path_extension` states it. The text is valid UTF-8, so the
/// lossy conversion keeps it.
#[verifier::external_body]
pub(crate) fn extension(p: &str) -> (r: Option<String>)
    ensures
        r matches Some(e) ==> path_extension(p@) == Some(e@),
        r is None ==> path_extension(p@) is None,
{
    std::path::Path::new(p).extension().map(|e| e.to_string_lossy().into_owned())
}

/// The stem of a path, as `Path::file_stem` documents it: the file name before its last
/// `.`; the whole file name when it has no `.` or its only `.` leads it; `None` without a
/// file name.
pub open spec fn path_stem(p: Seq<char>) -> Option<Seq<char>> {
    match file_name(p) {
        Some(n) => if last_index(n, '.') > 0 {
            Some(n.subrange(0, last_index(n, '.')))
        } else {
            Some(n)
        },
        None => None,
    }
}

/// `Path::file_stem`, as `path_stem` states it.
#[verifier::external_body]
pub(crate) fn file_stem(p: &str) -> (r: Option<String>)
    ensures
        r matches Some(e) ==> path_stem(p@) == Some(e@),
        r is None ==> path_stem(p@) is None,
{
    std::path::Path::new(p).file_stem().map(|e| e.to_string_lossy().into_owned())
}

} // verus!
