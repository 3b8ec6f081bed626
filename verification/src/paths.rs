//! The few `std::path` operations the library needs, on plain strings.
//!
//! How a path string splits into components depends on the target platform
//! (separators, prefixes), so these contracts state only what the standard
//! library documents for every platform.
use vstd::prelude::*;
use crate::text::has_prefix;

verus! {

/// A Windows verbatim path (`\\?\...`), which `Path::join` normalizes.
pub open spec fn is_verbatim(p: Seq<char>) -> bool {
    has_prefix(p, "\\\\?\\"@)
}

/// A path with no Windows prefix and no redundant parts: non-empty, no
/// backslash and no ':', no two '/' in a row (so no leading "//" either), no
/// trailing '/', and no "." component. Its components are exactly the texts
/// between its '/' separators on every platform.
pub open spec fn clean_path(p: Seq<char>) -> bool {
    &&& p.len() > 0
    &&& !p.contains('\\')
    &&& !p.contains(':')
    &&& p.last() != '/'
    &&& forall|i: int| 0 <= i < p.len() - 1 ==> !(#[trigger] p[i] == '/' && p[i + 1] == '/')
    &&& forall|i: int|
        0 <= i < p.len() - 2 ==> !(#[trigger] p[i] == '/' && p[i + 1] == '.' && p[i + 2] == '/')
    &&& p != seq!['.']
    &&& !(p.len() >= 2 && p[0] == '.' && p[1] == '/')
    &&& !(p.len() >= 2 && p[p.len() - 2] == '/' && p[p.len() - 1] == '.')
}

/// The parent of a clean path (see [`clean_path`]), as `Path::parent`
/// documents it: the text before the last '/'; the root "/" when that text is
/// empty but the path is absolute; the empty path when there is no '/'.
pub open spec fn clean_parent(p: Seq<char>) -> Seq<char> {
    let n = after_last(p, '/');
    if n.len() == p.len() {
        Seq::<char>::empty()
    } else if n.len() + 1 == p.len() {
        seq!['/']
    } else {
        p.take(p.len() - n.len() - 1)
    }
}

/// The path without its final component.
///
/// Trusted: calls `Path::parent`. Stated: the empty path has no parent (the
/// documentation: `None` "if it's the empty string"); a clean path (see
/// [`clean_path`]) has the parent that the documentation's examples show
/// ("/foo/bar" gives "/foo", "/foo" gives "/", "foo/bar" gives "foo", "foo"
/// gives ""), which [`clean_parent`] states. Not stated: the parent of other
/// paths, which depends on the platform's path syntax and normalization.
#[verifier::external_body]
pub(crate) fn path_parent(p: &str) -> (r: Option<String>)
    ensures
        p@.len() == 0 ==> r is None,
        clean_path(p@) ==> r.deep_view() == Some(clean_parent(p@)),
{
    match std::path::Path::new(p).parent() {
        Some(q) => Some(q.to_string_lossy().into_owned()),
        None => None,
    }
}

/// A path with no Windows prefix: no backslash, no ':', not starting "//".
pub open spec fn no_prefix_chars(p: Seq<char>) -> bool {
    &&& !p.contains('\\')
    &&& !p.contains(':')
    &&& !(p.len() >= 2 && p[0] == '/' && p[1] == '/')
}

/// A relative path with no Windows prefix or root: no backslash, no ':', not
/// starting with '/'.
pub open spec fn relative_part(p: Seq<char>) -> bool {
    &&& !p.contains('\\')
    &&& !p.contains(':')
    &&& !(p.len() >= 1 && p[0] == '/')
}

/// `r` is `part` pushed onto `base` as `PathBuf::push` documents it for a
/// relative `part`: `part` itself onto an empty base; appended directly after
/// a trailing '/'; otherwise appended after one separator, which is the
/// platform's own ('/' or '\').
pub open spec fn joined(base: Seq<char>, part: Seq<char>, r: Seq<char>) -> bool {
    if base.len() == 0 {
        r == part
    } else if base.last() == '/' {
        r == base + part
    } else {
        &&& r.len() == base.len() + 1 + part.len()
        &&& r.take(base.len() as int) == base
        &&& (r[base.len() as int] == '/' || r[base.len() as int] == '\\')
        &&& r.skip(base.len() + 1int) == part
    }
}

/// `base` extended by `part`.
///
/// Trusted: calls `Path::join`. Stated: unless `base` is a Windows verbatim
/// path (for which the documentation says the joined path is normalized), the
/// result ends with `part`: `part` is either appended, after a separator where
/// one is needed, or replaces (part of) `base`. When `base` has no Windows
/// prefix and `part` is relative with neither prefix nor root, `part` is
/// appended as [`joined`] states. Not stated: which of '/' and '\\' is the
/// separator inserted (the platform's own).
#[verifier::external_body]
pub(crate) fn path_join(base: &str, part: &str) -> (r: String)
    ensures
        !is_verbatim(base@) ==> part@.len() <= r@.len() && r@.subrange(
            r@.len() - part@.len(),
            r@.len() as int,
        ) == part@,
        no_prefix_chars(base@) && relative_part(part@) ==> joined(base@, part@, r@),
{
    std::path::Path::new(base).join(part).to_string_lossy().into_owned()
}

/// The characters after the last occurrence of `c` (all of `s` if there is none).
pub open spec fn after_last(s: Seq<char>, c: char) -> Seq<char>
    decreases s.len(),
{
    if s.len() == 0 || s.last() == c {
        Seq::<char>::empty()
    } else {
        after_last(s.drop_last(), c).push(s.last())
    }
}

/// [`after_last`] is the suffix of `s` after its last `c`: it holds no `c`, the
/// character just before it is that `c`, and it is all of `s` exactly when `s`
/// holds no `c`.
pub proof fn lemma_after_last(s: Seq<char>, c: char)
    ensures
        after_last(s, c).len() <= s.len(),
        after_last(s, c) == s.skip(s.len() - after_last(s, c).len()),
        !after_last(s, c).contains(c),
        after_last(s, c).len() < s.len() ==> s[s.len() - after_last(s, c).len() - 1] == c,
        after_last(s, c).len() == s.len() <==> !s.contains(c),
    decreases s.len(),
{
    if s.len() == 0 {
    } else if s.last() == c {
        assert(s.skip(s.len() as int) =~= Seq::<char>::empty());
        assert(s.contains(c)) by {
            assert(s[s.len() - 1] == c);
        }
    } else {
        let d = s.drop_last();
        lemma_after_last(d, c);
        let a = after_last(d, c);
        assert(after_last(s, c) == a.push(s.last()));
        assert(s.skip(s.len() - a.len() - 1) =~= a.push(s.last())) by {
            assert(d.skip(d.len() - a.len()) == a);
        }
        assert(!a.push(s.last()).contains(c)) by {
            assert forall|i: int| 0 <= i < a.len() + 1 implies a.push(s.last())[i] != c by {
                if i < a.len() {
                    assert(a[i] == a.push(s.last())[i]);
                }
            }
        }
        if a.len() == d.len() {
            assert forall|i: int| 0 <= i < s.len() implies s[i] != c by {
                if i < d.len() {
                    assert(d[i] == s[i]);
                }
            }
        } else {
            assert(s[d.len() - a.len() - 1] == d[d.len() - a.len() - 1]);
            assert(s.contains(c)) by {
                assert(s[d.len() - a.len() - 1] == c);
            }
        }
    }
}

/// The final component of a plain path: one with no backslash and no ':' (so no
/// Windows prefix), not starting with "//", whose text after its last '/' is a
/// non-empty name other than "." and "..". `None` for other paths.
pub open spec fn plain_file_name(p: Seq<char>) -> Option<Seq<char>> {
    let n = after_last(p, '/');
    if !p.contains('\\') && !p.contains(':') && !(p.len() >= 2 && p[0] == '/' && p[1] == '/')
        && n.len() > 0 && n != seq!['.'] && n != seq!['.', '.'] {
        Some(n)
    } else {
        None
    }
}

/// The extension of a file name as `Path::extension` documents it: none
/// without an embedded '.', none for a name that begins with its only '.',
/// otherwise what follows the final '.'.
pub open spec fn extension_of_name(n: Seq<char>) -> Option<Seq<char>> {
    let e = after_last(n, '.');
    if !n.contains('.') || e.len() + 1 == n.len() {
        None
    } else {
        Some(e)
    }
}

/// A separator on Windows; '/' is one on every platform.
pub open spec fn is_sep(c: char) -> bool {
    c == '/' || c == '\\'
}

/// The characters after the last '/' or '\\' (all of `s` if there is none).
pub open spec fn after_last_sep(s: Seq<char>) -> Seq<char>
    decreases s.len(),
{
    if s.len() == 0 || is_sep(s.last()) {
        Seq::<char>::empty()
    } else {
        after_last_sep(s.drop_last()).push(s.last())
    }
}

/// The text after the last separator ('/' or '\\') of a path that does not
/// begin with two separators (so neither a Windows UNC, device nor verbatim
/// path), when that text is a name: non-empty, without ':' (so it is not a
/// drive prefix), and neither "." nor "..". Such a name ends the final
/// component on every platform: it is the whole final component on Windows,
/// and, where a '\\' precedes it, the end of the final component on Unix.
pub open spec fn last_name(p: Seq<char>) -> Option<Seq<char>> {
    let n = after_last_sep(p);
    if !(p.len() >= 2 && is_sep(p[0]) && is_sep(p[1])) && n.len() > 0 && !n.contains(':') && n
        != seq!['.'] && n != seq!['.', '.'] {
        Some(n)
    } else {
        None
    }
}

/// The name has a '.' after its first character.
pub open spec fn has_inner_dot(n: Seq<char>) -> bool {
    exists|i: int| 1 <= i < n.len() && n[i] == '.'
}

/// The stem of a file name as `Path::file_stem` documents it: the whole name
/// without an embedded '.', or when the name begins with its only '.';
/// otherwise the part before the final '.'.
pub open spec fn stem_of_name(n: Seq<char>) -> Seq<char> {
    let e = after_last(n, '.');
    if !n.contains('.') || e.len() + 1 == n.len() {
        n
    } else {
        n.take(n.len() - e.len() - 1)
    }
}

/// The final component of the path, if there is one.
///
/// Trusted: calls `Path::file_name`. Stated: unless the path is a Windows
/// verbatim one (where '/' is no separator), a component holds no '/' ('/' is
/// a separator on every platform); for a plain path (see [`plain_file_name`]),
/// whose components are separated by '/' alone and which has no prefix on any
/// platform, it is the text after the last '/'; so it is for any path without
/// a backslash whose [`last_name`] exists (a Windows drive such as "C:" may
/// then stand before that name). Not stated: which component it is for other
/// paths, such as those with a backslash, which Unix does not split.
#[verifier::external_body]
pub(crate) fn path_file_name(p: &str) -> (r: Option<String>)
    ensures
        !is_verbatim(p@) ==> (r matches Some(n) ==> !n@.contains('/')),
        plain_file_name(p@) matches Some(n) ==> r.deep_view() == Some(n),
        last_name(p@) matches Some(n) ==> (!p@.contains('\\') ==> r.deep_view() == Some(n)),
{
    match std::path::Path::new(p).file_name() {
        Some(n) => Some(n.to_string_lossy().into_owned()),
        None => None,
    }
}

/// The file name without its extension.
///
/// Trusted: calls `Path::file_stem`. Stated: unless the path is a Windows
/// verbatim one, the stem lies within one component, so it holds no '/'; for a
/// plain path (see [`plain_file_name`]) it is the documented stem of that file
/// name ([`stem_of_name`]).
#[verifier::external_body]
pub(crate) fn path_file_stem(p: &str) -> (r: Option<String>)
    ensures
        !is_verbatim(p@) ==> (r matches Some(n) ==> !n@.contains('/')),
        plain_file_name(p@) matches Some(n) ==> r.deep_view() == Some(stem_of_name(n)),
{
    match std::path::Path::new(p).file_stem() {
        Some(n) => Some(n.to_string_lossy().into_owned()),
        None => None,
    }
}

/// The extension of the file name.
///
/// Trusted: calls `Path::extension`. Stated: the extension is what follows the
/// final '.', so it holds no '.', and, unless the path is a Windows verbatim
/// one, no '/'; for a plain path (see [`plain_file_name`]) it is the
/// documented extension of that file name ([`extension_of_name`]). For any
/// path whose [`last_name`] has a '.' after its first character, on every
/// platform, it is what follows the last '.' of that name (the final
/// component ends with the name, and its last '.' lies within the name after
/// the component's first character).
#[verifier::external_body]
pub(crate) fn path_extension(p: &str) -> (r: Option<String>)
    ensures
        r matches Some(e) ==> !e@.contains('.'),
        !is_verbatim(p@) ==> (r matches Some(e) ==> !e@.contains('/')),
        plain_file_name(p@) matches Some(n) ==> r.deep_view() == extension_of_name(n),
        last_name(p@) matches Some(n) ==> (has_inner_dot(n) ==> r.deep_view() == Some(
            after_last(n, '.'),
        )),
{
    match std::path::Path::new(p).extension() {
        Some(e) => Some(e.to_string_lossy().into_owned()),
        None => None,
    }
}

} // verus!
