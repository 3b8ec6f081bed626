//! Word/WPS files found under a root folder, grouped by student subfolder.
use vstd::prelude::*;
use crate::paths::{
    after_last, extension_of_name, has_inner_dot, is_verbatim, last_name, path_extension,
    path_file_name, plain_file_name,
};
use crate::text::{ascii_lowercase, chars_of, is_ascii_text, lowercase, lowercase_of};

verus! {

/// Files of at least this many bytes (100 MB) count as large.
pub const LARGE_FILE_THRESHOLD: u64 = 100 * 1024 * 1024;

/// Information about a single Word/WPS file.
#[derive(Debug, Clone, PartialEq)]
pub struct FileInfo {
    pub path: String,
    pub name: String,
    pub size: u64,
    /// Last modified timestamp in seconds since the Unix epoch.
    pub modified: u64,
    pub is_large: bool,
}

/// The mathematical value of a [`FileInfo`].
pub struct FileInfoView {
    pub path: Seq<char>,
    pub name: Seq<char>,
    pub size: u64,
    pub modified: u64,
    pub is_large: bool,
}

impl View for FileInfo {
    type V = FileInfoView;

    open spec fn view(&self) -> FileInfoView {
        FileInfoView {
            path: self.path@,
            name: self.name@,
            size: self.size,
            modified: self.modified,
            is_large: self.is_large,
        }
    }
}

impl DeepView for FileInfo {
    type V = FileInfoView;

    open spec fn deep_view(&self) -> FileInfoView {
        self@
    }
}

impl FileInfo {
    /// A copy of this record.
    pub fn duplicate(&self) -> (r: FileInfo)
        ensures
            r@ == self@,
    {
        FileInfo {
            path: self.path.clone(),
            name: self.name.clone(),
            size: self.size,
            modified: self.modified,
            is_large: self.is_large,
        }
    }
}

/// A student subfolder with the Word/WPS files found in it.
#[derive(Debug, Clone, PartialEq)]
pub struct StudentFolder {
    pub name: String,
    pub path: String,
    pub files: Vec<FileInfo>,
}

/// The mathematical value of a [`StudentFolder`].
pub struct StudentFolderView {
    pub name: Seq<char>,
    pub path: Seq<char>,
    pub files: Seq<FileInfoView>,
}

impl View for StudentFolder {
    type V = StudentFolderView;

    open spec fn view(&self) -> StudentFolderView {
        StudentFolderView { name: self.name@, path: self.path@, files: self.files.deep_view() }
    }
}

impl DeepView for StudentFolder {
    type V = StudentFolderView;

    open spec fn deep_view(&self) -> StudentFolderView {
        self@
    }
}

/// The lowercase extensions of Word and WPS documents.
pub open spec fn word_extensions() -> Seq<Seq<char>> {
    seq!["doc"@, "docx"@, "wps"@]
}

/// Whether a lowercase extension is one of [`word_extensions`].
pub fn is_word_extension(ext: &str) -> (b: bool)
    ensures
        b == word_extensions().contains(ext@),
{
    let e = ext.to_owned();
    let doc = "doc".to_owned();
    let docx = "docx".to_owned();
    let wps = "wps".to_owned();
    let r = e == doc || e == docx || e == wps;
    assert(word_extensions()[0] == doc@ && word_extensions()[1] == docx@ && word_extensions()[2] == wps@);
    if !r {
        assert forall|i: int| 0 <= i < 3 implies word_extensions()[i] != ext@ by {}
    }
    r
}

/// The record for a file, given its final path component and its lowercased
/// extension; `None` unless the extension is a Word/WPS one.
pub fn classify_word_file(
    path: String,
    file_name: Option<String>,
    ext_lower: Option<String>,
    size: u64,
    modified: u64,
) -> (r: Option<FileInfo>)
    ensures
        r is Some <==> (ext_lower matches Some(e) && word_extensions().contains(e@)),
        r matches Some(info) ==> {
            &&& info.path@ == path@
            &&& info.name@ == (match file_name {
                Some(n) => n@,
                None => Seq::<char>::empty(),
            })
            &&& info.size == size
            &&& info.modified == modified
            &&& info.is_large == (size >= LARGE_FILE_THRESHOLD)
        },
{
    match ext_lower {
        None => None,
        Some(e) => {
            if !is_word_extension(e.as_str()) {
                return None;
            }
            let name = match file_name {
                Some(n) => n,
                None => String::new(),
            };
            Some(FileInfo { path, name, size, modified, is_large: size >= LARGE_FILE_THRESHOLD })
        },
    }
}

/// The record for the file at `path` if it is a Word/WPS document (by its
/// extension, compared case-insensitively).
///
/// For a plain path (see [`plain_file_name`]) the record exists exactly when
/// the file name's extension, lowercased, is a Word/WPS one (for an ASCII
/// extension: with 'A' to 'Z' read as 'a' to 'z'), and is named by that file
/// name. For any path, Windows drive paths such as `C:\a\b.docx` included,
/// whose [`last_name`] has a '.' after its first character, the record exists
/// exactly when what follows that name's last '.', lowercased, is a Word/WPS
/// extension.
pub fn word_file_info(path: String, size: u64, modified: u64) -> (r: Option<FileInfo>)
    ensures
        r matches Some(info) ==> {
            &&& info.path@ == path@
            &&& info.size == size
            &&& info.modified == modified
            &&& info.is_large == (size >= LARGE_FILE_THRESHOLD)
            &&& !is_verbatim(path@) ==> !info.name@.contains('/')
        },
        plain_file_name(path@) matches Some(n) ==> {
            &&& (r is Some <==> (extension_of_name(n) matches Some(e) && word_extensions().contains(
                lowercase_of(e),
            )))
            &&& (r matches Some(info) ==> info.name@ == n)
            &&& (extension_of_name(n) matches Some(e) ==> (is_ascii_text(e) ==> (r is Some
                <==> word_extensions().contains(ascii_lowercase(e)))))
        },
        last_name(path@) matches Some(n) ==> {
            &&& has_inner_dot(n) ==> (r is Some <==> word_extensions().contains(
                lowercase_of(after_last(n, '.')),
            ))
            &&& !path@.contains('\\') ==> (r matches Some(info) ==> info.name@ == n)
        },
{
    let ext = path_extension(path.as_str());
    let ext_lower = match &ext {
        Some(e) => Some(lowercase(e.as_str())),
        None => None,
    };
    let file_name = path_file_name(path.as_str());
    classify_word_file(path, file_name, ext_lower, size, modified)
}

/// Strict lexicographic order on character sequences (by code point), which is
/// the order of `String`'s `Ord` (UTF-8 byte order agrees with code point order).
pub open spec fn lex_lt(a: Seq<char>, b: Seq<char>) -> bool
    decreases a.len(),
{
    if a.len() == 0 {
        b.len() > 0
    } else if b.len() == 0 {
        false
    } else if a[0] != b[0] {
        a[0] < b[0]
    } else {
        lex_lt(a.skip(1), b.skip(1))
    }
}

/// Law: `lex_lt` compares from the front, as `String`'s order does: `a` comes
/// before `b` exactly when `a` is a proper prefix of `b`, or, at the first
/// position where the two differ, `a`'s character is the smaller one. So two
/// names with different first characters are ordered by those characters.
pub proof fn law_lex_lt_compares_from_the_front(a: Seq<char>, b: Seq<char>)
    ensures
        lex_lt(a, b) <==> ((a.len() < b.len() && b.take(a.len() as int) == a) || exists|i: int|
            #![trigger a.take(i), b.take(i)]
            0 <= i < a.len() && i < b.len() && a.take(i) == b.take(i) && a[i] < b[i]),
        a.len() > 0 && b.len() > 0 && a[0] != b[0] ==> (lex_lt(a, b) <==> a[0] < b[0]),
    decreases a.len(),
{
    if a.len() == 0 {
        assert(b.take(0) =~= a);
    } else if b.len() == 0 {
    } else if a[0] != b[0] {
        if a[0] < b[0] {
            assert(a.take(0) =~= b.take(0));
        } else {
            assert forall|i: int|
                0 <= i < a.len() && i < b.len() && #[trigger] a.take(i) == #[trigger] b.take(i)
                implies !(a[i] < b[i]) by {
                if i > 0 {
                    assert(a.take(i)[0] == b.take(i)[0]);
                }
            }
            if a.len() < b.len() && b.take(a.len() as int) == a {
                assert(b.take(a.len() as int)[0] == a[0]);
            }
        }
    } else {
        let a1 = a.skip(1);
        let b1 = b.skip(1);
        law_lex_lt_compares_from_the_front(a1, b1);
        if a.len() < b.len() && b.take(a.len() as int) == a {
            assert(b1.take(a1.len() as int) =~= a1) by {
                assert forall|k: int| 0 <= k < a1.len() implies #[trigger] b1.take(a1.len() as int)[k]
                    == a1[k] by {
                    assert(b.take(a.len() as int)[k + 1] == a[k + 1]);
                }
            }
        }
        if a1.len() < b1.len() && b1.take(a1.len() as int) == a1 {
            assert(b.take(a.len() as int) =~= a) by {
                assert forall|k: int| 0 <= k < a.len() implies #[trigger] b.take(a.len() as int)[k] == a[k] by {
                    if k > 0 {
                        assert(b1.take(a1.len() as int)[k - 1] == a1[k - 1]);
                    }
                }
            }
        }
        if exists|i: int|
            #![trigger a1.take(i), b1.take(i)]
            0 <= i < a1.len() && i < b1.len() && a1.take(i) == b1.take(i) && a1[i] < b1[i] {
            let i = choose|i: int|
                #![trigger a1.take(i), b1.take(i)]
                0 <= i < a1.len() && i < b1.len() && a1.take(i) == b1.take(i) && a1[i] < b1[i];
            assert(a.take(i + 1) =~= b.take(i + 1)) by {
                assert forall|k: int| 0 <= k < i + 1 implies #[trigger] a.take(i + 1)[k] == b.take(i + 1)[k] by {
                    if k > 0 {
                        assert(a1.take(i)[k - 1] == b1.take(i)[k - 1]);
                    }
                }
            }
            assert(a[i + 1] < b[i + 1]);
        }
        if exists|i: int|
            #![trigger a.take(i), b.take(i)]
            0 <= i < a.len() && i < b.len() && a.take(i) == b.take(i) && a[i] < b[i] {
            let i = choose|i: int|
                #![trigger a.take(i), b.take(i)]
                0 <= i < a.len() && i < b.len() && a.take(i) == b.take(i) && a[i] < b[i];
            assert(i > 0);
            assert(a1.take(i - 1) =~= b1.take(i - 1)) by {
                assert forall|k: int| 0 <= k < i - 1 implies #[trigger] a1.take(i - 1)[k] == b1.take(i - 1)[k] by {
                    assert(a.take(i)[k + 1] == b.take(i)[k + 1]);
                }
            }
            assert(a1[i - 1] < b1[i - 1]);
        }
    }
}

pub proof fn lemma_lex_irreflexive(a: Seq<char>)
    ensures
        !lex_lt(a, a),
    decreases a.len(),
{
    if a.len() > 0 {
        lemma_lex_irreflexive(a.skip(1));
    }
}

pub proof fn lemma_lex_transitive(a: Seq<char>, b: Seq<char>, c: Seq<char>)
    requires
        lex_lt(a, b),
        lex_lt(b, c),
    ensures
        lex_lt(a, c),
    decreases a.len(),
{
    if a.len() > 0 && b.len() > 0 && c.len() > 0 && a[0] == b[0] && b[0] == c[0] {
        lemma_lex_transitive(a.skip(1), b.skip(1), c.skip(1));
    }
}

pub proof fn lemma_lex_total(a: Seq<char>, b: Seq<char>)
    ensures
        lex_lt(a, b) || a == b || lex_lt(b, a),
    decreases a.len(),
{
    if a.len() > 0 && b.len() > 0 && a[0] == b[0] {
        lemma_lex_total(a.skip(1), b.skip(1));
        if a.skip(1) == b.skip(1) {
            assert(a =~= seq![a[0]] + a.skip(1));
            assert(b =~= seq![b[0]] + b.skip(1));
        }
    } else if a.len() == 0 && b.len() == 0 {
        assert(a =~= b);
    }
}

pub proof fn lemma_lex_asymmetric(a: Seq<char>, b: Seq<char>)
    requires
        lex_lt(a, b),
    ensures
        !lex_lt(b, a),
{
    if lex_lt(b, a) {
        lemma_lex_transitive(a, b, a);
        lemma_lex_irreflexive(a);
    }
}

/// Whether `a` comes strictly before `b` in lexicographic order.
pub fn lex_less(a: &Vec<char>, b: &Vec<char>) -> (r: bool)
    ensures
        r == lex_lt(a@, b@),
{
    let mut i: usize = 0;
    assert(a@.skip(0) =~= a@);
    assert(b@.skip(0) =~= b@);
    while i < a.len() && i < b.len() && a[i] == b[i]
        invariant
            i <= a@.len(),
            i <= b@.len(),
            lex_lt(a@, b@) == lex_lt(a@.skip(i as int), b@.skip(i as int)),
        decreases a@.len() - i,
    {
        assert(a@.skip(i as int).skip(1) =~= a@.skip(i + 1));
        assert(b@.skip(i as int).skip(1) =~= b@.skip(i + 1));
        i = i + 1;
    }
    if i == a.len() {
        i < b.len()
    } else if i == b.len() {
        false
    } else {
        a[i] < b[i]
    }
}


/// Index `j` occurs in `perm`.
pub open spec fn index_in(perm: Seq<int>, j: int) -> bool {
    exists|k: int| 0 <= k < perm.len() && perm[k] == j
}

/// `perm` lists each index below `n` exactly once.
pub open spec fn is_permutation(perm: Seq<int>, n: nat) -> bool {
    &&& perm.len() == n
    &&& forall|j: int| 0 <= j < n ==> #[trigger] index_in(perm, j)
    &&& forall|k: int| 0 <= k < perm.len() ==> 0 <= #[trigger] perm[k] < n
    &&& forall|k: int, l: int|
        0 <= k < perm.len() && 0 <= l < perm.len() && k != l ==> #[trigger] perm[k] != #[trigger] perm[l]
}

/// `out` is `input` rearranged by `perm` (`out[k]` is `input[perm[k]]`) so
/// that names ascend and folders with equal names keep their input order: the
/// result of a stable sort by name.
pub open spec fn sorted_by_name(
    input: Seq<StudentFolderView>,
    out: Seq<StudentFolderView>,
    perm: Seq<int>,
) -> bool {
    &&& is_permutation(perm, input.len())
    &&& out.len() == input.len()
    &&& forall|k: int| 0 <= k < out.len() ==> #[trigger] out[k] == input[perm[k]]
    &&& forall|k: int, l: int|
        0 <= k < l < out.len() ==> lex_lt(#[trigger] out[k].name, #[trigger] out[l].name) || (
        out[k].name == out[l].name && perm[k] < perm[l])
}

/// Sorts student folders by name, keeping the order of equal names.
pub fn sort_folders_by_name(folders: Vec<StudentFolder>) -> (r: Vec<StudentFolder>)
    ensures
        exists|perm: Seq<int>| sorted_by_name(folders.deep_view(), r.deep_view(), perm),
{
    let ghost input = folders.deep_view();
    let n = folders.len();
    let mut rest = folders;
    let mut out: Vec<StudentFolder> = Vec::new();
    let mut out_names: Vec<Vec<char>> = Vec::new();
    let ghost mut perm: Seq<int> = Seq::empty();
    assert(rest.deep_view() =~= input.take(n as int));
    while rest.len() > 0
        invariant
            n == input.len(),
            rest.len() + out.len() == n,
            rest.deep_view() == input.take(rest.len() as int),
            out_names@.len() == out@.len(),
            forall|k: int|
                0 <= k < out@.len() ==> #[trigger] out_names@[k]@ == out.deep_view()[k].name,
            perm.len() == out@.len(),
            forall|k: int| 0 <= k < perm.len() ==> rest.len() <= #[trigger] perm[k] < n,
            forall|j: int| rest.len() <= j < n ==> #[trigger] index_in(perm, j),
            forall|k: int, l: int|
                0 <= k < perm.len() && 0 <= l < perm.len() && k != l ==> #[trigger] perm[k]
                    != #[trigger] perm[l],
            forall|k: int| 0 <= k < out@.len() ==> #[trigger] out.deep_view()[k] == input[perm[k]],
            forall|k: int, l: int|
                0 <= k < l < out@.len() ==> lex_lt(
                    #[trigger] out.deep_view()[k].name,
                    #[trigger] out.deep_view()[l].name,
                ) || (out.deep_view()[k].name == out.deep_view()[l].name && perm[k] < perm[l]),
        decreases rest.len(),
    {
        let ghost idx = rest.len() - 1;
        let ghost old_rest = rest.deep_view();
        let x = rest.pop().unwrap();
        assert(rest.deep_view() =~= old_rest.drop_last());
        assert(x@ == input[idx]) by {
            assert(old_rest[idx] == input.take(idx + 1)[idx]);
        }
        assert(rest.deep_view() =~= input.take(rest.len() as int));
        let xname = chars_of(x.name.as_str());
        let ghost old_out = out.deep_view();
        let ghost old_names = out_names@;
        let ghost old_perm = perm;
        let ghost xv = x@;
        let mut pos: usize = 0;
        while pos < out.len() && lex_less(&out_names[pos], &xname)
            invariant
                pos <= out@.len(),
                old_out == out.deep_view(),
                old_names == out_names@,
                out_names@.len() == out@.len(),
                forall|k: int|
                    0 <= k < out@.len() ==> #[trigger] out_names@[k]@ == old_out[k].name,
                forall|k: int| 0 <= k < pos ==> lex_lt(#[trigger] old_out[k].name, xname@),
            decreases out@.len() - pos,
        {
            pos = pos + 1;
        }
        proof {
            if pos < out@.len() {
                assert(!lex_lt(old_out[pos as int].name, xname@));
                assert forall|j: int| pos <= j < out@.len() implies !lex_lt(
                    #[trigger] old_out[j].name,
                    xname@,
                ) by {
                    if j > pos && lex_lt(old_out[j].name, xname@) {
                        if lex_lt(old_out[pos as int].name, old_out[j].name) {
                            lemma_lex_transitive(old_out[pos as int].name, old_out[j].name, xname@);
                        }
                    }
                }
            }
        }
        out.insert(pos, x);
        out_names.insert(pos, xname);
        proof {
            let p = pos as int;
            perm = old_perm.insert(p, idx);
            assert(out.deep_view() =~= old_out.insert(p, xv));
            let nv = out.deep_view();
            assert forall|k: int| 0 <= k < out@.len() implies #[trigger] out_names@[k]@
                == nv[k].name by {
                if k > p {
                    assert(out_names@[k] == old_names[k - 1]);
                }
            }
            assert forall|k: int| 0 <= k < perm.len() implies rest.len() <= #[trigger] perm[k]
                < n by {
                if k > p {
                    assert(perm[k] == old_perm[k - 1]);
                }
            }
            assert forall|k: int, l: int|
                0 <= k < perm.len() && 0 <= l < perm.len() && k != l implies #[trigger] perm[k]
                != #[trigger] perm[l] by {
                if k < p && l > p {
                    assert(old_perm[k] != old_perm[l - 1]);
                } else if k > p && l < p {
                    assert(old_perm[k - 1] != old_perm[l]);
                } else if k > p && l > p {
                    assert(old_perm[k - 1] != old_perm[l - 1]);
                } else if k == p && l != p {
                    if l < p {
                        assert(old_perm[l] >= idx + 1);
                    } else {
                        assert(old_perm[l - 1] >= idx + 1);
                    }
                } else if l == p && k != p {
                    if k < p {
                        assert(old_perm[k] >= idx + 1);
                    } else {
                        assert(old_perm[k - 1] >= idx + 1);
                    }
                }
            }
            assert forall|j: int| rest.len() <= j < n implies #[trigger] index_in(perm, j) by {
                if j == idx {
                    assert(perm[p] == idx);
                } else {
                    assert(index_in(old_perm, j));
                    let k0 = choose|k0: int| 0 <= k0 < old_perm.len() && old_perm[k0] == j;
                    if k0 < p {
                        assert(perm[k0] == j);
                    } else {
                        assert(perm[k0 + 1] == j);
                    }
                }
            }
            assert forall|k: int| 0 <= k < out@.len() implies #[trigger] nv[k] == input[perm[k]] by {
                if k < p {
                    assert(old_out[k] == input[old_perm[k]]);
                } else if k > p {
                    assert(old_out[k - 1] == input[old_perm[k - 1]]);
                }
            }
            assert forall|k: int, l: int| 0 <= k < l < out@.len() implies lex_lt(
                #[trigger] nv[k].name,
                #[trigger] nv[l].name,
            ) || (nv[k].name == nv[l].name && perm[k] < perm[l]) by {
                if l < p {
                    assert(lex_lt(old_out[k].name, old_out[l].name) || (old_out[k].name
                        == old_out[l].name && old_perm[k] < old_perm[l]));
                } else if l == p {
                    assert(lex_lt(old_out[k].name, xname@));
                } else if k < p {
                    assert(lex_lt(old_out[k].name, old_out[l - 1].name) || (old_out[k].name
                        == old_out[l - 1].name && old_perm[k] < old_perm[l - 1]));
                } else if k == p {
                    assert(!lex_lt(old_out[l - 1].name, xname@));
                    lemma_lex_total(xname@, old_out[l - 1].name);
                    assert(old_perm[l - 1] >= idx + 1);
                } else {
                    assert(lex_lt(old_out[k - 1].name, old_out[l - 1].name) || (old_out[k
                        - 1].name == old_out[l - 1].name && old_perm[k - 1] < old_perm[l
                        - 1]));
                }
            }
        }
    }
    assert(sorted_by_name(input, out.deep_view(), perm));
    out
}


/// The folder record for the student folder at `path`, named after its final
/// path component (empty if it has none): for a plain path (see
/// [`plain_file_name`]), the text after its last '/'.
pub fn student_folder(path: String, files: Vec<FileInfo>) -> (r: StudentFolder)
    ensures
        r.path@ == path@,
        r.files.deep_view() == files.deep_view(),
        !is_verbatim(path@) ==> !r.name@.contains('/'),
        plain_file_name(path@) matches Some(n) ==> r.name@ == n,
        last_name(path@) matches Some(n) ==> (!path@.contains('\\') ==> r.name@ == n),
{
    let name = match path_file_name(path.as_str()) {
        Some(n) => n,
        None => String::new(),
    };
    StudentFolder { name, path, files }
}

} // verus!
