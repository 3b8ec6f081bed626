//! The rule engine that picks the thesis document in one student folder.
use vstd::prelude::*;
use crate::scanner::{FileInfo, FileInfoView, index_in, is_permutation};
use crate::text::{chars_of, contains_chars, has_substring, lowercase, lowercase_of};

verus! {

/// Identification status for a student folder.
#[derive(Debug, Clone, Copy, PartialEq, Eq, Structural)]
pub enum IdentifyStatus {
    /// Exactly one thesis found with confidence.
    Identified,
    /// Several candidates; all are shown and the user should pick.
    MultipleCandidates,
    /// No Word files at all.
    NotFound,
    /// Word files exist but none matched the keywords; the largest is suggested.
    Unconfirmed,
}

/// The outcome of the rule engine for one student folder.
#[derive(Debug, Clone, PartialEq)]
pub struct IdentifyResult {
    pub status: IdentifyStatus,
    /// All candidate files (several for `MultipleCandidates`).
    pub candidates: Vec<FileInfo>,
    /// The file pre-selected by the engine (an index into `candidates`).
    pub selected_index: Option<usize>,
}

pub struct IdentifyResultView {
    pub status: IdentifyStatus,
    pub candidates: Seq<FileInfoView>,
    pub selected_index: Option<usize>,
}

impl View for IdentifyResult {
    type V = IdentifyResultView;

    open spec fn view(&self) -> IdentifyResultView {
        IdentifyResultView {
            status: self.status,
            candidates: self.candidates.deep_view(),
            selected_index: self.selected_index,
        }
    }
}

impl DeepView for IdentifyResult {
    type V = IdentifyResultView;

    open spec fn deep_view(&self) -> IdentifyResultView {
        self@
    }
}

/// User-configurable keywords.
#[derive(Debug, Clone, PartialEq)]
pub struct KeywordConfig {
    pub include_keywords: Vec<String>,
    pub exclude_keywords: Vec<String>,
}

pub struct KeywordConfigView {
    pub include_keywords: Seq<Seq<char>>,
    pub exclude_keywords: Seq<Seq<char>>,
}

impl View for KeywordConfig {
    type V = KeywordConfigView;

    open spec fn view(&self) -> KeywordConfigView {
        KeywordConfigView {
            include_keywords: self.include_keywords.deep_view(),
            exclude_keywords: self.exclude_keywords.deep_view(),
        }
    }
}

/// Keywords that mark a thesis document.
pub open spec fn default_include() -> Seq<Seq<char>> {
    seq![
        "毕业论文"@,
        "毕业设计"@,
        "学位论文"@,
        "毕设"@,
        "论文终稿"@,
        "论文定稿"@,
        "最终版"@,
        "thesis"@,
        "dissertation"@,
        "final_paper"@,
    ]
}

/// Keywords that mark a document that is not the thesis itself.
pub open spec fn default_exclude() -> Seq<Seq<char>> {
    seq![
        "开题报告"@,
        "任务书"@,
        "文献综述"@,
        "文献翻译"@,
        "外文翻译"@,
        "中期报告"@,
        "答辩"@,
        "ppt"@,
        "幻灯片"@,
        "成绩"@,
    ]
}

/// Keywords that mark a final version (preferred among several candidates).
pub open spec fn final_keywords() -> Seq<Seq<char>> {
    seq!["终稿"@, "定稿"@, "最终"@, "final"@]
}

fn push_string(v: &mut Vec<String>, s: &str)
    ensures
        final(v).deep_view() == old(v).deep_view().push(s@),
{
    let ghost before = v.deep_view();
    v.push(s.to_owned());
    assert(v.deep_view() =~= before.push(s@));
}

fn push_chars(v: &mut Vec<Vec<char>>, s: &str)
    ensures
        final(v).deep_view() == old(v).deep_view().push(s@),
{
    let ghost before = v.deep_view();
    let c = chars_of(s);
    assert(c.deep_view() =~= c@);
    v.push(c);
    assert(v.deep_view() =~= before.push(s@));
}

impl Default for KeywordConfig {
    fn default() -> (r: Self)
        ensures
            r@.include_keywords == default_include(),
            r@.exclude_keywords == default_exclude(),
    {
        let mut inc: Vec<String> = Vec::new();
        push_string(&mut inc, "毕业论文");
        push_string(&mut inc, "毕业设计");
        push_string(&mut inc, "学位论文");
        push_string(&mut inc, "毕设");
        push_string(&mut inc, "论文终稿");
        push_string(&mut inc, "论文定稿");
        push_string(&mut inc, "最终版");
        push_string(&mut inc, "thesis");
        push_string(&mut inc, "dissertation");
        push_string(&mut inc, "final_paper");
        let mut exc: Vec<String> = Vec::new();
        push_string(&mut exc, "开题报告");
        push_string(&mut exc, "任务书");
        push_string(&mut exc, "文献综述");
        push_string(&mut exc, "文献翻译");
        push_string(&mut exc, "外文翻译");
        push_string(&mut exc, "中期报告");
        push_string(&mut exc, "答辩");
        push_string(&mut exc, "ppt");
        push_string(&mut exc, "幻灯片");
        push_string(&mut exc, "成绩");
        assert(inc.deep_view() =~= default_include());
        assert(exc.deep_view() =~= default_exclude());
        KeywordConfig { include_keywords: inc, exclude_keywords: exc }
    }
}

fn final_keywords_exec() -> (v: Vec<Vec<char>>)
    ensures
        v.deep_view() == final_keywords(),
{
    let mut v: Vec<Vec<char>> = Vec::new();
    push_chars(&mut v, "终稿");
    push_chars(&mut v, "定稿");
    push_chars(&mut v, "最终");
    push_chars(&mut v, "final");
    assert(v.deep_view() =~= final_keywords());
    v
}


/// Some keyword of `kws` occurs in `name`.
pub open spec fn matches_keyword(name: Seq<char>, kws: Seq<Seq<char>>) -> bool {
    exists|k: int| 0 <= k < kws.len() && has_substring(name, #[trigger] kws[k])
}

/// A (lowercased) file name passes the keyword filter: it holds a wanted
/// keyword and no unwanted keyword.
pub open spec fn passes_keywords(name: Seq<char>, inc: Seq<Seq<char>>, exc: Seq<Seq<char>>) -> bool {
    matches_keyword(name, inc) && !matches_keyword(name, exc)
}

/// The elements of `s` whose entry in `keep` is true, in order.
pub open spec fn pick<A>(s: Seq<A>, keep: Seq<bool>) -> Seq<A>
    decreases s.len(),
{
    if s.len() == 0 {
        Seq::<A>::empty()
    } else {
        let p = pick(s.drop_last(), keep.take(s.len() - 1));
        if keep[s.len() - 1] {
            p.push(s.last())
        } else {
            p
        }
    }
}

/// Which of the lowercased names pass the keyword filter.
pub open spec fn keyword_mask(lower: Seq<Seq<char>>, inc: Seq<Seq<char>>, exc: Seq<Seq<char>>) -> Seq<bool> {
    Seq::new(lower.len(), |i: int| passes_keywords(lower[i], inc, exc))
}

/// Which of the lowercased names hold a final-version keyword.
pub open spec fn final_mask(lower: Seq<Seq<char>>) -> Seq<bool> {
    Seq::new(lower.len(), |i: int| matches_keyword(lower[i], final_keywords()))
}

/// The index of the first file whose path is `p`, if any.
pub open spec fn first_with_path(s: Seq<FileInfoView>, p: Seq<char>) -> Option<usize>
    decreases s.len(),
{
    if s.len() == 0 {
        None
    } else {
        match first_with_path(s.drop_last(), p) {
            Some(i) => Some(i),
            None => if s.last().path == p {
                Some((s.len() - 1) as usize)
            } else {
                None
            },
        }
    }
}

/// The index of the most recently modified file; among equally recent ones the
/// last (as `Iterator::max_by_key` chooses).
pub open spec fn newest_index(s: Seq<FileInfoView>) -> int
    decreases s.len(),
{
    if s.len() <= 1 {
        0
    } else {
        let m = newest_index(s.drop_last());
        if s.last().modified >= s[m].modified {
            s.len() - 1
        } else {
            m
        }
    }
}

/// `out` is `input` rearranged by `perm` so that sizes descend and files of
/// equal size keep their input order: the result of a stable sort, largest first.
pub open spec fn sorted_by_size_desc(
    input: Seq<FileInfoView>,
    out: Seq<FileInfoView>,
    perm: Seq<int>,
) -> bool {
    &&& is_permutation(perm, input.len())
    &&& out.len() == input.len()
    &&& forall|k: int| 0 <= k < out.len() ==> #[trigger] out[k] == input[perm[k]]
    &&& forall|k: int, l: int|
        0 <= k < l < out.len() ==> #[trigger] out[k].size > #[trigger] out[l].size || (out[k].size
            == out[l].size && perm[k] < perm[l])
}

/// What the rule engine answers for `files`, given each file's lowercased name
/// (`lower[i]` for `files[i]`) and the lowercased wanted and unwanted keywords.
pub open spec fn identify_spec(
    files: Seq<FileInfoView>,
    lower: Seq<Seq<char>>,
    inc: Seq<Seq<char>>,
    exc: Seq<Seq<char>>,
    r: IdentifyResultView,
) -> bool {
    let mask = keyword_mask(lower, inc, exc);
    let matched = pick(files, mask);
    let matched_lower = pick(lower, mask);
    let finals = pick(matched, final_mask(matched_lower));
    if files.len() == 0 {
        r == IdentifyResultView {
            status: IdentifyStatus::NotFound,
            candidates: Seq::empty(),
            selected_index: None,
        }
    } else if files.len() == 1 && matched.len() == 0 {
        r == IdentifyResultView {
            status: IdentifyStatus::Identified,
            candidates: seq![files[0]],
            selected_index: Some(0),
        }
    } else if matched.len() == 0 {
        &&& r.status == IdentifyStatus::Unconfirmed
        &&& r.selected_index == Some(0usize)
        &&& exists|perm: Seq<int>| sorted_by_size_desc(files, r.candidates, perm)
    } else if matched.len() == 1 {
        r == IdentifyResultView {
            status: IdentifyStatus::Identified,
            candidates: seq![matched[0]],
            selected_index: Some(0),
        }
    } else if finals.len() == 1 {
        r == IdentifyResultView {
            status: IdentifyStatus::Identified,
            candidates: matched,
            selected_index: first_with_path(matched, finals[0].path),
        }
    } else {
        let pool = if finals.len() > 0 {
            finals
        } else {
            matched
        };
        r == IdentifyResultView {
            status: IdentifyStatus::MultipleCandidates,
            candidates: matched,
            selected_index: first_with_path(matched, pool[newest_index(pool)].path),
        }
    }
}


/// Whether some keyword of `kws` occurs in `name`.
fn matches_any(name: &Vec<char>, kws: &Vec<Vec<char>>) -> (b: bool)
    ensures
        b == matches_keyword(name@, kws.deep_view()),
{
    let ghost kv = kws.deep_view();
    for k in 0..kws.len()
        invariant
            kv == kws.deep_view(),
            forall|j: int| 0 <= j < k ==> !has_substring(name@, #[trigger] kv[j]),
    {
        assert(kws[k as int]@ =~= kv[k as int]);
        if contains_chars(name, &kws[k]) {
            return true;
        }
    }
    false
}

proof fn lemma_pick_step<A>(s: Seq<A>, keep: Seq<bool>, i: int)
    requires
        0 <= i < s.len(),
        keep.len() == s.len(),
    ensures
        pick(s.take(i + 1), keep.take(i + 1)) == (if keep[i] {
            pick(s.take(i), keep.take(i)).push(s[i])
        } else {
            pick(s.take(i), keep.take(i))
        }),
{
    assert(s.take(i + 1).drop_last() =~= s.take(i));
    assert(keep.take(i + 1).take(i) =~= keep.take(i));
}

/// The records whose entry in `keep` is true, copied in order.
fn pick_files(items: &[FileInfo], keep: &Vec<bool>) -> (r: Vec<FileInfo>)
    requires
        keep@.len() == items@.len(),
    ensures
        r.deep_view() == pick(items.deep_view(), keep@),
{
    let ghost s = items.deep_view();
    let mut r: Vec<FileInfo> = Vec::new();
    for i in 0..items.len()
        invariant
            s == items.deep_view(),
            keep@.len() == items@.len(),
            r.deep_view() == pick(s.take(i as int), keep@.take(i as int)),
    {
        proof {
            lemma_pick_step(s, keep@, i as int);
        }
        if keep[i] {
            let ghost before = r.deep_view();
            r.push(items[i].duplicate());
            assert(r.deep_view() =~= before.push(s[i as int]));
        }
    }
    assert(s.take(items@.len() as int) =~= s);
    assert(keep@.take(items@.len() as int) =~= keep@);
    r
}

/// The character strings whose entry in `keep` is true, copied in order.
fn pick_chars(items: &Vec<Vec<char>>, keep: &Vec<bool>) -> (r: Vec<Vec<char>>)
    requires
        keep@.len() == items@.len(),
    ensures
        r.deep_view() == pick(items.deep_view(), keep@),
{
    let ghost s = items.deep_view();
    let mut r: Vec<Vec<char>> = Vec::new();
    for i in 0..items.len()
        invariant
            s == items.deep_view(),
            keep@.len() == items@.len(),
            r.deep_view() == pick(s.take(i as int), keep@.take(i as int)),
    {
        proof {
            lemma_pick_step(s, keep@, i as int);
        }
        if keep[i] {
            let ghost before = r.deep_view();
            let c = items[i].clone();
            assert(c.deep_view() =~= s[i as int]);
            r.push(c);
            assert(r.deep_view() =~= before.push(s[i as int]));
        }
    }
    assert(s.take(items@.len() as int) =~= s);
    assert(keep@.take(items@.len() as int) =~= keep@);
    r
}

/// The index of the first record whose path is `p`.
fn first_with_path_exec(s: &[FileInfo], p: &String) -> (r: Option<usize>)
    ensures
        r == first_with_path(s.deep_view(), p@),
{
    let ghost sv = s.deep_view();
    let mut i: usize = 0;
    while i < s.len()
        invariant
            sv == s.deep_view(),
            i <= sv.len(),
            first_with_path(sv.take(i as int), p@) is None,
        decreases sv.len() - i,
    {
        assert(sv.take(i + 1).drop_last() =~= sv.take(i as int));
        if s[i].path == *p {
            proof {
                lemma_first_with_path_prefix(sv, p@, i + 1);
            }
            return Some(i);
        }
        i = i + 1;
    }
    assert(sv.take(i as int) =~= sv);
    None
}

proof fn lemma_first_with_path_prefix(s: Seq<FileInfoView>, p: Seq<char>, k: int)
    requires
        0 <= k <= s.len(),
        first_with_path(s.take(k), p) is Some,
    ensures
        first_with_path(s, p) == first_with_path(s.take(k), p),
    decreases s.len() - k,
{
    if k < s.len() {
        assert(s.take(k + 1).drop_last() =~= s.take(k));
        lemma_first_with_path_prefix(s, p, k + 1);
    } else {
        assert(s.take(k) =~= s);
    }
}

/// The index of the most recently modified record (the last among ties).
fn newest_index_exec(s: &[FileInfo]) -> (r: usize)
    requires
        s@.len() > 0,
    ensures
        r as int == newest_index(s.deep_view()),
        r < s@.len(),
{
    let ghost sv = s.deep_view();
    let mut m: usize = 0;
    let mut i: usize = 1;
    assert(sv.take(1).len() == 1);
    while i < s.len()
        invariant
            sv == s.deep_view(),
            1 <= i <= sv.len(),
            m < i,
            m as int == newest_index(sv.take(i as int)),
        decreases sv.len() - i,
    {
        assert(sv.take(i + 1).drop_last() =~= sv.take(i as int));
        assert(sv.take(i + 1)[m as int] == sv[m as int]);
        if s[i].modified >= s[m].modified {
            m = i;
        }
        i = i + 1;
    }
    assert(sv.take(i as int) =~= sv);
    m
}


/// Copies of the records, largest first; records of equal size keep their order.
pub fn sort_by_size_desc(files: &[FileInfo]) -> (r: Vec<FileInfo>)
    ensures
        exists|perm: Seq<int>| sorted_by_size_desc(files.deep_view(), r.deep_view(), perm),
{
    let ghost input = files.deep_view();
    let n = files.len();
    let mut out: Vec<FileInfo> = Vec::new();
    let ghost mut perm: Seq<int> = Seq::empty();
    for i in 0..n
        invariant
            n == input.len(),
            input == files.deep_view(),
            out@.len() == i,
            perm.len() == i,
            forall|k: int| 0 <= k < perm.len() ==> 0 <= #[trigger] perm[k] < i,
            forall|j: int| 0 <= j < i ==> #[trigger] index_in(perm, j),
            forall|k: int, l: int|
                0 <= k < perm.len() && 0 <= l < perm.len() && k != l ==> #[trigger] perm[k]
                    != #[trigger] perm[l],
            forall|k: int| 0 <= k < out@.len() ==> #[trigger] out.deep_view()[k] == input[perm[k]],
            forall|k: int, l: int|
                0 <= k < l < out@.len() ==> #[trigger] out.deep_view()[k].size
                    > #[trigger] out.deep_view()[l].size || (out.deep_view()[k].size
                    == out.deep_view()[l].size && perm[k] < perm[l]),
    {
        let x = files[i].duplicate();
        let ghost old_out = out.deep_view();
        let ghost old_perm = perm;
        let ghost xv = x@;
        assert(xv == input[i as int]);
        let mut pos: usize = 0;
        while pos < out.len() && out[pos].size >= x.size
            invariant
                pos <= out@.len(),
                old_out == out.deep_view(),
                xv == x@,
                forall|k: int| 0 <= k < pos ==> #[trigger] old_out[k].size >= xv.size,
            decreases out@.len() - pos,
        {
            assert(old_out[pos as int].size == out@[pos as int].size);
            pos = pos + 1;
        }
        proof {
            if pos < out@.len() {
                assert(old_out[pos as int].size < xv.size);
                assert forall|j: int| pos <= j < out@.len() implies #[trigger] old_out[j].size
                    < xv.size by {
                    if j > pos {
                        assert(old_out[pos as int].size >= old_out[j].size);
                    }
                }
            }
        }
        out.insert(pos, x);
        proof {
            let p = pos as int;
            perm = old_perm.insert(p, i as int);
            assert(out.deep_view() =~= old_out.insert(p, xv));
            let nv = out.deep_view();
            assert forall|k: int| 0 <= k < perm.len() implies 0 <= #[trigger] perm[k] < i + 1 by {
                if k > p {
                    assert(perm[k] == old_perm[k - 1]);
                }
            }
            assert forall|k: int, l: int|
                0 <= k < perm.len() && 0 <= l < perm.len() && k != l implies #[trigger] perm[k]
                != #[trigger] perm[l] by {
                if k < p && l > p {
                    assert(old_perm[k] != old_perm[l - 1]);
                } else if k > p && l < p {
                    assert(old_perm[k - 1] != old_perm[l]);
                } else if k > p && l > p {
                    assert(old_perm[k - 1] != old_perm[l - 1]);
                } else if k == p && l != p {
                    if l < p {
                        assert(old_perm[l] < i);
                    } else {
                        assert(old_perm[l - 1] < i);
                    }
                } else if l == p && k != p {
                    if k < p {
                        assert(old_perm[k] < i);
                    } else {
                        assert(old_perm[k - 1] < i);
                    }
                }
            }
            assert forall|j: int| 0 <= j < i + 1 implies #[trigger] index_in(perm, j) by {
                if j == i {
                    assert(perm[p] == i);
                } else {
                    assert(index_in(old_perm, j));
                    let k0 = choose|k0: int| 0 <= k0 < old_perm.len() && old_perm[k0] == j;
                    if k0 < p {
                        assert(perm[k0] == j);
                    } else {
                        assert(perm[k0 + 1] == j);
                    }
                }
            }
            assert forall|k: int| 0 <= k < out@.len() implies #[trigger] nv[k] == input[perm[k]] by {
                if k < p {
                    assert(old_out[k] == input[old_perm[k]]);
                } else if k > p {
                    assert(old_out[k - 1] == input[old_perm[k - 1]]);
                }
            }
            assert forall|k: int, l: int| 0 <= k < l < out@.len() implies #[trigger] nv[k].size
                > #[trigger] nv[l].size || (nv[k].size == nv[l].size && perm[k] < perm[l]) by {
                if l < p {
                    assert(old_out[k].size > old_out[l].size || (old_out[k].size
                        == old_out[l].size && old_perm[k] < old_perm[l]));
                } else if l == p {
                    assert(old_out[k].size >= xv.size);
                    assert(old_perm[k] < i);
                } else if k < p {
                    assert(old_out[k].size > old_out[l - 1].size || (old_out[k].size
                        == old_out[l - 1].size && old_perm[k] < old_perm[l - 1]));
                } else if k == p {
                    assert(old_out[l - 1].size < xv.size);
                } else {
                    assert(old_out[k - 1].size > old_out[l - 1].size || (old_out[k - 1].size
                        == old_out[l - 1].size && old_perm[k - 1] < old_perm[l - 1]));
                }
            }
        }
    }
    assert(sorted_by_size_desc(input, out.deep_view(), perm));
    out
}


proof fn lemma_pick_len<A, B>(s: Seq<A>, t: Seq<B>, keep: Seq<bool>)
    requires
        s.len() == t.len(),
    ensures
        pick(s, keep).len() == pick(t, keep).len(),
    decreases s.len(),
{
    if s.len() > 0 {
        lemma_pick_len(s.drop_last(), t.drop_last(), keep.take(s.len() - 1));
    }
}

/// The rule engine on one folder's files, given each file's lowercased name
/// (`lower_names[i]` for `files[i]`) and the lowercased keywords.
pub fn identify_lowered(
    files: &[FileInfo],
    lower_names: &Vec<Vec<char>>,
    wanted: &Vec<Vec<char>>,
    unwanted: &Vec<Vec<char>>,
) -> (r: IdentifyResult)
    requires
        lower_names@.len() == files@.len(),
    ensures
        identify_spec(
            files.deep_view(),
            lower_names.deep_view(),
            wanted.deep_view(),
            unwanted.deep_view(),
            r@,
        ),
{
    let ghost fv = files.deep_view();
    let ghost lv = lower_names.deep_view();
    let ghost iv = wanted.deep_view();
    let ghost ev = unwanted.deep_view();
    let n = files.len();
    if n == 0 {
        let r = IdentifyResult {
            status: IdentifyStatus::NotFound,
            candidates: Vec::new(),
            selected_index: None,
        };
        assert(r@.candidates =~= Seq::<FileInfoView>::empty());
        return r;
    }
    let mut mask: Vec<bool> = Vec::new();
    for i in 0..n
        invariant
            n == files@.len(),
            lv == lower_names.deep_view(),
            lv.len() == n,
            iv == wanted.deep_view(),
            ev == unwanted.deep_view(),
            mask@ == keyword_mask(lv, iv, ev).take(i as int),
    {
        assert(lower_names[i as int]@ =~= lv[i as int]);
        let m = matches_any(&lower_names[i], wanted) && !matches_any(&lower_names[i], unwanted);
        mask.push(m);
        assert(mask@ =~= keyword_mask(lv, iv, ev).take(i + 1));
    }
    assert(mask@ =~= keyword_mask(lv, iv, ev));
    let matched = pick_files(files, &mask);
    let matched_lower = pick_chars(lower_names, &mask);
    let ghost mv = matched.deep_view();
    let ghost mlv = matched_lower.deep_view();
    proof {
        lemma_pick_len(fv, lv, mask@);
    }
    if n == 1 && matched.len() == 0 {
        let mut c: Vec<FileInfo> = Vec::new();
        c.push(files[0].duplicate());
        let r = IdentifyResult {
            status: IdentifyStatus::Identified,
            candidates: c,
            selected_index: Some(0),
        };
        assert(r@.candidates =~= seq![fv[0]]);
        return r;
    }
    if matched.len() == 0 {
        let sorted = sort_by_size_desc(files);
        let ghost perm = choose|p: Seq<int>| sorted_by_size_desc(fv, sorted.deep_view(), p);
        let r = IdentifyResult {
            status: IdentifyStatus::Unconfirmed,
            candidates: sorted,
            selected_index: Some(0),
        };
        assert(sorted_by_size_desc(fv, r@.candidates, perm));
        return r;
    }
    if matched.len() == 1 {
        let mut c: Vec<FileInfo> = Vec::new();
        c.push(matched[0].duplicate());
        let r = IdentifyResult {
            status: IdentifyStatus::Identified,
            candidates: c,
            selected_index: Some(0),
        };
        assert(r@.candidates =~= seq![mv[0]]);
        return r;
    }
    let finals_kw = final_keywords_exec();
    let mut fmask: Vec<bool> = Vec::new();
    for j in 0..matched_lower.len()
        invariant
            mlv == matched_lower.deep_view(),
            finals_kw.deep_view() == final_keywords(),
            fmask@ == final_mask(mlv).take(j as int),
    {
        assert(matched_lower[j as int]@ =~= mlv[j as int]);
        let m = matches_any(&matched_lower[j], &finals_kw);
        fmask.push(m);
        assert(fmask@ =~= final_mask(mlv).take(j + 1));
    }
    assert(fmask@ =~= final_mask(mlv));
    let finals = pick_files(matched.as_slice(), &fmask);
    let ghost finv = finals.deep_view();
    if finals.len() == 1 {
        let sel = first_with_path_exec(matched.as_slice(), &finals[0].path);
        assert(finals[0].path@ == finv[0].path);
        return IdentifyResult {
            status: IdentifyStatus::Identified,
            candidates: matched,
            selected_index: sel,
        };
    }
    let sel = if finals.len() > 0 {
        let idx = newest_index_exec(finals.as_slice());
        assert(finals[idx as int].path@ == finv[idx as int].path);
        first_with_path_exec(matched.as_slice(), &finals[idx].path)
    } else {
        let idx = newest_index_exec(matched.as_slice());
        assert(matched[idx as int].path@ == mv[idx as int].path);
        first_with_path_exec(matched.as_slice(), &matched[idx].path)
    };
    IdentifyResult { status: IdentifyStatus::MultipleCandidates, candidates: matched, selected_index: sel }
}

/// Each file's name, lowercased.
pub open spec fn lowered_names(files: Seq<FileInfoView>) -> Seq<Seq<char>> {
    Seq::new(files.len(), |i: int| lowercase_of(files[i].name))
}

/// Each keyword, lowercased.
pub open spec fn lowered_all(words: Seq<Seq<char>>) -> Seq<Seq<char>> {
    Seq::new(words.len(), |i: int| lowercase_of(words[i]))
}

fn lower_each(words: &Vec<String>) -> (r: Vec<Vec<char>>)
    ensures
        r.deep_view() == lowered_all(words.deep_view()),
{
    let ghost wv = words.deep_view();
    let mut r: Vec<Vec<char>> = Vec::new();
    for i in 0..words.len()
        invariant
            wv == words.deep_view(),
            r.deep_view() == lowered_all(wv).take(i as int),
    {
        let lw = lowercase(words[i].as_str());
        let l = chars_of(lw.as_str());
        assert(words[i as int]@ == wv[i as int]);
        assert(l@ == lowered_all(wv)[i as int]);
        let ghost before = r.deep_view();
        assert(l.deep_view() =~= l@);
        r.push(l);
        assert(r.deep_view() =~= before.push(l@));
        assert(r.deep_view() =~= lowered_all(wv).take(i + 1));
    }
    assert(r.deep_view() =~= lowered_all(wv));
    r
}

/// Runs the rule engine on the files of one student folder. Names and
/// keywords are compared case-insensitively (both lowercased).
pub fn identify(files: &[FileInfo], config: &KeywordConfig) -> (r: IdentifyResult)
    ensures
        identify_spec(
            files.deep_view(),
            lowered_names(files.deep_view()),
            lowered_all(config@.include_keywords),
            lowered_all(config@.exclude_keywords),
            r@,
        ),
{
    let ghost fv = files.deep_view();
    let mut lower_names: Vec<Vec<char>> = Vec::new();
    for i in 0..files.len()
        invariant
            fv == files.deep_view(),
            lower_names.deep_view() == lowered_names(fv).take(i as int),
    {
        let lw = lowercase(files[i].name.as_str());
        let l = chars_of(lw.as_str());
        assert(files[i as int].name@ == fv[i as int].name);
        assert(l@ == lowered_names(fv)[i as int]);
        let ghost before = lower_names.deep_view();
        assert(l.deep_view() =~= l@);
        lower_names.push(l);
        assert(lower_names.deep_view() =~= before.push(l@));
        assert(lower_names.deep_view() =~= lowered_names(fv).take(i + 1));
    }
    assert(lower_names.deep_view() =~= lowered_names(fv));
    let inc = lower_each(&config.include_keywords);
    let exc = lower_each(&config.exclude_keywords);
    identify_lowered(files, &lower_names, &inc, &exc)
}


proof fn lemma_pick_from<A>(s: Seq<A>, keep: Seq<bool>)
    requires
        keep.len() == s.len(),
    ensures
        forall|j: int|
            0 <= j < pick(s, keep).len() ==> exists|i: int|
                0 <= i < s.len() && keep[i] && #[trigger] pick(s, keep)[j] == s[i],
    decreases s.len(),
{
    if s.len() > 0 {
        let t = s.drop_last();
        let kt = keep.take(s.len() - 1);
        lemma_pick_from(t, kt);
        assert forall|j: int| 0 <= j < pick(s, keep).len() implies exists|i: int|
            0 <= i < s.len() && keep[i] && #[trigger] pick(s, keep)[j] == s[i] by {
            if j < pick(t, kt).len() {
                let i = choose|i: int| 0 <= i < t.len() && kt[i] && pick(t, kt)[j] == t[i];
                assert(keep[i] && pick(s, keep)[j] == s[i]);
            } else {
                assert(pick(s, keep)[j] == s[s.len() - 1]);
            }
        }
    }
}

proof fn lemma_pick_empty<A>(s: Seq<A>, keep: Seq<bool>)
    requires
        keep.len() == s.len(),
        pick(s, keep).len() == 0,
    ensures
        forall|i: int| 0 <= i < s.len() ==> !#[trigger] keep[i],
    decreases s.len(),
{
    if s.len() > 0 {
        let kt = keep.take(s.len() - 1);
        lemma_pick_empty(s.drop_last(), kt);
        assert forall|i: int| 0 <= i < s.len() implies !#[trigger] keep[i] by {
            if i < s.len() - 1 {
                assert(!kt[i]);
            }
        }
    }
}

proof fn lemma_pick_len_bound<A>(s: Seq<A>, keep: Seq<bool>)
    ensures
        pick(s, keep).len() <= s.len(),
    decreases s.len(),
{
    if s.len() > 0 {
        lemma_pick_len_bound(s.drop_last(), keep.take(s.len() - 1));
    }
}

proof fn lemma_first_with_path_found(s: Seq<FileInfoView>, p: Seq<char>, k: int)
    requires
        0 <= k < s.len(),
        s[k].path == p,
    ensures
        first_with_path(s, p) matches Some(i) && i < s.len(),
    decreases s.len(),
{
    if k < s.len() - 1 {
        lemma_first_with_path_found(s.drop_last(), p, k);
    } else if first_with_path(s.drop_last(), p) is Some {
        lemma_first_with_path_bound(s.drop_last(), p);
    }
}

proof fn lemma_first_with_path_bound(s: Seq<FileInfoView>, p: Seq<char>)
    ensures
        first_with_path(s, p) matches Some(i) ==> i < s.len(),
    decreases s.len(),
{
    if s.len() > 0 {
        lemma_first_with_path_bound(s.drop_last(), p);
    }
}

proof fn lemma_newest_in_range(s: Seq<FileInfoView>)
    requires
        s.len() > 0,
    ensures
        0 <= newest_index(s) < s.len(),
    decreases s.len(),
{
    if s.len() > 1 {
        lemma_newest_in_range(s.drop_last());
    }
}

/// Law: only a folder without files is `NotFound` and has no pre-selected file;
/// for every other folder the pre-selected index points into the candidates.
pub proof fn law_selection_is_a_candidate(
    files: Seq<FileInfoView>,
    lower: Seq<Seq<char>>,
    inc: Seq<Seq<char>>,
    exc: Seq<Seq<char>>,
    r: IdentifyResultView,
)
    requires
        lower.len() == files.len(),
        identify_spec(files, lower, inc, exc, r),
    ensures
        (r.status == IdentifyStatus::NotFound) <==> files.len() == 0,
        (r.selected_index is None) <==> files.len() == 0,
        r.selected_index matches Some(i) ==> i < r.candidates.len(),
{
    let mask = keyword_mask(lower, inc, exc);
    let matched = pick(files, mask);
    let matched_lower = pick(lower, mask);
    let fm = final_mask(matched_lower);
    let finals = pick(matched, fm);
    lemma_pick_len(files, lower, mask);
    if files.len() > 0 && matched.len() >= 2 {
        lemma_pick_from(matched, fm);
        if finals.len() == 1 {
            let i = choose|i: int| 0 <= i < matched.len() && fm[i] && finals[0] == matched[i];
            lemma_first_with_path_found(matched, finals[0].path, i);
        } else if finals.len() > 1 {
            lemma_newest_in_range(finals);
            let j = newest_index(finals);
            let i = choose|i: int| 0 <= i < matched.len() && fm[i] && finals[j] == matched[i];
            lemma_first_with_path_found(matched, finals[j].path, i);
        } else {
            lemma_newest_in_range(matched);
            lemma_first_with_path_found(matched, matched[newest_index(matched)].path, newest_index(matched));
        }
    }
}

/// Law: every candidate the engine shows is one of the folder's files.
pub proof fn law_candidates_come_from_files(
    files: Seq<FileInfoView>,
    lower: Seq<Seq<char>>,
    inc: Seq<Seq<char>>,
    exc: Seq<Seq<char>>,
    r: IdentifyResultView,
)
    requires
        lower.len() == files.len(),
        identify_spec(files, lower, inc, exc, r),
    ensures
        forall|j: int|
            0 <= j < r.candidates.len() ==> exists|i: int|
                0 <= i < files.len() && files[i] == #[trigger] r.candidates[j],
{
    let mask = keyword_mask(lower, inc, exc);
    let matched = pick(files, mask);
    lemma_pick_from(files, mask);
    if files.len() > 0 && matched.len() == 0 && files.len() != 1 {
        let perm = choose|perm: Seq<int>| sorted_by_size_desc(files, r.candidates, perm);
        assert forall|j: int| 0 <= j < r.candidates.len() implies exists|i: int|
            0 <= i < files.len() && files[i] == #[trigger] r.candidates[j] by {
            assert(r.candidates[j] == files[perm[j]]);
        }
    } else if files.len() == 1 && matched.len() == 0 {
        assert(files[0] == r.candidates[0]);
    }
}

/// Law: several candidates are only offered when at least two files pass the
/// keyword filter, and every one of them does.
pub proof fn law_multiple_candidates_all_match(
    files: Seq<FileInfoView>,
    lower: Seq<Seq<char>>,
    inc: Seq<Seq<char>>,
    exc: Seq<Seq<char>>,
    r: IdentifyResultView,
)
    requires
        lower.len() == files.len(),
        identify_spec(files, lower, inc, exc, r),
        r.status == IdentifyStatus::MultipleCandidates,
    ensures
        r.candidates.len() >= 2,
        forall|j: int|
            0 <= j < r.candidates.len() ==> exists|i: int|
                0 <= i < files.len() && files[i] == #[trigger] r.candidates[j] && passes_keywords(
                    lower[i],
                    inc,
                    exc,
                ),
{
    let mask = keyword_mask(lower, inc, exc);
    lemma_pick_from(files, mask);
    assert forall|j: int| 0 <= j < r.candidates.len() implies exists|i: int|
        0 <= i < files.len() && files[i] == #[trigger] r.candidates[j] && passes_keywords(
            lower[i],
            inc,
            exc,
        ) by {
        let i = choose|i: int|
            0 <= i < files.len() && mask[i] && #[trigger] pick(files, mask)[j] == files[i];
        assert(mask[i] == passes_keywords(lower[i], inc, exc));
    }
}

/// Law: in a folder of at least two files, the keyword filter (a wanted
/// keyword and no unwanted one) applies to every file, however many files hold
/// a wanted keyword: a file whose lowercased name holds an unwanted keyword is
/// never offered, every candidate of a confident or multiple answer passes the
/// filter, and the answer is unconfirmed exactly when no file passes it.
pub proof fn law_filter_decides_in_larger_folders(
    files: Seq<FileInfoView>,
    lower: Seq<Seq<char>>,
    inc: Seq<Seq<char>>,
    exc: Seq<Seq<char>>,
    r: IdentifyResultView,
)
    requires
        lower.len() == files.len(),
        files.len() >= 2,
        identify_spec(files, lower, inc, exc, r),
    ensures
        (r.status == IdentifyStatus::Unconfirmed) <==> (forall|i: int|
            0 <= i < files.len() ==> !passes_keywords(#[trigger] lower[i], inc, exc)),
        r.status != IdentifyStatus::Unconfirmed ==> r.candidates.len() >= 1 && forall|j: int|
            0 <= j < r.candidates.len() ==> exists|i: int|
                0 <= i < files.len() && files[i] == #[trigger] r.candidates[j] && passes_keywords(
                    lower[i],
                    inc,
                    exc,
                ) && !matches_keyword(lower[i], exc),
{
    let mask = keyword_mask(lower, inc, exc);
    let matched = pick(files, mask);
    lemma_pick_from(files, mask);
    if matched.len() == 0 {
        lemma_pick_empty(files, mask);
        assert forall|i: int| 0 <= i < files.len() implies !passes_keywords(#[trigger] lower[i], inc, exc) by {
            assert(!mask[i]);
        }
    } else {
        let j0 = 0int;
        let i0 = choose|i: int| 0 <= i < files.len() && mask[i] && #[trigger] matched[j0] == files[i];
        assert(passes_keywords(lower[i0], inc, exc));
        assert forall|j: int| 0 <= j < r.candidates.len() implies exists|i: int|
            0 <= i < files.len() && files[i] == #[trigger] r.candidates[j] && passes_keywords(
                lower[i],
                inc,
                exc,
            ) && !matches_keyword(lower[i], exc) by {
            assert(r.candidates[j] == matched[j]);
            let i = choose|i: int| 0 <= i < files.len() && mask[i] && #[trigger] matched[j] == files[i];
            assert(mask[i] == passes_keywords(lower[i], inc, exc));
        }
    }
}

/// Law: a folder whose files all fail the keyword filter gets an unconfirmed
/// suggestion: all its files, largest first, with the largest pre-selected.
pub proof fn law_unconfirmed_suggests_largest(
    files: Seq<FileInfoView>,
    lower: Seq<Seq<char>>,
    inc: Seq<Seq<char>>,
    exc: Seq<Seq<char>>,
    r: IdentifyResultView,
)
    requires
        lower.len() == files.len(),
        identify_spec(files, lower, inc, exc, r),
        r.status == IdentifyStatus::Unconfirmed,
    ensures
        files.len() >= 2,
        r.candidates.len() == files.len(),
        r.selected_index == Some(0usize),
        forall|i: int| 0 <= i < files.len() ==> !passes_keywords(#[trigger] lower[i], inc, exc),
        forall|i: int| 0 <= i < files.len() ==> #[trigger] files[i].size <= r.candidates[0].size,
{
    let mask = keyword_mask(lower, inc, exc);
    lemma_pick_empty(files, mask);
    assert forall|i: int| 0 <= i < files.len() implies !passes_keywords(#[trigger] lower[i], inc, exc) by {
        assert(!mask[i]);
    }
    let perm = choose|perm: Seq<int>| sorted_by_size_desc(files, r.candidates, perm);
    assert forall|i: int| 0 <= i < files.len() implies #[trigger] files[i].size
        <= r.candidates[0].size by {
        assert(index_in(perm, i));
        let k = choose|k: int| 0 <= k < perm.len() && perm[k] == i;
        assert(r.candidates[k] == files[i]);
        if k > 0 {
            assert(r.candidates[0].size >= r.candidates[k].size);
        }
    }
}


proof fn lemma_pick_lowered(files: Seq<FileInfoView>, keep: Seq<bool>)
    requires
        keep.len() == files.len(),
    ensures
        pick(lowered_names(files), keep) == lowered_names(pick(files, keep)),
    decreases files.len(),
{
    if files.len() > 0 {
        let t = files.drop_last();
        let kt = keep.take(files.len() - 1);
        lemma_pick_lowered(t, kt);
        assert(lowered_names(files).drop_last() =~= lowered_names(t));
        if keep[files.len() - 1] {
            assert(lowered_names(pick(t, kt).push(files.last())) =~= lowered_names(pick(t, kt)).push(
                lowercase_of(files.last().name),
            ));
        }
    }
}

proof fn lemma_pick_complete<A>(s: Seq<A>, keep: Seq<bool>, j: int)
    requires
        keep.len() == s.len(),
        0 <= j < s.len(),
        keep[j],
    ensures
        exists|m: int| 0 <= m < pick(s, keep).len() && #[trigger] pick(s, keep)[m] == s[j],
    decreases s.len(),
{
    let t = s.drop_last();
    let kt = keep.take(s.len() - 1);
    if j < s.len() - 1 {
        lemma_pick_complete(t, kt, j);
        let m = choose|m: int| 0 <= m < pick(t, kt).len() && #[trigger] pick(t, kt)[m] == t[j];
        assert(pick(s, keep)[m] == s[j]);
    } else {
        assert(pick(s, keep)[pick(s, keep).len() - 1] == s[j]);
    }
}

proof fn lemma_newest_is_latest(s: Seq<FileInfoView>)
    requires
        s.len() > 0,
    ensures
        forall|g: int| 0 <= g < s.len() ==> #[trigger] s[g].modified <= s[newest_index(s)].modified,
    decreases s.len(),
{
    lemma_newest_in_range(s);
    if s.len() > 1 {
        let t = s.drop_last();
        lemma_newest_is_latest(t);
        lemma_newest_in_range(t);
        assert forall|g: int| 0 <= g < s.len() implies #[trigger] s[g].modified
            <= s[newest_index(s)].modified by {
            if g < s.len() - 1 {
                assert(t[g].modified <= t[newest_index(t)].modified);
            }
        }
    }
}

proof fn lemma_first_with_path_is(s: Seq<FileInfoView>, p: Seq<char>)
    requires
        s.len() <= usize::MAX,
    ensures
        first_with_path(s, p) matches Some(i) ==> i < s.len() && s[i as int].path == p,
    decreases s.len(),
{
    if s.len() > 0 {
        lemma_first_with_path_is(s.drop_last(), p);
        if let Some(i) = first_with_path(s.drop_last(), p) {
            assert(s.drop_last()[i as int] == s[i as int]);
        }
    }
}

/// A file record whose lowercased name holds a final-version keyword.
pub open spec fn is_final_version(f: FileInfoView) -> bool {
    matches_keyword(lowercase_of(f.name), final_keywords())
}

/// Law: when the engine settles on one of several keyword matches, it is
/// because exactly one of them is marked as a final version ("终稿", "定稿",
/// "最终", "final"), and that is the file pre-selected.
pub proof fn law_single_final_version_is_preselected(
    files: Seq<FileInfoView>,
    inc: Seq<Seq<char>>,
    exc: Seq<Seq<char>>,
    r: IdentifyResultView,
)
    requires
        files.len() <= usize::MAX,
        identify_spec(files, lowered_names(files), inc, exc, r),
        r.status == IdentifyStatus::Identified,
        r.candidates.len() >= 2,
    ensures
        r.selected_index matches Some(i) && i < r.candidates.len() && exists|k: int|
            0 <= k < r.candidates.len() && is_final_version(r.candidates[k]) && r.candidates[k].path
                == r.candidates[i as int].path && forall|g: int|
                0 <= g < r.candidates.len() && is_final_version(#[trigger] r.candidates[g])
                    ==> r.candidates[g] == r.candidates[k],
{
    let lower = lowered_names(files);
    let mask = keyword_mask(lower, inc, exc);
    let matched = pick(files, mask);
    let matched_lower = pick(lower, mask);
    let fm = final_mask(matched_lower);
    let finals = pick(matched, fm);
    lemma_pick_len(files, lower, mask);
    lemma_pick_lowered(files, mask);
    lemma_pick_len_bound(files, mask);
    assert(matched_lower == lowered_names(matched));
    assert(finals.len() == 1);
    lemma_pick_from(matched, fm);
    let k = choose|k: int| 0 <= k < matched.len() && fm[k] && finals[0] == matched[k];
    lemma_first_with_path_found(matched, finals[0].path, k);
    lemma_first_with_path_is(matched, finals[0].path);
    assert(is_final_version(matched[k])) by {
        assert(fm[k] == matches_keyword(matched_lower[k], final_keywords()));
        assert(matched_lower[k] == lowercase_of(matched[k].name));
    }
    assert forall|g: int|
        0 <= g < matched.len() && is_final_version(#[trigger] matched[g]) implies matched[g]
        == matched[k] by {
        assert(matched_lower[g] == lowercase_of(matched[g].name));
        assert(fm[g]);
        lemma_pick_complete(matched, fm, g);
    }
}

/// Law: when several candidates remain, the pre-selected file is a most
/// recently modified one — among the final-version candidates if there are
/// any, otherwise among all candidates.
pub proof fn law_newest_candidate_is_preselected(
    files: Seq<FileInfoView>,
    inc: Seq<Seq<char>>,
    exc: Seq<Seq<char>>,
    r: IdentifyResultView,
)
    requires
        files.len() <= usize::MAX,
        identify_spec(files, lowered_names(files), inc, exc, r),
        r.status == IdentifyStatus::MultipleCandidates,
    ensures
        r.selected_index matches Some(i) && i < r.candidates.len() && exists|k: int|
            0 <= k < r.candidates.len() && r.candidates[k].path == r.candidates[i as int].path
                && if exists|g: int|
                0 <= g < r.candidates.len() && is_final_version(#[trigger] r.candidates[g]) {
                is_final_version(r.candidates[k]) && forall|g: int|
                    0 <= g < r.candidates.len() && is_final_version(#[trigger] r.candidates[g])
                        ==> r.candidates[g].modified <= r.candidates[k].modified
            } else {
                forall|g: int|
                    0 <= g < r.candidates.len() ==> #[trigger] r.candidates[g].modified
                        <= r.candidates[k].modified
            },
{
    let lower = lowered_names(files);
    let mask = keyword_mask(lower, inc, exc);
    let matched = pick(files, mask);
    let matched_lower = pick(lower, mask);
    let fm = final_mask(matched_lower);
    let finals = pick(matched, fm);
    lemma_pick_len(files, lower, mask);
    lemma_pick_lowered(files, mask);
    lemma_pick_len_bound(files, mask);
    assert(matched_lower == lowered_names(matched));
    assert forall|g: int| 0 <= g < matched.len() implies fm[g] == is_final_version(
        #[trigger] matched[g],
    ) by {
        assert(matched_lower[g] == lowercase_of(matched[g].name));
    }
    lemma_pick_from(matched, fm);
    if finals.len() > 0 {
        let n = newest_index(finals);
        lemma_newest_in_range(finals);
        lemma_newest_is_latest(finals);
        let k = choose|k: int| 0 <= k < matched.len() && fm[k] && finals[n] == matched[k];
        lemma_first_with_path_found(matched, finals[n].path, k);
        lemma_first_with_path_is(matched, finals[n].path);
        assert(is_final_version(matched[k]));
        assert forall|g: int|
            0 <= g < matched.len() && is_final_version(#[trigger] matched[g]) implies matched[g].modified
            <= matched[k].modified by {
            lemma_pick_complete(matched, fm, g);
            let m = choose|m: int| 0 <= m < finals.len() && #[trigger] finals[m] == matched[g];
            assert(finals[m].modified <= finals[n].modified);
        }
        assert(r.candidates == matched);
        let i = first_with_path(matched, finals[n].path)->0;
        assert(matched[k].path == matched[i as int].path);
        assert(exists|g: int| 0 <= g < matched.len() && is_final_version(#[trigger] matched[g]));
    } else {
        let n = newest_index(matched);
        lemma_newest_in_range(matched);
        lemma_newest_is_latest(matched);
        lemma_first_with_path_found(matched, matched[n].path, n);
        lemma_first_with_path_is(matched, matched[n].path);
        assert forall|g: int| 0 <= g < matched.len() implies !is_final_version(
            #[trigger] matched[g],
        ) by {
            if is_final_version(matched[g]) {
                lemma_pick_complete(matched, fm, g);
            }
        }
        assert(r.candidates == matched);
        let i = first_with_path(matched, matched[n].path)->0;
        assert(matched[n].path == matched[i as int].path);
    }
}

} // verus!
