//! Character-level helpers: substring search, line and word splitting,
//! unsigned decimal parsing and printing, and the lowercase mapping.
use vstd::prelude::*;

verus! {

/// `needle` occurs in `hay` starting at position `i`.
pub open spec fn occurs_at(hay: Seq<char>, needle: Seq<char>, i: int) -> bool {
    0 <= i && i + needle.len() <= hay.len() && hay.subrange(i, i + needle.len()) == needle
}

/// `needle` is a (contiguous) substring of `hay`; the empty needle is in every string.
pub open spec fn has_substring(hay: Seq<char>, needle: Seq<char>) -> bool {
    exists|i: int| occurs_at(hay, needle, i)
}

/// The characters of a string, as a vector.
pub fn chars_of(s: &str) -> (v: Vec<char>)
    ensures
        v@ == s@,
{
    let n = s.unicode_len();
    let mut v: Vec<char> = Vec::new();
    for i in 0..n
        invariant
            n == s@.len(),
            v@ == s@.take(i as int),
    {
        v.push(s.get_char(i));
        assert(s@.take(i + 1) == s@.take(i as int).push(s@[i as int]));
    }
    assert(s@.take(n as int) == s@);
    v
}

/// Whether `needle` occurs at position `i` of `hay`.
fn occurs_at_exec(hay: &Vec<char>, needle: &Vec<char>, i: usize) -> (b: bool)
    requires
        i + needle@.len() <= hay@.len(),
    ensures
        b == occurs_at(hay@, needle@, i as int),
{
    let m = needle.len();
    let n = hay.len();
    let mut j: usize = 0;
    while j < m
        invariant
            m == needle@.len(),
            n == hay@.len(),
            n <= usize::MAX,
            i + m <= hay@.len(),
            j <= m,
            forall|k: int| 0 <= k < j ==> hay@[i + k] == needle@[k],
        decreases m - j,
    {
        if hay[i + j] != needle[j] {
            assert(hay@.subrange(i as int, i + m)[j as int] != needle@[j as int]);
            return false;
        }
        j = j + 1;
    }
    assert(hay@.subrange(i as int, i + m) =~= needle@);
    true
}

/// Substring search over character vectors.
pub fn contains_chars(hay: &Vec<char>, needle: &Vec<char>) -> (b: bool)
    ensures
        b == has_substring(hay@, needle@),
{
    let n = hay.len();
    let m = needle.len();
    if m > n {
        assert forall|i: int| !occurs_at(hay@, needle@, i) by {}
        return false;
    }
    let last = n - m;
    let mut i: usize = 0;
    loop
        invariant
            n == hay@.len(),
            m == needle@.len(),
            m <= n,
            last == n - m,
            i <= last,
            forall|k: int| 0 <= k < i ==> !occurs_at(hay@, needle@, k),
        decreases last - i,
    {
        if occurs_at_exec(hay, needle, i) {
            return true;
        }
        if i == last {
            assert forall|k: int| !occurs_at(hay@, needle@, k) by {
                if 0 <= k && k + m <= n && k != i {
                    assert(k < i);
                }
            }
            return false;
        }
        i = i + 1;
    }
}

/// Unicode `White_Space`: the characters that `str::trim` and
/// `str::split_whitespace` treat as whitespace.
pub open spec fn is_space(c: char) -> bool {
    ||| ('\t' <= c && c <= '\r')
    ||| c == ' '
    ||| c == '\u{85}'
    ||| c == '\u{A0}'
    ||| c == '\u{1680}'
    ||| ('\u{2000}' <= c && c <= '\u{200A}')
    ||| c == '\u{2028}'
    ||| c == '\u{2029}'
    ||| c == '\u{202F}'
    ||| c == '\u{205F}'
    ||| c == '\u{3000}'
}

/// Executable test for [`is_space`].
pub fn is_space_exec(c: char) -> (b: bool)
    ensures
        b == is_space(c),
{
    ('\t' <= c && c <= '\r') || c == ' ' || c == '\u{85}' || c == '\u{A0}' || c == '\u{1680}'
        || ('\u{2000}' <= c && c <= '\u{200A}') || c == '\u{2028}' || c == '\u{2029}'
        || c == '\u{202F}' || c == '\u{205F}' || c == '\u{3000}'
}

/// The pieces of `s` between occurrences of `sep` (always at least one piece).
pub open spec fn split_at_char(s: Seq<char>, sep: char) -> Seq<Seq<char>>
    decreases s.len(),
{
    if s.len() == 0 {
        seq![Seq::<char>::empty()]
    } else {
        let init = split_at_char(s.drop_last(), sep);
        if s.last() == sep {
            init.push(Seq::<char>::empty())
        } else {
            init.update(init.len() - 1, init.last().push(s.last()))
        }
    }
}

pub proof fn lemma_split_nonempty(s: Seq<char>, sep: char)
    ensures
        split_at_char(s, sep).len() >= 1,
    decreases s.len(),
{
    if s.len() > 0 {
        lemma_split_nonempty(s.drop_last(), sep);
    }
}

/// The text's lines, cut at each '\n'.
///
/// Unlike `str::lines`, a '\r' before a '\n' stays on its line and a final
/// '\n' leaves an empty last line; the parsers in this crate read lines only
/// by prefixes that hold no '\r' and by whitespace-separated words, on which
/// the two agree.
pub open spec fn text_lines(s: Seq<char>) -> Seq<Seq<char>> {
    split_at_char(s, '\n')
}

/// The maximal runs of non-whitespace characters of `s`, in order
/// (what `str::split_whitespace` yields).
pub open spec fn words(s: Seq<char>) -> Seq<Seq<char>>
    decreases s.len(),
{
    if s.len() == 0 {
        Seq::<Seq<char>>::empty()
    } else {
        let w = words(s.drop_last());
        let c = s.last();
        if is_space(c) {
            w
        } else if s.len() >= 2 && !is_space(s[s.len() - 2]) {
            w.update(w.len() - 1, w.last().push(c))
        } else {
            w.push(seq![c])
        }
    }
}

pub proof fn lemma_words_nonempty(s: Seq<char>)
    requires
        s.len() > 0,
        !is_space(s.last()),
    ensures
        words(s).len() >= 1,
    decreases s.len(),
{
    if s.len() >= 2 && !is_space(s[s.len() - 2]) {
        lemma_words_nonempty(s.drop_last());
    }
}

/// Splits a character vector at every `sep`.
pub fn split_chars(s: &Vec<char>, sep: char) -> (r: Vec<Vec<char>>)
    ensures
        r.deep_view() == split_at_char(s@, sep),
{
    let n = s.len();
    let mut done: Vec<Vec<char>> = Vec::new();
    let mut cur: Vec<char> = Vec::new();
    for i in 0..n
        invariant
            n == s@.len(),
            split_at_char(s@.take(i as int), sep) == done.deep_view().push(cur@),
    {
        let c = s[i];
        let ghost before = s@.take(i as int);
        assert(s@.take(i + 1).drop_last() == before);
        proof {
            lemma_split_nonempty(before, sep);
        }
        if c == sep {
            let ghost old_done = done.deep_view();
            let finished = cur;
            assert(finished.deep_view() =~= finished@);
            done.push(finished);
            cur = Vec::new();
            assert(done.deep_view() =~= old_done.push(finished@));
        } else {
            cur.push(c);
        }
    }
    assert(s@.take(n as int) == s@);
    let ghost old_done = done.deep_view();
    assert(cur.deep_view() =~= cur@);
    done.push(cur);
    assert(done.deep_view() =~= old_done.push(cur@));
    done
}

/// Splits a character vector into its whitespace-separated words.
pub fn split_words(s: &Vec<char>) -> (r: Vec<Vec<char>>)
    ensures
        r.deep_view() == words(s@),
{
    let n = s.len();
    let mut done: Vec<Vec<char>> = Vec::new();
    let mut cur: Vec<char> = Vec::new();
    for i in 0..n
        invariant
            n == s@.len(),
            cur@.len() > 0 <==> (i > 0 && !is_space(s@[i - 1])),
            cur@.len() > 0 ==> words(s@.take(i as int)) == done.deep_view().push(cur@),
            cur@.len() == 0 ==> words(s@.take(i as int)) == done.deep_view(),
    {
        let c = s[i];
        let ghost before = s@.take(i as int);
        assert(s@.take(i + 1).drop_last() == before);
        assert(s@.take(i + 1).last() == c);
        if is_space_exec(c) {
            if cur.len() > 0 {
                let ghost old_done = done.deep_view();
                let finished = cur;
                assert(finished.deep_view() =~= finished@);
                done.push(finished);
                cur = Vec::new();
                assert(done.deep_view() =~= old_done.push(finished@));
            }
        } else {
            if i > 0 {
                assert(s@.take(i + 1)[i - 1] == s@[i - 1]);
            }
            let ghost old_cur = cur@;
            cur.push(c);
            proof {
                if old_cur.len() > 0 {
                    assert(done.deep_view().push(old_cur).update(
                        done.deep_view().len() as int,
                        old_cur.push(c),
                    ) =~= done.deep_view().push(cur@));
                } else {
                    assert(cur@ =~= seq![c]);
                }
            }
        }
    }
    assert(s@.take(n as int) == s@);
    if cur.len() > 0 {
        let ghost old_done = done.deep_view();
        assert(cur.deep_view() =~= cur@);
        done.push(cur);
        assert(done.deep_view() =~= old_done.push(cur@));
    }
    done
}


/// An ASCII decimal digit.
pub open spec fn is_digit(c: char) -> bool {
    '0' <= c && c <= '9'
}

pub open spec fn all_digits(s: Seq<char>) -> bool {
    forall|i: int| 0 <= i < s.len() ==> #[trigger] is_digit(s[i])
}

/// The number a string of decimal digits denotes.
pub open spec fn decimal_value(s: Seq<char>) -> nat
    decreases s.len(),
{
    if s.len() == 0 {
        0
    } else {
        decimal_value(s.drop_last()) * 10 + ((s.last() as int) - ('0' as int)) as nat
    }
}

/// The digits part of an unsigned number: a single leading '+' is dropped.
pub open spec fn unsigned_body(tok: Seq<char>) -> Seq<char> {
    if tok.len() > 0 && tok[0] == '+' {
        tok.skip(1)
    } else {
        tok
    }
}

/// What `tok.parse::<u64>()` accepts: an optional '+', then one or more ASCII
/// digits whose value fits in 64 bits.
pub open spec fn parse_u64_spec(tok: Seq<char>) -> Option<u64> {
    let d = unsigned_body(tok);
    if d.len() > 0 && all_digits(d) && decimal_value(d) <= u64::MAX {
        Some(decimal_value(d) as u64)
    } else {
        None
    }
}

proof fn lemma_decimal_grows(s: Seq<char>, k: int)
    requires
        0 <= k <= s.len(),
        all_digits(s),
    ensures
        decimal_value(s.take(k)) <= decimal_value(s),
    decreases s.len() - k,
{
    if k < s.len() {
        lemma_decimal_grows(s, k + 1);
        assert(s.take(k + 1).drop_last() == s.take(k));
        assert(is_digit(s[k]));
    } else {
        assert(s.take(k) == s);
    }
}

/// Parses an unsigned 64-bit decimal number as `str::parse::<u64>` does.
pub fn parse_u64(tok: &Vec<char>) -> (r: Option<u64>)
    ensures
        r == parse_u64_spec(tok@),
{
    let n = tok.len();
    let mut start: usize = 0;
    if n > 0 && tok[0] == '+' {
        start = 1;
    }
    let ghost body = unsigned_body(tok@);
    assert(body == tok@.skip(start as int));
    if start >= n {
        return None;
    }
    let mut value: u64 = 0;
    let mut i: usize = start;
    while i < n
        invariant
            n == tok@.len(),
            start <= i <= n,
            start < n,
            body == tok@.skip(start as int),
            body == unsigned_body(tok@),
            all_digits(body.take(i - start)),
            value as nat == decimal_value(body.take(i - start)),
        decreases n - i,
    {
        let c = tok[i];
        assert(body[i - start] == c);
        if !('0' <= c && c <= '9') {
            assert(!is_digit(body[i - start]));
            assert(!all_digits(body));
            return None;
        }
        let d = (c as u32 - '0' as u32) as u64;
        assert(body.take(i + 1 - start).drop_last() == body.take(i - start));
        assert(body.take(i + 1 - start).last() == c);
        assert(all_digits(body.take(i + 1 - start))) by {
            assert forall|k: int| 0 <= k < i + 1 - start implies #[trigger] is_digit(
                body.take(i + 1 - start)[k],
            ) by {
                if k < i - start {
                    assert(body.take(i + 1 - start)[k] == body.take(i - start)[k]);
                }
            }
        }
        match value.checked_mul(10) {
            Some(v10) => match v10.checked_add(d) {
                Some(v) => {
                    value = v;
                },
                None => {
                    proof {
                        overflow_means_none(body, (i + 1 - start) as int);
                    }
                    return None;
                },
            },
            None => {
                proof {
                    overflow_means_none(body, (i + 1 - start) as int);
                }
                return None;
            },
        }
        i = i + 1;
    }
    assert(body.take(n - start) == body);
    Some(value)
}

proof fn overflow_means_none(body: Seq<char>, k: int)
    requires
        0 <= k <= body.len(),
        all_digits(body.take(k)),
        decimal_value(body.take(k)) > u64::MAX,
    ensures
        !(all_digits(body) && decimal_value(body) <= u64::MAX),
{
    if all_digits(body) {
        lemma_decimal_grows(body, k);
    }
}

/// The decimal digit for `d` (0 to 9).
pub open spec fn digit_char(d: nat) -> char {
    if d == 0 {
        '0'
    } else if d == 1 {
        '1'
    } else if d == 2 {
        '2'
    } else if d == 3 {
        '3'
    } else if d == 4 {
        '4'
    } else if d == 5 {
        '5'
    } else if d == 6 {
        '6'
    } else if d == 7 {
        '7'
    } else if d == 8 {
        '8'
    } else {
        '9'
    }
}

/// The decimal representation of `n`, without leading zeros (as `Display` prints it).
pub open spec fn decimal_string(n: nat) -> Seq<char>
    decreases n,
{
    if n < 10 {
        seq![digit_char(n)]
    } else {
        decimal_string(n / 10).push(digit_char(n % 10))
    }
}

fn digit_char_exec(d: u64) -> (c: char)
    requires
        d < 10,
    ensures
        c == digit_char(d as nat),
{
    if d == 0 {
        '0'
    } else if d == 1 {
        '1'
    } else if d == 2 {
        '2'
    } else if d == 3 {
        '3'
    } else if d == 4 {
        '4'
    } else if d == 5 {
        '5'
    } else if d == 6 {
        '6'
    } else if d == 7 {
        '7'
    } else if d == 8 {
        '8'
    } else {
        '9'
    }
}

/// Appends one character to a string.
///
/// Trusted: calls `String::push`, which appends the given `char` to the end of
/// the string; the contract claims exactly that.
#[verifier::external_body]
pub(crate) fn push_char(s: &mut String, c: char)
    ensures
        final(s)@ == old(s)@.push(c),
{
    s.push(c);
}

/// Appends the decimal representation of `n`.
pub fn push_decimal(out: &mut String, n: u64)
    ensures
        final(out)@ == old(out)@ + decimal_string(n as nat),
    decreases n,
{
    if n >= 10 {
        push_decimal(out, n / 10);
    }
    push_char(out, digit_char_exec(n % 10));
}

/// A string holding exactly the given characters.
pub fn string_of_chars(v: &Vec<char>) -> (s: String)
    ensures
        s@ == v@,
{
    let mut s = String::new();
    for i in 0..v.len()
        invariant
            s@ == v@.take(i as int),
    {
        push_char(&mut s, v[i]);
        assert(v@.take(i + 1) == v@.take(i as int).push(v@[i as int]));
    }
    assert(v@.take(v@.len() as int) == v@);
    s
}

/// `s` begins with `prefix`.
pub open spec fn has_prefix(s: Seq<char>, prefix: Seq<char>) -> bool {
    prefix.len() <= s.len() && s.take(prefix.len() as int) == prefix
}

pub fn starts_with_chars(s: &Vec<char>, prefix: &Vec<char>) -> (b: bool)
    ensures
        b == has_prefix(s@, prefix@),
{
    if prefix.len() > s.len() {
        return false;
    }
    let r = occurs_at_exec(s, prefix, 0);
    assert(s@.subrange(0, prefix@.len() as int) == s@.take(prefix@.len() as int));
    r
}

/// `s` with the whitespace at both ends removed (what `str::trim` returns).
pub open spec fn trimmed(s: Seq<char>, lo: int, hi: int) -> bool {
    &&& 0 <= lo <= hi <= s.len()
    &&& forall|k: int| 0 <= k < lo ==> #[trigger] is_space(s[k])
    &&& forall|k: int| hi <= k < s.len() ==> #[trigger] is_space(s[k])
    &&& lo < hi ==> !is_space(s[lo]) && !is_space(s[hi - 1])
}

pub open spec fn trim_spec(s: Seq<char>) -> Seq<char> {
    let (lo, hi) = choose|lo: int, hi: int| trimmed(s, lo, hi);
    s.subrange(lo, hi)
}

proof fn lemma_trim_unique(s: Seq<char>, lo: int, hi: int)
    requires
        trimmed(s, lo, hi),
    ensures
        trim_spec(s) == s.subrange(lo, hi),
{
    let (lo2, hi2) = choose|lo2: int, hi2: int| trimmed(s, lo2, hi2);
    assert(trimmed(s, lo2, hi2));
    if lo < hi {
        assert(lo2 == lo) by {
            if lo2 < lo {
                assert(is_space(s[lo2]));
            }
            if lo2 > lo {
                assert(is_space(s[lo]));
            }
        }
        assert(hi2 == hi) by {
            if hi2 < hi {
                assert(is_space(s[hi - 1]));
            }
            if hi2 > hi {
                assert(is_space(s[hi2 - 1]));
            }
        }
    } else {
        assert(lo2 >= hi2) by {
            if lo2 < hi2 {
                assert(is_space(s[lo2]) || lo2 >= lo);
                if lo2 < lo {
                    assert(is_space(s[lo2]));
                } else {
                    assert(is_space(s[lo2]));
                }
            }
        }
        assert(s.subrange(lo, hi) =~= Seq::<char>::empty());
        assert(s.subrange(lo2, hi2) =~= Seq::<char>::empty());
    }
}

/// Removes the leading and trailing whitespace.
pub fn trim_chars(s: &Vec<char>) -> (r: Vec<char>)
    ensures
        r@ == trim_spec(s@),
{
    let n = s.len();
    let mut lo: usize = 0;
    while lo < n && is_space_exec(s[lo])
        invariant
            n == s@.len(),
            lo <= n,
            forall|k: int| 0 <= k < lo ==> #[trigger] is_space(s@[k]),
        decreases n - lo,
    {
        lo = lo + 1;
    }
    let mut hi: usize = n;
    while hi > lo && is_space_exec(s[hi - 1])
        invariant
            n == s@.len(),
            lo <= hi <= n,
            forall|k: int| hi <= k < n ==> #[trigger] is_space(s@[k]),
        decreases hi,
    {
        hi = hi - 1;
    }
    let mut r: Vec<char> = Vec::new();
    let mut k: usize = lo;
    while k < hi
        invariant
            n == s@.len(),
            lo <= k <= hi <= n,
            r@ == s@.subrange(lo as int, k as int),
        decreases hi - k,
    {
        r.push(s[k]);
        assert(s@.subrange(lo as int, k + 1) == s@.subrange(lo as int, k as int).push(s@[k as int]));
        k = k + 1;
    }
    proof {
        assert(trimmed(s@, lo as int, hi as int));
        lemma_trim_unique(s@, lo as int, hi as int);
    }
    r
}

/// Unicode lowercase mapping of a string, as `str::to_lowercase` computes it.
pub uninterp spec fn lowercase_of(s: Seq<char>) -> Seq<char>;

/// Every character is ASCII.
pub open spec fn is_ascii_text(s: Seq<char>) -> bool {
    forall|i: int| 0 <= i < s.len() ==> (#[trigger] s[i] as u32) < 128
}

/// ASCII lowercasing: 'A' to 'Z' become 'a' to 'z', every other character is kept.
pub open spec fn ascii_lowercase(s: Seq<char>) -> Seq<char> {
    s.map_values(
        |c: char|
            if 65 <= (c as u32) && (c as u32) <= 90 {
                ((c as u32) + 32) as char
            } else {
                c
            },
    )
}

/// Lowercases a string.
///
/// Trusted: calls `str::to_lowercase`; the contract names its result
/// ([`lowercase_of`] of the argument's characters), since the Unicode mapping is
/// not spelled out here, and states it for ASCII text, where it maps 'A' to 'Z'
/// onto 'a' to 'z' as `str::to_ascii_lowercase` does (whose documentation
/// points to `to_lowercase` for lowercasing "ASCII characters in addition to
/// non-ASCII characters").
#[verifier::external_body]
pub(crate) fn lowercase(s: &str) -> (r: String)
    ensures
        r@ == lowercase_of(s@),
        is_ascii_text(s@) ==> r@ == ascii_lowercase(s@),
{
    s.to_lowercase()
}


/// The lines joined with '\n' between consecutive ones.
pub open spec fn join_lines(lines: Seq<Seq<char>>) -> Seq<char>
    decreases lines.len(),
{
    if lines.len() == 0 {
        Seq::<char>::empty()
    } else if lines.len() == 1 {
        lines[0]
    } else {
        join_lines(lines.drop_last()).push('\n') + lines.last()
    }
}

/// Joins lines with '\n' (as `lines.join("\n")` does).
pub fn join_with_newlines(lines: &Vec<String>) -> (r: String)
    ensures
        r@ == join_lines(lines.deep_view()),
{
    let ghost lv = lines.deep_view();
    let mut r = String::new();
    for i in 0..lines.len()
        invariant
            lv == lines.deep_view(),
            r@ == join_lines(lv.take(i as int)),
    {
        assert(lv.take(i + 1).drop_last() =~= lv.take(i as int));
        assert(lv.take(i + 1).last() == lines[i as int]@);
        if i > 0 {
            push_char(&mut r, '\n');
        } else {
            assert(r@ =~= Seq::<char>::empty());
        }
        r.append(lines[i].as_str());
        proof {
            if i == 0 {
                assert(r@ =~= lv.take(1)[0]);
            }
        }
    }
    assert(lv.take(lv.len() as int) =~= lv);
    r
}

} // verus!
