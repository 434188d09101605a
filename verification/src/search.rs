//! Line filtering: splitting text into lines and keeping the lines that
//! contain a query string as a contiguous substring.

use vstd::prelude::*;

verus! {

/// Position of the first `'\n'` in `s`, or `s.len()` when there is none.
pub open spec fn find_nl(s: Seq<char>) -> nat
    decreases s.len(),
{
    if s.len() == 0 {
        0
    } else if s[0] == '\n' {
        0
    } else {
        1 + find_nl(s.drop_first())
    }
}

/// A line that ended at a `'\n'` loses a single carriage return directly
/// before it, so that `"\r\n"` also counts as a line terminator.
pub open spec fn strip_cr(l: Seq<char>) -> Seq<char> {
    if l.len() > 0 && l.last() == '\r' {
        l.drop_last()
    } else {
        l
    }
}

/// The lines of `s`: segments between `'\n'` terminators, each without its
/// terminator (`"\n"` or `"\r\n"`). A final segment without a terminator is a
/// line as it stands; text ending in a terminator yields no extra empty line.
pub open spec fn lines_spec(s: Seq<char>) -> Seq<Seq<char>>
    decreases s.len(),
{
    if s.len() == 0 {
        Seq::empty()
    } else {
        let i = find_nl(s) as int;
        if i >= s.len() {
            seq![s]
        } else {
            seq![strip_cr(s.subrange(0, i))] + lines_spec(s.subrange(i + 1, s.len() as int))
        }
    }
}

/// `pat` occurs in `text` starting exactly at position `i`.
pub open spec fn is_match_at(text: Seq<char>, pat: Seq<char>, i: int) -> bool {
    &&& 0 <= i
    &&& i + pat.len() <= text.len()
    &&& text.subrange(i, i + pat.len() as int) == pat
}

/// `pat` occurs somewhere in `text` as a contiguous substring.
pub open spec fn contains_seq(text: Seq<char>, pat: Seq<char>) -> bool {
    exists|i: int| is_match_at(text, pat, i)
}

/// The elements of `lines` that contain `query`, kept in their order.
pub open spec fn matching_lines(query: Seq<char>, lines: Seq<Seq<char>>) -> Seq<Seq<char>>
    decreases lines.len(),
{
    if lines.len() == 0 {
        Seq::empty()
    } else {
        let rest = matching_lines(query, lines.drop_last());
        if contains_seq(lines.last(), query) {
            rest.push(lines.last())
        } else {
            rest
        }
    }
}

/// What `search` returns, as a sequence of lines.
pub open spec fn search_spec(query: Seq<char>, contents: Seq<char>) -> Seq<Seq<char>> {
    matching_lines(query, lines_spec(contents))
}

/// What `str::to_lowercase` returns for a text with the given characters: a
/// locale-independent function of the characters alone.
pub uninterp spec fn lower_of(s: Seq<char>) -> Seq<char>;

/// The elements of `lines` whose lower-cased form contains `lowered_query`,
/// kept in their order.
pub open spec fn ci_matching_lines(lowered_query: Seq<char>, lines: Seq<Seq<char>>) -> Seq<
    Seq<char>,
>
    decreases lines.len(),
{
    if lines.len() == 0 {
        Seq::empty()
    } else {
        let rest = ci_matching_lines(lowered_query, lines.drop_last());
        if contains_seq(lower_of(lines.last()), lowered_query) {
            rest.push(lines.last())
        } else {
            rest
        }
    }
}

/// What `search_case_insensitive` returns: the lines whose lower-cased form
/// contains the lower-cased query.
pub open spec fn search_ci_spec(query: Seq<char>, contents: Seq<char>) -> Seq<Seq<char>> {
    ci_matching_lines(lower_of(query), lines_spec(contents))
}

/// The views of a sequence of string slices.
pub open spec fn line_views(v: Seq<&str>) -> Seq<Seq<char>> {
    v.map_values(|l: &str| l@)
}

/// Whether `pat` occurs in `text` at position `i`, compared character by
/// character. `n` and `m` are the character lengths of `text` and `pat`.
fn match_at(text: &str, pat: &str, i: usize, n: usize, m: usize) -> (b: bool)
    requires
        n == text@.len(),
        m == pat@.len(),
        i + m <= n,
    ensures
        b == is_match_at(text@, pat@, i as int),
{
    let mut j: usize = 0;
    while j < m
        invariant
            n == text@.len(),
            m == pat@.len(),
            i + m <= n,
            j <= m,
            forall|k: int| 0 <= k < j ==> text@[i + k] == pat@[k],
        decreases m - j,
    {
        if text.get_char(i + j) != pat.get_char(j) {
            proof {
                assert(text@.subrange(i as int, (i + m) as int)[j as int] == text@[i + j]);
            }
            return false;
        }
        j += 1;
    }
    proof {
        assert(text@.subrange(i as int, (i + m) as int) =~= pat@);
    }
    true
}

/// `find_nl` is exactly the position of the first `'\n'`: `m` qualifies when
/// nothing before it is a `'\n'` and it is either a `'\n'` or the end.
proof fn lemma_find_nl_value(t: Seq<char>, m: int)
    requires
        0 <= m <= t.len(),
        forall|k: int| 0 <= k < m ==> t[k] != '\n',
        m < t.len() ==> t[m] == '\n',
    ensures
        find_nl(t) == m,
    decreases t.len(),
{
    if t.len() == 0 {
    } else if t[0] == '\n' {
        assert(m == 0);
    } else {
        let t2 = t.drop_first();
        assert forall|k: int| 0 <= k < m - 1 implies t2[k] != '\n' by {
            assert(t2[k] == t[k + 1]);
        }
        assert(m - 1 < t2.len() ==> t2[m - 1] == t[m]);
        lemma_find_nl_value(t2, m - 1);
    }
}

/// Position of the first `'\n'` in `s` at or after `from`, or `n` when there
/// is none; `n` is the character length of `s`.
fn find_newline(s: &str, from: usize, n: usize) -> (j: usize)
    requires
        n == s@.len(),
        from <= n,
    ensures
        from <= j <= n,
        forall|k: int| from <= k < j ==> s@[k] != '\n',
        j < n ==> s@[j as int] == '\n',
{
    let mut j: usize = from;
    while j < n
        invariant
            n == s@.len(),
            from <= j <= n,
            forall|k: int| from <= k < j ==> s@[k] != '\n',
        decreases n - j,
    {
        if s.get_char(j) == '\n' {
            return j;
        }
        j += 1;
    }
    j
}

/// Splits `contents` into its lines, each a slice of the original text, in
/// their original order.
pub fn lines_of<'a>(contents: &'a str) -> (res: Vec<&'a str>)
    ensures
        line_views(res@) == lines_spec(contents@),
{
    let n = contents.unicode_len();
    let mut res: Vec<&'a str> = Vec::new();
    let mut pos: usize = 0;
    proof {
        assert(contents@.subrange(0, n as int) =~= contents@);
        assert(line_views(res@) =~= Seq::<Seq<char>>::empty());
    }
    while pos < n
        invariant
            n == contents@.len(),
            pos <= n,
            lines_spec(contents@) == line_views(res@) + lines_spec(
                contents@.subrange(pos as int, n as int),
            ),
        decreases n - pos,
    {
        let ghost t = contents@.subrange(pos as int, n as int);
        let ghost before = line_views(res@);
        let j = find_newline(contents, pos, n);
        proof {
            assert forall|k: int| 0 <= k < j - pos implies t[k] != '\n' by {
                assert(contents@[pos + k] != '\n');
            }
            if j < n {
                assert(t[j - pos] == contents@[j as int]);
            }
            lemma_find_nl_value(t, j - pos);
        }
        if j < n {
            let end: usize = if j > pos && contents.get_char(j - 1) == '\r' {
                j - 1
            } else {
                j
            };
            let line = contents.substring_char(pos, end);
            res.push(line);
            proof {
                let raw = t.subrange(0, j - pos);
                assert(raw =~= contents@.subrange(pos as int, j as int));
                if j > pos && contents@[j - 1] == '\r' {
                    assert(raw.len() > 0 && raw.last() == '\r');
                    assert(raw.drop_last() =~= contents@.subrange(pos as int, j - 1));
                    assert(strip_cr(raw) == line@);
                } else {
                    assert(strip_cr(raw) == line@);
                }
                let rest = t.subrange(j - pos + 1, t.len() as int);
                assert(rest =~= contents@.subrange(j + 1, n as int));
                assert(lines_spec(t) == seq![line@] + lines_spec(rest));
                assert(line_views(res@) =~= before + seq![line@]);
                assert((before + seq![line@]) + lines_spec(rest) =~= before + (seq![line@]
                    + lines_spec(rest)));
            }
            pos = j + 1;
        } else {
            let line = contents.substring_char(pos, n);
            res.push(line);
            proof {
                assert(line@ == t);
                assert(lines_spec(t) == seq![t]);
                assert(line_views(res@) =~= before + seq![t]);
                assert(contents@.subrange(n as int, n as int) =~= Seq::<char>::empty());
                assert(lines_spec(Seq::<char>::empty()) =~= Seq::<Seq<char>>::empty());
                assert((before + seq![t]) + Seq::<Seq<char>>::empty() =~= before + seq![t]);
            }
            pos = n;
        }
    }
    proof {
        assert(contents@.subrange(pos as int, n as int) =~= Seq::<char>::empty());
        assert(line_views(res@) + lines_spec(Seq::<char>::empty()) =~= line_views(res@));
    }
    res
}

/// Whether `pat` occurs anywhere in `text` as a contiguous substring; the
/// empty pattern occurs in every text.
pub fn contains_substring(text: &str, pat: &str) -> (b: bool)
    ensures
        b == contains_seq(text@, pat@),
{
    let n = text.unicode_len();
    let m = pat.unicode_len();
    if m == 0 {
        proof {
            assert(text@.subrange(0, 0) =~= pat@);
            assert(is_match_at(text@, pat@, 0));
        }
        return true;
    }
    if m > n {
        return false;
    }
    let bound = n - m;
    let mut i: usize = 0;
    while i <= bound
        invariant
            n == text@.len(),
            m == pat@.len(),
            0 < m <= n,
            bound == n - m,
            i <= bound + 1,
            forall|k: int| 0 <= k < i ==> !is_match_at(text@, pat@, k),
        decreases bound + 1 - i,
    {
        if match_at(text, pat, i, n, m) {
            proof {
                assert(is_match_at(text@, pat@, i as int));
            }
            return true;
        }
        i += 1;
    }
    false
}

/// Relies on `str::to_lowercase`: its result depends on the characters of
/// `s` alone, named here `lower_of`.
#[verifier::external_body]
fn lowercase(s: &str) -> (r: String)
    ensures
        r@ == lower_of(s@),
{
    s.to_lowercase()
}

/// The lines of `contents` that contain `query` as a contiguous, case-exact
/// substring, in their original order, as slices of the original text.
pub fn search<'a>(query: &str, contents: &'a str) -> (res: Vec<&'a str>)
    ensures
        line_views(res@) == search_spec(query@, contents@),
{
    let lines = lines_of(contents);
    let ghost lv = lines_spec(contents@);
    let mut res: Vec<&'a str> = Vec::new();
    let mut idx: usize = 0;
    proof {
        assert(lv.subrange(0, 0) =~= Seq::<Seq<char>>::empty());
        assert(line_views(res@) =~= matching_lines(query@, lv.subrange(0, 0)));
    }
    while idx < lines.len()
        invariant
            line_views(lines@) == lv,
            idx <= lines@.len(),
            line_views(res@) == matching_lines(query@, lv.subrange(0, idx as int)),
        decreases lines@.len() - idx,
    {
        let ghost before = line_views(res@);
        let line = lines[idx];
        proof {
            assert(line@ == line_views(lines@)[idx as int]);
        }
        let keep = contains_substring(line, query);
        if keep {
            res.push(line);
        }
        proof {
            let post = lv.subrange(0, idx as int + 1);
            assert(post.drop_last() =~= lv.subrange(0, idx as int));
            assert(post.last() == lv[idx as int]);
            if keep {
                assert(line_views(res@) =~= before.push(line@));
            }
        }
        idx += 1;
    }
    proof {
        assert(lv.subrange(0, lines@.len() as int) =~= lv);
    }
    res
}

/// The lines of `contents` whose lower-cased form contains the lower-cased
/// `query`, in their original order, as slices of the original text.
pub fn search_case_insensitive<'a>(query: &str, contents: &'a str) -> (res: Vec<&'a str>)
    ensures
        line_views(res@) == search_ci_spec(query@, contents@),
{
    let lowered_query = lowercase(query);
    let lines = lines_of(contents);
    let ghost lv = lines_spec(contents@);
    let mut res: Vec<&'a str> = Vec::new();
    let mut idx: usize = 0;
    proof {
        assert(lv.subrange(0, 0) =~= Seq::<Seq<char>>::empty());
        assert(line_views(res@) =~= ci_matching_lines(lower_of(query@), lv.subrange(0, 0)));
    }
    while idx < lines.len()
        invariant
            line_views(lines@) == lv,
            lowered_query@ == lower_of(query@),
            idx <= lines@.len(),
            line_views(res@) == ci_matching_lines(lower_of(query@), lv.subrange(0, idx as int)),
        decreases lines@.len() - idx,
    {
        let ghost before = line_views(res@);
        let line = lines[idx];
        proof {
            assert(line@ == line_views(lines@)[idx as int]);
        }
        let lowered_line = lowercase(line);
        let keep = contains_substring(lowered_line.as_str(), lowered_query.as_str());
        if keep {
            res.push(line);
        }
        proof {
            let post = lv.subrange(0, idx as int + 1);
            assert(post.drop_last() =~= lv.subrange(0, idx as int));
            assert(post.last() == lv[idx as int]);
            if keep {
                assert(line_views(res@) =~= before.push(line@));
            }
        }
        idx += 1;
    }
    proof {
        assert(lv.subrange(0, lines@.len() as int) =~= lv);
    }
    res
}

/// Law: `search` filters the lines by containment of the query — its result
/// is the subsequence of `lines_spec(contents)`, in the original order, made
/// of exactly the lines that contain the query.
pub proof fn lemma_search_spec_is_filter(query: Seq<char>, contents: Seq<char>)
    ensures
        search_spec(query, contents) == lines_spec(contents).filter(
            (|l: Seq<char>| contains_seq(l, query)),
        ),
{
    lemma_matching_lines_is_filter(query, lines_spec(contents));
}

proof fn lemma_matching_lines_is_filter(query: Seq<char>, lines: Seq<Seq<char>>)
    ensures
        matching_lines(query, lines) == lines.filter((|l: Seq<char>| contains_seq(l, query))),
    decreases lines.len(),
{
    reveal(Seq::filter);
    if lines.len() == 0 {
        assert(lines.filter((|l: Seq<char>| contains_seq(l, query))) =~= Seq::<Seq<char>>::empty());
    } else {
        lemma_matching_lines_is_filter(query, lines.drop_last());
    }
}

/// Law: `search_case_insensitive` filters the lines by containment after
/// lower-casing both sides with the same case folding.
pub proof fn lemma_search_ci_spec_is_filter(query: Seq<char>, contents: Seq<char>)
    ensures
        search_ci_spec(query, contents) == lines_spec(contents).filter(
            (|l: Seq<char>| contains_seq(lower_of(l), lower_of(query))),
        ),
{
    lemma_ci_matching_lines_is_filter(lower_of(query), lines_spec(contents));
}

proof fn lemma_ci_matching_lines_is_filter(lowered_query: Seq<char>, lines: Seq<Seq<char>>)
    ensures
        ci_matching_lines(lowered_query, lines) == lines.filter(
            (|l: Seq<char>| contains_seq(lower_of(l), lowered_query)),
        ),
    decreases lines.len(),
{
    reveal(Seq::filter);
    if lines.len() == 0 {
        assert(lines.filter((|l: Seq<char>| contains_seq(lower_of(l), lowered_query)))
            =~= Seq::<Seq<char>>::empty());
    } else {
        lemma_ci_matching_lines_is_filter(lowered_query, lines.drop_last());
    }
}

/// Law: `search_case_insensitive` sees the query only through its
/// lower-cased form, so two queries with the same case folding — such as one
/// written in two capitalizations that fold alike — give the same matches.
pub proof fn lemma_search_ci_query_folding(q1: Seq<char>, q2: Seq<char>, contents: Seq<char>)
    requires
        lower_of(q1) == lower_of(q2),
    ensures
        search_ci_spec(q1, contents) == search_ci_spec(q2, contents),
{
}

/// Law: the empty query matches every line, so searching for it returns all
/// of `lines_spec(contents)` unchanged and in order.
pub proof fn lemma_empty_query_matches_all(contents: Seq<char>)
    ensures
        search_spec(Seq::empty(), contents) == lines_spec(contents),
{
    lemma_matching_lines_empty_query(lines_spec(contents));
}

proof fn lemma_matching_lines_empty_query(lines: Seq<Seq<char>>)
    ensures
        matching_lines(Seq::empty(), lines) == lines,
    decreases lines.len(),
{
    if lines.len() == 0 {
        assert(matching_lines(Seq::empty(), lines) =~= lines);
    } else {
        lemma_matching_lines_empty_query(lines.drop_last());
        assert(lines.last().subrange(0, 0) =~= Seq::<char>::empty());
        assert(is_match_at(lines.last(), Seq::empty(), 0));
        assert(lines.drop_last().push(lines.last()) =~= lines);
    }
}

} // verus!
