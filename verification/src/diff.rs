//! Tolerant output comparison: decides whether a program's actual output
//! matches an expected output, ignoring trailing whitespace on each line
//! and treating an empty expected line as a wildcard.

use vstd::prelude::*;

verus! {

/// Characters ignored at the end of a line when comparing output.
pub open spec fn is_line_ws(c: char) -> bool {
    c == ' ' || c == '\t' || c == '\r'
}

/// A line with its trailing whitespace removed.
pub open spec fn trim_line(s: Seq<char>) -> Seq<char>
    decreases s.len(),
{
    if s.len() == 0 {
        s
    } else if is_line_ws(s.last()) {
        trim_line(s.drop_last())
    } else {
        s
    }
}

/// A line is blank when trimming leaves nothing of it.
pub open spec fn is_blank(s: Seq<char>) -> bool {
    trim_line(s).len() == 0
}

/// Trimming a sequence whose last `len - n` characters are whitespace and
/// whose character before them (if any) is not, keeps exactly the first
/// `n` characters.
proof fn lemma_trim_line_take(s: Seq<char>, n: int)
    requires
        0 <= n <= s.len(),
        forall|i: int| n <= i < s.len() ==> is_line_ws(#[trigger] s[i]),
        n == 0 || !is_line_ws(s[n - 1]),
    ensures
        trim_line(s) == s.take(n),
    decreases s.len(),
{
    if n == s.len() {
        assert(s.take(n) =~= s);
    } else {
        assert(is_line_ws(s.last()));
        let t = s.drop_last();
        assert(forall|i: int| n <= i < t.len() ==> #[trigger] t[i] == s[i]);
        lemma_trim_line_take(t, n);
        assert(t.take(n) =~= s.take(n));
    }
}

fn is_line_ws_char(c: char) -> (r: bool)
    ensures
        r == is_line_ws(c),
{
    c == ' ' || c == '\t' || c == '\r'
}

/// The number of characters a line keeps once its trailing whitespace is
/// removed.
pub fn trimmed_len(line: &Vec<char>) -> (n: usize)
    ensures
        n <= line.len(),
        trim_line(line@) == line@.take(n as int),
{
    let mut n: usize = line.len();
    while n > 0 && is_line_ws_char(line[n - 1])
        invariant
            n <= line.len(),
            forall|i: int| n <= i < line@.len() ==> is_line_ws(#[trigger] line@[i]),
        decreases n,
    {
        n = n - 1;
    }
    proof {
        lemma_trim_line_take(line@, n as int);
    }
    n
}

/// Whether a line is blank, that is, empty after trimming.
pub fn line_is_blank(line: &Vec<char>) -> (r: bool)
    ensures
        r == is_blank(line@),
{
    trimmed_len(line) == 0
}

/// The segments of a text cut at every newline: one segment more than
/// there are newlines, the final one unterminated (and possibly empty).
pub open spec fn split_raw(s: Seq<char>) -> Seq<Seq<char>>
    decreases s.len(),
{
    if s.len() == 0 {
        seq![Seq::<char>::empty()]
    } else if s.last() == '\n' {
        split_raw(s.drop_last()).push(Seq::<char>::empty())
    } else {
        let r = split_raw(s.drop_last());
        r.update(r.len() - 1, r.last().push(s.last()))
    }
}

proof fn lemma_split_raw_len(s: Seq<char>)
    ensures
        split_raw(s).len() >= 1,
    decreases s.len(),
{
    if s.len() > 0 {
        lemma_split_raw_len(s.drop_last());
    }
}

/// A line with a single carriage return removed from its end, which a
/// newline written as "\r\n" leaves behind.
pub open spec fn strip_cr(l: Seq<char>) -> Seq<char> {
    if l.len() > 0 && l.last() == '\r' {
        l.drop_last()
    } else {
        l
    }
}

/// The lines of a text: cut at every newline, with the carriage return of
/// an "\r\n" ending removed, and with no empty line after a final newline.
/// An unterminated final segment is kept as it stands.
pub open spec fn text_lines(s: Seq<char>) -> Seq<Seq<char>> {
    let raw = split_raw(s);
    if raw.last().len() == 0 {
        raw.drop_last().map_values(|l: Seq<char>| strip_cr(l))
    } else {
        raw.drop_last().map_values(|l: Seq<char>| strip_cr(l)).push(raw.last())
    }
}

/// The comparison walked over the line sequences: each expected line
/// consumes one actual line if any remains and must agree with it after
/// trimming, except that an empty expected line is satisfied regardless;
/// actual lines left over once the expected ones are exhausted must all
/// be blank.
pub open spec fn lines_match(actual: Seq<Seq<char>>, expected: Seq<Seq<char>>) -> bool
    decreases expected.len(),
{
    if expected.len() == 0 {
        forall|i: int| 0 <= i < actual.len() ==> is_blank(#[trigger] actual[i])
    } else if actual.len() == 0 {
        expected[0].len() == 0 && lines_match(actual, expected.drop_first())
    } else if trim_line(actual[0]) == trim_line(expected[0]) || expected[0].len() == 0 {
        lines_match(actual.drop_first(), expected.drop_first())
    } else {
        false
    }
}

/// Whether an actual output text matches an expected one, tolerating
/// trailing whitespace on each line, empty expected lines standing for
/// anything, and blank trailing actual lines.
pub open spec fn text_matches(actual: Seq<char>, expected: Seq<char>) -> bool {
    lines_match(text_lines(actual), text_lines(expected))
}

/// Whether two lines agree once trailing whitespace is removed from both.
pub fn lines_equal(a: &Vec<char>, b: &Vec<char>) -> (r: bool)
    ensures
        r == (trim_line(a@) == trim_line(b@)),
{
    let na = trimmed_len(a);
    let nb = trimmed_len(b);
    if na != nb {
        assert(trim_line(a@).len() != trim_line(b@).len());
        return false;
    }
    let mut i: usize = 0;
    while i < na
        invariant
            i <= na == nb,
            na <= a.len(),
            nb <= b.len(),
            trim_line(a@) == a@.take(na as int),
            trim_line(b@) == b@.take(nb as int),
            forall|j: int| 0 <= j < i ==> a@[j] == b@[j],
        decreases na - i,
    {
        if a[i] != b[i] {
            assert(a@.take(na as int)[i as int] != b@.take(nb as int)[i as int]);
            return false;
        }
        i = i + 1;
    }
    assert(a@.take(na as int) =~= b@.take(nb as int));
    true
}

/// Splits a text into its lines, as `text_lines` describes them.
pub fn split_lines(s: &str) -> (r: Vec<Vec<char>>)
    ensures
        r@.map_values(|l: Vec<char>| l@) == text_lines(s@),
{
    let n = s.unicode_len();
    let mut done: Vec<Vec<char>> = Vec::new();
    let mut cur: Vec<char> = Vec::new();
    let mut i: usize = 0;
    proof {
        assert(s@.take(0) =~= Seq::<char>::empty());
        assert(done@.map_values(|l: Vec<char>| l@) =~= split_raw(s@.take(0)).drop_last().map_values(
            |l: Seq<char>| strip_cr(l),
        ));
    }
    while i < n
        invariant
            n == s@.len(),
            i <= n,
            done@.map_values(|l: Vec<char>| l@) == split_raw(s@.take(i as int)).drop_last().map_values(
                |l: Seq<char>| strip_cr(l),
            ),
            cur@ == split_raw(s@.take(i as int)).last(),
        decreases n - i,
    {
        let ghost t = s@.take(i as int);
        let ghost raw = split_raw(t);
        proof {
            lemma_split_raw_len(t);
            assert(s@.take(i + 1).drop_last() =~= t);
            assert(s@.take(i + 1).last() == s@[i as int]);
        }
        let c = s.get_char(i);
        if c == '\n' {
            if cur.len() > 0 && cur[cur.len() - 1] == '\r' {
                cur.pop();
            }
            proof {
                assert(cur@ == strip_cr(raw.last()));
            }
            done.push(cur);
            cur = Vec::new();
            proof {
                let raw2 = split_raw(s@.take(i + 1));
                assert(raw2 == raw.push(Seq::<char>::empty()));
                assert(raw2.drop_last() =~= raw);
                assert(raw =~= raw.drop_last().push(raw.last()));
                assert(raw.map_values(|l: Seq<char>| strip_cr(l)) =~= raw.drop_last().map_values(
                    |l: Seq<char>| strip_cr(l),
                ).push(strip_cr(raw.last())));
                assert(done@.map_values(|l: Vec<char>| l@) =~= raw.map_values(
                    |l: Seq<char>| strip_cr(l),
                ));
            }
        } else {
            cur.push(c);
            proof {
                let raw2 = split_raw(s@.take(i + 1));
                assert(raw2 == raw.update(raw.len() - 1, raw.last().push(s@[i as int])));
                assert(raw2.drop_last() =~= raw.drop_last());
                assert(raw2.last() == raw.last().push(s@[i as int]));
            }
        }
        i = i + 1;
    }
    proof {
        assert(s@.take(n as int) =~= s@);
        lemma_split_raw_len(s@);
    }
    if cur.len() == 0 {
        done
    } else {
        let ghost before = done@;
        done.push(cur);
        proof {
            assert(done@.map_values(|l: Vec<char>| l@) =~= before.map_values(
                |l: Vec<char>| l@,
            ).push(split_raw(s@).last()));
        }
        done
    }
}

proof fn lemma_lines_match_reflexive(ls: Seq<Seq<char>>)
    ensures
        lines_match(ls, ls),
    decreases ls.len(),
{
    if ls.len() > 0 {
        lemma_lines_match_reflexive(ls.drop_first());
    }
}

/// Law: every text matches itself.
pub proof fn lemma_matches_reflexive(x: Seq<char>)
    ensures
        text_matches(x, x),
{
    lemma_lines_match_reflexive(text_lines(x));
}

proof fn lemma_lines_match_all_empty(a: Seq<Seq<char>>, e: Seq<Seq<char>>)
    requires
        forall|i: int| 0 <= i < e.len() ==> (#[trigger] e[i]).len() == 0,
    ensures
        lines_match(a, e) == (forall|j: int| e.len() <= j < a.len() ==> is_blank(#[trigger] a[j])),
    decreases e.len(),
{
    if e.len() == 0 {
    } else if a.len() == 0 {
        let e2 = e.drop_first();
        assert(forall|i: int| 0 <= i < e2.len() ==> (#[trigger] e2[i]).len() == 0) by {
            assert(forall|i: int| 0 <= i < e2.len() ==> e2[i] == e[i + 1]);
        }
        lemma_lines_match_all_empty(a, e2);
        assert(e[0].len() == 0);
    } else {
        let a2 = a.drop_first();
        let e2 = e.drop_first();
        assert(forall|i: int| 0 <= i < e2.len() ==> (#[trigger] e2[i]).len() == 0) by {
            assert(forall|i: int| 0 <= i < e2.len() ==> e2[i] == e[i + 1]);
        }
        lemma_lines_match_all_empty(a2, e2);
        assert(e[0].len() == 0);
        if forall|j: int| e2.len() <= j < a2.len() ==> is_blank(#[trigger] a2[j]) {
            assert forall|j: int| e.len() <= j < a.len() implies is_blank(#[trigger] a[j]) by {
                assert(a2[j - 1] == a[j]);
                assert(is_blank(a2[j - 1]));
            }
        }
        if forall|j: int| e.len() <= j < a.len() ==> is_blank(#[trigger] a[j]) {
            assert forall|j: int| e2.len() <= j < a2.len() implies is_blank(#[trigger] a2[j]) by {
                assert(a2[j] == a[j + 1]);
                assert(is_blank(a[j + 1]));
            }
        }
    }
}

/// Law: against an expected text whose lines are all empty, a text matches
/// exactly when every actual line beyond the expected length is blank.
pub proof fn lemma_matches_all_empty_expected(actual: Seq<char>, expected: Seq<char>)
    requires
        forall|i: int|
            0 <= i < text_lines(expected).len() ==> (#[trigger] text_lines(expected)[i]).len()
                == 0,
    ensures
        text_matches(actual, expected) == (forall|j: int|
            text_lines(expected).len() <= j < text_lines(actual).len() ==> is_blank(
                #[trigger] text_lines(actual)[j],
            )),
{
    lemma_lines_match_all_empty(text_lines(actual), text_lines(expected));
}

proof fn lemma_lines_match_trim_insensitive(
    a1: Seq<Seq<char>>,
    e1: Seq<Seq<char>>,
    a2: Seq<Seq<char>>,
    e2: Seq<Seq<char>>,
)
    requires
        a1.len() == a2.len(),
        forall|i: int| 0 <= i < a1.len() ==> trim_line(#[trigger] a1[i]) == trim_line(a2[i]),
        e1.len() == e2.len(),
        forall|i: int| 0 <= i < e1.len() ==> trim_line(#[trigger] e1[i]) == trim_line(e2[i]),
        forall|i: int| 0 <= i < e1.len() ==> (((#[trigger] e1[i]).len() == 0) <==> (e2[i].len() == 0)),
    ensures
        lines_match(a1, e1) == lines_match(a2, e2),
    decreases e1.len(),
{
    if e1.len() == 0 {
        if lines_match(a1, e1) {
            assert forall|i: int| 0 <= i < a2.len() implies is_blank(#[trigger] a2[i]) by {
                assert(is_blank(a1[i]));
                assert(trim_line(a1[i]) == trim_line(a2[i]));
            }
        }
        if lines_match(a2, e2) {
            assert forall|i: int| 0 <= i < a1.len() implies is_blank(#[trigger] a1[i]) by {
                assert(is_blank(a2[i]));
                assert(trim_line(a1[i]) == trim_line(a2[i]));
            }
        }
    } else if a1.len() == 0 {
        let f1 = e1.drop_first();
        let f2 = e2.drop_first();
        assert(forall|i: int| 0 <= i < f1.len() ==> f1[i] == e1[i + 1]);
        assert(forall|i: int| 0 <= i < f2.len() ==> f2[i] == e2[i + 1]);
        lemma_lines_match_trim_insensitive(a1, f1, a2, f2);
    } else {
        let b1 = a1.drop_first();
        let b2 = a2.drop_first();
        let f1 = e1.drop_first();
        let f2 = e2.drop_first();
        assert(forall|i: int| 0 <= i < b1.len() ==> b1[i] == a1[i + 1]);
        assert(forall|i: int| 0 <= i < b2.len() ==> b2[i] == a2[i + 1]);
        assert(forall|i: int| 0 <= i < f1.len() ==> f1[i] == e1[i + 1]);
        assert(forall|i: int| 0 <= i < f2.len() ==> f2[i] == e2[i + 1]);
        lemma_lines_match_trim_insensitive(b1, f1, b2, f2);
        assert(trim_line(a1[0]) == trim_line(a2[0]));
        assert(trim_line(e1[0]) == trim_line(e2[0]));
    }
}

/// Law: the outcome is insensitive to trailing whitespace on individual
/// lines: two actual texts whose lines agree after trimming, and two
/// expected texts whose lines agree after trimming and are empty for the
/// same lines, compare alike.  (An empty expected line is a wildcard, so
/// making one non-empty — even with whitespace alone — may change the
/// outcome; that is why emptiness must be kept.)
pub proof fn lemma_matches_trailing_ws_insensitive(
    actual1: Seq<char>,
    expected1: Seq<char>,
    actual2: Seq<char>,
    expected2: Seq<char>,
)
    requires
        text_lines(actual1).len() == text_lines(actual2).len(),
        forall|i: int|
            0 <= i < text_lines(actual1).len() ==> trim_line(#[trigger] text_lines(actual1)[i])
                == trim_line(text_lines(actual2)[i]),
        text_lines(expected1).len() == text_lines(expected2).len(),
        forall|i: int|
            0 <= i < text_lines(expected1).len() ==> trim_line(
                #[trigger] text_lines(expected1)[i],
            ) == trim_line(text_lines(expected2)[i]),
        forall|i: int|
            0 <= i < text_lines(expected1).len() ==> (((#[trigger] text_lines(expected1)[i]).len()
                == 0) <==> (text_lines(expected2)[i].len() == 0)),
    ensures
        text_matches(actual1, expected1) == text_matches(actual2, expected2),
{
    lemma_lines_match_trim_insensitive(
        text_lines(actual1),
        text_lines(expected1),
        text_lines(actual2),
        text_lines(expected2),
    );
}

/// How many lines of a sequence are not blank.
pub open spec fn nonblank_count(ls: Seq<Seq<char>>) -> nat
    decreases ls.len(),
{
    if ls.len() == 0 {
        0
    } else {
        (if is_blank(ls[0]) {
            0nat
        } else {
            1nat
        }) + nonblank_count(ls.drop_first())
    }
}

proof fn lemma_lines_match_nonblank_bound(a: Seq<Seq<char>>, e: Seq<Seq<char>>)
    requires
        lines_match(a, e),
    ensures
        nonblank_count(e) <= a.len(),
    decreases e.len(),
{
    if e.len() == 0 {
    } else if a.len() == 0 {
        assert(e[0].len() == 0);
        assert(is_blank(e[0]));
        lemma_lines_match_nonblank_bound(a, e.drop_first());
    } else {
        lemma_lines_match_nonblank_bound(a.drop_first(), e.drop_first());
    }
}

/// Law: a text with more non-blank expected lines than the actual text has
/// lines never matches.
pub proof fn lemma_more_nonblank_expected_fails(actual: Seq<char>, expected: Seq<char>)
    requires
        nonblank_count(text_lines(expected)) > text_lines(actual).len(),
    ensures
        !text_matches(actual, expected),
{
    if text_matches(actual, expected) {
        lemma_lines_match_nonblank_bound(text_lines(actual), text_lines(expected));
    }
}

proof fn lemma_lines_match_surplus_blank(a: Seq<Seq<char>>, e: Seq<Seq<char>>)
    requires
        lines_match(a, e),
        a.len() >= e.len(),
    ensures
        forall|j: int| e.len() <= j < a.len() ==> is_blank(#[trigger] a[j]),
    decreases e.len(),
{
    if e.len() == 0 {
    } else {
        let a2 = a.drop_first();
        let e2 = e.drop_first();
        lemma_lines_match_surplus_blank(a2, e2);
        assert forall|j: int| e.len() <= j < a.len() implies is_blank(#[trigger] a[j]) by {
            assert(a2[j - 1] == a[j]);
            assert(is_blank(a2[j - 1]));
        }
    }
}

/// Law: when the actual text has more lines than the expected one and one
/// of the surplus lines is not blank, there is no match.
pub proof fn lemma_surplus_nonblank_fails(actual: Seq<char>, expected: Seq<char>, j: int)
    requires
        text_lines(expected).len() <= j < text_lines(actual).len(),
        !is_blank(text_lines(actual)[j]),
    ensures
        !text_matches(actual, expected),
{
    if text_matches(actual, expected) {
        lemma_lines_match_surplus_blank(text_lines(actual), text_lines(expected));
    }
}

proof fn lemma_lines_match_take(a: Seq<Seq<char>>, e: Seq<Seq<char>>)
    requires
        a.len() >= e.len(),
        forall|j: int| e.len() <= j < a.len() ==> is_blank(#[trigger] a[j]),
    ensures
        lines_match(a, e) == lines_match(a.take(e.len() as int), e),
    decreases e.len(),
{
    if e.len() == 0 {
        assert(a.take(0) =~= Seq::<Seq<char>>::empty());
    } else {
        let a2 = a.drop_first();
        let e2 = e.drop_first();
        assert(forall|j: int| 0 <= j < a2.len() ==> a2[j] == a[j + 1]);
        lemma_lines_match_take(a2, e2);
        assert(a.take(e.len() as int).drop_first() =~= a2.take(e2.len() as int));
        assert(a.take(e.len() as int)[0] == a[0]);
    }
}

/// Law: surplus actual lines that are all blank never decide the outcome;
/// the comparison is then that of the truncated actual lines against the
/// expected ones.
pub proof fn lemma_surplus_blank_irrelevant(actual: Seq<char>, expected: Seq<char>)
    requires
        text_lines(actual).len() >= text_lines(expected).len(),
        forall|j: int|
            text_lines(expected).len() <= j < text_lines(actual).len() ==> is_blank(
                #[trigger] text_lines(actual)[j],
            ),
    ensures
        text_matches(actual, expected) == lines_match(
            text_lines(actual).take(text_lines(expected).len() as int),
            text_lines(expected),
        ),
{
    lemma_lines_match_take(text_lines(actual), text_lines(expected));
}

proof fn lemma_blank_suffix_equiv(ls: Seq<Seq<char>>, start: int)
    requires
        0 <= start <= ls.len(),
    ensures
        lines_match(ls.skip(start), Seq::<Seq<char>>::empty()) == (forall|k: int|
            start <= k < ls.len() ==> is_blank(#[trigger] ls[k])),
{
    let t = ls.skip(start);
    if forall|k2: int| 0 <= k2 < t.len() ==> is_blank(#[trigger] t[k2]) {
        assert forall|k: int| start <= k < ls.len() implies is_blank(#[trigger] ls[k]) by {
            assert(t[k - start] == ls[k]);
            assert(is_blank(t[k - start]));
        }
    }
    if forall|k: int| start <= k < ls.len() ==> is_blank(#[trigger] ls[k]) {
        assert forall|k2: int| 0 <= k2 < t.len() implies is_blank(#[trigger] t[k2]) by {
            assert(t[k2] == ls[start + k2]);
            assert(is_blank(ls[start + k2]));
        }
    }
}

/// Decides whether actual output matches expected output, walking the
/// expected lines and then checking that any remaining actual lines are
/// blank.
pub fn check_diff(actual: &str, expect: &str) -> (r: bool)
    ensures
        r == text_matches(actual@, expect@),
{
    let a = split_lines(actual);
    let e = split_lines(expect);
    let ghost la = text_lines(actual@);
    let ghost le = text_lines(expect@);
    let alen = a.len();
    let elen = e.len();
    let mut i: usize = 0;
    proof {
        assert(la.skip(0) =~= la);
        assert(le.skip(0) =~= le);
    }
    while i < elen
        invariant
            a@.map_values(|l: Vec<char>| l@) == la,
            e@.map_values(|l: Vec<char>| l@) == le,
            alen == a.len(),
            elen == e.len(),
            i <= elen,
            text_matches(actual@, expect@) == lines_match(
                la.skip(if i <= alen { i as int } else { alen as int }),
                le.skip(i as int),
            ),
        decreases elen - i,
    {
        let ghost am: int = if i <= alen { i as int } else { alen as int };
        let ghost am2: int = if i + 1 <= alen { i as int + 1 } else { alen as int };
        proof {
            assert(le.skip(i as int).drop_first() =~= le.skip(i as int + 1));
            assert(le.skip(i as int)[0] == le[i as int]);
        }
        if i < alen {
            proof {
                assert(la.skip(am).drop_first() =~= la.skip(am + 1));
                assert(la.skip(am)[0] == la[i as int]);
            }
            if lines_equal(&a[i], &e[i]) {
                // the lines agree after trimming; consume both
            } else if e[i].len() == 0 {
                // wildcard: an empty expected line is always satisfied
            } else {
                return false;
            }
        } else {
            if e[i].len() != 0 {
                return false;
            }
            proof {
                assert(la.skip(am).len() == 0);
                assert(la.skip(am) =~= la.skip(am2));
            }
        }
        i = i + 1;
    }
    let mut j: usize = if elen <= alen {
        elen
    } else {
        alen
    };
    let ghost start: int = j as int;
    proof {
        assert(le.skip(elen as int) =~= Seq::<Seq<char>>::empty());
        lemma_blank_suffix_equiv(la, start);
    }
    while j < alen
        invariant
            a@.map_values(|l: Vec<char>| l@) == la,
            alen == a.len(),
            start <= j <= alen,
            text_matches(actual@, expect@) == (forall|k: int|
                start <= k < la.len() ==> is_blank(#[trigger] la[k])),
            forall|k: int| start <= k < j ==> is_blank(#[trigger] la[k]),
        decreases alen - j,
    {
        if !line_is_blank(&a[j]) {
            assert(!is_blank(la[j as int]));
            return false;
        }
        j = j + 1;
    }
    true
}

} // verus!
