//! Planning and classification of fixture test runs: discovering input
//! fixtures among directory entries, pairing each with the name of its
//! expected-output file, and classifying a captured output.

use vstd::prelude::*;
use vstd::string::StrSliceExecFns;
use vstd::string::StringExecFns;
use crate::diff::check_diff;
use crate::diff::text_matches;

verus! {

/// Classification of one executed test case.
#[derive(PartialEq, Eq, Structural, Clone, Copy, Debug)]
pub enum TestOutcome {
    Accepted,
    WrongAnswer,
    NoExpectedOutput,
}

/// The outcome a captured output earns against an optional expected text.
pub open spec fn classify_spec(actual: Seq<char>, expected: Option<Seq<char>>) -> TestOutcome {
    match expected {
        Some(e) => if text_matches(actual, e) {
            TestOutcome::Accepted
        } else {
            TestOutcome::WrongAnswer
        },
        None => TestOutcome::NoExpectedOutput,
    }
}

/// The expected text as a sequence, when there is one.
pub open spec fn view_expected(expected: Option<&str>) -> Option<Seq<char>> {
    match expected {
        Some(e) => Some(e@),
        None => None,
    }
}

/// Classifies a captured output against an optional expected text:
/// matched, mismatched, or nothing to compare against.
pub fn classify(actual: &str, expected: Option<&str>) -> (r: TestOutcome)
    ensures
        r == classify_spec(actual@, view_expected(expected)),
{
    match expected {
        Some(e) => if check_diff(actual, e) {
            TestOutcome::Accepted
        } else {
            TestOutcome::WrongAnswer
        },
        None => TestOutcome::NoExpectedOutput,
    }
}

/// An input fixture name: a non-empty stem followed by the input-marking
/// extension.
pub open spec fn is_input_name(s: Seq<char>) -> bool {
    s.len() >= 4 && s.subrange(s.len() - 3, s.len() as int) == seq!['.', 'i', 'n']
}

/// The name of an input fixture's expected-output companion: the same stem
/// with the output-marking extension.
pub open spec fn expected_name_spec(s: Seq<char>) -> Seq<char> {
    s.take(s.len() - 3) + seq!['.', 'o', 'u', 't']
}

fn has_input_ext(name: &str) -> (r: bool)
    ensures
        r == is_input_name(name@),
{
    let n = name.unicode_len();
    if n < 4 {
        return false;
    }
    let c1 = name.get_char(n - 3);
    let c2 = name.get_char(n - 2);
    let c3 = name.get_char(n - 1);
    let r = c1 == '.' && c2 == 'i' && c3 == 'n';
    proof {
        let sub = name@.subrange(name@.len() - 3, name@.len() as int);
        let ext = seq!['.', 'i', 'n'];
        assert(sub[0] == name@[name@.len() - 3] && sub[1] == name@[name@.len() - 2] && sub[2]
            == name@[name@.len() - 1]);
        assert(ext[0] == '.' && ext[1] == 'i' && ext[2] == 'n');
        if r {
            assert(sub =~= ext);
        }
    }
    r
}

/// Builds the expected-output name for an input fixture name.
pub fn expected_name(input: &str) -> (r: String)
    requires
        is_input_name(input@),
    ensures
        r@ == expected_name_spec(input@),
{
    let n = input.unicode_len();
    let stem = input.substring_char(0, n - 3);
    let mut r = stem.to_owned();
    r.append(".out");
    proof {
        reveal_strlit(".out");
        assert(".out"@ =~= seq!['.', 'o', 'u', 't']);
        assert(input@.subrange(0, n - 3) =~= input@.take(n - 3));
    }
    r
}

/// One planned test: an input fixture name, and the name its expected
/// output would carry in the same directory.
pub struct TestCase {
    pub input: String,
    pub expected: String,
}

/// A well-formed test case: the input carries the input extension and the
/// expected name is derived from its stem.
pub open spec fn case_wf(c: TestCase) -> bool {
    is_input_name(c.input@) && c.expected@ == expected_name_spec(c.input@)
}

/// Lexicographic order on texts by character value.
pub open spec fn lex_leq(a: Seq<char>, b: Seq<char>) -> bool
    decreases a.len(),
{
    if a.len() == 0 {
        true
    } else if b.len() == 0 {
        false
    } else if (a[0] as u32) < (b[0] as u32) {
        true
    } else if (b[0] as u32) < (a[0] as u32) {
        false
    } else {
        lex_leq(a.drop_first(), b.drop_first())
    }
}

proof fn lemma_lex_refl(a: Seq<char>)
    ensures
        lex_leq(a, a),
    decreases a.len(),
{
    if a.len() > 0 {
        lemma_lex_refl(a.drop_first());
    }
}

proof fn lemma_lex_total(a: Seq<char>, b: Seq<char>)
    ensures
        lex_leq(a, b) || lex_leq(b, a),
    decreases a.len(),
{
    if a.len() > 0 && b.len() > 0 && (a[0] as u32) == (b[0] as u32) {
        lemma_lex_total(a.drop_first(), b.drop_first());
    }
}

proof fn lemma_lex_trans(a: Seq<char>, b: Seq<char>, c: Seq<char>)
    requires
        lex_leq(a, b),
        lex_leq(b, c),
    ensures
        lex_leq(a, c),
    decreases a.len(),
{
    if a.len() > 0 && b.len() > 0 && c.len() > 0 && (a[0] as u32) == (b[0] as u32) && (b[0] as u32)
        == (c[0] as u32) {
        lemma_lex_trans(a.drop_first(), b.drop_first(), c.drop_first());
    }
}

/// Compares two names in lexicographic order by character value.
pub fn lex_le(a: &str, b: &str) -> (r: bool)
    ensures
        r == lex_leq(a@, b@),
{
    let na = a.unicode_len();
    let nb = b.unicode_len();
    let mut i: usize = 0;
    proof {
        assert(a@.skip(0) =~= a@);
        assert(b@.skip(0) =~= b@);
    }
    while i < na && i < nb
        invariant
            na == a@.len(),
            nb == b@.len(),
            i <= na,
            i <= nb,
            lex_leq(a@, b@) == lex_leq(a@.skip(i as int), b@.skip(i as int)),
        decreases na - i,
    {
        let ca = a.get_char(i);
        let cb = b.get_char(i);
        proof {
            assert(a@.skip(i as int)[0] == a@[i as int]);
            assert(b@.skip(i as int)[0] == b@[i as int]);
            assert(a@.skip(i as int).drop_first() =~= a@.skip(i + 1));
            assert(b@.skip(i as int).drop_first() =~= b@.skip(i + 1));
        }
        if (ca as u32) < (cb as u32) {
            return true;
        }
        if (cb as u32) < (ca as u32) {
            return false;
        }
        i = i + 1;
    }
    proof {
        if i == na {
            assert(a@.skip(na as int).len() == 0);
        } else {
            assert(b@.skip(nb as int).len() == 0);
            assert(a@.skip(i as int).len() > 0);
        }
    }
    na <= nb
}

/// The texts of a sequence of names.
pub open spec fn name_views(v: Seq<String>) -> Seq<Seq<char>> {
    v.map_values(|s: String| s@)
}

/// Sorts names lexicographically: the result holds exactly the given
/// names, in order.
pub fn sort_names(names: Vec<String>) -> (r: Vec<String>)
    ensures
        name_views(r@).to_multiset() == name_views(names@).to_multiset(),
        forall|i: int, j: int|
            0 <= i < j < r@.len() ==> lex_leq(name_views(r@)[i], name_views(r@)[j]),
{
    let ghost orig = name_views(names@);
    let mut rest = names;
    let mut out: Vec<String> = Vec::new();
    proof {
        assert(name_views(out@) =~= Seq::<Seq<char>>::empty());
        name_views(out@).to_multiset_ensures();
        assert(name_views(out@).to_multiset().add(name_views(rest@).to_multiset())
            =~= orig.to_multiset());
    }
    while rest.len() > 0
        invariant
            name_views(out@).to_multiset().add(name_views(rest@).to_multiset())
                == orig.to_multiset(),
            forall|i: int, j: int|
                0 <= i < j < out@.len() ==> lex_leq(name_views(out@)[i], name_views(out@)[j]),
            forall|i: int, j: int|
                0 <= i < out@.len() && 0 <= j < rest@.len() ==> lex_leq(
                    name_views(out@)[i],
                    name_views(rest@)[j],
                ),
        decreases rest.len(),
    {
        let mut m: usize = 0;
        let mut k: usize = 1;
        proof {
            lemma_lex_refl(rest@[0]@);
        }
        while k < rest.len()
            invariant
                m < rest.len(),
                k <= rest.len(),
                forall|j: int| 0 <= j < k ==> lex_leq(rest@[m as int]@, #[trigger] rest@[j]@),
            decreases rest.len() - k,
        {
            if !lex_le(rest[m].as_str(), rest[k].as_str()) {
                proof {
                    lemma_lex_total(rest@[m as int]@, rest@[k as int]@);
                    assert forall|j: int| 0 <= j < k + 1 implies lex_leq(
                        rest@[k as int]@,
                        #[trigger] rest@[j]@,
                    ) by {
                        if j < k {
                            lemma_lex_trans(rest@[k as int]@, rest@[m as int]@, rest@[j]@);
                        } else {
                            lemma_lex_refl(rest@[k as int]@);
                        }
                    }
                }
                m = k;
            }
            k = k + 1;
        }
        let ghost old_rest = rest@;
        let ghost least = old_rest[m as int]@;
        assert(forall|j: int| 0 <= j < old_rest.len() ==> lex_leq(least, #[trigger] old_rest[j]@));
        let s = rest.remove(m);
        let ghost old_out = out@;
        out.push(s);
        proof {
            assert(name_views(rest@) =~= name_views(old_rest).remove(m as int));
            assert(name_views(out@) =~= name_views(old_out).push(least));
            name_views(old_rest).to_multiset_ensures();
            name_views(old_out).to_multiset_ensures();
            assert(name_views(old_rest)[m as int] == least);
            assert(name_views(old_rest).contains(least));
            assert(name_views(out@).to_multiset() =~= name_views(old_out).to_multiset().insert(
                least,
            ));
            assert(name_views(rest@).to_multiset() =~= name_views(old_rest).to_multiset().remove(
                least,
            ));
            assert(name_views(out@).to_multiset().add(name_views(rest@).to_multiset())
                =~= orig.to_multiset());
            assert forall|i: int, j: int| 0 <= i < j < out@.len() implies lex_leq(
                name_views(out@)[i],
                name_views(out@)[j],
            ) by {
                if j < out@.len() - 1 {
                    assert(lex_leq(name_views(old_out)[i], name_views(old_out)[j]));
                } else {
                    assert(name_views(out@)[j] == least);
                    assert(lex_leq(name_views(old_out)[i], name_views(old_rest)[m as int]));
                }
            }
            assert forall|i: int, j: int|
                0 <= i < out@.len() && 0 <= j < rest@.len() implies lex_leq(
                name_views(out@)[i],
                name_views(rest@)[j],
            ) by {
                let jj: int = if j < m { j } else { j + 1 };
                assert(name_views(rest@)[j] == name_views(old_rest)[jj]);
                if i < out@.len() - 1 {
                    assert(lex_leq(name_views(old_out)[i], name_views(old_rest)[jj]));
                } else {
                    assert(name_views(out@)[i] == least);
                    assert(lex_leq(least, old_rest[jj]@));
                }
            }
        }
    }
    proof {
        broadcast use vstd::multiset::group_multiset_axioms;

        assert(name_views(rest@) =~= Seq::<Seq<char>>::empty());
        name_views(rest@).to_multiset_ensures();
        vstd::multiset::lemma_multiset_empty_len(name_views(rest@).to_multiset());
        assert(name_views(out@).to_multiset().add(name_views(rest@).to_multiset())
            =~= name_views(out@).to_multiset());
    }
    out
}

/// The names among directory entries that mark an input fixture, in their
/// original order.
pub open spec fn input_filter(entries: Seq<Seq<char>>) -> Seq<Seq<char>>
    decreases entries.len(),
{
    if entries.len() == 0 {
        Seq::empty()
    } else {
        let rest = input_filter(entries.drop_last());
        if is_input_name(entries.last()) {
            rest.push(entries.last())
        } else {
            rest
        }
    }
}

proof fn lemma_input_filter_elems(entries: Seq<Seq<char>>)
    ensures
        forall|i: int|
            0 <= i < input_filter(entries).len() ==> is_input_name(
                #[trigger] input_filter(entries)[i],
            ),
    decreases entries.len(),
{
    if entries.len() > 0 {
        lemma_input_filter_elems(entries.drop_last());
        let rest = input_filter(entries.drop_last());
        assert forall|i: int| 0 <= i < input_filter(entries).len() implies is_input_name(
            #[trigger] input_filter(entries)[i],
        ) by {
            if is_input_name(entries.last()) {
                assert(input_filter(entries) == rest.push(entries.last()));
                if i < rest.len() {
                    assert(input_filter(entries)[i] == rest[i]);
                    assert(is_input_name(rest[i]));
                }
            } else {
                assert(input_filter(entries) == rest);
                assert(is_input_name(rest[i]));
            }
        }
    }
}

/// The input names of a sequence of planned cases.
pub open spec fn case_inputs(cs: Seq<TestCase>) -> Seq<Seq<char>> {
    cs.map_values(|c: TestCase| c.input@)
}

/// Plans a test run over the given directory entries: keeps exactly the
/// names marking input fixtures, sorts them, and pairs each with the name
/// of its expected-output companion.
pub fn plan_tests(entries: &Vec<String>) -> (cases: Vec<TestCase>)
    ensures
        case_inputs(cases@).to_multiset() == input_filter(name_views(entries@)).to_multiset(),
        forall|i: int, j: int|
            0 <= i < j < cases@.len() ==> lex_leq(case_inputs(cases@)[i], case_inputs(cases@)[j]),
        forall|i: int| 0 <= i < cases@.len() ==> case_wf(#[trigger] cases@[i]),
{
    let ghost all = name_views(entries@);
    let ghost filtered = input_filter(all);
    let mut selected: Vec<String> = Vec::new();
    let mut i: usize = 0;
    proof {
        assert(all.take(0) =~= Seq::<Seq<char>>::empty());
        assert(name_views(selected@) =~= Seq::<Seq<char>>::empty());
    }
    while i < entries.len()
        invariant
            i <= entries.len(),
            all == name_views(entries@),
            name_views(selected@) == input_filter(all.take(i as int)),
        decreases entries.len() - i,
    {
        let keep = has_input_ext(entries[i].as_str());
        proof {
            assert(all.take(i + 1).drop_last() =~= all.take(i as int));
            assert(all.take(i + 1).last() == entries@[i as int]@);
        }
        if keep {
            let ghost oldsel = selected@;
            selected.push(entries[i].clone());
            proof {
                assert(name_views(selected@) =~= name_views(oldsel).push(entries@[i as int]@));
            }
        }
        i = i + 1;
    }
    proof {
        assert(all.take(entries@.len() as int) =~= all);
    }
    let sorted = sort_names(selected);
    let mut cases: Vec<TestCase> = Vec::new();
    let mut j: usize = 0;
    proof {
        assert(case_inputs(cases@) =~= Seq::<Seq<char>>::empty());
        assert(name_views(sorted@).take(0) =~= Seq::<Seq<char>>::empty());
    }
    while j < sorted.len()
        invariant
            j <= sorted.len(),
            all == name_views(entries@),
            filtered == input_filter(all),
            name_views(sorted@).to_multiset() == filtered.to_multiset(),
            forall|p: int, q: int|
                0 <= p < q < sorted@.len() ==> lex_leq(
                    name_views(sorted@)[p],
                    name_views(sorted@)[q],
                ),
            case_inputs(cases@) == name_views(sorted@).take(j as int),
            forall|p: int| 0 <= p < cases@.len() ==> case_wf(#[trigger] cases@[p]),
        decreases sorted.len() - j,
    {
        proof {
            let v = sorted@[j as int]@;
            name_views(sorted@).to_multiset_ensures();
            assert(name_views(sorted@)[j as int] == v);
            assert(name_views(sorted@).contains(v));
            assert(filtered.to_multiset().count(v) > 0);
            filtered.to_multiset_ensures();
            assert(filtered.contains(v));
            let idx = choose|idx: int| 0 <= idx < filtered.len() && filtered[idx] == v;
            lemma_input_filter_elems(all);
            assert(is_input_name(v));
        }
        let exp = expected_name(sorted[j].as_str());
        let ghost oldcases = cases@;
        cases.push(
            TestCase {
                input: sorted[j].clone(),
                expected: exp,
            },
        );
        proof {
            assert(case_inputs(cases@) =~= case_inputs(oldcases).push(sorted@[j as int]@));
            assert(name_views(sorted@).take(j + 1) =~= name_views(sorted@).take(j as int).push(
                sorted@[j as int]@,
            ));
        }
        j = j + 1;
    }
    proof {
        assert(name_views(sorted@).take(sorted@.len() as int) =~= name_views(sorted@));
        assert forall|p: int, q: int| 0 <= p < q < cases@.len() implies lex_leq(
            case_inputs(cases@)[p],
            case_inputs(cases@)[q],
        ) by {
            assert(case_inputs(cases@)[p] == name_views(sorted@)[p]);
            assert(case_inputs(cases@)[q] == name_views(sorted@)[q]);
        }
    }
    cases
}

/// Everything recorded about one executed test case: its classification,
/// the captured output, the expected text when there was one, and the
/// elapsed wall-clock time in milliseconds.
pub struct TestReport {
    pub outcome: TestOutcome,
    pub actual: String,
    pub expected: Option<String>,
    pub elapsed_ms: u128,
}

/// The expected text of an owned optional expectation.
pub open spec fn view_expected_owned(expected: Option<String>) -> Option<Seq<char>> {
    match expected {
        Some(e) => Some(e@),
        None => None,
    }
}

/// Builds the record of one executed test case from the captured output,
/// the expected text when the expected-output file existed, and the
/// elapsed time.
pub fn report(actual: String, expected: Option<String>, elapsed_ms: u128) -> (r: TestReport)
    ensures
        r.outcome == classify_spec(actual@, view_expected_owned(expected)),
        r.actual == actual,
        r.expected == expected,
        r.elapsed_ms == elapsed_ms,
{
    let outcome = match &expected {
        Some(e) => classify(actual.as_str(), Some(e.as_str())),
        None => classify(actual.as_str(), None),
    };
    TestReport { outcome, actual, expected, elapsed_ms }
}

} // verus!
