//! The decision made when a contest is set up: an argument that parses as
//! a URL names a remote contest whose directory name is scraped, anything
//! else an offline contest named by the argument itself.

use vstd::prelude::*;
use vstd::string::StrSliceExecFns;

verus! {

/// What `url::Url::parse` accepts; acceptance depends on the text alone.
pub uninterp spec fn is_parsable_url(s: Seq<char>) -> bool;

/// Relies on url::Url::parse: whether a text is accepted as an absolute
/// URL is a function of the text alone.
#[verifier::external_body]
fn url_parse_ok(s: &str) -> (r: bool)
    ensures
        r == is_parsable_url(s@),
{
    url::Url::parse(s).is_ok()
}

/// Whether a contest argument names a remote contest, that is, parses as
/// a URL.
pub fn contest_is_remote(arg: &str) -> (r: bool)
    ensures
        r == is_parsable_url(arg@),
{
    url_parse_ok(arg)
}

/// Whitespace around a scraped name: spaces, tabs and line endings.
pub open spec fn is_space(c: char) -> bool {
    c == ' ' || c == '\t' || c == '\r' || c == '\n'
}

/// A text with its trailing whitespace removed.
pub open spec fn trim_end_spaces(s: Seq<char>) -> Seq<char>
    decreases s.len(),
{
    if s.len() > 0 && is_space(s.last()) {
        trim_end_spaces(s.drop_last())
    } else {
        s
    }
}

/// A text with its leading whitespace removed.
pub open spec fn trim_start_spaces(s: Seq<char>) -> Seq<char>
    decreases s.len(),
{
    if s.len() > 0 && is_space(s[0]) {
        trim_start_spaces(s.drop_first())
    } else {
        s
    }
}

/// A text with whitespace removed from both ends.
pub open spec fn trimmed(s: Seq<char>) -> Seq<char> {
    trim_start_spaces(trim_end_spaces(s))
}

proof fn lemma_trim_end_spaces_take(s: Seq<char>, n: int)
    requires
        0 <= n <= s.len(),
        forall|i: int| n <= i < s.len() ==> is_space(#[trigger] s[i]),
        n == 0 || !is_space(s[n - 1]),
    ensures
        trim_end_spaces(s) == s.take(n),
    decreases s.len(),
{
    if n == s.len() {
        assert(s.take(n) =~= s);
    } else {
        let t = s.drop_last();
        assert(forall|i: int| n <= i < t.len() ==> #[trigger] t[i] == s[i]);
        lemma_trim_end_spaces_take(t, n);
        assert(t.take(n) =~= s.take(n));
    }
}

proof fn lemma_trim_start_spaces_skip(s: Seq<char>, m: int)
    requires
        0 <= m <= s.len(),
        forall|i: int| 0 <= i < m ==> is_space(#[trigger] s[i]),
        m == s.len() || !is_space(s[m]),
    ensures
        trim_start_spaces(s) == s.skip(m),
    decreases m,
{
    if m == 0 {
        assert(s.skip(0) =~= s);
    } else {
        let t = s.drop_first();
        assert(forall|i: int| 0 <= i < m - 1 ==> #[trigger] t[i] == s[i + 1]);
        lemma_trim_start_spaces_skip(t, m - 1);
        assert(t.skip(m - 1) =~= s.skip(m));
    }
}

fn is_space_char(c: char) -> (r: bool)
    ensures
        r == is_space(c),
{
    c == ' ' || c == '\t' || c == '\r' || c == '\n'
}

/// The directory name a contest gets: the scraped or given name with the
/// whitespace around it removed; none when nothing is left of it.
pub fn contest_dir_name(raw: &str) -> (r: Option<String>)
    ensures
        match r {
            Some(d) => d@ == trimmed(raw@) && trimmed(raw@).len() > 0,
            None => trimmed(raw@).len() == 0,
        },
{
    let len = raw.unicode_len();
    let mut n: usize = len;
    while n > 0 && is_space_char(raw.get_char(n - 1))
        invariant
            n <= len == raw@.len(),
            forall|i: int| n <= i < raw@.len() ==> is_space(#[trigger] raw@[i]),
        decreases n,
    {
        n = n - 1;
    }
    proof {
        lemma_trim_end_spaces_take(raw@, n as int);
    }
    let ghost kept = raw@.take(n as int);
    let mut m: usize = 0;
    while m < n && is_space_char(raw.get_char(m))
        invariant
            m <= n <= raw@.len(),
            forall|i: int| 0 <= i < m ==> is_space(#[trigger] raw@[i]),
        decreases n - m,
    {
        m = m + 1;
    }
    proof {
        assert(forall|i: int| 0 <= i < m ==> #[trigger] kept[i] == raw@[i]);
        if m < n {
            assert(kept[m as int] == raw@[m as int]);
        }
        lemma_trim_start_spaces_skip(kept, m as int);
    }
    if m == n {
        proof {
            assert(kept.skip(m as int).len() == 0);
        }
        None
    } else {
        let d = raw.substring_char(m, n);
        proof {
            assert(raw@.subrange(m as int, n as int) =~= kept.skip(m as int));
        }
        Some(d.to_owned())
    }
}

} // verus!
