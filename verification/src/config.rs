//! The per-problem metadata the workflow reads: the contest's URL when
//! the problem belongs to a remote contest, and the problem's own URL.

use vstd::prelude::*;

verus! {

/// Metadata stored beside a problem: where its contest and the problem
/// itself live, when they are remote.
pub struct Info {
    pub contest_url: Option<String>,
    pub problem_url: Option<String>,
}

/// Whether a problem belongs to a remote contest: its metadata names a
/// contest URL.  Downloading and submitting apply only then.
pub fn online(info: &Info) -> (r: bool)
    ensures
        r == (info.contest_url is Some),
{
    match &info.contest_url {
        Some(_) => true,
        None => false,
    }
}

} // verus!
