//! Path bookkeeping as plain text: locating the solution source file and
//! deriving the names of the compiled binary and of the inlined copy of a
//! source file.  The text after the last separator is taken as the file
//! name.

use vstd::prelude::*;
use vstd::string::StrSliceExecFns;
use vstd::string::StringExecFns;

verus! {

/// The last position of a character in a text, or -1 when it does not
/// occur.
pub open spec fn last_index_of(s: Seq<char>, c: char) -> int
    decreases s.len(),
{
    if s.len() == 0 {
        -1
    } else if s.last() == c {
        s.len() - 1
    } else {
        last_index_of(s.drop_last(), c)
    }
}

proof fn lemma_last_index_of_bounds(s: Seq<char>, c: char)
    ensures
        -1 <= last_index_of(s, c) < s.len(),
    decreases s.len(),
{
    if s.len() > 0 {
        lemma_last_index_of_bounds(s.drop_last(), c);
    }
}

fn find_last(s: &str, c: char) -> (r: Option<usize>)
    ensures
        match r {
            Some(i) => i == last_index_of(s@, c),
            None => last_index_of(s@, c) == -1,
        },
{
    let n = s.unicode_len();
    let mut best: Option<usize> = None;
    let mut i: usize = 0;
    proof {
        assert(s@.take(0) =~= Seq::<char>::empty());
    }
    while i < n
        invariant
            n == s@.len(),
            i <= n,
            match best {
                Some(b) => b == last_index_of(s@.take(i as int), c),
                None => last_index_of(s@.take(i as int), c) == -1,
            },
        decreases n - i,
    {
        proof {
            assert(s@.take(i + 1).drop_last() =~= s@.take(i as int));
            assert(s@.take(i + 1).last() == s@[i as int]);
        }
        let ch = s.get_char(i);
        if ch == c {
            best = Some(i);
        }
        i = i + 1;
    }
    proof {
        assert(s@.take(n as int) =~= s@);
    }
    best
}

/// Where the file-name part of a path begins: right after the last
/// separator, or at the start when there is none.
pub open spec fn file_name_start(s: Seq<char>) -> int {
    last_index_of(s, '/') + 1
}

/// Where the stem of the file name ends: at the last dot, provided it
/// stands strictly inside the file name (a name that is nothing but an
/// extension keeps it); at the end of the path otherwise.
pub open spec fn stem_end(s: Seq<char>) -> int {
    if last_index_of(s, '.') > file_name_start(s) {
        last_index_of(s, '.')
    } else {
        s.len() as int
    }
}

fn stem_end_exec(s: &str) -> (r: usize)
    ensures
        r == stem_end(s@),
        r <= s@.len(),
{
    proof {
        lemma_last_index_of_bounds(s@, '.');
        lemma_last_index_of_bounds(s@, '/');
    }
    let n = s.unicode_len();
    let dot = find_last(s, '.');
    let slash = find_last(s, '/');
    match dot {
        None => n,
        Some(d) => match slash {
            None => if d > 0 {
                d
            } else {
                n
            },
            Some(sl) => if d > sl + 1 {
                d
            } else {
                n
            },
        },
    }
}

/// The path of the compiled binary for a source file: the source path
/// with the file name's extension removed.
pub fn compiled_binary_path(src: &str) -> (r: String)
    ensures
        r@ == src@.take(stem_end(src@)),
{
    let n = stem_end_exec(src);
    let stem = src.substring_char(0, n);
    proof {
        assert(src@.subrange(0, n as int) =~= src@.take(stem_end(src@)));
    }
    stem.to_owned()
}

/// The path an inlined copy of a source file is written to: the stem of
/// the file name with a combining suffix, in the same directory.
pub fn combined_source_path(src: &str) -> (r: String)
    ensures
        r@ == src@.take(stem_end(src@)) + "_combined.cpp"@,
{
    let n = stem_end_exec(src);
    let stem = src.substring_char(0, n);
    let mut r = stem.to_owned();
    r.append("_combined.cpp");
    proof {
        assert(src@.subrange(0, n as int) =~= src@.take(stem_end(src@)));
    }
    r
}

/// A directory path and a file name joined with a separator, which is
/// left out when the directory is empty or already ends with one.
pub open spec fn join_spec(base: Seq<char>, name: Seq<char>) -> Seq<char> {
    if base.len() == 0 {
        name
    } else if base.last() == '/' {
        base + name
    } else {
        base + seq!['/'] + name
    }
}

/// Joins a directory path and a file name.
pub fn join_path(base: &str, name: &str) -> (r: String)
    ensures
        r@ == join_spec(base@, name@),
{
    let nb = base.unicode_len();
    if nb == 0 {
        return name.to_owned();
    }
    let mut r = base.to_owned();
    if base.get_char(nb - 1) != '/' {
        r.append("/");
        proof {
            reveal_strlit("/");
            assert("/"@ =~= seq!['/']);
        }
    }
    r.append(name);
    r
}

/// The compiled solution inside a problem directory, which always carries
/// the same file name.
pub fn problem_binary_path(dir: &str) -> (r: String)
    ensures
        r@ == join_spec(dir@, "main"@),
{
    join_path(dir, "main")
}

/// The candidate source file for a path: the fixed solution file name
/// inside a problem directory, or the path itself.
pub open spec fn source_candidate_spec(path: Seq<char>, path_is_dir: bool) -> Seq<char> {
    if path_is_dir {
        join_spec(path, "main.cpp"@)
    } else {
        path
    }
}

/// Builds the candidate source path, whose existence the caller checks
/// on disk.
pub fn source_candidate(path: &str, path_is_dir: bool) -> (r: String)
    ensures
        r@ == source_candidate_spec(path@, path_is_dir),
{
    if path_is_dir {
        join_path(path, "main.cpp")
    } else {
        path.to_owned()
    }
}

/// Resolves the source file to work on: inside a directory the fixed
/// solution file name, otherwise the path itself; there is no source when
/// the candidate is absent from disk, which the caller reports.
pub fn source(path: &str, path_is_dir: bool, candidate_exists: bool) -> (r: Option<String>)
    ensures
        match r {
            Some(p) => candidate_exists && p@ == source_candidate_spec(path@, path_is_dir),
            None => !candidate_exists,
        },
{
    if candidate_exists {
        Some(source_candidate(path, path_is_dir))
    } else {
        None
    }
}

} // verus!
