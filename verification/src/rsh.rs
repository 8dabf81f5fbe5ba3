use vstd::prelude::*;
use crate::error::Error;
use crate::text::{first_index, lemma_first_index, chars_of, string_of};

verus! {

/// A line whose comment can be cut: the character before its first `#`, if
/// any, is ASCII (one byte).
pub open spec fn cuttable(line: Seq<char>) -> bool {
    let k = first_index(line, '#');
    0 < k < line.len() ==> (line[k - 1] as u32) < 128
}

/// Whether the comment of `line` can be cut (see `cuttable`).
pub fn is_cuttable(line: &str) -> (res: bool)
    ensures
        res == cuttable(line@),
{
    let c = chars_of(line);
    let n = c.len();
    let mut i: usize = 0;
    while i < n && c[i] != '#'
        invariant
            c@ == line@,
            n == c@.len(),
            i <= n,
            forall|j: int| 0 <= j < i ==> c@[j] != '#',
        decreases n - i,
    {
        i = i + 1;
    }
    proof {
        lemma_first_index(line@, '#');
        if first_index(line@, '#') < i {
            assert(c@[first_index(line@, '#')] != '#');
        }
        if i < n {
            assert(first_index(line@, '#') <= i);
        }
    }
    if 0 < i && i < n {
        (c[i - 1] as u32) < 128
    } else {
        true
    }
}

/// What is kept of a line with a comment: nothing when the line starts with
/// `#`; else the line from the character just before its first `#` on (so
/// the `#` and what follows it stay); the whole line when it has no `#`.
pub open spec fn comment_stripped(line: Seq<char>) -> Seq<char> {
    let k = first_index(line, '#');
    if k >= line.len() {
        line
    } else if k == 0 {
        seq![]
    } else {
        line.skip(k - 1)
    }
}

/// Cuts the comment of a line (see `comment_stripped`).
pub fn strip_comment(line: &str) -> (res: String)
    requires
        cuttable(line@),
    ensures
        res@ == comment_stripped(line@),
{
    let c = chars_of(line);
    let n = c.len();
    let mut i: usize = 0;
    while i < n && c[i] != '#'
        invariant
            c@ == line@,
            n == c@.len(),
            i <= n,
            forall|j: int| 0 <= j < i ==> c@[j] != '#',
        decreases n - i,
    {
        i = i + 1;
    }
    proof {
        lemma_first_index(line@, '#');
        if first_index(line@, '#') < i {
            assert(c@[first_index(line@, '#')] != '#');
        }
        if i < n {
            assert(first_index(line@, '#') <= i);
        }
    }
    if i == n {
        string_of(&c, 0, n)
    } else if i == 0 {
        String::new()
    } else {
        let r = string_of(&c, i - 1, n);
        proof {
            assert(r@ =~= line@.skip(i - 1));
        }
        r
    }
}

/// The command line to parse from a line read: the line with its comment cut
/// (see `comment_stripped`), or nothing when that leaves nothing.
pub fn line_to_run(line: &str) -> (res: Option<String>)
    requires
        cuttable(line@),
    ensures
        comment_stripped(line@).len() == 0 ==> res is None,
        comment_stripped(line@).len() > 0 ==> (res matches Some(l) && l@ == comment_stripped(line@)),
{
    let l = strip_comment(line);
    if l.unicode_len() == 0 {
        None
    } else {
        Some(l)
    }
}

/// Whether the shell goes on reading after reading a line failed: only an
/// interrupt is ignored; any other error ends the session.
pub fn keeps_reading_after(err: &Error) -> (res: bool)
    ensures
        res <==> err is Interrupt,
{
    match err {
        Error::Interrupt => true,
        _ => false,
    }
}

/// Whether the shell goes on after running a line failed: a run error is
/// reported and the session goes on; any other error ends it.
pub fn keeps_running_after(err: &Error) -> (res: bool)
    ensures
        res <==> err is Run,
{
    match err {
        Error::Run(_) => true,
        _ => false,
    }
}

} // verus!
