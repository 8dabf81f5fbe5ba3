use vstd::prelude::*;
use crate::builtins::export::{get, substitute_one, substitute_vars};
use crate::error::Error;
use crate::exec::substitute::{CaptureFailure, CommandOutput, inner_exec_words, reports_failure, substitute_inner_exec_one};
use crate::outside::{ansi_stripped, has_backslash, strip_ansi, unescape_text, unescaped, utf8_string, utf8_text};
use crate::table::{NameTable, texts};
use crate::text::{join, join_str, owned, replace_all, replace_all_str, split_str, split_on, views};

verus! {

/// The prompt shown when `PROMPT` is not set.
pub const DEFAULT_PROMPT: &'static str = "\x1b[1;33mrsh\x1b[1;32m $>\x1b[0m ";

/// The prompt shown when `PROMPT` has a malformed escape.
pub const PROMPT_ERROR: &'static str = "PROMPT_ERROR > ";

/// `s` with each pair's first text, in turn, replaced everywhere by its second.
pub open spec fn apply_pairs(s: Seq<char>, pairs: Seq<(Seq<char>, Seq<char>)>) -> Seq<char>
    decreases pairs.len(),
{
    if pairs.len() == 0 {
        s
    } else {
        apply_pairs(replace_all(s, pairs[0].0, pairs[0].1), pairs.drop_first())
    }
}

/// The texts of a list of pairs of strings.
pub open spec fn pair_views(v: Seq<(String, String)>) -> Seq<(Seq<char>, Seq<char>)> {
    v.map_values(|p: (String, String)| (p.0@, p.1@))
}

/// The prompt's shorthands: `%u` the user, `%h` the host, `%d` the directory,
/// `%%` a percent sign.
pub open spec fn prompt_pairs() -> Seq<(Seq<char>, Seq<char>)> {
    seq![("%u"@, "$USER"@), ("%h"@, "`hostname`"@), ("%d"@, "$PWD"@), ("%%"@, "%"@)]
}

/// The prompt's shorthands and what they stand for.
pub fn prompt_substitutions() -> (res: Vec<(String, String)>)
    ensures
        pair_views(res@) == prompt_pairs(),
{
    let mut v: Vec<(String, String)> = Vec::new();
    v.push((owned("%u"), owned("$USER")));
    v.push((owned("%h"), owned("`hostname`")));
    v.push((owned("%d"), owned("$PWD")));
    v.push((owned("%%"), owned("%")));
    assert(pair_views(v@) =~= prompt_pairs());
    v
}

/// Replaces, pair after pair, each first text by its second.
pub fn substitute_pairs(s: &str, pairs: &Vec<(String, String)>) -> (res: String)
    ensures
        res@ == apply_pairs(s@, pair_views(pairs@)),
{
    let mut out = owned(s);
    let mut i: usize = 0;
    let ghost all = pair_views(pairs@);
    assert(all.skip(0) =~= all);
    while i < pairs.len()
        invariant
            all == pair_views(pairs@),
            i <= pairs@.len(),
            apply_pairs(s@, all) == apply_pairs(out@, all.skip(i as int)),
        decreases pairs@.len() - i,
    {
        proof {
            assert(all.skip(i as int)[0] == (pairs@[i as int].0@, pairs@[i as int].1@));
            assert(all.skip(i as int).drop_first() =~= all.skip(i + 1));
        }
        out = replace_all_str(out.as_str(), pairs[i].0.as_str(), pairs[i].1.as_str());
        i = i + 1;
    }
    assert(all.skip(pairs@.len() as int) =~= Seq::<(Seq<char>, Seq<char>)>::empty());
    out
}

/// The prompt before its command substitutions: its shorthands replaced,
/// then its variable references.
pub open spec fn expanded_prompt(p: Seq<char>, env: Map<Seq<char>, Seq<char>>) -> Seq<char> {
    substitute_vars(apply_pairs(p, prompt_pairs()), env)
}

/// Replaces the shorthands and the variable references of a prompt.
pub fn expand_prompt(prompt: &str, env: &NameTable<String>) -> (res: String)
    ensures
        res@ == expanded_prompt(prompt@, texts(env@)),
{
    let pairs = prompt_substitutions();
    let mut p = substitute_pairs(prompt, &pairs);
    let _ = substitute_one(&mut p, env);
    p
}

/// The prompt text: its shorthands, variable references and command
/// substitutions replaced; the words of the substitution are joined with
/// spaces.
pub fn substitute_prompt(prompt: &mut String, env: &NameTable<String>, outputs: &Vec<CommandOutput>) -> (res: Result<(), Error>)
    ensures
        match inner_exec_words(expanded_prompt(old(prompt)@, texts(env@)), outputs@, 0) {
            Ok((ws, _)) => res is Ok && final(prompt)@ == join(ws, " "@),
            Err(f) => res matches Err(err) && reports_failure(err, f),
        },
{
    let p = expand_prompt(prompt.as_str(), env);
    match substitute_inner_exec_one(p, outputs, 0) {
        Ok((words, _)) => {
            *prompt = join_str(&words, " ");
            Ok(())
        },
        Err(e) => Err(e),
    }
}

/// The prompt to use: the value of `PROMPT`, or the default one.
pub fn prompt_template(env: &NameTable<String>) -> (res: String)
    ensures
        texts(env@).dom().contains("PROMPT"@) ==> res@ == texts(env@)["PROMPT"@],
        !texts(env@).dom().contains("PROMPT"@) ==> res@ == DEFAULT_PROMPT@,
{
    proof {
        reveal_strlit("PROMPT");
    }
    match get(env, "PROMPT") {
        Ok(p) => p,
        Err(_) => owned(DEFAULT_PROMPT),
    }
}

/// The prompt with its escapes decoded (a prompt without backslashes is
/// itself), or the error prompt when an escape is malformed: what is shown,
/// in colour.
pub open spec fn colored_prompt(p: Seq<char>) -> Seq<char> {
    if !has_backslash(p) {
        p
    } else {
        match unescaped(p) {
            Some(u) => u,
            None => PROMPT_ERROR@,
        }
    }
}

/// The prompt to show, in colour and without colours: the colour codes are
/// stripped and the rest decoded as UTF-8 (`Error::Io` when stripping fails,
/// `Error::Utf8` when the rest is not UTF-8).
pub fn render_prompt(p: &str) -> (res: (String, Result<String, Error>))
    ensures
        res.0@ == colored_prompt(p@),
        match ansi_stripped(colored_prompt(p@)) {
            None => res.1 matches Err(Error::Io(_)),
            Some(b) => match utf8_text(b) {
                None => res.1 matches Err(Error::Utf8),
                Some(t) => res.1 matches Ok(s) && s@ == t,
            },
        },
{
    let colored = match unescape_text(p) {
        Some(u) => u,
        None => owned(PROMPT_ERROR),
    };
    let plain = match strip_ansi(colored.as_str()) {
        None => Err(Error::Io(owned("cannot strip the prompt's colours"))),
        Some(bytes) => match utf8_string(bytes) {
            None => Err(Error::Utf8),
            Some(s) => Ok(s),
        },
    };
    (colored, plain)
}

/// The lines of a script, read one after the other.
pub struct Script {
    lines: Vec<String>,
    /// The index of the next line to give, and how many times a line has
    /// been asked for.
    pos: (usize, Ghost<nat>),
}

impl Script {
    #[verifier::type_invariant]
    closed spec fn inv(self) -> bool {
        &&& self.pos.0 <= self.lines@.len()
        &&& self.pos.0 == (if self.pos.1@ < self.lines@.len() { self.pos.1@ } else { self.lines@.len() as nat })
    }

    /// The lines of the script.
    pub closed spec fn lines(&self) -> Seq<Seq<char>> {
        views(self.lines@)
    }

    /// How many times a line has been asked for.
    pub closed spec fn calls(&self) -> nat {
        self.pos.1@
    }

    /// The lines of a text, split at its line breaks; none asked for yet.
    pub fn from_text(text: &str) -> (res: Script)
        ensures
            res.lines() == split_on(text@, '\n'),
            res.calls() == 0,
    {
        let lines = split_str(text, '\n');
        Script { lines, pos: (0, Ghost(0)) }
    }

    /// The next line: the `k`-th call gives the `k`-th line of the script,
    /// and once all have been given, `Error::Missing`.
    pub fn aquire(&mut self) -> (res: Result<String, Error>)
        ensures
            final(self).lines() == old(self).lines(),
            final(self).calls() == old(self).calls() + 1,
            old(self).calls() < old(self).lines().len() ==> (res matches Ok(l) && l@ == old(self).lines()[old(self).calls() as int]),
            old(self).calls() >= old(self).lines().len() ==> (res matches Err(Error::Missing)),
    {
        proof {
            use_type_invariant(&*self);
        }
        let ghost c = self.pos.1@;
        let next = self.pos.0;
        if next < self.lines.len() {
            let l = self.lines[next].clone();
            self.pos = (next + 1, Ghost(c + 1));
            Ok(l)
        } else {
            self.pos = (next, Ghost(c + 1));
            Err(Error::Missing)
        }
    }
}

} // verus!
