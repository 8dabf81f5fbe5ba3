use vstd::prelude::*;
use crate::builtins::alias::{chain_ok, expand, lemma_expand_fuel, lemma_split_on_len};
use crate::builtins::export::substitute_vars;
use crate::error::Error;
use crate::outside::{decoded, regex_found, regex_matches, unescape_text};
use crate::parsing::ast::CommandRaw;
use crate::table::{NameTable, texts};
use crate::text::{chars_of, owned, replace_all, replace_all_str, split_on, split_str, string_of, substring, views};

verus! {

/// A command substitution: a backquote, at least one character other than a
/// line break, and the last backquote of the line.
pub const BACKTICK_PATTERN: &'static str = "(`.+`)";

/// A command substitution written `$(cmd)`: a dollar, an opening parenthesis,
/// at least one character other than a line break, and the last closing
/// parenthesis of the line.
pub const SUBSHELL_PATTERN: &'static str = "(\\$\\(.+\\))";

/// What running the command of a substitution gave.
#[derive(Debug)]
pub enum CommandOutput {
    /// It could not be started, or its output could not be collected.
    NotRun,
    /// It printed this text.
    Text(String),
    /// Its output is not UTF-8.
    NotUtf8,
    /// Preparing it failed with this error.
    Failed(Error),
}

/// Why substituting the commands of a word failed.
pub enum CaptureFailure {
    Unreadable,
    Failed(Error),
}

/// `err` is the error that reports `f`.
pub open spec fn reports_failure(err: Error, f: CaptureFailure) -> bool {
    match f {
        CaptureFailure::Unreadable => err matches Error::Run(m) && m@ == "Cannot read stdout"@,
        CaptureFailure::Failed(e) => err == e,
    }
}

/// A text without the line breaks at its end.
pub open spec fn trim_line_breaks(s: Seq<char>) -> Seq<char>
    decreases s.len(),
{
    if s.len() > 0 && s.last() == '\n' {
        trim_line_breaks(s.drop_last())
    } else {
        s
    }
}

/// The text that replaces a substitution: the command's output without the
/// line breaks at its end, each other line break turned into a space (so that
/// the lines separate words as spaces do), with its backslash escapes decoded
/// when they are well formed.
pub open spec fn output_text(out: Seq<char>) -> Seq<char> {
    decoded(replace_all(trim_line_breaks(out), seq!['\n'], seq![' ']))
}

/// The command of a substitution whose opening is `open` characters long
/// (one for a backquote, two for `$(`): the text between its opening and its
/// last character.
pub open spec fn capture_key(span: Seq<char>, open: nat) -> Seq<char> {
    span.subrange(open as int, span.len() - 1)
}

/// Whether an output ends the substitutions: output that is not UTF-8, or a
/// command that could not be prepared.
pub open spec fn is_failure(o: CommandOutput) -> bool {
    o is NotUtf8 || o is Failed
}

/// `acc` with each substitution of `spans`, in turn, replaced everywhere by
/// its command's output (nothing when it did not run); the first failure
/// stops it. Each substitution opens with `open` characters and closes with
/// one. The commands' outputs come in `outs`, one per substitution run, in
/// the order in which they run; `at` is the position of the next one (a
/// substitution with no output left is taken as not run). The result holds
/// the position after the outputs used.
pub open spec fn apply_captures(
    acc: Seq<char>,
    spans: Seq<Seq<char>>,
    outs: Seq<CommandOutput>,
    at: nat,
    open: nat,
) -> Result<(Seq<char>, nat), CaptureFailure>
    decreases spans.len(),
{
    if spans.len() == 0 {
        Ok((acc, at))
    } else {
        let span = spans[0];
        let rest = spans.drop_first();
        if span.len() < open + 1 {
            apply_captures(acc, rest, outs, at, open)
        } else if at >= outs.len() {
            apply_captures(replace_all(acc, span, seq![]), rest, outs, at, open)
        } else {
            match outs[at as int] {
                CommandOutput::NotRun => apply_captures(replace_all(acc, span, seq![]), rest, outs, at + 1, open),
                CommandOutput::Text(t) => apply_captures(replace_all(acc, span, output_text(t@)), rest, outs, at + 1, open),
                CommandOutput::NotUtf8 => Err(CaptureFailure::Unreadable),
                CommandOutput::Failed(e) => Err(CaptureFailure::Failed(e)),
            }
        }
    }
}

/// The text of the word `s` after its substitutions, with the outputs from
/// position `at` on: first its backquoted ones, then its `$(...)` ones (both
/// as found in `s`); and the position after the outputs used.
pub open spec fn captured(s: Seq<char>, outs: Seq<CommandOutput>, at: nat) -> Result<(Seq<char>, nat), CaptureFailure> {
    match apply_captures(s, regex_found(BACKTICK_PATTERN@, s), outs, at, 1) {
        Ok((r1, a1)) => apply_captures(r1, regex_found(SUBSHELL_PATTERN@, s), outs, a1, 2),
        Err(f) => Err(f),
    }
}

/// The words a word becomes: itself when it holds no substitution that
/// changes it, else its text after substitution split at spaces; and the
/// position after the outputs used.
pub open spec fn inner_exec_words(s: Seq<char>, outs: Seq<CommandOutput>, at: nat) -> Result<(Seq<Seq<char>>, nat), CaptureFailure> {
    match captured(s, outs, at) {
        Ok((r, a)) => Ok((if r == s { seq![s] } else { split_on(r, ' ') }, a)),
        Err(f) => Err(f),
    }
}

/// The words that a list of words becomes, one after the other, with the
/// outputs from position `at` on; the first failure stops it.
pub open spec fn expand_words(ws: Seq<Seq<char>>, outs: Seq<CommandOutput>, at: nat) -> Result<(Seq<Seq<char>>, nat), CaptureFailure>
    decreases ws.len(),
{
    if ws.len() == 0 {
        Ok((seq![], at))
    } else {
        match inner_exec_words(ws[0], outs, at) {
            Err(f) => Err(f),
            Ok((first, a)) => match expand_words(ws.drop_first(), outs, a) {
                Err(f) => Err(f),
                Ok((rest, b)) => Ok((first + rest, b)),
            },
        }
    }
}

/// The commands that the substitutions `spans` (each opening with `open`
/// characters) run.
pub open spec fn capture_keys(spans: Seq<Seq<char>>, open: nat) -> Seq<Seq<char>>
    decreases spans.len(),
{
    if spans.len() == 0 {
        seq![]
    } else if spans[0].len() < open + 1 {
        capture_keys(spans.drop_first(), open)
    } else {
        seq![capture_key(spans[0], open)] + capture_keys(spans.drop_first(), open)
    }
}

fn output_text_of(out: &String) -> (res: String)
    ensures
        res@ == output_text(out@),
{
    let c = chars_of(out.as_str());
    let mut j: usize = c.len();
    assert(c@.subrange(0, c@.len() as int) =~= out@);
    while j > 0 && c[j - 1] == '\n'
        invariant
            c@ == out@,
            j <= c@.len(),
            trim_line_breaks(c@.subrange(0, j as int)) == trim_line_breaks(out@),
        decreases j,
    {
        proof {
            assert(c@.subrange(0, j as int).drop_last() =~= c@.subrange(0, j - 1));
        }
        j = j - 1;
    }
    let trimmed = string_of(&c, 0, j);
    proof {
        assert(trim_line_breaks(trimmed@) == trimmed@);
    }
    let p = replace_all_str(trimmed.as_str(), "\n", " ");
    proof {
        reveal_strlit("\n");
        reveal_strlit(" ");
        assert("\n"@ =~= seq!['\n']);
        assert(" "@ =~= seq![' ']);
    }
    match unescape_text(p.as_str()) {
        Some(u) => u,
        None => p,
    }
}

pub proof fn lemma_apply_captures_at(acc: Seq<char>, spans: Seq<Seq<char>>, outs: Seq<CommandOutput>, at: nat, open: nat)
    requires
        at <= outs.len(),
    ensures
        apply_captures(acc, spans, outs, at, open) matches Ok((_, a)) ==> at <= a <= outs.len(),
    decreases spans.len(),
{
    if spans.len() > 0 {
        let span = spans[0];
        let rest = spans.drop_first();
        if span.len() < open + 1 || at >= outs.len() {
            lemma_apply_captures_at(replace_all(acc, span, seq![]), rest, outs, at, open);
            lemma_apply_captures_at(acc, rest, outs, at, open);
        } else {
            match outs[at as int] {
                CommandOutput::NotRun => lemma_apply_captures_at(replace_all(acc, span, seq![]), rest, outs, at + 1, open),
                CommandOutput::Text(t) => lemma_apply_captures_at(replace_all(acc, span, output_text(t@)), rest, outs, at + 1, open),
                _ => {},
            }
        }
    }
}

pub proof fn lemma_inner_exec_words_at(s: Seq<char>, outs: Seq<CommandOutput>, at: nat)
    requires
        at <= outs.len(),
    ensures
        inner_exec_words(s, outs, at) matches Ok((ws, a)) ==> at <= a <= outs.len() && ws.len() >= 1,
{
    lemma_apply_captures_at(s, regex_found(BACKTICK_PATTERN@, s), outs, at, 1);
    if let Ok((r1, a1)) = apply_captures(s, regex_found(BACKTICK_PATTERN@, s), outs, at, 1) {
        lemma_apply_captures_at(r1, regex_found(SUBSHELL_PATTERN@, s), outs, a1, 2);
    }
    if let Ok((r, a)) = captured(s, outs, at) {
        lemma_split_on_len(r, ' ');
    }
}

/// Replaces the substitutions `spans` (each opening with `open` characters)
/// in `acc`, with the outputs from position `at` on (see `apply_captures`).
fn apply_spans(acc: String, spans: &Vec<String>, outputs: &Vec<CommandOutput>, at: usize, open: usize) -> (res: Result<(String, usize), Error>)
    requires
        at <= outputs@.len(),
    ensures
        match apply_captures(acc@, views(spans@), outputs@, at as nat, open as nat) {
            Ok((r, a)) => res matches Ok((t, b)) && t@ == r && b == a,
            Err(f) => res matches Err(err) && reports_failure(err, f),
        },
{
    let ghost all = views(spans@);
    let ghost acc0 = acc@;
    let mut s_cpy = acc;
    let mut pos = at;
    let mut k: usize = 0;
    assert(all.skip(0) =~= all);
    while k < spans.len()
        invariant
            all == views(spans@),
            acc0 == acc@,
            k <= spans@.len(),
            pos <= outputs@.len(),
            apply_captures(acc0, all, outputs@, at as nat, open as nat) == apply_captures(
                s_cpy@,
                all.skip(k as int),
                outputs@,
                pos as nat,
                open as nat,
            ),
        decreases spans@.len() - k,
    {
        let span = &spans[k];
        let len = span.unicode_len();
        proof {
            assert(all.skip(k as int)[0] == span@);
            assert(all.skip(k as int).drop_first() =~= all.skip(k + 1));
            reveal_strlit("");
            assert(""@ =~= Seq::<char>::empty());
        }
        if len > open {
            if pos >= outputs.len() {
                s_cpy = replace_all_str(s_cpy.as_str(), span.as_str(), "");
            } else {
                match &outputs[pos] {
                    CommandOutput::NotRun => {
                        s_cpy = replace_all_str(s_cpy.as_str(), span.as_str(), "");
                    },
                    CommandOutput::Text(t) => {
                        let escaped = output_text_of(t);
                        s_cpy = replace_all_str(s_cpy.as_str(), span.as_str(), escaped.as_str());
                    },
                    CommandOutput::NotUtf8 => {
                        return Err(Error::Run(owned("Cannot read stdout")));
                    },
                    CommandOutput::Failed(e) => {
                        return Err(e.duplicate());
                    },
                }
                pos = pos + 1;
            }
        }
        k = k + 1;
    }
    proof {
        assert(all.skip(spans@.len() as int) =~= Seq::<Seq<char>>::empty());
    }
    Ok((s_cpy, pos))
}

/// Substitutes the commands of the word `s` (see `inner_exec_words`), given
/// the outputs of the commands run, from position `at` on; it also gives the
/// position after the outputs it used.
pub fn substitute_inner_exec_one(s: String, outputs: &Vec<CommandOutput>, at: usize) -> (res: Result<(Vec<String>, usize), Error>)
    requires
        at <= outputs@.len(),
    ensures
        match inner_exec_words(s@, outputs@, at as nat) {
            Ok((ws, a)) => res matches Ok((v, b)) && views(v@) == ws && b == a,
            Err(f) => res matches Err(err) && reports_failure(err, f),
        },
{
    proof {
        lemma_apply_captures_at(s@, regex_found(BACKTICK_PATTERN@, s@), outputs@, at as nat, 1);
    }
    let quoted = regex_matches(BACKTICK_PATTERN, s.as_str());
    let (first, a1) = match apply_spans(s.clone(), &quoted, outputs, at, 1) {
        Ok(t) => t,
        Err(e) => {
            return Err(e);
        },
    };
    let dollar = regex_matches(SUBSHELL_PATTERN, s.as_str());
    let (s_cpy, a2) = match apply_spans(first, &dollar, outputs, a1, 2) {
        Ok(t) => t,
        Err(e) => {
            return Err(e);
        },
    };
    if text_is(&s, &s_cpy) {
        let mut v = Vec::new();
        v.push(s);
        proof {
            assert(views(v@) =~= seq![s@]);
        }
        return Ok((v, a2));
    }
    let words = split_str(s_cpy.as_str(), ' ');
    Ok((words, a2))
}

fn text_is(a: &String, b: &String) -> (res: bool)
    ensures
        res == (a@ == b@),
{
    crate::text::text_eq(a.as_str(), b.as_str())
}

/// Substitutes the commands in the name and the arguments of `cmd`, given
/// the outputs of the commands run, in the order in which they run: the
/// name's words replace the name (the first) and go before the arguments'
/// words (the others). On failure the command keeps its arguments, and its
/// name too when the name's substitution failed.
pub fn substitute_inner_exec(cmd: &mut CommandRaw, outputs: &Vec<CommandOutput>) -> (res: Result<(), Error>)
    ensures
        inner_exec_outcome(old(cmd)@, outputs@, res, final(cmd)@),
{
    let ghost args0 = cmd@.1;
    proof {
        lemma_inner_exec_words_at(cmd.exe@, outputs@, 0);
    }
    let (exe_res, a0) = match substitute_inner_exec_one(cmd.exe.clone(), outputs, 0) {
        Ok(r) => r,
        Err(e) => {
            return Err(e);
        },
    };
    let ghost ew = views(exe_res@);
    let mut new_args = exe_res;
    let exe = new_args.remove(0);
    cmd.exe = exe;
    let ghost first_rest = views(new_args@);
    proof {
        assert(first_rest =~= ew.drop_first());
    }
    let mut pos = a0;
    let mut i: usize = 0;
    proof {
        assert(args0.skip(0) =~= args0);
        assert(views(new_args@) =~= first_rest + Seq::<Seq<char>>::empty());
        assert(views(new_args@).skip(first_rest.len() as int) =~= Seq::<Seq<char>>::empty());
        match expand_words(args0, outputs@, a0 as nat) {
            Ok((aw, b)) => {
                assert(Seq::<Seq<char>>::empty() + aw =~= aw);
            },
            Err(f) => {},
        }
    }
    while i < cmd.args.len()
        invariant
            cmd@.1 == args0,
            args0 == old(cmd)@.1,
            inner_exec_words(old(cmd).exe@, outputs@, 0) == Ok::<(Seq<Seq<char>>, nat), CaptureFailure>((ew, a0 as nat)),
            cmd.exe@ == ew[0],
            first_rest == ew.drop_first(),
            i <= args0.len(),
            pos <= outputs@.len(),
            expand_words(args0, outputs@, a0 as nat) == prepend_words(
                views(new_args@).skip(first_rest.len() as int),
                expand_words(args0.skip(i as int), outputs@, pos as nat),
            ),
            views(new_args@).len() >= first_rest.len(),
            views(new_args@).take(first_rest.len() as int) == first_rest,
        decreases args0.len() - i,
    {
        proof {
            assert(args0.skip(i as int)[0] == cmd.args@[i as int]@);
            assert(args0.skip(i as int).drop_first() =~= args0.skip(i + 1));
            lemma_inner_exec_words_at(cmd.args@[i as int]@, outputs@, pos as nat);
        }
        let (res, next) = match substitute_inner_exec_one(cmd.args[i].clone(), outputs, pos) {
            Ok(r) => r,
            Err(e) => {
                return Err(e);
            },
        };
        let ghost before = views(new_args@);
        let mut res = res;
        let ghost added = views(res@);
        new_args.append(&mut res);
        proof {
            assert(views(new_args@) =~= before + added);
            assert(views(new_args@).skip(first_rest.len() as int) =~= before.skip(first_rest.len() as int) + added);
            assert(views(new_args@).take(first_rest.len() as int) =~= before.take(first_rest.len() as int));
            match expand_words(args0.skip(i + 1), outputs@, next as nat) {
                Ok((rest, b)) => {
                    assert(before.skip(first_rest.len() as int) + (added + rest) =~= before.skip(first_rest.len() as int) + added + rest);
                },
                Err(f) => {},
            }
        }
        pos = next;
        i = i + 1;
    }
    proof {
        assert(args0.skip(args0.len() as int) =~= Seq::<Seq<char>>::empty());
        let nv = views(new_args@);
        assert(nv =~= nv.take(first_rest.len() as int) + nv.skip(first_rest.len() as int));
        assert(nv.skip(first_rest.len() as int) + Seq::<Seq<char>>::empty() =~= nv.skip(first_rest.len() as int));
    }
    cmd.args = new_args;
    Ok(())
}

/// What substituting the commands of a command `before` gives, with the
/// outputs `outs`: `res` and the command `after` it. The name's words replace
/// the name (the first) and go before the arguments' words (the others); on
/// failure the command keeps its arguments, and its name too when the name's
/// substitution failed.
pub open spec fn inner_exec_outcome(
    before: (Seq<char>, Seq<Seq<char>>),
    outs: Seq<CommandOutput>,
    res: Result<(), Error>,
    after: (Seq<char>, Seq<Seq<char>>),
) -> bool {
    match inner_exec_words(before.0, outs, 0) {
        Err(f) => res matches Err(err) && reports_failure(err, f) && after == before,
        Ok((ew, a)) => match expand_words(before.1, outs, a) {
            Err(f) => res matches Err(err) && reports_failure(err, f) && after.0 == ew[0] && after.1 == before.1,
            Ok((aw, _)) => res is Ok && after == (ew[0], ew.drop_first() + aw),
        },
    }
}

/// The words `pre` put in front of a successful result.
pub open spec fn prepend_words(pre: Seq<Seq<char>>, r: Result<(Seq<Seq<char>>, nat), CaptureFailure>) -> Result<(Seq<Seq<char>>, nat), CaptureFailure> {
    match r {
        Ok((ws, b)) => Ok((pre + ws, b)),
        Err(f) => Err(f),
    }
}

} // verus!

verus! {

/// A command after its alias step: a name that starts with a backslash loses
/// it and is not looked up; any other name has its aliases expanded.
pub open spec fn alias_step(m: Map<Seq<char>, Seq<char>>, c: (Seq<char>, Seq<Seq<char>>)) -> (Seq<char>, Seq<Seq<char>>) {
    if c.0.len() > 0 && c.0[0] == '\\' {
        (c.0.skip(1), c.1)
    } else {
        expand(m, c.0, c.1, choose|n: nat| chain_ok(m, c.0, n))
    }
}

/// A command with the variable references of its name and arguments replaced.
pub open spec fn vars_step(env: Map<Seq<char>, Seq<char>>, c: (Seq<char>, Seq<Seq<char>>)) -> (Seq<char>, Seq<Seq<char>>) {
    (substitute_vars(c.0, env), c.1.map_values(|a: Seq<char>| substitute_vars(a, env)))
}

/// A command after its alias and variable steps.
pub open spec fn prepared(m: Map<Seq<char>, Seq<char>>, env: Map<Seq<char>, Seq<char>>, c: (Seq<char>, Seq<Seq<char>>)) -> (Seq<char>, Seq<Seq<char>>) {
    vars_step(env, alias_step(m, c))
}

/// A command that can be prepared: its name is not empty, and expanding its
/// aliases ends, unless a backslash turns them off.
pub open spec fn can_prepare(m: Map<Seq<char>, Seq<char>>, c: (Seq<char>, Seq<Seq<char>>)) -> bool {
    &&& c.0.len() > 0
    &&& c.0[0] != '\\' ==> exists|n: nat| chain_ok(m, c.0, n)
}

/// The alias and variable steps of preparing a command to run.
pub fn prepare(cmd: &mut CommandRaw, aliases: &NameTable<String>, env: &NameTable<String>)
    requires
        can_prepare(texts(aliases@), old(cmd)@),
    ensures
        final(cmd)@ == prepared(texts(aliases@), texts(env@), old(cmd)@),
{
    let ghost c0 = cmd@;
    let ghost m = texts(aliases@);
    if cmd.exe.as_str().get_char(0) == '\\' {
        let n = cmd.exe.unicode_len();
        cmd.exe = substring(cmd.exe.as_str(), 1, n);
        proof {
            assert(cmd.exe@ =~= c0.0.skip(1));
        }
    } else {
        crate::builtins::alias::substitute(cmd, aliases);
        proof {
            let n = choose|n: nat| chain_ok(m, c0.0, n);
            assert(chain_ok(m, c0.0, n));
        }
    }
    let ghost c1 = cmd@;
    let _ = crate::builtins::export::substitute(cmd, env);
    proof {
        assert(views(cmd.args@) =~= c1.1.map_values(|a: Seq<char>| substitute_vars(a, texts(env@))));
    }
}

/// Prepares a command to run: its alias step, its variable step, then its
/// command substitutions (given the outputs of the substituted commands, in
/// the order in which they run; see `next_capture`).
pub fn pre_exec(
    cmd: &mut CommandRaw,
    aliases: &NameTable<String>,
    env: &NameTable<String>,
    outputs: &Vec<CommandOutput>,
) -> (res: Result<(), Error>)
    requires
        can_prepare(texts(aliases@), old(cmd)@),
    ensures
        inner_exec_outcome(prepared(texts(aliases@), texts(env@), old(cmd)@), outputs@, res, final(cmd)@),
{
    prepare(cmd, aliases, env);
    substitute_inner_exec(cmd, outputs)
}

/// The commands that the substitutions of a list of words run, in order.
pub open spec fn needed_keys(ws: Seq<Seq<char>>) -> Seq<Seq<char>>
    decreases ws.len(),
{
    if ws.len() == 0 {
        seq![]
    } else {
        word_keys(ws[0]) + needed_keys(ws.drop_first())
    }
}

/// The commands that the substitutions of the word `w` run: its backquoted
/// ones, then its `$(...)` ones.
pub open spec fn word_keys(w: Seq<char>) -> Seq<Seq<char>> {
    capture_keys(regex_found(BACKTICK_PATTERN@, w), 1) + capture_keys(regex_found(SUBSHELL_PATTERN@, w), 2)
}

fn push_span_keys(out: &mut Vec<String>, spans: &Vec<String>, open: usize)
    ensures
        views(final(out)@) == views(old(out)@) + capture_keys(views(spans@), open as nat),
{
    let ghost sv = views(spans@);
    let ghost before = views(out@);
    let mut k: usize = 0;
    proof {
        assert(sv.skip(0) =~= sv);
    }
    while k < spans.len()
        invariant
            sv == views(spans@),
            k <= spans@.len(),
            views(out@) + capture_keys(sv.skip(k as int), open as nat) == before + capture_keys(sv, open as nat),
        decreases spans@.len() - k,
    {
        let span = &spans[k];
        let len = span.unicode_len();
        proof {
            assert(sv.skip(k as int)[0] == span@);
            assert(sv.skip(k as int).drop_first() =~= sv.skip(k + 1));
        }
        if len > open {
            let ghost o = views(out@);
            out.push(substring(span.as_str(), open, len - 1));
            proof {
                assert(views(out@) =~= o.push(capture_key(span@, open as nat)));
                assert(views(out@) + capture_keys(sv.skip(k + 1), open as nat) =~= o + capture_keys(sv.skip(k as int), open as nat));
            }
        }
        k = k + 1;
    }
    proof {
        assert(sv.skip(spans@.len() as int) =~= Seq::<Seq<char>>::empty());
        assert(views(out@) =~= before + capture_keys(sv, open as nat));
    }
}

fn push_keys(out: &mut Vec<String>, w: &String)
    ensures
        views(final(out)@) == views(old(out)@) + word_keys(w@),
{
    let ghost before = views(out@);
    let quoted = regex_matches(BACKTICK_PATTERN, w.as_str());
    push_span_keys(out, &quoted, 1);
    let dollar = regex_matches(SUBSHELL_PATTERN, w.as_str());
    push_span_keys(out, &dollar, 2);
    proof {
        assert(views(out@) =~= before + word_keys(w@));
    }
}

/// The commands that the substitutions in the name and arguments of `cmd`
/// run: what `substitute_inner_exec` looks up.
pub fn captures_needed(cmd: &CommandRaw) -> (res: Vec<String>)
    ensures
        views(res@) == needed_keys(seq![cmd.exe@] + cmd@.1),
{
    let mut out: Vec<String> = Vec::new();
    let ghost ws = seq![cmd.exe@] + cmd@.1;
    push_keys(&mut out, &cmd.exe);
    proof {
        assert(ws.drop_first() =~= cmd@.1);
        assert(views(out@) =~= word_keys(ws[0]));
        assert(cmd@.1.skip(0) =~= cmd@.1);
    }
    let mut i: usize = 0;
    while i < cmd.args.len()
        invariant
            ws == seq![cmd.exe@] + cmd@.1,
            i <= cmd.args@.len(),
            views(out@) + needed_keys(cmd@.1.skip(i as int)) == needed_keys(ws),
        decreases cmd.args@.len() - i,
    {
        let ghost before = views(out@);
        push_keys(&mut out, &cmd.args[i]);
        proof {
            assert(cmd@.1.skip(i as int)[0] == cmd.args@[i as int]@);
            assert(cmd@.1.skip(i as int).drop_first() =~= cmd@.1.skip(i + 1));
            assert(views(out@) + needed_keys(cmd@.1.skip(i + 1)) =~= before + needed_keys(cmd@.1.skip(i as int)));
        }
        i = i + 1;
    }
    proof {
        assert(cmd@.1.skip(cmd@.1.len() as int) =~= Seq::<Seq<char>>::empty());
        assert(views(out@) + Seq::<Seq<char>>::empty() =~= views(out@));
    }
    out
}

/// The command to run next for the substitutions whose commands are `keys`
/// (in the order in which they run), given the outputs `outs` of the
/// commands run so far: none once one of them has failed (the substitution
/// stops there) or once every command has run.
pub open spec fn pending(keys: Seq<Seq<char>>, outs: Seq<CommandOutput>) -> Option<Seq<char>> {
    if exists|i: int| 0 <= i < outs.len() && is_failure(#[trigger] outs[i]) {
        None
    } else if outs.len() < keys.len() {
        Some(keys[outs.len() as int])
    } else {
        None
    }
}

/// The command that a substitution of `cmd` runs next, given the outputs of
/// those run so far (see `pending`): the substitutions run one after the
/// other, word by word, each match once, and they stop at the first failure.
pub fn next_capture(cmd: &CommandRaw, outputs: &Vec<CommandOutput>) -> (res: Option<String>)
    ensures
        res matches Some(k) ==> pending(needed_keys(seq![cmd.exe@] + cmd@.1), outputs@) == Some(k@),
        res is None ==> pending(needed_keys(seq![cmd.exe@] + cmd@.1), outputs@) is None,
{
    let mut i: usize = 0;
    while i < outputs.len()
        invariant
            i <= outputs@.len(),
            forall|j: int| 0 <= j < i ==> !is_failure(#[trigger] outputs@[j]),
        decreases outputs@.len() - i,
    {
        match &outputs[i] {
            CommandOutput::NotUtf8 => {
                assert(is_failure(outputs@[i as int]));
                return None;
            },
            CommandOutput::Failed(_) => {
                assert(is_failure(outputs@[i as int]));
                return None;
            },
            _ => {},
        }
        i = i + 1;
    }
    let mut keys = captures_needed(cmd);
    if outputs.len() < keys.len() {
        let k = keys.swap_remove(outputs.len());
        Some(k)
    } else {
        None
    }
}

} // verus!
