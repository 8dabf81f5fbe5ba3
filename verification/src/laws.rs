use vstd::prelude::*;
use crate::builtins::alias::{chain_ok, expand, first_word, lemma_split_on_len};
use crate::builtins::export::{export_value, exported, var_value};
use crate::exec::{Event, Walk, run_cmd, run_list, run_program, wait_for, true_command, lemma_size_positive, size, size_list, lemma_size_replace_left};
use crate::exec::substitute::{BACKTICK_PATTERN, SUBSHELL_PATTERN, CommandOutput, apply_captures, capture_keys, captured, expand_words, inner_exec_words, needed_keys, output_text, word_keys};
use crate::text::replace_all;
use crate::outside::regex_found;
use crate::parsing::ast::{SpecCommand, spec_replace_left, can_replace_left};
use crate::rsh::comment_stripped;
use crate::text::{first_index, join, lemma_join_split, split_on};
use crate::exec::{runnable, well_formed};
use crate::parsing::lexer::{Token, lemma_token_at, next_start, skip_blank, token_at};
use crate::parsing::parser::{parse_ast, parse_command, parse_line, parse_operand};

verus! {

/// `a && b`: when `a` exits with a code other than 0, `b` is not run and the
/// result is `a`'s program.
pub proof fn law_and_stops_on_failure(l: SpecCommand, r: SpecCommand, ev: Seq<Event>, k: int, p: int, k1: int, code: i32)
    requires
        run_cmd(l, ev, k) == Walk::Val(p, k1),
        0 <= k1 < ev.len(),
        ev[k1] == Event::Exited(code),
        code != 0,
    ensures
        run_cmd(SpecCommand::And(Box::new(l), Box::new(r)), ev, k) == Walk::Val(p, k1 + 1),
{
}

/// `a && b`: when `a` exits with 0, `b` runs next.
pub proof fn law_and_continues_on_success(l: SpecCommand, r: SpecCommand, ev: Seq<Event>, k: int, p: int, k1: int)
    requires
        run_cmd(l, ev, k) == Walk::Val(p, k1),
        0 <= k1 < ev.len(),
        ev[k1] == Event::Exited(0),
    ensures
        run_cmd(SpecCommand::And(Box::new(l), Box::new(r)), ev, k) == run_cmd(r, ev, k1 + 1),
{
}

/// `a || b`: when `a` exits with a code other than 0, `b` runs next.
pub proof fn law_or_runs_right_on_failure(l: SpecCommand, r: SpecCommand, ev: Seq<Event>, k: int, p: int, k1: int, code: i32)
    requires
        run_cmd(l, ev, k) == Walk::Val(p, k1),
        0 <= k1 < ev.len(),
        ev[k1] == Event::Exited(code),
        code != 0,
    ensures
        run_cmd(SpecCommand::Or(Box::new(l), Box::new(r)), ev, k) == run_cmd(r, ev, k1 + 1),
{
}

/// `a || b` with `b` a simple command: when `a` exits with 0, `b` is not run
/// and the result is `a`'s program.
pub proof fn law_or_skips_simple_right(l: SpecCommand, exe: Seq<char>, args: Seq<Seq<char>>, ev: Seq<Event>, k: int, p: int, k1: int)
    requires
        run_cmd(l, ev, k) == Walk::Val(p, k1),
        0 <= k1 < ev.len(),
        ev[k1] == Event::Exited(0),
    ensures
        run_cmd(SpecCommand::Or(Box::new(l), Box::new(SpecCommand::Raw(exe, args))), ev, k) == Walk::Val(p, k1 + 1),
{
}

/// `a || b && c`: when `a` exits with 0, `b` is replaced by `true` and `c`
/// still runs after it.
pub proof fn law_or_then_and(l: SpecCommand, b: SpecCommand, c: SpecCommand, ev: Seq<Event>, k: int, p: int, k1: int)
    requires
        run_cmd(l, ev, k) == Walk::Val(p, k1),
        0 <= k1 < ev.len(),
        ev[k1] == Event::Exited(0),
    ensures
        run_cmd(SpecCommand::Or(Box::new(l), Box::new(SpecCommand::And(Box::new(b), Box::new(c)))), ev, k)
            == run_cmd(SpecCommand::And(Box::new(true_command()), Box::new(c)), ev, k1 + 1),
{
    let r = SpecCommand::And(Box::new(b), Box::new(c));
    assert(can_replace_left(r));
    assert(spec_replace_left(r, true_command()) == SpecCommand::And(Box::new(true_command()), Box::new(c)));
}

/// `a; b`: `b` runs after `a` whatever `a`'s exit code, and the list's
/// result is `b`'s.
pub proof fn law_sequence(a: SpecCommand, b: SpecCommand, ev: Seq<Event>, k: int, p: int, k1: int)
    requires
        run_cmd(a, ev, k) == Walk::Val(p, k1),
    ensures
        run_list(seq![a, b], ev, k) == run_cmd(b, ev, k1),
{
    assert(seq![a, b].subrange(1, 2) =~= seq![b]);
    assert(run_list(seq![b], ev, k1) == run_cmd(b, ev, k1));
}

/// A walk that has ended (finished, failed, or found a pipe it cannot run)
/// ends the same way when more answers are given: answers are never asked for
/// again, and later ones do not change what earlier ones decided.
pub proof fn law_answers_stable(c: SpecCommand, ev: Seq<Event>, more: Seq<Event>, k: int)
    requires
        0 <= k,
        !(run_cmd(c, ev, k) is Need),
    ensures
        run_cmd(c, ev + more, k) == run_cmd(c, ev, k),
    decreases size(c), 0int,
{
    let ev2 = ev + more;
    match c {
        SpecCommand::Raw(_, _) => {},
        SpecCommand::Pipe(l, r) => {
            if let SpecCommand::Raw(_, _) = *l {
                if !(*r is Raw) {
                    law_answers_stable(*r, ev, more, k);
                }
            }
        },
        SpecCommand::Parenthesis(cs) => {
            law_answers_stable_list(cs, ev, more, k);
        },
        SpecCommand::And(l, r) => {
            if !(run_cmd(*l, ev, k) is Need) {
                law_answers_stable(*l, ev, more, k);
            }
            if let Walk::Val(p, k1) = run_cmd(*l, ev, k) {
                lemma_val_after(*l, ev, k);
                if k1 < ev.len() {
                    assert(ev2[k1] == ev[k1]);
                    if let Event::Exited(code) = ev[k1] {
                        if code == 0 {
                            law_answers_stable(*r, ev, more, k1 + 1);
                        }
                    }
                }
            }
        },
        SpecCommand::Or(l, r) => {
            if !(run_cmd(*l, ev, k) is Need) {
                law_answers_stable(*l, ev, more, k);
            }
            if let Walk::Val(p, k1) = run_cmd(*l, ev, k) {
                lemma_val_after(*l, ev, k);
                if k1 < ev.len() {
                    assert(ev2[k1] == ev[k1]);
                    if let Event::Exited(code) = ev[k1] {
                        if code == 0 {
                            if can_replace_left(*r) {
                                let r2 = spec_replace_left(*r, true_command());
                                lemma_size_replace_left(*r);
                                if !(r2 is Raw) {
                                    law_answers_stable(r2, ev, more, k1 + 1);
                                }
                            }
                        } else {
                            law_answers_stable(*r, ev, more, k1 + 1);
                        }
                    }
                }
            }
        },
    }
}

/// The list form of `law_answers_stable`.
pub proof fn law_answers_stable_list(cs: Seq<SpecCommand>, ev: Seq<Event>, more: Seq<Event>, k: int)
    requires
        0 <= k,
        !(run_list(cs, ev, k) is Need),
    ensures
        run_list(cs, ev + more, k) == run_list(cs, ev, k),
    decreases size_list(cs), 1int,
{
    if cs.len() > 0 {
        if !(run_cmd(cs[0], ev, k) is Need) {
            law_answers_stable(cs[0], ev, more, k);
        }
        if cs.len() > 1 {
            if let Walk::Val(_, k1) = run_cmd(cs[0], ev, k) {
                lemma_val_after(cs[0], ev, k);
                lemma_size_positive(cs[0]);
                law_answers_stable_list(cs.subrange(1, cs.len() as int), ev, more, k1);
            }
        }
    }
}

/// A finished walk's program and next answer come at `k` or later, the
/// program before the next answer; a failure is at an answer at `k` or later.
pub proof fn lemma_val_after(c: SpecCommand, ev: Seq<Event>, k: int)
    requires
        0 <= k,
    ensures
        run_cmd(c, ev, k) matches Walk::Val(p, k1) ==> k <= p < k1,
        run_cmd(c, ev, k) matches Walk::Fail(f) ==> k <= f,
    decreases size(c), 0int,
{
    match c {
        SpecCommand::Raw(_, _) => {},
        SpecCommand::Pipe(l, r) => {
            lemma_val_after(*r, ev, k);
        },
        SpecCommand::Parenthesis(cs) => {
            lemma_val_after_list(cs, ev, k);
        },
        SpecCommand::And(l, r) => {
            lemma_val_after(*l, ev, k);
            if let Walk::Val(p, k1) = run_cmd(*l, ev, k) {
                lemma_val_after(*r, ev, k1 + 1);
            }
        },
        SpecCommand::Or(l, r) => {
            lemma_val_after(*l, ev, k);
            if let Walk::Val(p, k1) = run_cmd(*l, ev, k) {
                lemma_val_after(*r, ev, k1 + 1);
                if can_replace_left(*r) {
                    lemma_size_replace_left(*r);
                    lemma_val_after(spec_replace_left(*r, true_command()), ev, k1 + 1);
                }
            }
        },
    }
}

/// The list form of `lemma_val_after`.
pub proof fn lemma_val_after_list(cs: Seq<SpecCommand>, ev: Seq<Event>, k: int)
    requires
        0 <= k,
    ensures
        run_list(cs, ev, k) matches Walk::Val(p, k1) ==> k <= p < k1,
        run_list(cs, ev, k) matches Walk::Fail(f) ==> k <= f,
    decreases size_list(cs), 1int,
{
    if cs.len() > 0 {
        lemma_val_after(cs[0], ev, k);
        if cs.len() > 1 {
            if let Walk::Val(_, k1) = run_cmd(cs[0], ev, k) {
                lemma_size_positive(cs[0]);
                lemma_val_after_list(cs.subrange(1, cs.len() as int), ev, k1);
            }
        }
    }
}

/// A word without command substitutions stays one word, as it is.
pub proof fn law_plain_word_kept(s: Seq<char>, outs: Seq<CommandOutput>, at: nat)
    requires
        regex_found(BACKTICK_PATTERN@, s).len() == 0,
        regex_found(SUBSHELL_PATTERN@, s).len() == 0,
    ensures
        inner_exec_words(s, outs, at) == Ok::<(Seq<Seq<char>>, nat), crate::exec::substitute::CaptureFailure>((seq![s], at)),
{
}

/// Joining the words of a substituted word with spaces gives the substituted
/// text back (what the prompt shows).
pub proof fn law_words_join(s: Seq<char>, outs: Seq<CommandOutput>, at: nat)
    ensures
        inner_exec_words(s, outs, at) matches Ok((ws, _)) ==> captured(s, outs, at) matches Ok((r, _)) && join(ws, seq![' ']) == r,
{
    if let Ok((r, _)) = captured(s, outs, at) {
        lemma_join_split(r, ' ');
    }
}

/// A name that is no alias is kept, with its arguments.
pub proof fn law_unaliased_name_kept(m: Map<Seq<char>, Seq<char>>, exe: Seq<char>, args: Seq<Seq<char>>, n: nat)
    requires
        !m.dom().contains(exe),
    ensures
        chain_ok(m, exe, n),
        expand(m, exe, args, n) == (exe, args),
{
}

/// After `alias name value`, a command named `name` runs the first word of
/// the value, with the value's other words before its own arguments (when
/// that first word is no alias itself).
pub proof fn law_alias_read_after_write(m: Map<Seq<char>, Seq<char>>, name: Seq<char>, value: Seq<char>, args: Seq<Seq<char>>)
    requires
        !m.insert(name, value).dom().contains(first_word(value)),
    ensures
        chain_ok(m.insert(name, value), name, 1),
        expand(m.insert(name, value), name, args, 1) == (first_word(value), split_on(value, ' ').drop_first() + args),
{
    lemma_split_on_len(value, ' ');
    let m2 = m.insert(name, value);
    assert(m2[name] == value);
    assert(chain_ok(m2, first_word(value), 0));
    let parts = split_on(value, ' ');
    assert(expand(m2, parts[0], parts.drop_first() + args, 0) == (parts[0], parts.drop_first() + args));
}

/// After the alias `name` is removed, a command named `name` is kept as it is.
pub proof fn law_unalias(m: Map<Seq<char>, Seq<char>>, name: Seq<char>, args: Seq<Seq<char>>, n: nat)
    ensures
        expand(m.remove(name), name, args, n) == (name, args),
{
}

/// After `export name value` the variable reads as the value, and after it
/// is unset it reads as empty.
pub proof fn law_var_read_after_write(m: Map<Seq<char>, Seq<char>>, name: Seq<char>, value: Seq<char>)
    requires
        name.len() > 0,
    ensures
        var_value(m.insert(name, value), name) == value,
        var_value(m.remove(name), name) == Seq::<char>::empty(),
{
}

/// After `export name value`, `name` reads as the value (without its quotes)
/// and every other variable as before; after `export name`, `name` reads as
/// empty and every other variable as before.
pub proof fn law_export_read_after_write(env: Map<Seq<char>, Seq<char>>, name: Seq<char>, value: Seq<char>, other: Seq<char>)
    requires
        name.len() > 0,
        other != name,
    ensures
        var_value(exported(env, seq![name, value]), name) == export_value(value),
        var_value(exported(env, seq![name, value]), other) == var_value(env, other),
        var_value(exported(env, seq![name]), name) == Seq::<char>::empty(),
        var_value(exported(env, seq![name]), other) == var_value(env, other),
{
}

/// A line without `#` is kept as it is.
pub proof fn law_no_comment_kept(line: Seq<char>)
    requires
        !line.contains('#'),
    ensures
        comment_stripped(line) == line,
{
    crate::text::lemma_first_index(line, '#');
    if first_index(line, '#') < line.len() {
        assert(line[first_index(line, '#')] == '#');
    }
}

proof fn lemma_operand_well_formed(s: Seq<char>, i: int)
    ensures
        parse_operand(s, i) matches Ok((c, _)) ==> well_formed(c),
    decreases s.len() - i, 0int,
{
    if 0 <= i <= s.len() && token_at(s, i).0 == Token::ParensOpen {
        lemma_token_at(s, i);
        let n = next_start(s, i);
        lemma_ast_well_formed(s, n);
        if let Ok((cs, j)) = parse_ast(s, n) {
            if token_at(s, j).0 == Token::ParensClose {
                assert(cs.len() > 0);
                assert(runnable(cs));
            }
        }
    }
}

proof fn lemma_command_well_formed(s: Seq<char>, i: int)
    ensures
        parse_command(s, i) matches Ok((c, _)) ==> well_formed(c),
    decreases s.len() - i, 1int,
{
    lemma_operand_well_formed(s, i);
    if let Ok((l, j)) = parse_operand(s, i) {
        if !(i < 0 || j <= i || j > s.len()) {
            lemma_token_at(s, j);
            let t = token_at(s, j).0;
            if t == Token::DoubleAnd || t == Token::DoublePipe || t == Token::Pipe {
                lemma_command_well_formed(s, next_start(s, j));
            }
        }
    }
}

proof fn lemma_ast_well_formed(s: Seq<char>, i: int)
    ensures
        parse_ast(s, i) matches Ok((cs, j)) ==> (forall|k: int| 0 <= k < cs.len() ==> well_formed(#[trigger] cs[k])) && (cs.len()
            == 0 ==> token_at(s, j).0 == Token::End),
    decreases s.len() - i, 2int,
{
    if 0 <= i <= s.len() && token_at(s, i).0 != Token::End {
        lemma_command_well_formed(s, i);
        if let Ok((c, j)) = parse_command(s, i) {
            if !(j <= i || j > s.len()) && token_at(s, j).0 == Token::SemiColon {
                lemma_token_at(s, j);
                let n = next_start(s, j);
                lemma_ast_well_formed(s, n);
                if let Ok((cs, k)) = parse_ast(s, n) {
                    assert forall|q: int| 0 <= q < (seq![c] + cs).len() implies well_formed(#[trigger] (seq![c] + cs)[q]) by {
                        if q > 0 {
                            assert((seq![c] + cs)[q] == cs[q - 1]);
                        }
                    }
                }
            }
        }
    }
}

/// Every command line that parses can be run, unless it holds no command at
/// all (a line of blanks): each parenthesised list in it holds a command.
pub proof fn law_parsed_lines_run(s: Seq<char>)
    ensures
        parse_line(s) matches Ok(Some(cs)) ==> (cs.len() > 0 ==> runnable(cs)),
{
    lemma_ast_well_formed(s, skip_blank(s, 0));
}

} // verus!


verus! {

proof fn lemma_spans_use_their_outputs(acc: Seq<char>, spans: Seq<Seq<char>>, outs: Seq<CommandOutput>, at: nat, open: nat)
    requires
        at + capture_keys(spans, open).len() <= outs.len(),
    ensures
        apply_captures(acc, spans, outs, at, open) matches Ok((_, a)) ==> a == at + capture_keys(spans, open).len(),
    decreases spans.len(),
{
    if spans.len() > 0 {
        let span = spans[0];
        let rest = spans.drop_first();
        if span.len() < open + 1 {
            lemma_spans_use_their_outputs(acc, rest, outs, at, open);
        } else {
            match outs[at as int] {
                CommandOutput::NotRun => lemma_spans_use_their_outputs(replace_all(acc, span, seq![]), rest, outs, at + 1, open),
                CommandOutput::Text(t) => lemma_spans_use_their_outputs(
                    replace_all(acc, span, output_text(t@)),
                    rest,
                    outs,
                    at + 1,
                    open,
                ),
                _ => {},
            }
        }
    }
}

/// Substituting the commands of a list of words uses one output for each
/// command that `needed_keys` lists, in that order: with enough outputs, the
/// words take exactly as many as they have substitutions, so the `i`-th
/// output given is the one of the `i`-th command listed.
pub proof fn law_outputs_follow_keys(ws: Seq<Seq<char>>, outs: Seq<CommandOutput>, at: nat)
    requires
        at + needed_keys(ws).len() <= outs.len(),
    ensures
        expand_words(ws, outs, at) matches Ok((_, b)) ==> b == at + needed_keys(ws).len(),
    decreases ws.len(),
{
    if ws.len() > 0 {
        let w = ws[0];
        let k1 = capture_keys(regex_found(BACKTICK_PATTERN@, w), 1);
        let k2 = capture_keys(regex_found(SUBSHELL_PATTERN@, w), 2);
        lemma_spans_use_their_outputs(w, regex_found(BACKTICK_PATTERN@, w), outs, at, 1);
        if let Ok((r1, a1)) = apply_captures(w, regex_found(BACKTICK_PATTERN@, w), outs, at, 1) {
            lemma_spans_use_their_outputs(r1, regex_found(SUBSHELL_PATTERN@, w), outs, a1, 2);
        }
        if let Ok((_, a)) = inner_exec_words(w, outs, at) {
            assert(a == at + word_keys(w).len());
            law_outputs_follow_keys(ws.drop_first(), outs, a);
        }
    }
}

} // verus!

verus! {

/// A character of a plain word: an ASCII letter or digit, or `-`.
pub open spec fn plain_char(c: char) -> bool {
    ('0' <= c && c <= '9') || ('a' <= c && c <= 'z') || ('A' <= c && c <= 'Z') || c == '-'
}

/// A plain word: one or more plain characters.
pub open spec fn plain_word(w: Seq<char>) -> bool {
    w.len() > 0 && forall|i: int| 0 <= i < w.len() ==> plain_char(#[trigger] w[i])
}

proof fn lemma_text_end_plain(s: Seq<char>, i: int, e: int)
    requires
        0 <= i <= e <= s.len(),
        forall|j: int| i <= j < e ==> plain_char(#[trigger] s[j]),
        e == s.len() || s[e] == ' ',
    ensures
        crate::parsing::lexer::text_end(s, i) == e,
    decreases e - i,
{
    if i < e {
        lemma_text_end_plain(s, i + 1, e);
    }
}

/// A plain word followed by a space or by the end of the line is one word
/// token, which covers the whole word.
pub proof fn law_plain_word_token(s: Seq<char>, i: int, e: int)
    requires
        0 <= i < e <= s.len(),
        forall|j: int| i <= j < e ==> plain_char(#[trigger] s[j]),
        e == s.len() || s[e] == ' ',
    ensures
        token_at(s, i) == (Token::Text, e),
{
    lemma_text_end_plain(s, i, e);
    assert(plain_char(s[i]));
    if i + 1 < s.len() {
        if i + 1 < e {
            assert(plain_char(s[i + 1]));
        }
    }
}

proof fn lemma_join_len(ws: Seq<Seq<char>>)
    requires
        ws.len() >= 1,
    ensures
        join(ws, seq![' ']).len() >= ws[0].len(),
        ws.len() == 1 ==> join(ws, seq![' ']) == ws[0],
        ws.len() > 1 ==> join(ws, seq![' ']) == ws[0] + seq![' '] + join(ws.drop_first(), seq![' ']),
{
}

proof fn lemma_words_of_join(s: Seq<char>, i: int, ws: Seq<Seq<char>>)
    requires
        ws.len() >= 1,
        forall|k: int| 0 <= k < ws.len() ==> plain_word(#[trigger] ws[k]),
        0 <= i,
        i + join(ws, seq![' ']).len() == s.len(),
        s.subrange(i, s.len() as int) == join(ws, seq![' ']),
    ensures
        crate::parsing::parser::words_from(s, i) == (ws, s.len() as int),
    decreases ws.len(),
{
    let w0 = ws[0];
    let e = i + w0.len();
    let j = join(ws, seq![' ']);
    assert(plain_word(ws[0]));
    lemma_join_len(ws);
    assert forall|q: int| i <= q < e implies plain_char(#[trigger] s[q]) by {
        assert(s[q] == s.subrange(i, s.len() as int)[q - i]);
        assert(j[q - i] == w0[q - i]);
    }
    if ws.len() > 1 {
        assert(s[e] == s.subrange(i, s.len() as int)[e - i]);
        assert(j[e - i] == ' ');
    }
    law_plain_word_token(s, i, e);
    assert(s.subrange(i, e) =~= w0);
    assert(!crate::outside::has_backslash(w0)) by {
        if w0.contains('\\') {
            let q = choose|q: int| 0 <= q < w0.len() && w0[q] == '\\';
            assert(plain_char(w0[q]));
        }
    }
    lemma_token_at(s, i);
    if ws.len() == 1 {
        assert(e == s.len());
        assert(skip_blank(s, e) == e);
        assert(crate::parsing::parser::words_from(s, e) == (Seq::<Seq<char>>::empty(), e));
        assert(seq![w0] + Seq::<Seq<char>>::empty() =~= ws);
    } else {
        let rest = ws.drop_first();
        assert(plain_word(rest[0]));
        assert(forall|k: int| 0 <= k < rest.len() ==> plain_word(#[trigger] rest[k])) by {
            assert forall|k: int| 0 <= k < rest.len() implies plain_word(#[trigger] rest[k]) by {
                assert(rest[k] == ws[k + 1]);
            }
        }
        let jr = join(rest, seq![' ']);
        lemma_join_len(rest);
        assert(s.subrange(e + 1, s.len() as int) =~= jr) by {
            assert forall|q: int| 0 <= q < jr.len() implies s.subrange(e + 1, s.len() as int)[q] == jr[q] by {
                assert(s[e + 1 + q] == s.subrange(i, s.len() as int)[w0.len() + 1 + q]);
                assert(j[w0.len() + 1 + q] == jr[q]);
            }
        }
        assert(s[e + 1] == jr[0]);
        assert(jr[0] == rest[0][0]);
        assert(plain_char(rest[0][0]));
        assert(skip_blank(s, e + 1) == e + 1);
        assert(skip_blank(s, e) == e + 1);
        lemma_words_of_join(s, e + 1, rest);
        assert(seq![w0] + rest =~= ws);
    }
}

/// A line of plain words (letters, digits and `-`) separated by single
/// spaces is one simple command: its name is the first word and its
/// arguments are the other words, all exactly as written.
pub proof fn law_plain_words_parse(ws: Seq<Seq<char>>)
    requires
        ws.len() >= 1,
        forall|k: int| 0 <= k < ws.len() ==> plain_word(#[trigger] ws[k]),
    ensures
        parse_line(join(ws, seq![' '])) == Ok::<Option<Seq<SpecCommand>>, crate::parsing::parser::ParseError>(
            Some(seq![SpecCommand::Raw(ws[0], ws.drop_first())]),
        ),
{
    let s = join(ws, seq![' ']);
    lemma_join_len(ws);
    assert(plain_word(ws[0]));
    assert(s.subrange(0, s.len() as int) =~= s);
    assert(s[0] == ws[0][0]);
    assert(plain_char(s[0]));
    lemma_words_of_join(s, 0, ws);
    let n = s.len() as int;
    assert(token_at(s, 0).0 == Token::Text) by {
        lemma_words_of_join(s, 0, ws);
        crate::parsing::parser::lemma_words_from(s, 0);
    }
    assert(crate::parsing::parser::parse_raw(s, 0) == Ok::<(Seq<char>, Seq<Seq<char>>, int), crate::parsing::parser::ParseError>((ws[0], ws.drop_first(), n)));
    assert(parse_operand(s, 0) == Ok::<(SpecCommand, int), crate::parsing::parser::ParseError>((SpecCommand::Raw(ws[0], ws.drop_first()), n)));
    assert(token_at(s, n).0 == Token::End);
    assert(parse_command(s, 0) == Ok::<(SpecCommand, int), crate::parsing::parser::ParseError>((SpecCommand::Raw(ws[0], ws.drop_first()), n)));
    assert(parse_ast(s, 0) == Ok::<(Seq<SpecCommand>, int), crate::parsing::parser::ParseError>((seq![SpecCommand::Raw(ws[0], ws.drop_first())], n)));
}

} // verus!

verus! {

/// A command with one quoted argument: the argument is the text between the
/// quotes, decoded as a plain word is, so that a quoted word without
/// backslashes, spaces or quotes gives the same command as the word
/// unquoted.
#[verifier::rlimit(30)]
pub proof fn law_quoted_argument(w: Seq<char>, v: Seq<char>)
    requires
        plain_word(w),
        !v.contains('"'),
    ensures
        parse_line(w + seq![' ', '"'] + v + seq!['"']) == Ok::<Option<Seq<SpecCommand>>, crate::parsing::parser::ParseError>(
            Some(seq![SpecCommand::Raw(w, seq![crate::outside::decoded(v)])]),
        ),
        plain_word(v) ==> parse_line(w + seq![' ', '"'] + v + seq!['"']) == parse_line(join(seq![w, v], seq![' '])),
{
    let s = w + seq![' ', '"'] + v + seq!['"'];
    let e = w.len() as int;
    let n = s.len() as int;
    assert(n == e + 2 + v.len() + 1);
    assert forall|q: int| 0 <= q < e implies plain_char(#[trigger] s[q]) by {
        assert(s[q] == w[q]);
    }
    assert(s[e] == ' ');
    assert(s[e + 1] == '"');
    assert(s[n - 1] == '"');
    law_plain_word_token(s, 0, e);
    assert(s.subrange(0, e) =~= w);
    assert(!crate::outside::has_backslash(w)) by {
        if w.contains('\\') {
            let q = choose|q: int| 0 <= q < w.len() && w[q] == '\\';
            assert(plain_char(w[q]));
        }
    }
    assert(plain_char(s[0]));
    assert(skip_blank(s, 0) == 0);
    assert(skip_blank(s, e + 1) == e + 1);
    assert(skip_blank(s, e) == e + 1);
    crate::parsing::lexer::lemma_find_from(s, e + 2, '"');
    let f = crate::parsing::lexer::find_from(s, e + 2, '"');
    assert(f == n - 1) by {
        if f < n - 1 {
            assert(s[f] == v[f - e - 2]);
            assert(v.contains(v[f - e - 2]));
        }
    }
    assert(token_at(s, e + 1) == (Token::String, n));
    assert(s.subrange(e + 1, n).subrange(1, s.subrange(e + 1, n).len() - 1) =~= v);
    assert(skip_blank(s, n) == n);
    assert(token_at(s, n).0 == Token::End);
    assert(crate::parsing::parser::words_from(s, n) == (Seq::<Seq<char>>::empty(), n));
    assert(crate::parsing::parser::words_from(s, e + 1).0 =~= seq![crate::outside::decoded(v)]);
    assert(crate::parsing::parser::words_from(s, e + 1).1 == n);
    assert(crate::parsing::parser::words_from(s, 0).0 =~= seq![w, crate::outside::decoded(v)]);
    assert(crate::parsing::parser::words_from(s, 0).1 == n);
    let ws = seq![w, crate::outside::decoded(v)];
    assert(ws.drop_first() =~= seq![crate::outside::decoded(v)]);
    assert(crate::parsing::parser::parse_raw(s, 0) == Ok::<(Seq<char>, Seq<Seq<char>>, int), crate::parsing::parser::ParseError>((w, seq![crate::outside::decoded(v)], n)));
    assert(parse_operand(s, 0) == Ok::<(SpecCommand, int), crate::parsing::parser::ParseError>((SpecCommand::Raw(w, seq![crate::outside::decoded(v)]), n)));
    assert(parse_command(s, 0) == Ok::<(SpecCommand, int), crate::parsing::parser::ParseError>((SpecCommand::Raw(w, seq![crate::outside::decoded(v)]), n)));
    assert(parse_ast(s, 0) == Ok::<(Seq<SpecCommand>, int), crate::parsing::parser::ParseError>((seq![SpecCommand::Raw(w, seq![crate::outside::decoded(v)])], n)));
    if plain_word(v) {
        assert(!crate::outside::has_backslash(v)) by {
            if v.contains('\\') {
                let q = choose|q: int| 0 <= q < v.len() && v[q] == '\\';
                assert(plain_char(v[q]));
            }
        }
        let two = seq![w, v];
        assert(forall|k: int| 0 <= k < two.len() ==> plain_word(#[trigger] two[k])) by {
            assert forall|k: int| 0 <= k < two.len() implies plain_word(#[trigger] two[k]) by {
                if k == 0 {
                    assert(two[k] == w);
                } else {
                    assert(two[k] == v);
                }
            }
        }
        law_plain_words_parse(two);
        assert(two.drop_first() =~= seq![v]);
    }
}

} // verus!

verus! {

/// `a || b || c`: when `a` exits with 0, `b` is not run: it is replaced by
/// `true`, and only `c` is left to decide on.
pub proof fn law_or_chain_skips_middle(l: SpecCommand, b: SpecCommand, c: SpecCommand, ev: Seq<Event>, k: int, p: int, k1: int)
    requires
        run_cmd(l, ev, k) == Walk::Val(p, k1),
        0 <= k1 < ev.len(),
        ev[k1] == Event::Exited(0),
    ensures
        run_cmd(SpecCommand::Or(Box::new(l), Box::new(SpecCommand::Or(Box::new(b), Box::new(c)))), ev, k)
            == run_cmd(SpecCommand::Or(Box::new(true_command()), Box::new(c)), ev, k1 + 1),
{
    let r = SpecCommand::Or(Box::new(b), Box::new(c));
    assert(can_replace_left(r));
    assert(spec_replace_left(r, true_command()) == SpecCommand::Or(Box::new(true_command()), Box::new(c)));
}

/// Replacing the left-most part of `&&`, `||` and `|` puts the new command
/// in place of the left operand and keeps the right one.
pub proof fn law_replace_left_operand(l: SpecCommand, r: SpecCommand, n: SpecCommand)
    ensures
        spec_replace_left(SpecCommand::And(Box::new(l), Box::new(r)), n) == SpecCommand::And(Box::new(n), Box::new(r)),
        spec_replace_left(SpecCommand::Or(Box::new(l), Box::new(r)), n) == SpecCommand::Or(Box::new(n), Box::new(r)),
        spec_replace_left(SpecCommand::Pipe(Box::new(l), Box::new(r)), n) == SpecCommand::Pipe(Box::new(n), Box::new(r)),
{
}

/// A pipe of two simple commands asks to pipe exactly those two commands,
/// with all their arguments, and is done once that has been answered.
pub proof fn law_pipe_asks_for_both_commands(
    a: Seq<char>,
    x: Seq<Seq<char>>,
    b: Seq<char>,
    y: Seq<Seq<char>>,
    ev: Seq<Event>,
    k: int,
)
    requires
        0 <= k,
    ensures
        k >= ev.len() ==> run_cmd(
            SpecCommand::Pipe(Box::new(SpecCommand::Raw(a, x)), Box::new(SpecCommand::Raw(b, y))),
            ev,
            k,
        ) == Walk::Need(crate::exec::SpecAction::Pipe((a, x), (b, y))),
        k < ev.len() && ev[k] == Event::Started ==> run_cmd(
            SpecCommand::Pipe(Box::new(SpecCommand::Raw(a, x)), Box::new(SpecCommand::Raw(b, y))),
            ev,
            k,
        ) == Walk::Val(k, k + 1),
        crate::exec::next_step(
            Some(seq![SpecCommand::Pipe(Box::new(SpecCommand::Raw(a, x)), Box::new(SpecCommand::Raw(b, y)))]),
            seq![],
        ) == crate::exec::SpecStep::Perform(crate::exec::SpecAction::Pipe((a, x), (b, y))),
{
    let c = SpecCommand::Pipe(Box::new(SpecCommand::Raw(a, x)), Box::new(SpecCommand::Raw(b, y)));
    assert(seq![c][0] == c);
    assert(run_list(seq![c], seq![], 0) == run_cmd(c, seq![], 0));
}

/// The builtin that a plan picks for a name is the one the builtin table
/// (`get_builtins`) gives that name, and a name outside the table is run as
/// a program: `cd`, `alias` and `export` each are their own builtin.
pub proof fn law_builtins_are_the_table(name: Seq<char>)
    ensures
        crate::exec::runnable::builtin_named(name) == (if crate::builtins::builtin_table().dom().contains(name) {
            Some(crate::builtins::builtin_table()[name])
        } else {
            None::<crate::builtins::Builtin>
        }),
        crate::exec::runnable::builtin_named("cd"@) == Some(crate::builtins::Builtin::Cd),
        crate::exec::runnable::builtin_named("alias"@) == Some(crate::builtins::Builtin::Alias),
        crate::exec::runnable::builtin_named("export"@) == Some(crate::builtins::Builtin::Export),
{
    reveal_strlit("cd");
    reveal_strlit("alias");
    reveal_strlit("export");
    assert("cd"@.len() == 2);
    assert("alias"@.len() == 5);
    assert("export"@.len() == 6);
    assert("cd"@ != "alias"@);
    assert("cd"@ != "export"@);
    assert("alias"@ != "export"@);
}

} // verus!
