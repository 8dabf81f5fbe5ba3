use vstd::prelude::*;
use crate::error::Error;
use crate::outside::{decoded, unescape_text};
use crate::parsing::ast::{Ast, Command, CommandRaw, SpecCommand, spec_commands, lemma_spec_commands};
use crate::parsing::lexer::{Lexer, Token, token_at, next_start, skip_blank, lemma_token_at};
use crate::text::{owned, substring, views};

verus! {

/// Why a command line does not parse.
pub enum ParseError {
    ExpectedCommand,
    ExpectedCloseParen,
}

/// The message that comes with each parse error.
pub open spec fn parse_error_message(e: ParseError) -> Seq<char> {
    match e {
        ParseError::ExpectedCommand => "Expected command"@,
        ParseError::ExpectedCloseParen => "Expected close parenthesis"@,
    }
}

/// `err` is the error that reports `e`.
pub open spec fn reports(err: Error, e: ParseError) -> bool {
    err matches Error::Parser(m) && m@ == parse_error_message(e)
}

/// Tokens that make a word of a simple command.
pub open spec fn is_word(t: Token) -> bool {
    t == Token::Text || t == Token::String || t == Token::SubExec
}

/// The word that a token stands for: a quoted string loses its quotes, and
/// the backslash escapes are decoded when they are well formed.
pub open spec fn word_value(t: Token, text: Seq<char>) -> Seq<char> {
    let v = if t == Token::String { text.subrange(1, text.len() - 1) } else { text };
    decoded(v)
}

/// The words of the run of word tokens that starts at `i`, and the start of
/// the token after them.
pub open spec fn words_from(s: Seq<char>, i: int) -> (Seq<Seq<char>>, int)
    decreases s.len() - i,
{
    if 0 <= i <= s.len() && is_word(token_at(s, i).0) {
        proof {
            lemma_token_at(s, i);
        }
        let rest = words_from(s, next_start(s, i));
        (seq![word_value(token_at(s, i).0, s.subrange(i, token_at(s, i).1))] + rest.0, rest.1)
    } else {
        (seq![], i)
    }
}

/// A simple command at `i`: it starts with a plain word or a command
/// substitution and takes every word token that follows.
pub open spec fn parse_raw(s: Seq<char>, i: int) -> Result<(Seq<char>, Seq<Seq<char>>, int), ParseError> {
    let t = token_at(s, i).0;
    if t != Token::Text && t != Token::SubExec {
        Err(ParseError::ExpectedCommand)
    } else {
        let (ws, j) = words_from(s, i);
        Ok((ws[0], ws.drop_first(), j))
    }
}

/// The first operand of a command at `i`: a parenthesised list or a simple
/// command, and the start of the token after it.
pub open spec fn parse_operand(s: Seq<char>, i: int) -> Result<(SpecCommand, int), ParseError>
    decreases s.len() - i, 0int,
{
    if !(0 <= i <= s.len()) {
        Err(ParseError::ExpectedCommand)
    } else if token_at(s, i).0 == Token::ParensOpen {
        proof {
            lemma_token_at(s, i);
        }
        match parse_ast(s, next_start(s, i)) {
            Err(e) => Err(e),
            Ok((cmds, j)) => if token_at(s, j).0 != Token::ParensClose {
                Err(ParseError::ExpectedCloseParen)
            } else {
                Ok((SpecCommand::Parenthesis(cmds), next_start(s, j)))
            },
        }
    } else {
        match parse_raw(s, i) {
            Err(e) => Err(e),
            Ok((exe, args, j)) => Ok((SpecCommand::Raw(exe, args), j)),
        }
    }
}

/// A command at `i`: an operand, then optionally `&&`, `||` or `|` and
/// another command (so these operators group to the right, all with the same
/// precedence).
pub open spec fn parse_command(s: Seq<char>, i: int) -> Result<(SpecCommand, int), ParseError>
    decreases s.len() - i, 1int,
{
    match parse_operand(s, i) {
        Err(e) => Err(e),
        Ok((l, j)) => if i < 0 || j <= i || j > s.len() {
            Err(ParseError::ExpectedCommand)
        } else {
            proof {
                lemma_token_at(s, j);
            }
            let t = token_at(s, j).0;
            if t == Token::DoubleAnd {
                match parse_command(s, next_start(s, j)) {
                    Err(e) => Err(e),
                    Ok((r, k)) => Ok((SpecCommand::And(Box::new(l), Box::new(r)), k)),
                }
            } else if t == Token::DoublePipe {
                match parse_command(s, next_start(s, j)) {
                    Err(e) => Err(e),
                    Ok((r, k)) => Ok((SpecCommand::Or(Box::new(l), Box::new(r)), k)),
                }
            } else if t == Token::Pipe {
                match parse_command(s, next_start(s, j)) {
                    Err(e) => Err(e),
                    Ok((r, k)) => Ok((SpecCommand::Pipe(Box::new(l), Box::new(r)), k)),
                }
            } else {
                Ok((l, j))
            }
        },
    }
}

/// A list of commands at `i`, separated by `;`. It stops at the end of the
/// text, or after a command that no `;` follows (what comes next is left).
pub open spec fn parse_ast(s: Seq<char>, i: int) -> Result<(Seq<SpecCommand>, int), ParseError>
    decreases s.len() - i, 2int,
{
    if !(0 <= i <= s.len()) || token_at(s, i).0 == Token::End {
        Ok((seq![], i))
    } else {
        match parse_command(s, i) {
            Err(e) => Err(e),
            Ok((c, j)) => if j <= i || j > s.len() {
                Err(ParseError::ExpectedCommand)
            } else if token_at(s, j).0 == Token::SemiColon {
                proof {
                    lemma_token_at(s, j);
                }
                match parse_ast(s, next_start(s, j)) {
                    Err(e) => Err(e),
                    Ok((cs, k)) => Ok((seq![c] + cs, k)),
                }
            } else {
                Ok((seq![c], j))
            }
        }
    }
}

/// A whole command line: nothing for an empty line, else the list of
/// commands at its first token.
pub open spec fn parse_line(s: Seq<char>) -> Result<Option<Seq<SpecCommand>>, ParseError> {
    if s.len() == 0 {
        Ok(None)
    } else {
        match parse_ast(s, skip_blank(s, 0)) {
            Err(e) => Err(e),
            Ok((cmds, _)) => Ok(Some(cmds)),
        }
    }
}

pub proof fn lemma_words_from(s: Seq<char>, i: int)
    requires
        0 <= i <= s.len(),
    ensures
        i <= words_from(s, i).1 <= s.len(),
        is_word(token_at(s, i).0) ==> i < words_from(s, i).1 && words_from(s, i).0.len() > 0,
    decreases s.len() - i,
{
    if is_word(token_at(s, i).0) {
        lemma_token_at(s, i);
        lemma_words_from(s, next_start(s, i));
    }
}

pub proof fn lemma_parse_command_bounds(s: Seq<char>, i: int)
    requires
        0 <= i <= s.len(),
    ensures
        parse_command(s, i) matches Ok((_, j)) ==> i < j <= s.len(),
    decreases s.len() - i, 1int,
{
    if let Ok((l, j)) = parse_operand(s, i) {
        if !(i < 0 || j <= i || j > s.len()) {
            lemma_token_at(s, j);
            let t = token_at(s, j).0;
            if t == Token::DoubleAnd || t == Token::DoublePipe || t == Token::Pipe {
                lemma_parse_command_bounds(s, next_start(s, j));
            }
        }
    }
}

pub proof fn lemma_parse_ast_bounds(s: Seq<char>, i: int)
    requires
        0 <= i <= s.len(),
    ensures
        parse_ast(s, i) matches Ok((_, j)) ==> i <= j <= s.len(),
    decreases s.len() - i, 2int,
{
    if token_at(s, i).0 != Token::End {
        if let Ok((c, j)) = parse_command(s, i) {
            if !(j <= i || j > s.len()) && token_at(s, j).0 == Token::SemiColon {
                lemma_token_at(s, j);
                lemma_parse_ast_bounds(s, next_start(s, j));
            }
        }
    }
}

/// `res` is what the spec result `r` describes, and `pos` is where the lexer
/// stands after it.
pub open spec fn command_outcome(r: Result<(SpecCommand, int), ParseError>, res: Result<Command, Error>, pos: int) -> bool {
    match r {
        Ok((c, j)) => res matches Ok(cmd) && cmd@ == c && pos == j,
        Err(e) => res matches Err(err) && reports(err, e),
    }
}

/// The list result `r` with `pre` put in front of its commands.
pub open spec fn prepend(pre: Seq<SpecCommand>, r: Result<(Seq<SpecCommand>, int), ParseError>) -> Result<(Seq<SpecCommand>, int), ParseError> {
    match r {
        Ok((cs, k)) => Ok((pre + cs, k)),
        Err(e) => Err(e),
    }
}

/// A parser of command lines.
pub struct Parser {}

impl Parser {
    /// A parser (it holds no state).
    pub fn new() -> (res: Self)
        ensures
            res == (Parser {}),
    {
        Self {}
    }

    /// Parses a command line: `Ok(None)` for an empty line, else the list of
    /// commands it starts with, or the error that stops it.
    pub fn run(&mut self, input: &str) -> (res: Result<Option<Ast>, Error>)
        ensures
            match parse_line(input@) {
                Ok(None) => res matches Ok(None),
                Ok(Some(cmds)) => res matches Ok(Some(ast)) && ast@ == cmds,
                Err(e) => res matches Err(err) && reports(err, e),
            },
    {
        if input.unicode_len() == 0 {
            return Ok(None);
        }
        let mut lexer = Lexer::new(input);
        match self.parse_ast(&mut lexer) {
            Ok(ast) => Ok(Some(ast)),
            Err(e) => Err(e),
        }
    }

    /// Parses a list of commands separated by `;` at the lexer's token.
    pub fn parse_ast(&self, lexer: &mut Lexer) -> (res: Result<Ast, Error>)
        requires
            old(lexer).wf(),
        ensures
            final(lexer).wf(),
            final(lexer).source() == old(lexer).source(),
            match parse_ast(old(lexer).source(), old(lexer).position()) {
                Ok((cmds, j)) => res matches Ok(ast) && ast@ == cmds && final(lexer).position() == j,
                Err(e) => res matches Err(err) && reports(err, e),
            },
        decreases old(lexer).source().len() - old(lexer).position(), 2int,
    {
        let ghost s = lexer.source();
        let ghost i0 = lexer.position();
        let mut cmds: Vec<Command> = Vec::new();
        let mut done = false;
        proof {
            lexer.lemma_wf();
            assert(spec_commands(cmds@) =~= Seq::<SpecCommand>::empty());
            assert(prepend(spec_commands(cmds@), parse_ast(s, i0)) =~= parse_ast(s, i0));
        }
        while !done && lexer.token() != Token::End
            invariant
                lexer.wf(),
                lexer.source() == s,
                s == old(lexer).source(),
                i0 == old(lexer).position(),
                0 <= i0 <= lexer.position() <= s.len(),
                done ==> parse_ast(s, i0) == Ok::<(Seq<SpecCommand>, int), ParseError>((spec_commands(cmds@), lexer.position())),
                !done ==> parse_ast(s, i0) == prepend(spec_commands(cmds@), parse_ast(s, lexer.position())),
            decreases s.len() - lexer.position(), if done { 0int } else { 1int },
        {
            let ghost pos = lexer.position();
            proof {
                lexer.lemma_wf();
                lemma_parse_command_bounds(s, pos);
            }
            let c = match self.parse_command(lexer) {
                Ok(c) => c,
                Err(e) => {
                    proof {
                        assert(parse_ast(s, pos) matches Err(e2) && reports(e, e2));
                    }
                    return Err(e);
                },
            };
            let ghost j = lexer.position();
            let ghost old_cmds = cmds@;
            cmds.push(c);
            proof {
                lemma_spec_commands(old_cmds);
                lemma_spec_commands(cmds@);
                assert(spec_commands(cmds@) =~= spec_commands(old_cmds) + seq![c@]);
                lexer.lemma_wf();
            }
            if lexer.token() == Token::SemiColon {
                proof {
                    lemma_token_at(s, j);
                }
                lexer.advance();
                proof {
                    assert(parse_ast(s, pos) == prepend(seq![c@], parse_ast(s, lexer.position())));
                    match parse_ast(s, lexer.position()) {
                        Ok((cs, k)) => {
                            assert(spec_commands(old_cmds) + (seq![c@] + cs) =~= spec_commands(cmds@) + cs);
                        },
                        Err(e) => {},
                    }
                }
            } else {
                proof {
                    assert(parse_ast(s, pos) == Ok::<(Seq<SpecCommand>, int), ParseError>((seq![c@], j)));
                }
                done = true;
            }
        }
        proof {
            lexer.lemma_wf();
            if !done {
                assert(parse_ast(s, lexer.position()) == Ok::<(Seq<SpecCommand>, int), ParseError>((Seq::<SpecCommand>::empty(), lexer.position())));
                assert(spec_commands(cmds@) + Seq::<SpecCommand>::empty() =~= spec_commands(cmds@));
            }
        }
        Ok(Ast(cmds))
    }

    /// Parses a simple command at the lexer's token.
    pub fn parse_raw(lexer: &mut Lexer) -> (res: Result<CommandRaw, Error>)
        requires
            old(lexer).wf(),
        ensures
            final(lexer).wf(),
            final(lexer).source() == old(lexer).source(),
            match parse_raw(old(lexer).source(), old(lexer).position()) {
                Ok((exe, args, j)) => res matches Ok(raw) && raw@ == (exe, args) && final(lexer).position() == j,
                Err(e) => res matches Err(err) && reports(err, e),
            },
    {
        let ghost s = lexer.source();
        let ghost i0 = lexer.position();
        proof {
            lexer.lemma_wf();
        }
        let t0 = lexer.token();
        if t0 != Token::Text && t0 != Token::SubExec {
            return Err(Error::Parser(owned("Expected command")));
        }
        let mut items: Vec<String> = Vec::new();
        proof {
            lemma_words_from(s, i0);
            assert(views(items@) + words_from(s, i0).0 =~= words_from(s, i0).0);
        }
        while is_word_token(lexer.token())
            invariant
                lexer.wf(),
                lexer.source() == s,
                0 <= lexer.position() <= s.len(),
                words_from(s, i0) == (views(items@) + words_from(s, lexer.position()).0, words_from(s, lexer.position()).1),
            decreases s.len() - lexer.position(),
        {
            let ghost pos = lexer.position();
            let t = lexer.token();
            proof {
                lexer.lemma_wf();
                lemma_token_at(s, pos);
            }
            let text = lexer.slice();
            let val = if t == Token::String {
                substring(text.as_str(), 1, text.unicode_len() - 1)
            } else {
                text
            };
            let to_push = match unescape_text(val.as_str()) {
                Some(v) => v,
                None => val,
            };
            let ghost old_items = items@;
            items.push(to_push);
            lexer.advance();
            proof {
                assert(views(items@) =~= views(old_items).push(to_push@));
                assert(views(items@) + words_from(s, lexer.position()).0 =~= views(old_items) + words_from(s, pos).0);
            }
        }
        proof {
            lexer.lemma_wf();
            assert(views(items@) + Seq::<Seq<char>>::empty() =~= views(items@));
            assert(items@.len() > 0);
        }
        let exe = items.remove(0);
        proof {
            assert(views(items@) =~= words_from(s, i0).0.drop_first());
        }
        Ok(CommandRaw { exe, args: items })
    }

    /// Parses the first operand of a command: a parenthesised list or a
    /// simple command.
    fn parse_operand(&self, lexer: &mut Lexer) -> (res: Result<Command, Error>)
        requires
            old(lexer).wf(),
        ensures
            final(lexer).wf(),
            final(lexer).source() == old(lexer).source(),
            command_outcome(parse_operand(old(lexer).source(), old(lexer).position()), res, final(lexer).position()),
        decreases old(lexer).source().len() - old(lexer).position(), 0int,
    {
        let ghost s = lexer.source();
        let ghost i = lexer.position();
        proof {
            lexer.lemma_wf();
            lemma_token_at(s, i);
        }
        if lexer.token() == Token::ParensOpen {
            lexer.advance();
            proof {
                lemma_parse_ast_bounds(s, next_start(s, i));
            }
            let ast = match self.parse_ast(lexer) {
                Ok(a) => a,
                Err(e) => {
                    return Err(e);
                },
            };
            proof {
                lexer.lemma_wf();
                lemma_token_at(s, lexer.position());
            }
            if lexer.token() != Token::ParensClose {
                return Err(Error::Parser(owned("Expected close parenthesis")));
            }
            lexer.advance();
            Ok(Command::Parenthesis(Box::new(ast)))
        } else {
            match Self::parse_raw(lexer) {
                Ok(r) => Ok(Command::Raw(r)),
                Err(e) => Err(e),
            }
        }
    }

    /// Parses a command at the lexer's token.
    pub fn parse_command(&self, lexer: &mut Lexer) -> (res: Result<Command, Error>)
        requires
            old(lexer).wf(),
        ensures
            final(lexer).wf(),
            final(lexer).source() == old(lexer).source(),
            command_outcome(parse_command(old(lexer).source(), old(lexer).position()), res, final(lexer).position()),
        decreases old(lexer).source().len() - old(lexer).position(), 1int,
    {
        let ghost s = lexer.source();
        let ghost i = lexer.position();
        proof {
            lexer.lemma_wf();
            lemma_token_at(s, i);
            lemma_words_from(s, i);
            if token_at(s, i).0 == Token::ParensOpen {
                lemma_parse_ast_bounds(s, next_start(s, i));
                if let Ok((cmds, j0)) = parse_ast(s, next_start(s, i)) {
                    lemma_token_at(s, j0);
                }
            }
        }
        let left = match self.parse_operand(lexer) {
            Ok(l) => l,
            Err(e) => {
                return Err(e);
            },
        };
        let ghost j = lexer.position();
        proof {
            lexer.lemma_wf();
            lemma_token_at(s, j);
            assert(i < j <= s.len());
        }
        let t = lexer.token();
        if t == Token::DoubleAnd {
            lexer.advance();
            let right = match self.parse_command(lexer) {
                Ok(r) => r,
                Err(e) => {
                    return Err(e);
                },
            };
            Ok(Command::And(Box::new(left), Box::new(right)))
        } else if t == Token::DoublePipe {
            lexer.advance();
            let right = match self.parse_command(lexer) {
                Ok(r) => r,
                Err(e) => {
                    return Err(e);
                },
            };
            Ok(Command::Or(Box::new(left), Box::new(right)))
        } else if t == Token::Pipe {
            lexer.advance();
            let right = match self.parse_command(lexer) {
                Ok(r) => r,
                Err(e) => {
                    return Err(e);
                },
            };
            Ok(Command::Pipe(Box::new(left), Box::new(right)))
        } else {
            Ok(left)
        }
    }
}

fn is_word_token(t: Token) -> (res: bool)
    ensures
        res == is_word(t),
{
    t == Token::Text || t == Token::String || t == Token::SubExec
}

} // verus!
