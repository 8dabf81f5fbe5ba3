use rsh::error::Error;
use rsh::parsing::ast::{Ast, Command, CommandRaw};
use rsh::parsing::lexer::{tokens, Lexer, Token};
use rsh::parsing::parser::Parser;

fn raw(c: &Command) -> (String, Vec<String>) {
    match c {
        Command::Raw(r) => (r.exe.clone(), r.args.clone()),
        other => panic!("not a simple command: {:?}", other),
    }
}

fn simple(exe: &str, args: &[&str]) -> (String, Vec<String>) {
    (exe.to_string(), args.iter().map(|a| a.to_string()).collect())
}

fn parse(line: &str) -> Ast {
    match Parser::new().run(line) {
        Ok(Some(ast)) => ast,
        other => panic!("no command line for {:?}: {:?}", line, other),
    }
}

fn parse_error(line: &str) -> String {
    match Parser::new().run(line) {
        Err(Error::Parser(m)) => m,
        other => panic!("no parse error for {:?}: {:?}", line, other),
    }
}

fn kinds(line: &str) -> Vec<(Token, String)> {
    tokens(line)
}

#[test]
fn lexer_splits_words_and_operators() {
    let t = kinds("ls -l | grep a && b || c; d");
    let expected = vec![
        (Token::Text, "ls"),
        (Token::Text, "-l"),
        (Token::Pipe, "|"),
        (Token::Text, "grep"),
        (Token::Text, "a"),
        (Token::DoubleAnd, "&&"),
        (Token::Text, "b"),
        (Token::DoublePipe, "||"),
        (Token::Text, "c"),
        (Token::SemiColon, ";"),
        (Token::Text, "d"),
        (Token::End, ""),
    ];
    assert_eq!(t.len(), expected.len());
    for (got, want) in t.iter().zip(expected.iter()) {
        assert_eq!(got.0, want.0);
        assert_eq!(got.1, want.1);
    }
}

#[test]
fn lexer_redirections_and_single_operators() {
    let t: Vec<Token> = kinds("a < b << c > d >> e & f").into_iter().map(|p| p.0).collect();
    assert_eq!(
        t,
        vec![
            Token::Text,
            Token::RedirLeft,
            Token::Text,
            Token::DoubleRedirLeft,
            Token::Text,
            Token::RedirRight,
            Token::Text,
            Token::DoubleRedirRight,
            Token::Text,
            Token::And,
            Token::Text,
            Token::End,
        ]
    );
}

#[test]
fn lexer_strings_substitutions_and_comments() {
    let t = kinds("echo \"a b\" `pwd` # rest");
    assert_eq!(t[0], (Token::Text, "echo".to_string()));
    assert_eq!(t[1], (Token::String, "\"a b\"".to_string()));
    assert_eq!(t[2], (Token::SubExec, "`pwd`".to_string()));
    assert_eq!(t[3], (Token::Comment, "# rest".to_string()));
    assert_eq!(t[4].0, Token::End);
}

#[test]
fn lexer_equal_sign() {
    let t: Vec<Token> = kinds("x = y a=b").into_iter().map(|p| p.0).collect();
    assert_eq!(t, vec![Token::Text, Token::Equal, Token::Text, Token::Text, Token::End]);
}

#[test]
fn lexer_stops_at_errors() {
    let t = kinds("echo \"open");
    assert_eq!(t.len(), 2);
    assert_eq!(t[1], (Token::Error, "\"".to_string()));
    let t = kinds("a ~ b");
    assert_eq!(t[1], (Token::Error, "~".to_string()));
}

#[test]
fn lexer_variables_are_words() {
    let t = kinds("echo $USER ${HOME}/x");
    assert_eq!(t[1], (Token::Text, "$USER".to_string()));
    assert_eq!(t[2], (Token::Text, "${HOME}/x".to_string()));
    assert_eq!(t[3].0, Token::End);
}

#[test]
fn parse_keeps_variable_references() {
    let ast = parse("echo $USER");
    assert_eq!(raw(&ast.0[0]), simple("echo", &["$USER"]));
    let ast = parse("echo ${USER}");
    assert_eq!(raw(&ast.0[0]), simple("echo", &["${USER}"]));
    let ast = parse("echo \"$(whoami)\"");
    assert_eq!(raw(&ast.0[0]), simple("echo", &["$(whoami)"]));
}

#[test]
fn lexer_nul_ends_the_line() {
    let t = kinds("a\u{0}b");
    assert_eq!(t.len(), 2);
    assert_eq!(t[0], (Token::Text, "a".to_string()));
    assert_eq!(t[1].0, Token::End);
}

#[test]
fn lexer_steps_one_token_at_a_time() {
    let mut lexer = Lexer::new("  ab   cd");
    assert_eq!(lexer.token(), Token::Text);
    assert_eq!(lexer.slice(), "ab");
    lexer.advance();
    assert_eq!(lexer.slice(), "cd");
    lexer.advance();
    assert_eq!(lexer.token(), Token::End);
}

#[test]
fn parse_simple_command() {
    let ast = parse("ls -l /tmp");
    assert_eq!(ast.0.len(), 1);
    assert_eq!(raw(&ast.0[0]), simple("ls", &["-l", "/tmp"]));
}

#[test]
fn parse_empty_line_is_none() {
    assert!(matches!(Parser::new().run(""), Ok(None)));
}

#[test]
fn parse_blank_line_is_empty_list() {
    let ast = parse("   ");
    assert_eq!(ast.0.len(), 0);
}

#[test]
fn parse_and_or_associate_to_the_right() {
    let ast = parse("a && b || c");
    assert_eq!(ast.0.len(), 1);
    match &ast.0[0] {
        Command::And(l, r) => {
            assert_eq!(raw(l), simple("a", &[]));
            match &**r {
                Command::Or(b, c) => {
                    assert_eq!(raw(b), simple("b", &[]));
                    assert_eq!(raw(c), simple("c", &[]));
                }
                other => panic!("{:?}", other),
            }
        }
        other => panic!("{:?}", other),
    }
}

#[test]
fn parse_parenthesis_and_pipe() {
    let ast = parse("(a; b) | c");
    match &ast.0[0] {
        Command::Pipe(l, r) => {
            match &**l {
                Command::Parenthesis(inner) => {
                    assert_eq!(inner.0.len(), 2);
                    assert_eq!(raw(&inner.0[0]), simple("a", &[]));
                    assert_eq!(raw(&inner.0[1]), simple("b", &[]));
                }
                other => panic!("{:?}", other),
            }
            assert_eq!(raw(r), simple("c", &[]));
        }
        other => panic!("{:?}", other),
    }
}

#[test]
fn parse_sequence_with_trailing_semicolon() {
    let ast = parse("ls; ls;");
    assert_eq!(ast.0.len(), 2);
    assert_eq!(raw(&ast.0[0]), simple("ls", &[]));
    assert_eq!(raw(&ast.0[1]), simple("ls", &[]));
}

#[test]
fn parse_stops_at_unknown_operator() {
    let ast = parse("ls > out; pwd");
    assert_eq!(ast.0.len(), 1);
    assert_eq!(raw(&ast.0[0]), simple("ls", &[]));
}

#[test]
fn parse_string_loses_quotes_and_words_are_unescaped() {
    let ast = parse("echo \"a b\" x\\ty");
    assert_eq!(raw(&ast.0[0]), simple("echo", &["a b", "x\ty"]));
}

#[test]
fn parse_keeps_malformed_escapes() {
    let ast = parse("echo a\\qb");
    assert_eq!(raw(&ast.0[0]), simple("echo", &["a\\qb"]));
}

#[test]
fn parse_substitution_is_a_word() {
    let ast = parse("`which ls` -l");
    assert_eq!(raw(&ast.0[0]), simple("`which ls`", &["-l"]));
}

#[test]
fn parse_error_expected_command() {
    assert_eq!(parse_error("&& ls"), "Expected command");
    assert_eq!(parse_error("ls &&"), "Expected command");
    assert_eq!(parse_error("\"quoted\" first"), "Expected command");
}

#[test]
fn parse_error_expected_close_parenthesis() {
    assert_eq!(parse_error("(ls"), "Expected close parenthesis");
    assert_eq!(parse_error("(ls; pwd"), "Expected close parenthesis");
}

#[test]
fn parse_compliance_lines() {
    let lines = [
        "echo test",
        "ls /",
        "ls .",
        "ls && ls",
        "ls || ls",
        "ls && ls && ls",
        "ls && ls || ls",
        "ls || ls && ls",
        "ls || ls || ls",
        "ls; ls; ls",
        "ls; ls; ls;",
        "echo \"/\" | cat",
        "dmesg | grep i",
        "(ls && ls) || ls",
        "(ls || ls) && ls",
        "ls && (ls || ls)",
        "ls || (ls && ls)",
        "ls `echo /`",
        "echo `ls`",
        "ls `find src`",
        "echo $USER",
        "echo ${USER}",
        "echo \"$(whoami)\"",
        "ls; ls || ls || ls asd && ls | cat",
        "ls; ls && ls && ls asd && ls | cat || true",
    ];
    for line in lines.iter() {
        let ast = parse(line);
        assert!(!ast.0.is_empty(), "{}", line);
    }
}

#[test]
fn command_raw_new_and_replace_left() {
    let c = CommandRaw::new("ls".to_string(), vec!["-a".to_string()]);
    assert_eq!(c.exe, "ls");
    assert_eq!(c.args, vec!["-a".to_string()]);
    let mut cmd = Command::And(
        Box::new(Command::Raw(CommandRaw::new("a".to_string(), vec![]))),
        Box::new(Command::Raw(CommandRaw::new("b".to_string(), vec![]))),
    );
    cmd.replace_left(Box::new(Command::Raw(CommandRaw::new("true".to_string(), vec![]))));
    match &cmd {
        Command::And(l, r) => {
            assert_eq!(raw(l), simple("true", &[]));
            assert_eq!(raw(r), simple("b", &[]));
        }
        other => panic!("{:?}", other),
    }
    let mut simple_cmd = Command::Raw(CommandRaw::new("x".to_string(), vec![]));
    simple_cmd.replace_left(Box::new(Command::Raw(CommandRaw::new("true".to_string(), vec![]))));
    assert_eq!(raw(&simple_cmd), simple("x", &[]));
}

#[test]
fn ast_replace_left_replaces_first() {
    let mut ast = parse("a; b");
    ast.replace_left(Box::new(Command::Raw(CommandRaw::new("true".to_string(), vec![]))));
    assert_eq!(raw(&ast.0[0]), simple("true", &[]));
    assert_eq!(raw(&ast.0[1]), simple("b", &[]));
}
