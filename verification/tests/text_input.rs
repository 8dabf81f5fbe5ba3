use rsh::builtins::alias::{alias, substitute as alias_substitute};
use rsh::error::Error;
use rsh::exec::substitute::{substitute_inner_exec_one, CommandOutput};
use rsh::exec::{Event, Executor, Step};
use rsh::input::{
    expand_prompt, prompt_substitutions, prompt_template, render_prompt, substitute_pairs, substitute_prompt, Script,
    DEFAULT_PROMPT, PROMPT_ERROR,
};
use rsh::parsing::ast::CommandRaw;
use rsh::parsing::parser::Parser;
use rsh::rsh::{is_cuttable, keeps_reading_after, keeps_running_after, line_to_run, strip_comment};
use rsh::table::NameTable;
use rsh::text::{join_str, replace_all_str, split_str};

fn table(pairs: &[(&str, &str)]) -> NameTable<String> {
    let mut t = NameTable::new();
    for (k, v) in pairs.iter() {
        t.insert(k.to_string(), v.to_string());
    }
    t
}

fn cmd(exe: &str, args: &[&str]) -> CommandRaw {
    CommandRaw::new(exe.to_string(), args.iter().map(|a| a.to_string()).collect())
}

#[test]
fn replace_all_everywhere() {
    assert_eq!(replace_all_str("a-b-c", "-", "+"), "a+b+c");
    assert_eq!(replace_all_str("aaa", "aa", "b"), "ba");
    assert_eq!(replace_all_str("abc", "x", "y"), "abc");
    assert_eq!(replace_all_str("a\nb\n", "\n", ""), "ab");
}

#[test]
fn split_and_join() {
    assert_eq!(split_str("a b  c", ' '), vec!["a", "b", "", "c"]);
    assert_eq!(split_str("", ' '), vec![""]);
    let words = vec!["x".to_string(), "y".to_string()];
    assert_eq!(join_str(&words, " "), "x y");
    assert_eq!(join_str(&split_str("p q r", ' '), " "), "p q r");
}

#[test]
fn strip_comment_cases() {
    assert_eq!(strip_comment("ls -l"), "ls -l");
    assert_eq!(strip_comment("# only a comment"), "");
    assert_eq!(strip_comment("ls # list"), " # list");
    assert_eq!(strip_comment("a#b"), "a#b");
}

#[test]
fn prompt_shorthands() {
    let pairs = prompt_substitutions();
    assert_eq!(pairs.len(), 4);
    assert_eq!(substitute_pairs("%u@%h:%d %%", &pairs), "$USER@`hostname`:$PWD %");
}

#[test]
fn expand_prompt_replaces_variables() {
    let env = table(&[("USER", "ann"), ("PWD", "/home/ann")]);
    assert_eq!(expand_prompt("%u in %d> ", &env), "ann in /home/ann> ");
}

#[test]
fn substitute_prompt_runs_captures() {
    let env = table(&[("USER", "ann")]);
    let outs = vec![CommandOutput::Text("box\n".to_string())];
    let mut p = "%u@%h $ ".to_string();
    assert!(substitute_prompt(&mut p, &env, &outs).is_ok());
    assert_eq!(p, "ann@box $ ");
}

#[test]
fn substitute_prompt_reports_unreadable_output() {
    let env = table(&[]);
    let outs = vec![CommandOutput::NotUtf8];
    let mut p = "%h".to_string();
    assert!(matches!(substitute_prompt(&mut p, &env, &outs), Err(Error::Run(_))));
}

#[test]
fn prompt_template_default_and_set() {
    assert_eq!(prompt_template(&table(&[])), DEFAULT_PROMPT);
    assert_eq!(prompt_template(&table(&[("PROMPT", "> ")])), "> ");
}

#[test]
fn render_prompt_strips_colours() {
    let (colored, plain) = render_prompt("\\x1b[1;33mrsh\\x1b[0m $ ");
    assert_eq!(colored, "\x1b[1;33mrsh\x1b[0m $ ");
    assert_eq!(plain.unwrap(), "rsh $ ");
}

#[test]
fn render_prompt_default() {
    let (colored, plain) = render_prompt(DEFAULT_PROMPT);
    assert_eq!(colored, DEFAULT_PROMPT);
    assert_eq!(plain.unwrap(), "rsh $> ");
}

#[test]
fn render_prompt_malformed_escape() {
    let (colored, plain) = render_prompt("bad \\q> ");
    assert_eq!(colored, PROMPT_ERROR);
    assert_eq!(plain.unwrap(), PROMPT_ERROR);
}

#[test]
fn script_lines_in_order() {
    let mut s = Script::from_text("ls\npwd");
    assert_eq!(s.aquire().unwrap(), "ls");
    assert_eq!(s.aquire().unwrap(), "pwd");
    assert!(matches!(s.aquire(), Err(Error::Missing)));
    assert!(matches!(s.aquire(), Err(Error::Missing)));
}

#[test]
fn law_example_kth_call_gives_kth_line() {
    let text = "a\nb\nc";
    let lines: Vec<&str> = text.split('\n').collect();
    let mut s = Script::from_text(text);
    for k in 1..=5 {
        let r = s.aquire();
        if k <= lines.len() {
            assert_eq!(r.unwrap(), lines[k - 1]);
        } else {
            assert!(matches!(r, Err(Error::Missing)));
        }
    }
}

#[test]
fn law_example_export_read_after_write() {
    let mut env = table(&[("Y", "1")]);
    rsh::builtins::export::export(&cmd("export", &["X", "\"v w\""]), &mut env);
    assert_eq!(rsh::builtins::export::get(&env, "X").unwrap(), "v w");
    assert_eq!(rsh::builtins::export::get(&env, "Y").unwrap(), "1");
    rsh::builtins::export::export(&cmd("export", &["X"]), &mut env);
    assert!(rsh::builtins::export::get(&env, "X").is_err());
    let mut s = "[$X]".to_string();
    rsh::builtins::export::substitute_one(&mut s, &env).unwrap();
    assert_eq!(s, "[]");
}

#[test]
fn script_trailing_newline_gives_empty_line() {
    let mut s = Script::from_text("a\n");
    assert_eq!(s.aquire().unwrap(), "a");
    assert_eq!(s.aquire().unwrap(), "");
    assert!(s.aquire().is_err());
}

#[test]
fn error_duplicate_keeps_variant() {
    match Error::Env("X".to_string()).duplicate() {
        Error::Env(n) => assert_eq!(n, "X"),
        other => panic!("{:?}", other),
    }
    assert!(matches!(Error::Interrupt.duplicate(), Error::Interrupt));
    assert!(matches!(Error::Io("e".to_string()).duplicate(), Error::Io(_)));
    assert!(matches!(Error::Utf8.duplicate(), Error::Utf8));
}

#[test]
fn checkers_of_requirements() {
    assert!(is_cuttable("ls # x"));
    assert!(is_cuttable("#x"));
    assert!(is_cuttable("plain"));
    assert!(!is_cuttable("é#x"));
    assert!(rsh::builtins::export::is_exportable("\"a\""));
    assert!(rsh::builtins::export::is_exportable("plain"));
    assert!(rsh::builtins::export::is_exportable(""));
    assert!(!rsh::builtins::export::is_exportable("\""));
    assert!(!rsh::builtins::export::is_exportable("\"é"));
}

#[test]
fn line_to_run_cases() {
    assert_eq!(line_to_run("ls -l"), Some("ls -l".to_string()));
    assert_eq!(line_to_run("#comment"), None);
    assert_eq!(line_to_run(""), None);
    assert_eq!(line_to_run("x #y"), Some(" #y".to_string()));
}

#[test]
fn loop_goes_on_after_interrupts_and_run_errors() {
    assert!(keeps_reading_after(&Error::Interrupt));
    assert!(!keeps_reading_after(&Error::Lexer));
    assert!(!keeps_reading_after(&Error::Io("eof".to_string())));
    assert!(keeps_running_after(&Error::Run("Cannot pipe".to_string())));
    assert!(!keeps_running_after(&Error::Parser("Expected command".to_string())));
    assert!(!keeps_running_after(&Error::Env("X".to_string())));
}

// Laws checked on concrete values.

#[test]
fn law_example_answers_stable() {
    let mut ex = Executor::new();
    let ast = Parser::new().run("a && b").unwrap();
    ex.run(ast);
    let short = vec![Event::Started, Event::Exited(3)];
    let long = vec![Event::Started, Event::Exited(3), Event::Started, Event::Exited(0)];
    assert!(matches!(ex.resume(&short), Step::Finished(Some(0))));
    assert!(matches!(ex.resume(&long), Step::Finished(Some(0))));
}

#[test]
fn law_example_plain_word_kept() {
    let outs: Vec<CommandOutput> = Vec::new();
    assert_eq!(substitute_inner_exec_one("a b c".to_string(), &outs, 0).unwrap().0, vec!["a b c"]);
}

#[test]
fn law_example_words_join() {
    let outs = vec![CommandOutput::Text("x y\n".to_string())];
    let words = substitute_inner_exec_one("v `ls`".to_string(), &outs, 0).unwrap().0;
    assert_eq!(words, vec!["v", "x", "y"]);
    assert_eq!(join_str(&words, " "), "v x y");
}

#[test]
fn law_example_alias_read_after_write_and_unalias() {
    let mut aliases = NameTable::new();
    alias(&cmd("alias", &["g", "git status"]), &mut aliases);
    let mut c = cmd("g", &["-s"]);
    alias_substitute(&mut c, &aliases);
    assert_eq!(c.exe, "git");
    assert_eq!(c.args, vec!["status", "-s"]);
    alias(&cmd("alias", &["g"]), &mut aliases);
    let mut c = cmd("g", &["-s"]);
    alias_substitute(&mut c, &aliases);
    assert_eq!(c.exe, "g");
    assert_eq!(c.args, vec!["-s"]);
}

#[test]
fn law_example_var_read_after_write() {
    let mut env = table(&[]);
    env.insert("X".to_string(), "1".to_string());
    let mut s = "$X".to_string();
    rsh::builtins::export::substitute_one(&mut s, &env).unwrap();
    assert_eq!(s, "1");
    env.remove("X");
    let mut s = "$X".to_string();
    rsh::builtins::export::substitute_one(&mut s, &env).unwrap();
    assert_eq!(s, "");
}

#[test]
fn law_example_no_comment_kept() {
    assert_eq!(strip_comment("echo a && b"), "echo a && b");
}
