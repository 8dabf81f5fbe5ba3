use rsh::error::Error;
use rsh::exec::runnable::{plan, Plan};
use rsh::exec::substitute::{captures_needed, next_capture, pre_exec, substitute_inner_exec, substitute_inner_exec_one, CommandOutput};
use rsh::exec::{is_runnable, Action, Event, Executor, Step};
use rsh::builtins::Builtin;
use rsh::parsing::ast::{Ast, Command, CommandRaw};
use rsh::parsing::parser::Parser;
use rsh::table::NameTable;

fn cmd(exe: &str, args: &[&str]) -> CommandRaw {
    CommandRaw::new(exe.to_string(), args.iter().map(|a| a.to_string()).collect())
}

fn strings(v: &[&str]) -> Vec<String> {
    v.iter().map(|a| a.to_string()).collect()
}

fn table(pairs: &[(&str, &str)]) -> NameTable<String> {
    let mut t = NameTable::new();
    for (k, v) in pairs.iter() {
        t.insert(k.to_string(), v.to_string());
    }
    t
}

// The outputs of the substituted commands, in the order in which they run
// (each paired with its command, for the reader).
fn outputs(pairs: Vec<(&str, CommandOutput)>) -> Vec<CommandOutput> {
    pairs.into_iter().map(|(_, v)| v).collect()
}

fn one(s: &str, outs: &Vec<CommandOutput>) -> Result<Vec<String>, Error> {
    substitute_inner_exec_one(s.to_string(), outs, 0).map(|(words, _)| words)
}

fn text(s: &str) -> CommandOutput {
    CommandOutput::Text(s.to_string())
}

fn parse(line: &str) -> Ast {
    match Parser::new().run(line) {
        Ok(Some(ast)) => ast,
        other => panic!("{:?}", other),
    }
}

fn exec_of(step: &Step) -> (String, Vec<String>) {
    match step {
        Step::Perform(Action::Exec(c)) => (c.exe.clone(), c.args.clone()),
        other => panic!("not an exec: {:?}", other),
    }
}

fn wait_of(step: &Step) -> usize {
    match step {
        Step::Perform(Action::Wait(p)) => *p,
        other => panic!("not a wait: {:?}", other),
    }
}

fn finished(step: &Step) -> Option<usize> {
    match step {
        Step::Finished(p) => *p,
        other => panic!("not finished: {:?}", other),
    }
}

fn start(line: &str) -> (Executor, Step) {
    let mut ex = Executor::new();
    let step = ex.run(Some(parse(line)));
    (ex, step)
}

#[test]
fn executor_without_line_finishes() {
    let mut ex = Executor::new();
    assert_eq!(finished(&ex.run(None)), None);
}

#[test]
fn executor_simple_command() {
    let (ex, step) = start("ls -l");
    assert_eq!(exec_of(&step), ("ls".to_string(), strings(&["-l"])));
    assert_eq!(finished(&ex.resume(&vec![Event::Started])), Some(0));
}

#[test]
fn executor_and_stops_on_failure() {
    let (ex, _) = start("a && b");
    assert_eq!(wait_of(&ex.resume(&vec![Event::Started])), 0);
    assert_eq!(finished(&ex.resume(&vec![Event::Started, Event::Exited(1)])), Some(0));
}

#[test]
fn executor_and_continues_on_success() {
    let (ex, _) = start("a && b");
    let step = ex.resume(&vec![Event::Started, Event::Exited(0)]);
    assert_eq!(exec_of(&step), ("b".to_string(), vec![]));
    assert_eq!(finished(&ex.resume(&vec![Event::Started, Event::Exited(0), Event::Started])), Some(2));
}

#[test]
fn executor_or_skips_simple_right_on_success() {
    let (ex, _) = start("a || b");
    assert_eq!(finished(&ex.resume(&vec![Event::Started, Event::Exited(0)])), Some(0));
    let step = ex.resume(&vec![Event::Started, Event::Exited(2)]);
    assert_eq!(exec_of(&step), ("b".to_string(), vec![]));
}

#[test]
fn executor_or_then_and_runs_true() {
    let (ex, _) = start("a || b && c");
    let step = ex.resume(&vec![Event::Started, Event::Exited(0)]);
    assert_eq!(exec_of(&step), ("true".to_string(), vec![]));
    let ev = vec![Event::Started, Event::Exited(0), Event::Started];
    assert_eq!(wait_of(&ex.resume(&ev)), 2);
    let ev = vec![Event::Started, Event::Exited(0), Event::Started, Event::Exited(0)];
    assert_eq!(exec_of(&ex.resume(&ev)), ("c".to_string(), vec![]));
}

#[test]
fn executor_sequence_runs_all() {
    let (ex, step) = start("a; b");
    assert_eq!(exec_of(&step), ("a".to_string(), vec![]));
    assert_eq!(exec_of(&ex.resume(&vec![Event::Started])), ("b".to_string(), vec![]));
    assert_eq!(finished(&ex.resume(&vec![Event::Started, Event::Started])), Some(1));
}

#[test]
fn executor_pipe() {
    let (ex, step) = start("ls | grep a");
    match &step {
        Step::Perform(Action::Pipe(l, r)) => {
            assert_eq!(l.exe, "ls");
            assert_eq!(r.exe, "grep");
            assert_eq!(r.args, strings(&["a"]));
        }
        other => panic!("{:?}", other),
    }
    assert_eq!(finished(&ex.resume(&vec![Event::Started])), Some(0));
}

#[test]
fn executor_pipe_into_parenthesis_runs_right() {
    let (_, step) = start("ls | (wc)");
    assert_eq!(exec_of(&step), ("wc".to_string(), vec![]));
}

#[test]
fn executor_cannot_pipe_from_parenthesis() {
    let (_, step) = start("(ls) | wc");
    assert!(matches!(step, Step::CannotPipe));
}

#[test]
fn executor_failure_ends_run() {
    let (ex, _) = start("a; b");
    assert!(matches!(ex.resume(&vec![Event::Failed]), Step::Failed(0)));
    let (ex, _) = start("a && b");
    assert!(matches!(ex.resume(&vec![Event::Started, Event::Failed]), Step::Failed(1)));
}

#[test]
fn runnable_lines() {
    assert!(is_runnable(&parse("a; (b && c)")));
    assert!(is_runnable(&parse("(a; (b; c) | d) || e")));
    assert!(!is_runnable(&parse("   ")));
    let empty_group = Command::And(
        Box::new(Command::Raw(cmd("a", &[]))),
        Box::new(Command::Parenthesis(Box::new(Ast(vec![])))),
    );
    assert!(!is_runnable(&Ast(vec![empty_group])));
}

#[test]
fn inner_exec_one_replaces_output() {
    let outs = outputs(vec![("echo hi", text("hi\n"))]);
    let r = one("a`echo hi`b", &outs).unwrap();
    assert_eq!(r, strings(&["ahib"]));
}

#[test]
fn inner_exec_one_splits_at_spaces() {
    let outs = outputs(vec![("ls", text("a b\nc\n"))]);
    let r = one("`ls`", &outs).unwrap();
    assert_eq!(r, strings(&["a", "b", "c"]));
}

#[test]
fn inner_exec_one_dollar_parenthesis() {
    let outs = outputs(vec![("whoami", text("ann\n"))]);
    let r = one("$(whoami)", &outs).unwrap();
    assert_eq!(r, strings(&["ann"]));
    let r = one("u=$(whoami).", &outs).unwrap();
    assert_eq!(r, strings(&["u=ann."]));
}

#[test]
fn inner_exec_one_both_forms() {
    let outs = outputs(vec![("a", text("1")), ("b", text("2\n3\n"))]);
    let r = one("`a`-$(b)", &outs).unwrap();
    assert_eq!(r, strings(&["1-2", "3"]));
}

#[test]
fn inner_exec_one_without_substitution_is_kept() {
    let outs = outputs(vec![]);
    let r = one("a b", &outs).unwrap();
    assert_eq!(r, strings(&["a b"]));
}

#[test]
fn inner_exec_one_not_run_is_empty() {
    let outs = outputs(vec![("nope", CommandOutput::NotRun)]);
    let r = one("x`nope`", &outs).unwrap();
    assert_eq!(r, strings(&["x"]));
    let none = outputs(vec![]);
    let r = one("x`nope`", &none).unwrap();
    assert_eq!(r, strings(&["x"]));
}

#[test]
fn inner_exec_one_greedy_span() {
    let outs = outputs(vec![("a` `b", text("z"))]);
    let r = one("`a` `b`", &outs).unwrap();
    assert_eq!(r, strings(&["z"]));
}

#[test]
fn inner_exec_one_decodes_escapes() {
    let outs = outputs(vec![("p", text("a\\tb"))]);
    let r = one("`p`", &outs).unwrap();
    assert_eq!(r, strings(&["a\tb"]));
}

#[test]
fn inner_exec_one_errors() {
    let outs = outputs(vec![("bin", CommandOutput::NotUtf8)]);
    match one("`bin`", &outs) {
        Err(Error::Run(m)) => assert_eq!(m, "Cannot read stdout"),
        other => panic!("{:?}", other),
    }
    let outs = outputs(vec![("bad", CommandOutput::Failed(Error::Parser("Expected command".to_string())))]);
    match one("`bad`", &outs) {
        Err(Error::Parser(m)) => assert_eq!(m, "Expected command"),
        other => panic!("{:?}", other),
    }
}

#[test]
fn inner_exec_command() {
    let outs = outputs(vec![("which ls", text("/bin/ls -a\n")), ("pwd", text("/tmp\n"))]);
    let mut c = cmd("`which ls`", &["`pwd`", "x"]);
    assert!(substitute_inner_exec(&mut c, &outs).is_ok());
    assert_eq!(c.exe, "/bin/ls");
    assert_eq!(c.args, strings(&["-a", "/tmp", "x"]));
}

#[test]
fn inner_exec_command_failure_keeps_arguments() {
    let outs = outputs(vec![("pwd", CommandOutput::NotUtf8)]);
    let mut c = cmd("ls", &["`pwd`"]);
    assert!(substitute_inner_exec(&mut c, &outs).is_err());
    assert_eq!(c.exe, "ls");
    assert_eq!(c.args, strings(&["`pwd`"]));
}

#[test]
fn inner_exec_each_match_has_its_output() {
    let outs = outputs(vec![("date", text("1")), ("date", text("2"))]);
    let mut c = cmd("echo", &["`date`", "`date`"]);
    assert!(substitute_inner_exec(&mut c, &outs).is_ok());
    assert_eq!(c.args, strings(&["1", "2"]));
}

#[test]
fn inner_exec_one_gives_next_position() {
    let outs = outputs(vec![("a", text("1")), ("b", text("2")), ("c", text("3"))]);
    let (words, next) = substitute_inner_exec_one("`b`".to_string(), &outs, 1).unwrap();
    assert_eq!(words, strings(&["2"]));
    assert_eq!(next, 2);
    let (words, next) = substitute_inner_exec_one("plain".to_string(), &outs, 1).unwrap();
    assert_eq!(words, strings(&["plain"]));
    assert_eq!(next, 1);
}

#[test]
fn next_capture_runs_in_order_and_stops_at_failure() {
    let c = cmd("`x`", &["$(y)", "`x`"]);
    let mut outs: Vec<CommandOutput> = Vec::new();
    assert_eq!(next_capture(&c, &outs), Some("x".to_string()));
    outs.push(text("1"));
    assert_eq!(next_capture(&c, &outs), Some("y".to_string()));
    outs.push(CommandOutput::NotRun);
    assert_eq!(next_capture(&c, &outs), Some("x".to_string()));
    outs.push(text("3"));
    assert_eq!(next_capture(&c, &outs), None);
    let failed = vec![CommandOutput::NotUtf8];
    assert_eq!(next_capture(&c, &failed), None);
    let failed = vec![text("1"), CommandOutput::Failed(Error::Lexer)];
    assert_eq!(next_capture(&c, &failed), None);
}

#[test]
fn captures_needed_lists_commands() {
    let c = cmd("`a`", &["x", "`b c`y", "$(d)"]);
    assert_eq!(captures_needed(&c), strings(&["a", "b c", "d"]));
}

#[test]
fn pre_exec_aliases_variables_and_captures() {
    let aliases = table(&[("ll", "ls -l")]);
    let env = table(&[("D", "/tmp")]);
    let outs = outputs(vec![("echo x", text("x"))]);
    let mut c = cmd("ll", &["$D", "`echo x`"]);
    assert!(pre_exec(&mut c, &aliases, &env, &outs).is_ok());
    assert_eq!(c.exe, "ls");
    assert_eq!(c.args, strings(&["-l", "/tmp", "x"]));
}

#[test]
fn pre_exec_backslash_skips_aliases() {
    let aliases = table(&[("ls", "ls --color")]);
    let env = table(&[]);
    let outs = outputs(vec![]);
    let mut c = cmd("\\ls", &["a"]);
    assert!(pre_exec(&mut c, &aliases, &env, &outs).is_ok());
    assert_eq!(c.exe, "ls");
    assert_eq!(c.args, strings(&["a"]));
}

#[test]
fn plan_kinds() {
    let aliases = table(&[("go", "cd /tmp")]);
    let env = table(&[]);
    let outs = outputs(vec![]);
    assert!(matches!(plan(&cmd("", &[]), &aliases, &env, &outs), Ok(Plan::Trivial)));
    match plan(&cmd("go", &[]), &aliases, &env, &outs) {
        Ok(Plan::Builtin(Builtin::Cd, c)) => assert_eq!(c.args, strings(&["/tmp"])),
        other => panic!("{:?}", other),
    }
    match plan(&cmd("export", &["A", "b"]), &aliases, &env, &outs) {
        Ok(Plan::Builtin(b, _)) => assert_eq!(b, Builtin::Export),
        other => panic!("{:?}", other),
    }
    match plan(&cmd("ls", &["-a"]), &aliases, &env, &outs) {
        Ok(Plan::External(c)) => {
            assert_eq!(c.exe, "ls");
            assert_eq!(c.args, strings(&["-a"]));
        }
        other => panic!("{:?}", other),
    }
}

#[test]
fn plan_reports_capture_failure() {
    let aliases = table(&[]);
    let env = table(&[]);
    let outs = outputs(vec![("x", CommandOutput::NotUtf8)]);
    match plan(&cmd("ls", &["`x`"]), &aliases, &env, &outs) {
        Err(Error::Run(m)) => assert_eq!(m, "Cannot read stdout"),
        other => panic!("{:?}", other),
    }
}

#[test]
fn command_duplicate_is_equal() {
    let ast = parse("a && (b | c)");
    let copy = ast.duplicate();
    match (&ast.0[0], &copy.0[0]) {
        (Command::And(_, _), Command::And(_, r)) => assert!(matches!(&**r, Command::Parenthesis(_))),
        other => panic!("{:?}", other),
    }
}
