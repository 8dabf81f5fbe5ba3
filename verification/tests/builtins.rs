use rsh::builtins::alias::{alias, alias_chain_ends, substitute as alias_substitute, AliasOutcome};
use rsh::builtins::cd::{cd, CdTarget};
use rsh::builtins::export::{export, get, substitute as export_substitute, substitute_one, ExportOutcome};
use rsh::builtins::{get_builtins, Builtin};
use rsh::error::Error;
use rsh::parsing::ast::CommandRaw;
use rsh::table::NameTable;

fn cmd(exe: &str, args: &[&str]) -> CommandRaw {
    CommandRaw::new(exe.to_string(), args.iter().map(|a| a.to_string()).collect())
}

fn table(pairs: &[(&str, &str)]) -> NameTable<String> {
    let mut t = NameTable::new();
    for (k, v) in pairs.iter() {
        t.insert(k.to_string(), v.to_string());
    }
    t
}

fn value(t: &NameTable<String>, k: &str) -> Option<String> {
    t.get(k).cloned()
}

#[test]
fn table_insert_get_remove() {
    let mut t = table(&[("a", "1"), ("b", "2")]);
    assert_eq!(value(&t, "a"), Some("1".to_string()));
    assert!(t.contains("b"));
    t.insert("a".to_string(), "3".to_string());
    assert_eq!(value(&t, "a"), Some("3".to_string()));
    assert_eq!(t.entries().len(), 2);
    t.remove("a");
    assert_eq!(value(&t, "a"), None);
    assert!(!t.contains("a"));
    t.remove("missing");
    assert_eq!(t.entries().len(), 1);
    assert_eq!(t.entries()[0].0, "b");
}

#[test]
fn builtins_by_name() {
    let b = get_builtins();
    assert_eq!(b.get("cd"), Some(&Builtin::Cd));
    assert_eq!(b.get("alias"), Some(&Builtin::Alias));
    assert_eq!(b.get("export"), Some(&Builtin::Export));
    assert_eq!(b.get("ls"), None);
}

#[test]
fn alias_defines_value_as_given() {
    let mut t = NameTable::new();
    let r = alias(&cmd("alias", &["ll", "ls -l"]), &mut t);
    assert_eq!(r, AliasOutcome::Defined);
    assert_eq!(value(&t, "ll"), Some("ls -l".to_string()));
}

#[test]
fn alias_removes_lists_and_usage() {
    let mut t = table(&[("ll", "ls -l")]);
    assert_eq!(alias(&cmd("alias", &[]), &mut t), AliasOutcome::Listed);
    assert_eq!(value(&t, "ll"), Some("ls -l".to_string()));
    assert_eq!(alias(&cmd("alias", &["a", "b", "c"]), &mut t), AliasOutcome::Usage);
    assert_eq!(value(&t, "ll"), Some("ls -l".to_string()));
    assert_eq!(alias(&cmd("alias", &["ll"]), &mut t), AliasOutcome::Removed);
    assert_eq!(value(&t, "ll"), None);
}

#[test]
fn alias_substitute_expands_name() {
    let t = table(&[("ll", "ls -l")]);
    let mut c = cmd("ll", &["/tmp"]);
    alias_substitute(&mut c, &t);
    assert_eq!(c.exe, "ls");
    assert_eq!(c.args, vec!["-l".to_string(), "/tmp".to_string()]);
}

#[test]
fn alias_substitute_follows_chains() {
    let t = table(&[("l", "ll -a"), ("ll", "ls -l")]);
    let mut c = cmd("l", &["x"]);
    alias_substitute(&mut c, &t);
    assert_eq!(c.exe, "ls");
    assert_eq!(c.args, vec!["-l".to_string(), "-a".to_string(), "x".to_string()]);
}

#[test]
fn alias_substitute_keeps_other_names() {
    let t = table(&[("ll", "ls -l")]);
    let mut c = cmd("pwd", &["-P"]);
    alias_substitute(&mut c, &t);
    assert_eq!(c.exe, "pwd");
    assert_eq!(c.args, vec!["-P".to_string()]);
}

#[test]
fn alias_chains_that_end_and_cycles() {
    let t = table(&[("a", "b x"), ("b", "c"), ("p", "q"), ("q", "p -v")]);
    assert!(alias_chain_ends("a", &t));
    assert!(alias_chain_ends("c", &t));
    assert!(alias_chain_ends("zzz", &t));
    assert!(!alias_chain_ends("p", &t));
    assert!(!alias_chain_ends("q", &t));
    let selfloop = table(&[("ls", "ls --color")]);
    assert!(!alias_chain_ends("ls", &selfloop));
}

#[test]
fn export_outcomes() {
    let mut env = table(&[("X", "0"), ("Y", "1")]);
    assert!(matches!(export(&cmd("export", &[]), &mut env), ExportOutcome::List));
    match export(&cmd("export", &["X"]), &mut env) {
        ExportOutcome::Unset(n) => assert_eq!(n, "X"),
        other => panic!("{:?}", other),
    }
    assert_eq!(value(&env, "X"), None);
    assert_eq!(value(&env, "Y"), Some("1".to_string()));
    match export(&cmd("export", &["X", "\"a b\""]), &mut env) {
        ExportOutcome::Assign(n, v) => {
            assert_eq!(n, "X");
            assert_eq!(v, "a b");
        }
        other => panic!("{:?}", other),
    }
    assert_eq!(value(&env, "X"), Some("a b".to_string()));
    match export(&cmd("export", &["X", "plain"]), &mut env) {
        ExportOutcome::Assign(n, v) => {
            assert_eq!(n, "X");
            assert_eq!(v, "plain");
        }
        other => panic!("{:?}", other),
    }
    assert_eq!(get(&env, "X").unwrap(), "plain");
    match export(&cmd("export", &["X", ""]), &mut env) {
        ExportOutcome::Assign(_, v) => assert_eq!(v, ""),
        other => panic!("{:?}", other),
    }
    assert!(matches!(export(&cmd("export", &["a", "b", "c"]), &mut env), ExportOutcome::Usage));
    assert_eq!(value(&env, "Y"), Some("1".to_string()));
}

#[test]
fn get_variables() {
    let env = table(&[("HOME", "/root")]);
    assert_eq!(get(&env, "HOME").unwrap(), "/root");
    assert_eq!(get(&env, "").unwrap(), "");
    match get(&env, "NOPE") {
        Err(Error::Env(n)) => assert_eq!(n, "NOPE"),
        other => panic!("{:?}", other),
    }
}

#[test]
fn substitute_one_dollar_and_braced() {
    let env = table(&[("HOME", "/root"), ("U", "me")]);
    let mut s = "$HOME/x".to_string();
    assert!(substitute_one(&mut s, &env).is_ok());
    assert_eq!(s, "/root/x");
    let mut s = "${HOME}x".to_string();
    assert!(substitute_one(&mut s, &env).is_ok());
    assert_eq!(s, "/rootx");
    let mut s = "$HOME${HOME}:$U".to_string();
    assert!(substitute_one(&mut s, &env).is_ok());
    assert_eq!(s, "/root/root:me");
}

#[test]
fn substitute_one_unset_is_empty() {
    let env = table(&[]);
    let mut s = "a$NOPE-b".to_string();
    assert!(substitute_one(&mut s, &env).is_ok());
    assert_eq!(s, "a-b");
    let mut s = "cost$".to_string();
    assert!(substitute_one(&mut s, &env).is_ok());
    assert_eq!(s, "cost$");
}

#[test]
fn export_substitute_command() {
    let env = table(&[("D", "/tmp"), ("P", "ls")]);
    let mut c = cmd("$P", &["$D", "${D}/x", "y"]);
    assert!(export_substitute(&mut c, &env).is_ok());
    assert_eq!(c.exe, "ls");
    assert_eq!(c.args, vec!["/tmp".to_string(), "/tmp/x".to_string(), "y".to_string()]);
}

#[test]
fn cd_targets() {
    assert!(matches!(cd(&cmd("cd", &[])), CdTarget::Home));
    match cd(&cmd("cd", &["/tmp"])) {
        CdTarget::Dir(d) => assert_eq!(d, "/tmp"),
        other => panic!("{:?}", other),
    }
    assert!(matches!(cd(&cmd("cd", &["a", "b"])), CdTarget::Usage));
}
