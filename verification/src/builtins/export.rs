use vstd::prelude::*;
use crate::error::Error;
use crate::outside::{regex_found, regex_matches};
use crate::parsing::ast::CommandRaw;
use crate::table::{NameTable, texts};
use crate::text::{owned, replace_all, replace_all_str, substring, views};

verus! {

/// A variable reference such as `$HOME`.
pub const DOLLAR_PATTERN: &'static str = "(\\$\\w+)";

/// A braced variable reference such as `${HOME}`.
pub const BRACED_PATTERN: &'static str = "(\\$\\{\\w+\\})";

/// The value of a variable: empty when the name is empty or the variable is
/// not set.
pub open spec fn var_value(env: Map<Seq<char>, Seq<char>>, name: Seq<char>) -> Seq<char> {
    if name.len() > 0 && env.dom().contains(name) {
        env[name]
    } else {
        seq![]
    }
}

/// The name in a reference `$NAME`.
pub open spec fn dollar_name(m: Seq<char>) -> Seq<char> {
    if m.len() >= 1 { m.skip(1) } else { m }
}

/// The name in a reference `${NAME}`.
pub open spec fn braced_name(m: Seq<char>) -> Seq<char> {
    if m.len() >= 3 { m.subrange(2, m.len() - 1) } else { seq![] }
}

/// `acc` with each reference of `ms`, in turn, replaced everywhere by the
/// value of the variable it names.
pub open spec fn replace_vars(acc: Seq<char>, ms: Seq<Seq<char>>, env: Map<Seq<char>, Seq<char>>, braced: bool) -> Seq<char>
    decreases ms.len(),
{
    if ms.len() == 0 {
        acc
    } else {
        let name = if braced { braced_name(ms[0]) } else { dollar_name(ms[0]) };
        replace_vars(replace_all(acc, ms[0], var_value(env, name)), ms.drop_first(), env, braced)
    }
}

/// `s` with its variable references replaced by the values of the variables:
/// first the `$NAME` references found in `s`, then the `${NAME}` ones.
pub open spec fn substitute_vars(s: Seq<char>, env: Map<Seq<char>, Seq<char>>) -> Seq<char> {
    replace_vars(
        replace_vars(s, regex_found(DOLLAR_PATTERN@, s), env, false),
        regex_found(BRACED_PATTERN@, s),
        env,
        true,
    )
}

/// What `export` with the given arguments asks for.
#[derive(Debug)]
pub enum ExportOutcome {
    /// No argument: list the variables.
    List,
    /// One argument: unset that variable.
    Unset(String),
    /// Two arguments: set the variable to the value.
    Assign(String, String),
    /// More arguments: print the usage.
    Usage,
}

/// The value given to `export`: without its quotes when it starts with `"`.
pub open spec fn export_value(v: Seq<char>) -> Seq<char> {
    if v.len() > 0 && v[0] == '"' { v.subrange(1, v.len() - 1) } else { v }
}

/// A value `export` can take: one that starts with `"` has a second
/// character, and its last character is ASCII (so that dropping it drops
/// one byte).
pub open spec fn exportable(v: Seq<char>) -> bool {
    v.len() > 0 && v[0] == '"' ==> v.len() >= 2 && (v[v.len() - 1] as u32) < 128
}

/// Whether `export` can take the value `v` (see `exportable`).
pub fn is_exportable(v: &str) -> (res: bool)
    ensures
        res == exportable(v@),
{
    let n = v.unicode_len();
    if n == 0 || v.get_char(0) != '"' {
        return true;
    }
    n >= 2 && (v.get_char(n - 1) as u32) < 128
}

/// The environment after `export` with the arguments `args`: one argument
/// unsets that variable, two set it to the value (see `export_value`); any
/// other number leaves it as it is.
pub open spec fn exported(env: Map<Seq<char>, Seq<char>>, args: Seq<Seq<char>>) -> Map<Seq<char>, Seq<char>> {
    if args.len() == 1 {
        env.remove(args[0])
    } else if args.len() == 2 {
        env.insert(args[0], export_value(args[1]))
    } else {
        env
    }
}

/// The `export` builtin: lists, unsets or sets an environment variable. It
/// changes `env`, the environment as the library sees it, and says what is
/// to be done to the environment of the process.
pub fn export(cmd: &CommandRaw, env: &mut NameTable<String>) -> (res: ExportOutcome)
    requires
        cmd.args@.len() == 2 ==> exportable(cmd.args@[1]@),
    ensures
        cmd.args@.len() == 0 ==> res is List,
        cmd.args@.len() == 1 ==> (res matches ExportOutcome::Unset(n) && n@ == cmd.args@[0]@),
        cmd.args@.len() == 2 ==> (res matches ExportOutcome::Assign(n, v) && n@ == cmd.args@[0]@ && v@ == export_value(
            cmd.args@[1]@,
        )),
        cmd.args@.len() > 2 ==> res is Usage,
        texts(final(env)@) == exported(texts(old(env)@), views(cmd.args@)),
{
    let ghost before = env@;
    if cmd.args.len() == 0 {
        ExportOutcome::List
    } else if cmd.args.len() == 1 {
        env.remove(cmd.args[0].as_str());
        proof {
            assert(texts(env@) =~= texts(before).remove(cmd.args@[0]@));
        }
        ExportOutcome::Unset(cmd.args[0].clone())
    } else if cmd.args.len() == 2 {
        let val = &cmd.args[1];
        let n = val.unicode_len();
        let v = if n > 0 && val.as_str().get_char(0) == '"' {
            substring(val.as_str(), 1, n - 1)
        } else {
            owned(val.as_str())
        };
        env.insert(owned(cmd.args[0].as_str()), owned(v.as_str()));
        proof {
            assert(texts(env@) =~= texts(before).insert(cmd.args@[0]@, export_value(cmd.args@[1]@)));
        }
        ExportOutcome::Assign(owned(cmd.args[0].as_str()), v)
    } else {
        ExportOutcome::Usage
    }
}

/// The value of the variable `var`: empty for an empty name, else the value
/// it has in `env`, or `Error::Env` when it has none.
pub fn get(env: &NameTable<String>, var: &str) -> (res: Result<String, Error>)
    ensures
        var@.len() == 0 ==> (res matches Ok(v) && v@.len() == 0),
        var@.len() > 0 && texts(env@).dom().contains(var@) ==> (res matches Ok(v) && v@ == texts(env@)[var@]),
        var@.len() > 0 && !texts(env@).dom().contains(var@) ==> (res matches Err(Error::Env(n)) && n@ == var@),
{
    if var.unicode_len() == 0 {
        return Ok(String::new());
    }
    match env.get(var) {
        Some(v) => Ok(v.clone()),
        None => Err(Error::Env(owned(var))),
    }
}

fn value_of(env: &NameTable<String>, name: &str) -> (res: String)
    ensures
        res@ == var_value(texts(env@), name@),
{
    match get(env, name) {
        Ok(v) => v,
        Err(_) => String::new(),
    }
}

fn replace_matches(acc: String, ms: &Vec<String>, env: &NameTable<String>, braced: bool) -> (res: String)
    ensures
        res@ == replace_vars(acc@, views(ms@), texts(env@), braced),
{
    let mut out = acc;
    let mut k: usize = 0;
    assert(views(ms@).skip(0) =~= views(ms@));
    while k < ms.len()
        invariant
            k <= ms@.len(),
            replace_vars(acc@, views(ms@), texts(env@), braced) == replace_vars(out@, views(ms@).skip(k as int), texts(env@), braced),
        decreases ms@.len() - k,
    {
        let m = &ms[k];
        let len = m.unicode_len();
        let name = if braced {
            if len >= 3 { substring(m.as_str(), 2, len - 1) } else { String::new() }
        } else {
            if len >= 1 { substring(m.as_str(), 1, len) } else { m.clone() }
        };
        proof {
            if !braced && len >= 1 {
                assert(m@.subrange(1, len as int) =~= m@.skip(1));
            }
            assert(views(ms@).skip(k as int)[0] == m@);
            assert(views(ms@).skip(k as int).drop_first() =~= views(ms@).skip(k + 1));
        }
        let value = value_of(env, name.as_str());
        out = replace_all_str(out.as_str(), m.as_str(), value.as_str());
        k = k + 1;
    }
    proof {
        assert(views(ms@).skip(ms@.len() as int) =~= Seq::<Seq<char>>::empty());
    }
    out
}

/// Replaces the variable references in `s` (see `substitute_vars`).
pub fn substitute_one(s: &mut String, env: &NameTable<String>) -> (res: Result<(), Error>)
    ensures
        res is Ok,
        final(s)@ == substitute_vars(old(s)@, texts(env@)),
{
    let plain = regex_matches(DOLLAR_PATTERN, s.as_str());
    let braced = regex_matches(BRACED_PATTERN, s.as_str());
    let first = replace_matches(s.clone(), &plain, env, false);
    let second = replace_matches(first, &braced, env, true);
    *s = second;
    Ok(())
}

/// Replaces the variable references in the name and in each argument of `cmd`.
pub fn substitute(cmd: &mut CommandRaw, env: &NameTable<String>) -> (res: Result<(), Error>)
    ensures
        res is Ok,
        final(cmd).exe@ == substitute_vars(old(cmd).exe@, texts(env@)),
        final(cmd).args@.len() == old(cmd).args@.len(),
        forall|i: int| 0 <= i < old(cmd).args@.len() ==> #[trigger] final(cmd).args@[i]@ == substitute_vars(old(cmd).args@[i]@, texts(env@)),
{
    let _ = substitute_one(&mut cmd.exe, env);
    let mut args: Vec<String> = Vec::new();
    let mut i: usize = 0;
    while i < cmd.args.len()
        invariant
            cmd.args@ == old(cmd).args@,
            i <= cmd.args@.len(),
            args@.len() == i,
            forall|k: int| 0 <= k < i ==> #[trigger] args@[k]@ == substitute_vars(old(cmd).args@[k]@, texts(env@)),
        decreases cmd.args@.len() - i,
    {
        let mut a = cmd.args[i].clone();
        let _ = substitute_one(&mut a, env);
        args.push(a);
        i = i + 1;
    }
    cmd.args = args;
    Ok(())
}

} // verus!
