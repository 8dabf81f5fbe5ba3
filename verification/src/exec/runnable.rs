use vstd::prelude::*;
use crate::builtins::{Builtin, get_builtins};
use crate::error::Error;
use crate::exec::substitute::{CommandOutput, can_prepare, expand_words, inner_exec_words, pre_exec, prepared, reports_failure};
use crate::parsing::ast::CommandRaw;
use crate::table::{NameTable, texts};

verus! {

/// How a simple command is run.
#[derive(Debug)]
pub enum Plan {
    /// Its name is empty: it runs `true`.
    Trivial,
    /// The shell runs it itself.
    Builtin(Builtin, CommandRaw),
    /// It runs this program.
    External(CommandRaw),
}

/// The builtin with the given name.
pub open spec fn builtin_named(name: Seq<char>) -> Option<Builtin> {
    if name == "cd"@ {
        Some(Builtin::Cd)
    } else if name == "alias"@ {
        Some(Builtin::Alias)
    } else if name == "export"@ {
        Some(Builtin::Export)
    } else {
        None
    }
}

/// The plan for a prepared command `p`, given what its substitutions gave.
pub open spec fn plan_outcome(p: (Seq<char>, Seq<Seq<char>>), outs: Seq<CommandOutput>, res: Result<Plan, Error>) -> bool {
    match inner_exec_words(p.0, outs, 0) {
        Err(f) => res matches Err(err) && reports_failure(err, f),
        Ok((ew, a)) => match expand_words(p.1, outs, a) {
            Err(f) => res matches Err(err) && reports_failure(err, f),
            Ok((aw, _)) => match builtin_named(ew[0]) {
                Some(b) => res matches Ok(Plan::Builtin(b2, c)) && b2 == b && c@ == (ew[0], ew.drop_first() + aw),
                None => res matches Ok(Plan::External(c)) && c@ == (ew[0], ew.drop_first() + aw),
            },
        },
    }
}

/// Decides how to run a simple command: a command with an empty name runs
/// `true`; any other is prepared (see `pre_exec`) and then run by the shell
/// when its name is that of a builtin, else as a program.
pub fn plan(cmd: &CommandRaw, aliases: &NameTable<String>, env: &NameTable<String>, outputs: &Vec<CommandOutput>) -> (res: Result<Plan, Error>)
    requires
        cmd.exe@.len() > 0 ==> can_prepare(texts(aliases@), cmd@),
    ensures
        cmd.exe@.len() == 0 ==> res matches Ok(Plan::Trivial),
        cmd.exe@.len() > 0 ==> plan_outcome(prepared(texts(aliases@), texts(env@), cmd@), outputs@, res),
{
    if cmd.exe.unicode_len() == 0 {
        return Ok(Plan::Trivial);
    }
    let mut c = cmd.duplicate();
    match pre_exec(&mut c, aliases, env, outputs) {
        Err(e) => Err(e),
        Ok(()) => {
            let builtins = get_builtins();
            proof {
                reveal_strlit("cd");
                reveal_strlit("alias");
                reveal_strlit("export");
            }
            proof {
                assert("cd"@.len() == 2);
                assert("alias"@.len() == 5);
                assert("export"@.len() == 6);
                assert("cd"@ != "alias"@);
                assert("cd"@ != "export"@);
                assert("alias"@ != "export"@);
                let m = builtins@;
                let name = c.exe@;
                assert(m.dom().contains(name) <==> builtin_named(name) is Some);
                assert(builtin_named(name) matches Some(b) ==> m[name] == b);
            }
            match builtins.get(c.exe.as_str()) {
                Some(b) => Ok(Plan::Builtin(*b, c)),
                None => Ok(Plan::External(c)),
            }
        },
    }
}

} // verus!
