use vstd::prelude::*;
use crate::parsing::ast::CommandRaw;

verus! {

/// Where `cd` goes.
#[derive(Debug)]
pub enum CdTarget {
    /// Too many arguments: print the usage.
    Usage,
    /// No argument: the home directory.
    Home,
    /// The directory named by the one argument.
    Dir(String),
}

/// What `cd` with the arguments of `cmd` does.
pub fn cd(cmd: &CommandRaw) -> (res: CdTarget)
    ensures
        cmd.args@.len() > 1 ==> res is Usage,
        cmd.args@.len() == 0 ==> res is Home,
        cmd.args@.len() == 1 ==> (res matches CdTarget::Dir(d) && d@ == cmd.args@[0]@),
{
    if cmd.args.len() > 1 {
        CdTarget::Usage
    } else if cmd.args.len() == 0 {
        CdTarget::Home
    } else {
        CdTarget::Dir(cmd.args[0].clone())
    }
}

} // verus!
