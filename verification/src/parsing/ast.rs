use vstd::prelude::*;
use crate::text::views;

verus! {

/// A list of commands run one after the other (`a; b; c`).
#[derive(Debug)]
pub struct Ast(pub Vec<Command>);

/// A simple command: the program's name and its arguments.
#[derive(Clone, Debug)]
pub struct CommandRaw {
    pub exe: String,
    pub args: Vec<String>,
}

/// A command line: a simple command, a parenthesised list, or two commands
/// joined by `&&`, `||` or `|`.
#[derive(Debug)]
pub enum Command {
    Raw(CommandRaw),
    Parenthesis(Box<Ast>),
    And(Box<Command>, Box<Command>),
    Or(Box<Command>, Box<Command>),
    Pipe(Box<Command>, Box<Command>),
}

/// The mathematical form of a command, with texts in place of strings.
pub enum SpecCommand {
    Raw(Seq<char>, Seq<Seq<char>>),
    Parenthesis(Seq<SpecCommand>),
    And(Box<SpecCommand>, Box<SpecCommand>),
    Or(Box<SpecCommand>, Box<SpecCommand>),
    Pipe(Box<SpecCommand>, Box<SpecCommand>),
}

impl View for CommandRaw {
    type V = (Seq<char>, Seq<Seq<char>>);

    open spec fn view(&self) -> (Seq<char>, Seq<Seq<char>>) {
        (self.exe@, views(self.args@))
    }
}

/// The mathematical form of a command.
pub open spec fn spec_command(c: &Command) -> SpecCommand
    decreases c, 0int,
{
    match c {
        Command::Raw(r) => SpecCommand::Raw(r.exe@, views(r.args@)),
        Command::Parenthesis(a) => SpecCommand::Parenthesis(spec_commands(a.0@)),
        Command::And(l, r) => SpecCommand::And(Box::new(spec_command(l)), Box::new(spec_command(r))),
        Command::Or(l, r) => SpecCommand::Or(Box::new(spec_command(l)), Box::new(spec_command(r))),
        Command::Pipe(l, r) => SpecCommand::Pipe(Box::new(spec_command(l)), Box::new(spec_command(r))),
    }
}

/// The mathematical form of a list of commands.
pub open spec fn spec_commands(cs: Seq<Command>) -> Seq<SpecCommand>
    decreases cs, 1int,
{
    if cs.len() == 0 {
        seq![]
    } else {
        spec_commands(cs.subrange(0, cs.len() - 1)).push(spec_command(&cs[cs.len() - 1]))
    }
}

impl View for Command {
    type V = SpecCommand;

    open spec fn view(&self) -> SpecCommand {
        spec_command(self)
    }
}

impl View for Ast {
    type V = Seq<SpecCommand>;

    open spec fn view(&self) -> Seq<SpecCommand> {
        spec_commands(self.0@)
    }
}

pub proof fn lemma_spec_commands(cs: Seq<Command>)
    ensures
        spec_commands(cs).len() == cs.len(),
        forall|i: int| 0 <= i < cs.len() ==> #[trigger] spec_commands(cs)[i] == spec_command(&cs[i]),
    decreases cs.len(),
{
    if cs.len() > 0 {
        let front = cs.subrange(0, cs.len() - 1);
        lemma_spec_commands(front);
        assert forall|i: int| 0 <= i < cs.len() implies #[trigger] spec_commands(cs)[i] == spec_command(&cs[i]) by {
            if i < cs.len() - 1 {
                assert(front[i] == cs[i]);
            }
        }
    }
}

impl CommandRaw {
    /// A simple command with the given name and arguments.
    pub fn new(exe: String, args: Vec<String>) -> (res: Self)
        ensures
            res.exe == exe,
            res.args == args,
    {
        Self { exe, args }
    }
}

} // verus!

verus! {

/// `c` with its left-most part replaced by `n`: the left operand of `&&`,
/// `||` and `|`, the first command of a parenthesised list; a simple command
/// is left as it is.
pub open spec fn spec_replace_left(c: SpecCommand, n: SpecCommand) -> SpecCommand {
    match c {
        SpecCommand::Raw(exe, args) => SpecCommand::Raw(exe, args),
        SpecCommand::Parenthesis(cs) => SpecCommand::Parenthesis(cs.update(0, n)),
        SpecCommand::And(_, r) => SpecCommand::And(Box::new(n), r),
        SpecCommand::Or(_, r) => SpecCommand::Or(Box::new(n), r),
        SpecCommand::Pipe(_, r) => SpecCommand::Pipe(Box::new(n), r),
    }
}

/// Replacing the left-most part is defined: a parenthesised list is not empty.
pub open spec fn can_replace_left(c: SpecCommand) -> bool {
    c is Parenthesis ==> c->Parenthesis_0.len() > 0
}

pub proof fn lemma_spec_commands_update(cs: Seq<Command>, i: int, c: Command)
    requires
        0 <= i < cs.len(),
    ensures
        spec_commands(cs.update(i, c)) == spec_commands(cs).update(i, spec_command(&c)),
{
    lemma_spec_commands(cs);
    lemma_spec_commands(cs.update(i, c));
    assert(spec_commands(cs.update(i, c)) =~= spec_commands(cs).update(i, spec_command(&c)));
}

impl Ast {
    /// Replaces the first command of the list.
    pub fn replace_left(&mut self, cmd: Box<Command>)
        requires
            old(self).0@.len() > 0,
        ensures
            final(self)@ == old(self)@.update(0, cmd@),
    {
        proof {
            lemma_spec_commands_update(self.0@, 0, *cmd);
        }
        self.0.set(0, *cmd);
    }

    /// A copy of the list.
    pub fn duplicate(&self) -> (res: Ast)
        ensures
            res@ == self@,
        decreases self, 0int,
    {
        let mut out: Vec<Command> = Vec::new();
        let mut i: usize = 0;
        proof {
            lemma_spec_commands(self.0@);
        }
        while i < self.0.len()
            invariant
                i <= self.0@.len(),
                out@.len() == i,
                spec_commands(self.0@).len() == self.0@.len(),
                forall|k: int| 0 <= k < i ==> spec_command(&#[trigger] out@[k]) == spec_commands(self.0@)[k],
                forall|k: int| 0 <= k < self.0@.len() ==> #[trigger] spec_commands(self.0@)[k] == spec_command(&self.0@[k]),
            decreases self.0@.len() - i,
        {
            assert(decreases_to!(self => self.0@[i as int]));
            let c = self.0[i].duplicate();
            out.push(c);
            i = i + 1;
        }
        proof {
            lemma_spec_commands(out@);
            assert(spec_commands(out@) =~= spec_commands(self.0@));
        }
        Ast(out)
    }
}

impl CommandRaw {
    /// A copy of the command.
    pub fn duplicate(&self) -> (res: CommandRaw)
        ensures
            res@ == self@,
    {
        let args = self.args.clone();
        assert(args@ =~= self.args@);
        CommandRaw { exe: self.exe.clone(), args }
    }
}

impl Command {
    /// A copy of the command.
    pub fn duplicate(&self) -> (res: Command)
        ensures
            res@ == self@,
        decreases self, 1int,
    {
        match self {
            Command::Raw(r) => Command::Raw(r.duplicate()),
            Command::Parenthesis(a) => Command::Parenthesis(Box::new(a.duplicate())),
            Command::And(l, r) => Command::And(Box::new(l.duplicate()), Box::new(r.duplicate())),
            Command::Or(l, r) => Command::Or(Box::new(l.duplicate()), Box::new(r.duplicate())),
            Command::Pipe(l, r) => Command::Pipe(Box::new(l.duplicate()), Box::new(r.duplicate())),
        }
    }

    /// Replaces the left-most part of the command (see `spec_replace_left`).
    pub fn replace_left(&mut self, cmd: Box<Command>)
        requires
            can_replace_left(old(self)@),
        ensures
            final(self)@ == spec_replace_left(old(self)@, cmd@),
    {
        match self {
            Command::And(left, _) => {
                *left = cmd;
            },
            Command::Or(left, _) => {
                *left = cmd;
            },
            Command::Pipe(left, _) => {
                *left = cmd;
            },
            Command::Parenthesis(left) => {
                proof {
                    lemma_spec_commands(left.0@);
                }
                left.replace_left(cmd);
            },
            Command::Raw(_) => {},
        }
    }
}

} // verus!
