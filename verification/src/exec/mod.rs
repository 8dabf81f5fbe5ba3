use vstd::prelude::*;
use crate::parsing::ast::{Ast, Command, CommandRaw, SpecCommand, spec_command, spec_commands, lemma_spec_commands, spec_replace_left, can_replace_left};
use crate::text::{owned, views};

pub mod runnable;
pub mod substitute;

verus! {

/// Outside work the shell asks for while it runs a command line. Programs are
/// numbered by the position of the answer that reported them started.
#[derive(Debug)]
pub enum Action {
    /// Prepare and run this simple command, and wait for it.
    Exec(CommandRaw),
    /// Start the first command with its output piped into the second, and do
    /// not wait.
    Pipe(CommandRaw, CommandRaw),
    /// Wait for the program with this number and report its exit code.
    Wait(usize),
}

/// The answer to an action.
#[derive(Clone, Copy, Debug, PartialEq, Eq, Structural)]
pub enum Event {
    /// The program was started (and, for `Exec`, waited for).
    Started,
    /// The program exited with this code.
    Exited(i32),
    /// The action failed; the error it gave ends the run.
    Failed,
}

/// The mathematical form of an action.
pub enum SpecAction {
    Exec((Seq<char>, Seq<Seq<char>>)),
    Pipe((Seq<char>, Seq<Seq<char>>), (Seq<char>, Seq<Seq<char>>)),
    Wait(int),
}

impl View for Action {
    type V = SpecAction;

    open spec fn view(&self) -> SpecAction {
        match self {
            Action::Exec(c) => SpecAction::Exec(c@),
            Action::Pipe(l, r) => SpecAction::Pipe(l@, r@),
            Action::Wait(p) => SpecAction::Wait(*p as int),
        }
    }
}

/// How far a run gets with the answers given so far.
pub enum Walk {
    /// It needs the answer to this action.
    Need(SpecAction),
    /// The answer at this position was a failure.
    Fail(int),
    /// A pipe whose left side is no simple command.
    CannotPipe,
    /// A list with no command in it.
    Stuck,
    /// It is done: the program that stands for its result, and the position of
    /// the next answer.
    Val(int, int),
}

/// The command `true`, which `||` puts in place of what it skips.
pub open spec fn true_command() -> SpecCommand {
    SpecCommand::Raw("true"@, seq![])
}

/// The number of nodes of a command.
pub open spec fn size(c: SpecCommand) -> nat
    decreases c, 0int,
{
    match c {
        SpecCommand::Raw(_, _) => 1,
        SpecCommand::Parenthesis(cs) => 1 + size_list(cs),
        SpecCommand::And(l, r) => 1 + size(*l) + size(*r),
        SpecCommand::Or(l, r) => 1 + size(*l) + size(*r),
        SpecCommand::Pipe(l, r) => 1 + size(*l) + size(*r),
    }
}

/// The number of nodes of a list of commands.
pub open spec fn size_list(cs: Seq<SpecCommand>) -> nat
    decreases cs, 1int,
{
    if cs.len() == 0 {
        0
    } else {
        size(cs[0]) + size_list(cs.subrange(1, cs.len() as int))
    }
}

pub proof fn lemma_size_positive(c: SpecCommand)
    ensures
        size(c) >= 1,
{
}

pub proof fn lemma_size_list_elem(cs: Seq<SpecCommand>, i: int)
    requires
        0 <= i < cs.len(),
    ensures
        size(cs[i]) <= size_list(cs),
    decreases cs.len(),
{
    if i > 0 {
        lemma_size_list_elem(cs.subrange(1, cs.len() as int), i - 1);
    }
}

pub proof fn lemma_size_replace_left(r: SpecCommand)
    requires
        can_replace_left(r),
    ensures
        size(spec_replace_left(r, true_command())) <= size(r),
{
    lemma_size_positive(r);
    match r {
        SpecCommand::Parenthesis(cs) => {
            let cs2 = cs.update(0, true_command());
            lemma_size_positive(cs[0]);
            assert(cs2.subrange(1, cs2.len() as int) =~= cs.subrange(1, cs.len() as int));
            assert(size(true_command()) == 1);
            assert(size_list(cs2) == size(cs2[0]) + size_list(cs2.subrange(1, cs2.len() as int)));
            assert(size_list(cs) == size(cs[0]) + size_list(cs.subrange(1, cs.len() as int)));
        },
        SpecCommand::And(l, _) => {
            lemma_size_positive(*l);
            assert(size(true_command()) == 1);
        },
        SpecCommand::Or(l, _) => {
            lemma_size_positive(*l);
            assert(size(true_command()) == 1);
        },
        SpecCommand::Pipe(l, _) => {
            lemma_size_positive(*l);
            assert(size(true_command()) == 1);
        },
        SpecCommand::Raw(_, _) => {},
    }
}

/// Running a program to the end: a simple command asks for `Exec`.
pub open spec fn run_program(ev: Seq<Event>, k: int, a: SpecAction) -> Walk {
    if k < ev.len() {
        if ev[k] == Event::Failed { Walk::Fail(k) } else { Walk::Val(k, k + 1) }
    } else {
        Walk::Need(a)
    }
}

/// The exit code of program `p`, waited for at answer `k`, and what follows:
/// `then(code)` is the rest of the run.
pub open spec fn wait_for(ev: Seq<Event>, p: int, k: int) -> Option<Walk> {
    if k >= ev.len() {
        Some(Walk::Need(SpecAction::Wait(p)))
    } else {
        match ev[k] {
            Event::Exited(_) => None,
            _ => Some(Walk::Fail(k)),
        }
    }
}

/// How far running the command `c` gets with the answers `ev` from position
/// `k` on. `a && b` runs `b` only when `a` exits with 0; `a || b` runs `b`
/// when `a` exits with another code, and when `a` exits with 0 it runs `b`
/// with its left-most part replaced by `true` (nothing at all when `b` is a
/// simple command); `a | b` pipes two simple commands, runs just `b` when `a`
/// is simple and `b` is not, and cannot run otherwise; a list runs its
/// commands one after the other. The result is the program of the left side
/// when `&&` or `||` stops there, else that of the last command run.
pub open spec fn run_cmd(c: SpecCommand, ev: Seq<Event>, k: int) -> Walk
    decreases size(c), 0int,
{
    match c {
        SpecCommand::Raw(exe, args) => run_program(ev, k, SpecAction::Exec((exe, args))),
        SpecCommand::Pipe(l, r) => match *l {
            SpecCommand::Raw(le, la) => match *r {
                SpecCommand::Raw(re, ra) => run_program(ev, k, SpecAction::Pipe((le, la), (re, ra))),
                _ => run_cmd(*r, ev, k),
            },
            _ => Walk::CannotPipe,
        },
        SpecCommand::Parenthesis(cs) => run_list(cs, ev, k),
        SpecCommand::And(l, r) => match run_cmd(*l, ev, k) {
            Walk::Val(p, k1) => match wait_for(ev, p, k1) {
                Some(w) => w,
                None => if ev[k1]->Exited_0 != 0 {
                    Walk::Val(p, k1 + 1)
                } else {
                    run_cmd(*r, ev, k1 + 1)
                },
            },
            other => other,
        },
        SpecCommand::Or(l, r) => match run_cmd(*l, ev, k) {
            Walk::Val(p, k1) => match wait_for(ev, p, k1) {
                Some(w) => w,
                None => if ev[k1]->Exited_0 == 0 {
                    if !can_replace_left(*r) {
                        Walk::Stuck
                    } else {
                        let r2 = spec_replace_left(*r, true_command());
                        proof {
                            lemma_size_replace_left(*r);
                        }
                        if r2 is Raw {
                            Walk::Val(p, k1 + 1)
                        } else {
                            run_cmd(r2, ev, k1 + 1)
                        }
                    }
                } else {
                    run_cmd(*r, ev, k1 + 1)
                },
            },
            other => other,
        },
    }
}

/// How far running the list `cs` gets: its commands one after the other;
/// the result is that of the last.
pub open spec fn run_list(cs: Seq<SpecCommand>, ev: Seq<Event>, k: int) -> Walk
    decreases size_list(cs), 1int,
{
    if cs.len() == 0 {
        Walk::Stuck
    } else if cs.len() == 1 {
        run_cmd(cs[0], ev, k)
    } else {
        match run_cmd(cs[0], ev, k) {
            Walk::Val(_, k1) => {
                proof {
                    lemma_size_positive(cs[0]);
                }
                run_list(cs.subrange(1, cs.len() as int), ev, k1)
            },
            other => other,
        }
    }
}

/// Every parenthesised list in the command holds a command.
pub open spec fn well_formed(c: SpecCommand) -> bool
    decreases c, 0int,
{
    match c {
        SpecCommand::Raw(_, _) => true,
        SpecCommand::Parenthesis(cs) => runnable(cs),
        SpecCommand::And(l, r) => well_formed(*l) && well_formed(*r),
        SpecCommand::Or(l, r) => well_formed(*l) && well_formed(*r),
        SpecCommand::Pipe(l, r) => well_formed(*l) && well_formed(*r),
    }
}

/// A list that can be run: it holds a command, and every command in it is
/// well formed.
pub open spec fn runnable(cs: Seq<SpecCommand>) -> bool
    decreases cs, 1int,
{
    cs.len() > 0 && forall|i: int| 0 <= i < cs.len() ==> well_formed(#[trigger] cs[i])
}

} // verus!

verus! {

/// Whether every parenthesised list in `c` holds a command.
pub fn is_well_formed(c: &Command) -> (res: bool)
    ensures
        res == well_formed(c@),
    decreases c, 0int,
{
    match c {
        Command::Raw(_) => true,
        Command::Parenthesis(a) => is_runnable_list(&a.0),
        Command::And(l, r) => is_well_formed(l) && is_well_formed(r),
        Command::Or(l, r) => is_well_formed(l) && is_well_formed(r),
        Command::Pipe(l, r) => is_well_formed(l) && is_well_formed(r),
    }
}

/// Whether a list of commands can be run (see `runnable`).
pub fn is_runnable_list(cs: &Vec<Command>) -> (res: bool)
    ensures
        res == runnable(spec_commands(cs@)),
    decreases cs, 1int,
{
    proof {
        lemma_spec_commands(cs@);
    }
    if cs.len() == 0 {
        return false;
    }
    let mut i: usize = 0;
    while i < cs.len()
        invariant
            i <= cs@.len(),
            spec_commands(cs@).len() == cs@.len(),
            forall|j: int| 0 <= j < cs@.len() ==> #[trigger] spec_commands(cs@)[j] == spec_command(&cs@[j]),
            forall|j: int| 0 <= j < i ==> well_formed(#[trigger] spec_commands(cs@)[j]),
        decreases cs@.len() - i,
    {
        assert(decreases_to!(cs => cs@[i as int]));
        if !is_well_formed(&cs[i]) {
            assert(!well_formed(spec_commands(cs@)[i as int]));
            return false;
        }
        i = i + 1;
    }
    true
}

/// Whether a command line can be run (see `runnable`).
pub fn is_runnable(ast: &Ast) -> (res: bool)
    ensures
        res == runnable(ast@),
{
    is_runnable_list(&ast.0)
}

} // verus!

verus! {

/// How far a run gets (the executable form of `Walk`, which never is `Stuck`
/// for a well-formed command).
pub enum Walked {
    Need(Action),
    Fail(usize),
    CannotPipe,
    Val(usize, usize),
}

impl View for Walked {
    type V = Walk;

    open spec fn view(&self) -> Walk {
        match self {
            Walked::Need(a) => Walk::Need(a@),
            Walked::Fail(k) => Walk::Fail(*k as int),
            Walked::CannotPipe => Walk::CannotPipe,
            Walked::Val(p, k) => Walk::Val(*p as int, *k as int),
        }
    }
}

/// The positions in a walk fit the answers given: a failure is at an answer,
/// and a finished walk's program came before its next answer.
pub open spec fn fits(w: Walked, n: int) -> bool {
    match w {
        Walked::Fail(k) => k < n,
        Walked::Val(p, k) => p < k <= n,
        _ => true,
    }
}

pub proof fn lemma_replace_left_well_formed(r: SpecCommand)
    requires
        well_formed(r),
    ensures
        can_replace_left(r),
        well_formed(spec_replace_left(r, true_command())),
        spec_replace_left(r, true_command()) is Raw <==> r is Raw,
{
    assert(well_formed(true_command()));
    if let SpecCommand::Parenthesis(cs) = r {
        assert(runnable(cs));
        assert(cs.len() > 0);
        let cs2 = cs.update(0, true_command());
        assert forall|i: int| 0 <= i < cs2.len() implies well_formed(#[trigger] cs2[i]) by {
            if i > 0 {
                assert(cs2[i] == cs[i]);
                assert(well_formed(cs[i]));
            } else {
                assert(cs2[i] == true_command());
            }
        }
        assert(runnable(cs2));
        assert(spec_replace_left(r, true_command()) == SpecCommand::Parenthesis(cs2));
    }
}

fn answered(events: &Vec<Event>, k: usize, a: Action) -> (res: Walked)
    requires
        k <= events@.len(),
    ensures
        res@ == run_program(events@, k as int, a@),
        fits(res, events@.len() as int),
{
    if k < events.len() {
        if events[k] == Event::Failed { Walked::Fail(k) } else { Walked::Val(k, k + 1) }
    } else {
        Walked::Need(a)
    }
}

/// Runs `c` as far as the answers `events` from position `k` on allow.
pub fn walk_command(c: &Command, events: &Vec<Event>, k: usize) -> (res: Walked)
    requires
        well_formed(c@),
        k <= events@.len(),
    ensures
        res@ == run_cmd(c@, events@, k as int),
        fits(res, events@.len() as int),
    decreases size(c@), 1int,
{
    match c {
        Command::Raw(r) => {
            let res = answered(events, k, Action::Exec(r.duplicate()));
            assert(c@ == SpecCommand::Raw(r.exe@, views(r.args@)));
            assert(res@ == run_cmd(c@, events@, k as int));
            res
        },
        Command::Pipe(l, r) => {
            let res = match &**l {
                Command::Raw(lc) => match &**r {
                    Command::Raw(rc) => {
                        assert(spec_command(&**l) == SpecCommand::Raw(lc.exe@, views(lc.args@)));
                        assert(spec_command(&**r) == SpecCommand::Raw(rc.exe@, views(rc.args@)));
                        assert(c@ == SpecCommand::Pipe(Box::new(spec_command(&**l)), Box::new(spec_command(&**r))));
                        let w = answered(events, k, Action::Pipe(lc.duplicate(), rc.duplicate()));
                        assert(w@ == run_cmd(c@, events@, k as int));
                        w
                    },
                    _ => {
                        let w = walk_command(r, events, k);
                        assert(w@ == run_cmd(c@, events@, k as int));
                        w
                    },
                },
                _ => {
                    assert(Walk::CannotPipe == run_cmd(c@, events@, k as int));
                    Walked::CannotPipe
                },
            };
            assert(res@ == run_cmd(c@, events@, k as int));
            res
        },
        Command::Parenthesis(a) => {
            proof {
                lemma_spec_commands(a.0@);
            }
            let res = walk_list(&a.0, events, k);
            assert(res@ == run_cmd(c@, events@, k as int));
            res
        },
        Command::And(l, r) => {
            let res = walk_and(l, r, events, k);
            assert(res@ == run_cmd(c@, events@, k as int));
            res
        },
        Command::Or(l, r) => {
            let res = walk_or(l, r, events, k);
            assert(res@ == run_cmd(c@, events@, k as int));
            res
        },
    }
}

fn walk_and(l: &Command, r: &Command, events: &Vec<Event>, k: usize) -> (res: Walked)
    requires
        well_formed(l@),
        well_formed(r@),
        k <= events@.len(),
    ensures
        res@ == run_cmd(SpecCommand::And(Box::new(l@), Box::new(r@)), events@, k as int),
        fits(res, events@.len() as int),
    decreases size(SpecCommand::And(Box::new(l@), Box::new(r@))), 0int,
{
    let w = walk_command(l, events, k);
    match w {
        Walked::Val(p, k1) => {
            if k1 >= events.len() {
                Walked::Need(Action::Wait(p))
            } else {
                match events[k1] {
                    Event::Exited(code) => {
                        if code != 0 {
                            Walked::Val(p, k1 + 1)
                        } else {
                            walk_command(r, events, k1 + 1)
                        }
                    },
                    _ => Walked::Fail(k1),
                }
            }
        },
        other => other,
    }
}

fn walk_or(l: &Command, r: &Command, events: &Vec<Event>, k: usize) -> (res: Walked)
    requires
        well_formed(l@),
        well_formed(r@),
        k <= events@.len(),
    ensures
        res@ == run_cmd(SpecCommand::Or(Box::new(l@), Box::new(r@)), events@, k as int),
        fits(res, events@.len() as int),
    decreases size(SpecCommand::Or(Box::new(l@), Box::new(r@))), 0int,
{
    let w = walk_command(l, events, k);
    match w {
        Walked::Val(p, k1) => {
            if k1 >= events.len() {
                Walked::Need(Action::Wait(p))
            } else {
                match events[k1] {
                    Event::Exited(code) => {
                        if code == 0 {
                            proof {
                                lemma_replace_left_well_formed(r@);
                                lemma_size_replace_left(r@);
                            }
                            let mut right = r.duplicate();
                            let no_args: Vec<String> = Vec::new();
                            proof {
                                assert(views(no_args@) =~= Seq::<Seq<char>>::empty());
                            }
                            right.replace_left(Box::new(Command::Raw(CommandRaw::new(owned("true"), no_args))));
                            if let Command::Raw(_) = &right {
                                Walked::Val(p, k1 + 1)
                            } else {
                                walk_command(&right, events, k1 + 1)
                            }
                        } else {
                            walk_command(r, events, k1 + 1)
                        }
                    },
                    _ => Walked::Fail(k1),
                }
            }
        },
        other => other,
    }
}

/// Runs the list `cs` as far as the answers `events` from position `k` on
/// allow.
pub fn walk_list(cs: &Vec<Command>, events: &Vec<Event>, k: usize) -> (res: Walked)
    requires
        runnable(spec_commands(cs@)),
        k <= events@.len(),
    ensures
        res@ == run_list(spec_commands(cs@), events@, k as int),
        fits(res, events@.len() as int),
    decreases size_list(spec_commands(cs@)), 2int,
{
    let ghost all = spec_commands(cs@);
    proof {
        lemma_spec_commands(cs@);
        assert(all.subrange(0, all.len() as int) =~= all);
    }
    let n = cs.len();
    let mut i: usize = 0;
    let mut kc = k;
    loop
        invariant
            all == spec_commands(cs@),
            all.len() == n,
            n == cs@.len(),
            runnable(all),
            forall|j: int| 0 <= j < n ==> #[trigger] all[j] == spec_command(&cs@[j]),
            i < n,
            kc <= events@.len(),
            run_list(all, events@, k as int) == run_list(all.subrange(i as int, n as int), events@, kc as int),
        decreases n - i,
    {
        proof {
            lemma_size_list_elem(all, i as int);
            assert(all.subrange(i as int, n as int)[0] == all[i as int]);
        }
        let w = walk_command(&cs[i], events, kc);
        if i == n - 1 {
            return w;
        }
        match w {
            Walked::Val(_, k1) => {
                proof {
                    assert(all.subrange(i as int, n as int).subrange(1, n - i) =~= all.subrange(i + 1, n as int));
                }
                kc = k1;
                i = i + 1;
            },
            other => {
                return other;
            },
        }
    }
}

/// What the shell does next.
#[derive(Debug)]
pub enum Step {
    /// Perform this action and give its answer.
    Perform(Action),
    /// The command line ran; its result is the program with this number, if
    /// there was a command line.
    Finished(Option<usize>),
    /// The answer at this position was a failure: its error ends the run.
    Failed(usize),
    /// A pipe whose left side is not a simple command.
    CannotPipe,
}

/// The mathematical form of a step.
pub enum SpecStep {
    Perform(SpecAction),
    Finished(Option<int>),
    Failed(int),
    CannotPipe,
    Undefined,
}

impl View for Step {
    type V = SpecStep;

    open spec fn view(&self) -> SpecStep {
        match self {
            Step::Perform(a) => SpecStep::Perform(a@),
            Step::Finished(None) => SpecStep::Finished(None),
            Step::Finished(Some(p)) => SpecStep::Finished(Some(*p as int)),
            Step::Failed(k) => SpecStep::Failed(*k as int),
            Step::CannotPipe => SpecStep::CannotPipe,
        }
    }
}

/// What the shell does next for a command line, given the answers so far.
pub open spec fn next_step(program: Option<Seq<SpecCommand>>, ev: Seq<Event>) -> SpecStep {
    match program {
        None => SpecStep::Finished(None),
        Some(cs) => match run_list(cs, ev, 0) {
            Walk::Need(a) => SpecStep::Perform(a),
            Walk::Fail(k) => SpecStep::Failed(k),
            Walk::CannotPipe => SpecStep::CannotPipe,
            Walk::Val(p, _) => SpecStep::Finished(Some(p)),
            Walk::Stuck => SpecStep::Undefined,
        },
    }
}

/// Runs command lines: it holds the current one and says, from the answers
/// given so far, what to do next.
pub struct Executor {
    source: Option<Ast>,
}

impl Executor {
    #[verifier::type_invariant]
    closed spec fn inv(self) -> bool {
        self.source matches Some(a) ==> runnable(a@)
    }

    /// The command line being run.
    pub closed spec fn program(&self) -> Option<Seq<SpecCommand>> {
        match self.source {
            Some(a) => Some(a@),
            None => None,
        }
    }

    /// An executor with no command line.
    pub fn new() -> (res: Self)
        ensures
            res.program() is None,
    {
        Self { source: None }
    }

    /// Takes a new command line and says what to do first.
    pub fn run(&mut self, source: Option<Ast>) -> (res: Step)
        requires
            source matches Some(a) ==> runnable(a@),
        ensures
            final(self).program() == (match source {
                Some(a) => Some(a@),
                None => None::<Seq<SpecCommand>>,
            }),
            res@ == next_step(final(self).program(), seq![]),
    {
        self.source = source;
        let events: Vec<Event> = Vec::new();
        let res = self.resume(&events);
        proof {
            assert(events@ =~= Seq::<Event>::empty());
        }
        res
    }

    /// Says what to do next, given the answers to the actions so far.
    pub fn resume(&self, events: &Vec<Event>) -> (res: Step)
        ensures
            res@ == next_step(self.program(), events@),
            res@ != SpecStep::Undefined,
    {
        proof {
            use_type_invariant(self);
        }
        match &self.source {
            None => Step::Finished(None),
            Some(ast) => match walk_list(&ast.0, events, 0) {
                Walked::Need(a) => Step::Perform(a),
                Walked::Fail(k) => Step::Failed(k),
                Walked::CannotPipe => Step::CannotPipe,
                Walked::Val(p, _) => Step::Finished(Some(p)),
            },
        }
    }
}

} // verus!
