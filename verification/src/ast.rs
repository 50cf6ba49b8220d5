//! The syntax tree of the shell language.

use vstd::prelude::*;

verus! {

/// The text of one word, quotation marks and all: nothing in it is expanded yet.
#[derive(Debug, PartialEq)]
pub enum Arg<'a> {
    Arg(&'a [u8]),
}

impl<'a> View for Arg<'a> {
    type V = Seq<u8>;

    open spec fn view(&self) -> Seq<u8> {
        match self {
            Arg::Arg(s) => s@,
        }
    }
}

/// What ends an and-or list: `;` (or the end of the line) or `&`.
#[derive(Debug, PartialEq, Eq, Clone, Copy, Structural)]
pub enum TermOp {
    Semi,
    Amp,
}

/// What follows a pipeline in its and-or list: `&&` or `||`. The last
/// pipeline of a list has `And`.
#[derive(Debug, PartialEq, Eq, Clone, Copy, Structural)]
pub enum AndOrOp {
    And,
    Or,
}

/// Assignments, a command name and its arguments. A command that is made of
/// assignments only has an empty name.
#[derive(Debug, PartialEq)]
pub struct SimpleCommand<'a> {
    pub assign: Vec<&'a [u8]>,
    pub cmd: Arg<'a>,
    pub args: Vec<Arg<'a>>,
}

/// The mathematical value of a `SimpleCommand`.
pub struct SimpleView {
    pub assign: Seq<Seq<u8>>,
    pub cmd: Seq<u8>,
    pub args: Seq<Seq<u8>>,
}

impl<'a> View for SimpleCommand<'a> {
    type V = SimpleView;

    open spec fn view(&self) -> SimpleView {
        SimpleView {
            assign: Seq::new(self.assign@.len(), |i: int| self.assign@[i]@),
            cmd: self.cmd@,
            args: Seq::new(self.args@.len(), |i: int| self.args@[i]@),
        }
    }
}

#[derive(Debug, PartialEq)]
pub enum Command<'a> {
    Simple(SimpleCommand<'a>),
    /// Kept for compound commands, which the shell does not have.
    Compound,
}

/// The mathematical value of a `Command`.
pub enum CommandView {
    Simple(SimpleView),
    Compound,
}

impl<'a> View for Command<'a> {
    type V = CommandView;

    open spec fn view(&self) -> CommandView {
        match self {
            Command::Simple(s) => CommandView::Simple(s@),
            Command::Compound => CommandView::Compound,
        }
    }
}

/// Commands joined by `|`.
#[derive(Debug, PartialEq)]
pub struct Pipeline<'a> {
    pub commands: Vec<Command<'a>>,
    pub negated: bool,
}

/// The mathematical value of a `Pipeline`.
pub struct PipelineView {
    pub commands: Seq<CommandView>,
    pub negated: bool,
}

impl<'a> View for Pipeline<'a> {
    type V = PipelineView;

    open spec fn view(&self) -> PipelineView {
        PipelineView {
            commands: Seq::new(self.commands@.len(), |i: int| self.commands@[i]@),
            negated: self.negated,
        }
    }
}

impl<'a> Pipeline<'a> {
    /// The pipeline of one command.
    pub fn new(cmd: Command<'a>) -> (r: Pipeline<'a>)
        ensures
            r@ == (PipelineView { commands: seq![cmd@], negated: false }),
    {
        let mut commands: Vec<Command<'a>> = Vec::new();
        commands.push(cmd);
        let r = Pipeline { commands, negated: false };
        assert(r@.commands =~= seq![cmd@]);
        r
    }

    /// The pipeline with its negation turned round.
    pub fn negate(self) -> (r: Pipeline<'a>)
        ensures
            r@ == (PipelineView { negated: !self@.negated, ..self@ }),
    {
        let mut this = self;
        this.negated = !this.negated;
        this
    }

    /// The pipeline with `cmd` as one more command at its end.
    pub fn push(self, cmd: Command<'a>) -> (r: Pipeline<'a>)
        ensures
            r@ == (PipelineView { commands: self@.commands.push(cmd@), ..self@ }),
    {
        let mut this = self;
        this.commands.push(cmd);
        assert(this@.commands =~= self@.commands.push(cmd@));
        this
    }
}

/// Pipelines joined by `&&` and `||`, each with the operator that follows it.
#[derive(Debug, PartialEq)]
pub struct AndOr<'a> {
    pub pipelines: Vec<(AndOrOp, Pipeline<'a>)>,
}

/// The mathematical value of an `AndOr`.
pub struct AndOrView {
    pub pipelines: Seq<(AndOrOp, PipelineView)>,
}

impl<'a> View for AndOr<'a> {
    type V = AndOrView;

    open spec fn view(&self) -> AndOrView {
        AndOrView {
            pipelines: Seq::new(
                self.pipelines@.len(),
                |i: int| (self.pipelines@[i].0, self.pipelines@[i].1@),
            ),
        }
    }
}

/// `list` with `op` in its last entry.
pub open spec fn with_last<Op, T>(list: Seq<(Op, T)>, op: Op) -> Seq<(Op, T)> {
    if list.len() == 0 {
        list
    } else {
        list.update(list.len() - 1, (op, list.last().1))
    }
}

impl<'a> AndOr<'a> {
    /// The list with `op` and then `element` behind it: `op` becomes the
    /// operator of what was the last pipeline, and `element` gets `And`.
    pub fn push(self, op: AndOrOp, element: Pipeline<'a>) -> (r: AndOr<'a>)
        ensures
            r@.pipelines == with_last(self@.pipelines, op).push((AndOrOp::And, element@)),
    {
        let mut this = self;
        if let Some((_, e)) = this.pipelines.pop() {
            this.pipelines.push((op, e));
        }
        this.pipelines.push((AndOrOp::And, element));
        assert(this@.pipelines =~= with_last(self@.pipelines, op).push(
            (AndOrOp::And, element@),
        ));
        this
    }
}

/// And-or lists on one line, each with what ends it.
#[derive(Debug, PartialEq)]
pub struct CompleteCommand<'a> {
    pub and_ors: Vec<(TermOp, AndOr<'a>)>,
}

/// The mathematical value of a `CompleteCommand`.
pub struct CompleteView {
    pub and_ors: Seq<(TermOp, AndOrView)>,
}

impl<'a> View for CompleteCommand<'a> {
    type V = CompleteView;

    open spec fn view(&self) -> CompleteView {
        CompleteView {
            and_ors: Seq::new(
                self.and_ors@.len(),
                |i: int| (self.and_ors@[i].0, self.and_ors@[i].1@),
            ),
        }
    }
}

impl<'a> CompleteCommand<'a> {
    /// The command with `element` behind it, parted from what was the last
    /// list by `op`. The new list ends with `;` until something else is seen.
    pub fn push(self, op: TermOp, element: AndOr<'a>) -> (r: CompleteCommand<'a>)
        ensures
            r@.and_ors == with_last(self@.and_ors, op).push((TermOp::Semi, element@)),
    {
        let mut this = self;
        this.update_last(op);
        this.and_ors.push((TermOp::Semi, element));
        assert(this@.and_ors =~= with_last(self@.and_ors, op).push((TermOp::Semi, element@)));
        this
    }

    /// Records that the last list ends with `op`.
    pub fn update_last(&mut self, op: TermOp)
        ensures
            final(self)@.and_ors == with_last(old(self)@.and_ors, op),
    {
        if let Some((_, e)) = self.and_ors.pop() {
            self.and_ors.push((op, e));
        }
        assert(self@.and_ors =~= with_last(old(self)@.and_ors, op));
    }
}

/// The complete commands of a program, one for each line that holds any.
#[derive(Debug, PartialEq)]
pub struct CompleteCommands<'a> {
    pub complete_commands: Vec<CompleteCommand<'a>>,
}

impl<'a> View for CompleteCommands<'a> {
    type V = Seq<CompleteView>;

    open spec fn view(&self) -> Seq<CompleteView> {
        Seq::new(self.complete_commands@.len(), |i: int| self.complete_commands@[i]@)
    }
}

impl<'a> CompleteCommands<'a> {
    /// The commands with `element` behind them.
    pub fn push(self, element: CompleteCommand<'a>) -> (r: CompleteCommands<'a>)
        ensures
            r@ == self@.push(element@),
    {
        let mut this = self;
        this.complete_commands.push(element);
        assert(this@ =~= self@.push(element@));
        this
    }
}

#[derive(Debug, PartialEq)]
pub struct Program<'a> {
    pub commands: CompleteCommands<'a>,
}

/// The mathematical value of a `Program`.
pub struct ProgramView {
    pub commands: Seq<CompleteView>,
}

impl<'a> View for Program<'a> {
    type V = ProgramView;

    open spec fn view(&self) -> ProgramView {
        ProgramView { commands: self.commands@ }
    }
}

} // verus!
