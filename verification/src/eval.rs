//! The evaluator: a machine that walks a program and asks its host for every
//! effect on the operating system.
//!
//! The host calls `Eval::eval` again and again. Each call takes the answer to
//! what was asked last and returns what is asked next, until that is
//! `Action::Finished`.

use vstd::prelude::*;
use vstd::string::StringSliceAdditionalSpecFns;
use crate::ast;
use crate::ast::AndOrOp;
use crate::ast::CommandView;
use crate::ast::PipelineView;
use crate::ast::ProgramView;
use crate::ast::SimpleView;
use crate::ast::TermOp;
use crate::builtins::builtin_named;
use crate::builtins::cd_output;
use crate::builtins::cd_plan;
use crate::builtins::cd_vars;
use crate::builtins::each_from;
use crate::builtins::export_output;
use crate::builtins::export_vars;
use crate::builtins::readonly_output;
use crate::builtins::readonly_vars;
use crate::builtins::silent;
use crate::builtins::cd;
use crate::builtins::cd_done;
use crate::builtins::export;
use crate::builtins::readonly;
use crate::builtins::unset;
use crate::builtins::CdPlan;
use crate::builtins::Output;
use crate::bytes::to_vec;
use crate::bytes::views_of;
use crate::context::Context;
use crate::errno::display;
use crate::errno::wait_failure_message;
use crate::exec::exec;
use crate::expand::expand_arg;
use crate::builtins::CdPlanView;
use crate::builtins::Command;
use crate::builtins::Each;
use crate::builtins::OutputView;
use crate::context::StdIo;
use crate::environment::set_vareq_spec;
use crate::environment::VarView;
use crate::errno::errno_display;
use crate::errno::wait_failure_spec;
use crate::exec::child_environment;
use crate::exec::child_vars;
use crate::exec::exec_plan;
use crate::exec::ExecPlan;
use crate::exec::ExecPlanView;
use crate::expand::expand;

verus! {

/// What the host is asked to do.
#[derive(Debug)]
pub enum Action {
    /// Nothing: to call again.
    Proceed,
    /// To create a pipe, and to answer with `Event::Pipe`.
    Pipe,
    /// To fork a child that makes `stdio.stdin` its standard input and
    /// `stdio.stdout` its standard output, closes the file descriptors that
    /// these were and `spare`, unless they are the standard ones (0 for
    /// `spare`), and then runs `plan`; and to answer with `Event::Fork`.
    Fork { plan: ExecPlan, stdio: StdIo, spare: i32 },
    /// To enter the directory `dir`, and to answer with `Event::Chdir`.
    Chdir { dir: Vec<u8> },
    /// To write `data` to the file descriptor `fd`.
    Write { fd: i32, data: Vec<u8> },
    /// To close the file descriptor `fd`.
    Close { fd: i32 },
    /// To wait for the child `pid`, and to answer with `Event::Wait`.
    Wait { pid: i32 },
    /// Nothing more: the program has been evaluated.
    Finished,
}

/// The mathematical value of an `Action`.
pub enum ActionView {
    Proceed,
    Pipe,
    Fork { plan: ExecPlanView, stdio: StdIo, spare: i32 },
    Chdir { dir: Seq<u8> },
    Write { fd: i32, data: Seq<u8> },
    Close { fd: i32 },
    Wait { pid: i32 },
    Finished,
}

impl View for Action {
    type V = ActionView;

    open spec fn view(&self) -> ActionView {
        match self {
            Action::Proceed => ActionView::Proceed,
            Action::Pipe => ActionView::Pipe,
            Action::Fork { plan, stdio, spare } => ActionView::Fork {
                plan: plan@,
                stdio: *stdio,
                spare: *spare,
            },
            Action::Chdir { dir } => ActionView::Chdir { dir: dir@ },
            Action::Write { fd, data } => ActionView::Write { fd: *fd, data: data@ },
            Action::Close { fd } => ActionView::Close { fd: *fd },
            Action::Wait { pid } => ActionView::Wait { pid: *pid },
            Action::Finished => ActionView::Finished,
        }
    }
}

/// How waiting for a child ended.
#[derive(Debug, Clone, Copy)]
pub enum WaitStatus {
    /// The child has exited with this status.
    Exited(i32),
    /// The child has ended or changed state in another way.
    Other,
    /// Waiting failed with this error number.
    Failed(i32),
}

/// What the host has to say about the action that it was asked for.
#[derive(Debug)]
pub enum Event {
    /// It is done: the answer to the actions that ask for no other, and what
    /// the first call takes.
    Done,
    /// The read end and the write end of the new pipe, or `None` where none
    /// could be made.
    Pipe(Option<(i32, i32)>),
    /// The child, or `None` where none could be made.
    Fork(Option<i32>),
    /// How entering the directory ended, with the error number of a failure,
    /// and the directory that was current before, where that is known.
    Chdir { previous: Option<Vec<u8>>, outcome: Result<(), i32> },
    /// How waiting ended.
    Wait(WaitStatus),
}

/// The mathematical value of an `Event`.
pub enum EventView {
    Done,
    Pipe(Option<(i32, i32)>),
    Fork(Option<i32>),
    Chdir { previous: Option<Seq<u8>>, outcome: Result<(), i32> },
    Wait(WaitStatus),
}

impl View for Event {
    type V = EventView;

    open spec fn view(&self) -> EventView {
        match self {
            Event::Done => EventView::Done,
            Event::Pipe(ends) => EventView::Pipe(*ends),
            Event::Fork(child) => EventView::Fork(*child),
            Event::Chdir { previous, outcome } => EventView::Chdir {
                previous: match previous {
                    Some(p) => Some(p@),
                    None => None,
                },
                outcome: *outcome,
            },
            Event::Wait(status) => EventView::Wait(*status),
        }
    }
}

/// Where the machine stands in its work on a pipeline.
#[derive(Debug, Clone, Copy, PartialEq, Eq, Structural)]
pub enum Phase {
    /// Between pipelines.
    Idle,
    /// About to start the next command of the pipeline.
    Launch,
    /// A pipe has been asked for.
    AwaitPipe,
    /// The command has what it reads from and writes to, and can run.
    Run,
    /// A child has been asked for.
    AwaitFork,
    /// `cd` has asked to enter a directory.
    AwaitChdir,
    /// Every command has been started: the children are waited for.
    Reap,
    /// A child is being waited for.
    AwaitWait,
}

/// The state of the machine.
pub struct Machine {
    pub vars: Seq<VarView>,
    pub last_return: i32,
    /// The pipeline at work: the complete command, the and-or list in it and
    /// the pipeline in that.
    pub cc: usize,
    pub ao: usize,
    pub pl: usize,
    /// How many commands of the pipeline have been started.
    pub cmd: usize,
    pub phase: Phase,
    /// What the command that is being started reads from and writes to.
    pub stdio: StdIo,
    /// The read end of a pipe that waits for the command that will read from it: 0 without one.
    pub next_stdin: i32,
    /// Whether the command that is being started is the last of its pipeline.
    pub rightmost: bool,
    /// The children that have not been waited for, in the order of their start.
    pub children: Seq<i32>,
    /// The status of the pipeline as far as it is known.
    pub final_return: Option<i32>,
    /// Whether the pipeline was given up because a pipe or a child could not be made.
    pub aborted: bool,
    /// The writes and closes that are still to be handed out, the next one first.
    pub queue: Seq<ActionView>,
    /// Where `cd` is going, and whether it says so.
    pub cd_dir: Seq<u8>,
    pub cd_echo: bool,
}

/// The machine before its first step.
pub open spec fn initial(vars: Seq<VarView>, last_return: i32) -> Machine {
    Machine {
        vars,
        last_return,
        cc: 0,
        ao: 0,
        pl: 0,
        cmd: 0,
        phase: Phase::Idle,
        stdio: StdIo { stdin: 0, stdout: 1, stderr: 2 },
        next_stdin: 0,
        rightmost: false,
        children: seq![],
        final_return: None,
        aborted: false,
        queue: seq![],
        cd_dir: seq![],
        cd_echo: false,
    }
}

/// The number behind `i`, as far as numbers go.
pub open spec fn succ(i: usize) -> usize {
    if i < usize::MAX {
        (i + 1) as usize
    } else {
        i
    }
}

/// The closes that a command's file descriptors call for once it has been
/// started: of what it reads from, unless that is the standard input, and of
/// what it writes to, unless that is the standard output.
pub open spec fn closes(stdio: StdIo) -> Seq<ActionView> {
    (if stdio.stdin != 0 {
        seq![ActionView::Close { fd: stdio.stdin }]
    } else {
        seq![]
    }) + (if stdio.stdout != 1 {
        seq![ActionView::Close { fd: stdio.stdout }]
    } else {
        seq![]
    })
}

/// The writes by which `output` reaches the file descriptors `stdio`.
pub open spec fn writes(stdio: StdIo, output: OutputView) -> Seq<ActionView> {
    (if output.out.len() > 0 {
        seq![ActionView::Write { fd: stdio.stdout, data: output.out }]
    } else {
        seq![]
    }) + (if output.err.len() > 0 {
        seq![ActionView::Write { fd: stdio.stderr, data: output.err }]
    } else {
        seq![]
    })
}

/// The machine after the command that was being started has been started.
pub open spec fn launched(m: Machine) -> Machine {
    Machine { cmd: succ(m.cmd), phase: Phase::Launch, ..m }
}

/// The machine after a command has run within the shell and left `output`:
/// its status is the last one, and that of the pipeline if the command is
/// the rightmost; what it wrote is written and its file descriptors are closed.
pub open spec fn completed(m: Machine, output: OutputView) -> Machine {
    launched(
        Machine {
            last_return: output.status,
            final_return: if m.rightmost {
                Some(output.status)
            } else {
                m.final_return
            },
            queue: m.queue + writes(m.stdio, output) + closes(m.stdio),
            ..m
        },
    )
}

/// The machine after its pipeline has been given up: `message` goes to the
/// standard error, the file descriptors `stdio` of the command that could
/// not be started are closed, and `spare` unless that is 0, and no further
/// command is started.
pub open spec fn gave_up(m: Machine, message: Seq<u8>, stdio: StdIo, spare: i32) -> Machine {
    Machine {
        queue: m.queue + seq![ActionView::Write { fd: 2, data: message }] + closes(stdio) + (
        if spare != 0 {
            seq![ActionView::Close { fd: spare }]
        } else {
            seq![]
        }),
        aborted: true,
        phase: Phase::Reap,
        ..m
    }
}

/// The machine after it has taken the host's answer.
///
/// A new pipe becomes what the command writes to and what the next one
/// reads from. A new child is remembered, and the file descriptors that were
/// its are closed. Without the pipe or the child the pipeline is given up.
/// After the directory was entered or not, `cd` is over. A child that has
/// exited gives the pipeline its status if nothing has yet; a failure to
/// wait is reported. An answer that does not fit what was asked counts as a
/// failure.
pub open spec fn absorb(m: Machine, event: EventView) -> Machine {
    match m.phase {
        Phase::AwaitPipe => match event {
            EventView::Pipe(Some((read, write))) => Machine {
                stdio: StdIo { stdout: write, ..m.stdio },
                next_stdin: read,
                phase: Phase::Run,
                ..m
            },
            _ => gave_up(
                m,
                "rash: pipe failed\n".spec_bytes(),
                StdIo { stdout: 1, ..m.stdio },
                0,
            ),
        },
        Phase::AwaitFork => match event {
            EventView::Fork(Some(child)) => launched(
                Machine {
                    children: m.children.push(child),
                    queue: m.queue + closes(m.stdio),
                    ..m
                },
            ),
            _ => gave_up(m, "rash: fork failed\n".spec_bytes(), m.stdio, m.next_stdin),
        },
        Phase::AwaitChdir => match event {
            EventView::Chdir { previous, outcome } => completed(
                Machine { vars: cd_vars(m.vars, previous, outcome), ..m },
                cd_output(m.cd_dir, m.cd_echo, outcome),
            ),
            _ => completed(m, cd_output(m.cd_dir, m.cd_echo, Err(0i32))),
        },
        Phase::AwaitWait => match event {
            EventView::Wait(WaitStatus::Exited(status)) => Machine {
                final_return: match m.final_return {
                    Some(known) => Some(known),
                    None => Some(status),
                },
                phase: Phase::Reap,
                ..m
            },
            EventView::Wait(WaitStatus::Failed(code)) => Machine {
                queue: m.queue.push(
                    ActionView::Write { fd: 2, data: wait_failure_spec(errno_display(code)) },
                ),
                phase: Phase::Reap,
                ..m
            },
            _ => Machine { phase: Phase::Reap, ..m },
        },
        _ => m,
    }
}

/// The variables after each `NAME=VALUE` of `assigns` from `from` on has been assigned.
pub open spec fn assigned(vars: Seq<VarView>, assigns: Seq<Seq<u8>>, from: int) -> Seq<VarView>
    decreases assigns.len() - from,
{
    if from < 0 || from >= assigns.len() {
        vars
    } else {
        assigned(set_vareq_spec(vars, assigns[from], None), assigns, from + 1)
    }
}

/// The name of a command and its arguments, expanded.
pub open spec fn expanded_args(s: SimpleView, vars: Seq<VarView>, status: i32) -> Seq<Seq<u8>> {
    seq![expand(s.cmd, vars, status as int)] + Seq::new(
        s.args.len(),
        |i: int| expand(s.args[i], vars, status as int),
    )
}

/// The machine and what it asks for as it runs `command`, its file
/// descriptors being set.
///
/// The words of a command are expanded with the assignments that stand
/// before it in force, though these do not reach the shell's own variables.
/// A command whose name expands to nothing assigns its assignments to the
/// shell's own variables and succeeds. A built-in command runs within the
/// shell; `cd` asks for the directory to be entered first, unless it has
/// failed before that. For any other command a child is asked for.
/// A compound command fails.
pub open spec fn run(m: Machine, command: CommandView) -> (Machine, ActionView) {
    match command {
        CommandView::Compound => (
            completed(
                m,
                OutputView {
                    status: 1,
                    out: seq![],
                    err: "rash: compound commands are not implemented\n".spec_bytes(),
                },
            ),
            ActionView::Proceed,
        ),
        CommandView::Simple(s) => {
            let scope = child_vars(m.vars, s.assign, 0);
            let name = expand(s.cmd, scope, m.last_return as int);
            let args = expanded_args(s, scope, m.last_return);
            if name.len() == 0 {
                (
                    completed(Machine { vars: assigned(m.vars, s.assign, 0), ..m }, silent()),
                    ActionView::Proceed,
                )
            } else {
                match builtin_named(name) {
                    Some(Command::Cd) => match cd_plan(m.vars, args) {
                        CdPlanView::Fail { output } => (completed(m, output), ActionView::Proceed),
                        CdPlanView::Go { dir, echo } => (
                            Machine { cd_dir: dir, cd_echo: echo, phase: Phase::AwaitChdir, ..m },
                            ActionView::Chdir { dir },
                        ),
                    },
                    Some(Command::Export) => (
                        completed(
                            Machine { vars: export_vars(m.vars, args), ..m },
                            export_output(m.vars, args),
                        ),
                        ActionView::Proceed,
                    ),
                    Some(Command::Readonly) => (
                        completed(
                            Machine { vars: readonly_vars(m.vars, args), ..m },
                            readonly_output(m.vars, args),
                        ),
                        ActionView::Proceed,
                    ),
                    Some(Command::Unset) => (
                        completed(
                            Machine { vars: each_from(Each::Unset, m.vars, args, 1), ..m },
                            silent(),
                        ),
                        ActionView::Proceed,
                    ),
                    None => (
                        Machine { phase: Phase::AwaitFork, ..m },
                        ActionView::Fork {
                            plan: exec_plan(m.vars, name, args, s.assign),
                            stdio: m.stdio,
                            spare: m.next_stdin,
                        },
                    ),
                }
            }
        },
    }
}

/// The pipeline that the machine is at, with what ends its and-or list, the
/// operator behind it and the number of pipelines in its list: `None` where
/// the machine is at none.
pub open spec fn current(m: Machine, program: ProgramView) -> Option<
    (TermOp, AndOrOp, PipelineView, int),
> {
    if m.cc < program.commands.len() && m.ao < program.commands[m.cc as int].and_ors.len() && m.pl
        < program.commands[m.cc as int].and_ors[m.ao as int].1.pipelines.len() {
        let list = program.commands[m.cc as int].and_ors[m.ao as int];
        Some(
            (
                list.0,
                list.1.pipelines[m.pl as int].0,
                list.1.pipelines[m.pl as int].1,
                list.1.pipelines.len() as int,
            ),
        )
    } else {
        None
    }
}

/// The status of a pipeline whose last command left `status`: turned round
/// where the pipeline is negated.
pub open spec fn pipeline_status(negated: bool, status: i32) -> i32 {
    if !negated {
        status
    } else if status == 0 {
        1
    } else {
        0
    }
}

/// The machine after its pipeline is over, at the pipeline that is next:
/// the rest of an and-or list is passed over where the pipeline failed before
/// `&&` or succeeded before `||`.
pub open spec fn settled(m: Machine, op: AndOrOp, pipelines: int) -> Machine {
    let stop = match op {
        AndOrOp::And => m.last_return != 0,
        AndOrOp::Or => m.last_return == 0,
    };
    if stop || m.pl + 1 >= pipelines {
        Machine { ao: succ(m.ao), pl: 0, phase: Phase::Idle, ..m }
    } else {
        Machine { pl: succ(m.pl), phase: Phase::Idle, ..m }
    }
}

/// The machine and what it asks for next.
///
/// What is still to be written and closed goes first. Between pipelines the
/// machine finds the next one, or has finished. Within a pipeline it starts
/// the commands in order: the first reads the standard input, each other
/// what the pipe before it gives, which is then no longer kept for a next
/// command; the last writes the standard output, each other into a new
/// pipe. Then it waits for the children, the last one first, unless the
/// pipeline runs in the background, and records the status: 0 in the
/// background, else that of the rightmost command, or of the child nearest to
/// it that has exited. In the foreground a pipeline that was given up leaves
/// the status as it is.
pub open spec fn emit(m: Machine, program: ProgramView) -> (Machine, ActionView) {
    if m.queue.len() > 0 {
        (Machine { queue: m.queue.drop_first(), ..m }, m.queue[0])
    } else if m.phase == Phase::Idle {
        if m.cc >= program.commands.len() {
            (m, ActionView::Finished)
        } else if m.ao >= program.commands[m.cc as int].and_ors.len() {
            (Machine { cc: succ(m.cc), ao: 0, pl: 0, ..m }, ActionView::Proceed)
        } else if m.pl >= program.commands[m.cc as int].and_ors[m.ao as int].1.pipelines.len() {
            (Machine { ao: succ(m.ao), pl: 0, ..m }, ActionView::Proceed)
        } else {
            (
                Machine {
                    cmd: 0,
                    children: seq![],
                    final_return: None,
                    aborted: false,
                    next_stdin: 0,
                    phase: Phase::Launch,
                    ..m
                },
                ActionView::Proceed,
            )
        }
    } else {
        match current(m, program) {
            None => (Machine { phase: Phase::Idle, ..m }, ActionView::Proceed),
            Some((term, op, pipeline, pipelines)) => pipeline_step(
                m,
                term,
                op,
                pipeline,
                pipelines,
            ),
        }
    }
}

/// The machine and what it asks for next within the pipeline `pipeline`,
/// which `op` follows in an and-or list of `pipelines` pipelines that `term` ends.
pub open spec fn pipeline_step(
    m: Machine,
    term: TermOp,
    op: AndOrOp,
    pipeline: PipelineView,
    pipelines: int,
) -> (Machine, ActionView) {
    match m.phase {
        Phase::Launch => if m.cmd >= pipeline.commands.len() {
            (Machine { phase: Phase::Reap, ..m }, ActionView::Proceed)
        } else {
            let stdin = if m.cmd == 0 {
                0
            } else {
                m.next_stdin
            };
            if m.cmd + 1 == pipeline.commands.len() {
                run(
                    Machine {
                        stdio: StdIo { stdin, stdout: 1, stderr: 2 },
                        next_stdin: 0,
                        rightmost: true,
                        ..m
                    },
                    pipeline.commands[m.cmd as int],
                )
            } else {
                (
                    Machine {
                        stdio: StdIo { stdin, stdout: 1, stderr: 2 },
                        next_stdin: 0,
                        rightmost: false,
                        phase: Phase::AwaitPipe,
                        ..m
                    },
                    ActionView::Pipe,
                )
            }
        },
        Phase::Run => if m.cmd >= pipeline.commands.len() {
            (Machine { phase: Phase::Reap, ..m }, ActionView::Proceed)
        } else {
            run(m, pipeline.commands[m.cmd as int])
        },
        Phase::Reap => if term == TermOp::Amp {
            (
                settled(Machine { last_return: 0, children: seq![], ..m }, op, pipelines),
                ActionView::Proceed,
            )
        } else if m.children.len() > 0 {
            (
                Machine {
                    children: m.children.drop_last(),
                    phase: Phase::AwaitWait,
                    ..m
                },
                ActionView::Wait { pid: m.children.last() },
            )
        } else {
            (
                settled(
                    Machine {
                        last_return: match m.final_return {
                            Some(status) => if m.aborted {
                                m.last_return
                            } else {
                                pipeline_status(pipeline.negated, status)
                            },
                            None => m.last_return,
                        },
                        ..m
                    },
                    op,
                    pipelines,
                ),
                ActionView::Proceed,
            )
        },
        _ => (Machine { phase: Phase::Idle, ..m }, ActionView::Proceed),
    }
}

/// One step of the machine: it takes the host's answer to what it asked
/// last, and asks for the next thing.
pub open spec fn step(m: Machine, program: ProgramView, event: EventView) -> (Machine, ActionView) {
    emit(absorb(m, event), program)
}

/// The views of the actions `queue`.
pub open spec fn action_views(queue: Seq<Action>) -> Seq<ActionView> {
    Seq::new(queue.len(), |i: int| queue[i]@)
}

/// The evaluator: the shell's state, and where it stands in the program
/// that it walks.
pub struct Eval {
    pub context: Context,
    pub cc: usize,
    pub ao: usize,
    pub pl: usize,
    pub cmd: usize,
    pub phase: Phase,
    pub stdio: StdIo,
    pub next_stdin: i32,
    pub rightmost: bool,
    pub children: Vec<i32>,
    pub final_return: Option<i32>,
    pub aborted: bool,
    pub queue: Vec<Action>,
    pub cd_dir: Vec<u8>,
    pub cd_echo: bool,
}

impl View for Eval {
    type V = Machine;

    open spec fn view(&self) -> Machine {
        Machine {
            vars: self.context.env.vars(),
            last_return: self.context.last_return,
            cc: self.cc,
            ao: self.ao,
            pl: self.pl,
            cmd: self.cmd,
            phase: self.phase,
            stdio: self.stdio,
            next_stdin: self.next_stdin,
            rightmost: self.rightmost,
            children: self.children@,
            final_return: self.final_return,
            aborted: self.aborted,
            queue: action_views(self.queue@),
            cd_dir: self.cd_dir@,
            cd_echo: self.cd_echo,
        }
    }
}

fn next_index(i: usize) -> (r: usize)
    ensures
        r == succ(i),
{
    if i < usize::MAX {
        i + 1
    } else {
        i
    }
}

impl Eval {
    /// An evaluator that starts from `context`.
    pub fn new(context: Context) -> (r: Eval)
        ensures
            r@ == initial(context.env.vars(), context.last_return),
            r.context.interactive == context.interactive,
    {
        let r = Eval {
            context,
            cc: 0,
            ao: 0,
            pl: 0,
            cmd: 0,
            phase: Phase::Idle,
            stdio: StdIo { stdin: 0, stdout: 1, stderr: 2 },
            next_stdin: 0,
            rightmost: false,
            children: Vec::new(),
            final_return: None,
            aborted: false,
            queue: Vec::new(),
            cd_dir: Vec::new(),
            cd_echo: false,
        };
        assert(r@.queue =~= Seq::<ActionView>::empty());
        r
    }

    /// Makes the evaluator ready for another program: it stands before the
    /// first pipeline, with the shell's state as it is.
    pub fn rewind(&mut self)
        ensures
            final(self)@ == initial(old(self)@.vars, old(self)@.last_return),
            final(self).context.interactive == old(self).context.interactive,
    {
        self.cc = 0;
        self.ao = 0;
        self.pl = 0;
        self.cmd = 0;
        self.phase = Phase::Idle;
        self.stdio = StdIo { stdin: 0, stdout: 1, stderr: 2 };
        self.next_stdin = 0;
        self.rightmost = false;
        self.children = Vec::new();
        self.final_return = None;
        self.aborted = false;
        self.queue = Vec::new();
        self.cd_dir = Vec::new();
        self.cd_echo = false;
        assert(self@.queue =~= Seq::<ActionView>::empty());
    }

    /// Expands the word `arg` in the shell's present state.
    pub fn expand_arg(&self, arg: &[u8]) -> (r: Vec<u8>)
        ensures
            r@ == expand(arg@, self@.vars, self@.last_return as int),
    {
        expand_arg(&self.context.env, self.context.last_return, arg)
    }

    fn enqueue(&mut self, action: Action)
        ensures
            final(self)@ == (Machine { queue: old(self)@.queue.push(action@), ..old(self)@ }),
            final(self).context.interactive == old(self).context.interactive,
    {
        self.queue.push(action);
        assert(self@.queue =~= old(self)@.queue.push(action@));
    }

    fn enqueue_closes(&mut self, stdio: StdIo)
        ensures
            final(self)@ == (Machine { queue: old(self)@.queue + closes(stdio), ..old(self)@ }),
            final(self).context.interactive == old(self).context.interactive,
    {
        let ghost before = self@.queue;
        if stdio.stdin != 0 {
            self.enqueue(Action::Close { fd: stdio.stdin });
        }
        if stdio.stdout != 1 {
            self.enqueue(Action::Close { fd: stdio.stdout });
        }
        assert(self@.queue =~= before + closes(stdio));
    }

    fn enqueue_writes(&mut self, stdio: StdIo, output: Output)
        ensures
            final(self)@ == (Machine {
                queue: old(self)@.queue + writes(stdio, output@),
                ..old(self)@
            }),
            final(self).context.interactive == old(self).context.interactive,
    {
        let ghost before = self@.queue;
        let Output { status: _, out, err } = output;
        if out.len() > 0 {
            self.enqueue(Action::Write { fd: stdio.stdout, data: out });
        }
        if err.len() > 0 {
            self.enqueue(Action::Write { fd: stdio.stderr, data: err });
        }
        assert(self@.queue =~= before + writes(stdio, output@));
    }

    /// Records that a command has run within the shell and left `output`.
    fn completed(&mut self, output: Output)
        ensures
            final(self)@ == completed(old(self)@, output@),
            final(self).context.interactive == old(self).context.interactive,
    {
        let stdio = self.stdio;
        self.context.last_return = output.status;
        if self.rightmost {
            self.final_return = Some(output.status);
        }
        self.enqueue_writes(stdio, output);
        self.enqueue_closes(stdio);
        self.cmd = next_index(self.cmd);
        self.phase = Phase::Launch;
    }

    /// Gives the pipeline up.
    fn gave_up(&mut self, message: &str, stdio: StdIo, spare: i32)
        ensures
            final(self)@ == gave_up(old(self)@, message.spec_bytes(), stdio, spare),
            final(self).context.interactive == old(self).context.interactive,
    {
        let ghost before = self@.queue;
        self.enqueue(Action::Write { fd: 2, data: to_vec(message.as_bytes()) });
        self.enqueue_closes(stdio);
        if spare != 0 {
            self.enqueue(Action::Close { fd: spare });
        }
        self.aborted = true;
        self.phase = Phase::Reap;
        assert(self@.queue =~= gave_up(old(self)@, message.spec_bytes(), stdio, spare).queue);
    }

    /// Takes the host's answer to what was asked last.
    fn absorb(&mut self, event: Event)
        ensures
            final(self)@ == absorb(old(self)@, event@),
            final(self).context.interactive == old(self).context.interactive,
    {
        match self.phase {
            Phase::AwaitPipe => match event {
                Event::Pipe(Some((read, write))) => {
                    self.stdio = StdIo {
                        stdin: self.stdio.stdin,
                        stdout: write,
                        stderr: self.stdio.stderr,
                    };
                    self.next_stdin = read;
                    self.phase = Phase::Run;
                },
                _ => {
                    let stdio = StdIo {
                        stdin: self.stdio.stdin,
                        stdout: 1,
                        stderr: self.stdio.stderr,
                    };
                    self.gave_up("rash: pipe failed\n", stdio, 0);
                },
            },
            Phase::AwaitFork => match event {
                Event::Fork(Some(child)) => {
                    self.children.push(child);
                    let stdio = self.stdio;
                    self.enqueue_closes(stdio);
                    self.cmd = next_index(self.cmd);
                    self.phase = Phase::Launch;
                },
                _ => {
                    let stdio = self.stdio;
                    let spare = self.next_stdin;
                    self.gave_up("rash: fork failed\n", stdio, spare);
                },
            },
            Phase::AwaitChdir => {
                let dir = to_vec(self.cd_dir.as_slice());
                let echo = self.cd_echo;
                let output = match event {
                    Event::Chdir { previous, outcome } => cd_done(
                        &mut self.context,
                        dir.as_slice(),
                        echo,
                        previous,
                        outcome,
                    ),
                    _ => cd_done(&mut self.context, dir.as_slice(), echo, None, Err(0)),
                };
                self.completed(output);
            },
            Phase::AwaitWait => {
                match event {
                    Event::Wait(WaitStatus::Exited(status)) => {
                        if self.final_return.is_none() {
                            self.final_return = Some(status);
                        }
                    },
                    Event::Wait(WaitStatus::Failed(code)) => {
                        let error = display(code);
                        self.enqueue(
                            Action::Write { fd: 2, data: wait_failure_message(error.as_slice()) },
                        );
                    },
                    _ => {},
                }
                self.phase = Phase::Reap;
            },
            _ => {},
        }
    }

    /// Runs `command`, whose file descriptors are set: within the shell, or
    /// by asking for a child.
    pub fn run_command(&mut self, command: &ast::Command) -> (r: Action)
        ensures
            (final(self)@, r@) == run(old(self)@, command@),
            final(self).context.interactive == old(self).context.interactive,
    {
        let s = match command {
            ast::Command::Compound => {
                self.completed(
                    Output {
                        status: 1,
                        out: Vec::new(),
                        err: to_vec("rash: compound commands are not implemented\n".as_bytes()),
                    },
                );
                return Action::Proceed;
            },
            ast::Command::Simple(s) => s,
        };
        let mut assigns: Vec<Vec<u8>> = Vec::new();
        let mut k: usize = 0;
        while k < s.assign.len()
            invariant
                k <= s.assign@.len(),
                assigns@.len() == k,
                forall|x: int| 0 <= x < k ==> assigns@[x]@ == s.assign@[x]@,
            decreases s.assign@.len() - k,
        {
            assigns.push(to_vec(s.assign[k]));
            k += 1;
        }
        assert(views_of(assigns@) =~= s@.assign);
        let scope = child_environment(&self.context.env, &assigns);
        let ghost vars = self@.vars;
        let ghost status = self@.last_return;
        let last_return = self.context.last_return;
        let name = match &s.cmd {
            ast::Arg::Arg(text) => expand_arg(&scope, last_return, text),
        };
        if name.len() == 0 {
            let mut i: usize = 0;
            while i < s.assign.len()
                invariant
                    i <= s.assign@.len(),
                    self@ == (Machine { vars: self@.vars, ..old(self)@ }),
                    self.context.interactive == old(self).context.interactive,
                    assigned(vars, s@.assign, 0) == assigned(self@.vars, s@.assign, i as int),
                decreases s.assign@.len() - i,
            {
                self.context.env.set_vareq(s.assign[i]);
                i += 1;
            }
            self.completed(Output { status: 0, out: Vec::new(), err: Vec::new() });
            return Action::Proceed;
        }
        let mut args: Vec<Vec<u8>> = Vec::new();
        args.push(to_vec(name.as_slice()));
        let mut i: usize = 0;
        while i < s.args.len()
            invariant
                i <= s.args@.len(),
                status == last_return,
                args@.len() == i + 1,
                args@[0]@ == name@,
                forall|k: int|
                    0 <= k < i ==> (#[trigger] args@[k + 1])@ == expand(
                        s@.args[k],
                        scope.vars(),
                        status as int,
                    ),
            decreases s.args@.len() - i,
        {
            let word = match &s.args[i] {
                ast::Arg::Arg(text) => expand_arg(&scope, last_return, text),
            };
            args.push(word);
            i += 1;
        }
        assert forall|j: int| 0 <= j < args@.len() implies views_of(args@)[j] == expanded_args(
            s@,
            scope.vars(),
            status,
        )[j] by {
            if j > 0 {
                let k = j - 1;
                assert(args@[k + 1]@ == expand(s@.args[k], scope.vars(), status as int));
            }
        }
        assert(views_of(args@) =~= expanded_args(s@, scope.vars(), status));
        match self.context.builtins.get(name.as_slice()) {
            Some(Command::Cd) => match cd(&args, &self.context) {
                CdPlan::Fail { output } => {
                    self.completed(output);
                    Action::Proceed
                },
                CdPlan::Go { dir, echo } => {
                    self.cd_dir = to_vec(dir.as_slice());
                    self.cd_echo = echo;
                    self.phase = Phase::AwaitChdir;
                    Action::Chdir { dir }
                },
            },
            Some(Command::Export) => {
                let output = export(&args, &mut self.context);
                self.completed(output);
                Action::Proceed
            },
            Some(Command::Readonly) => {
                let output = readonly(&args, &mut self.context);
                self.completed(output);
                Action::Proceed
            },
            Some(Command::Unset) => {
                let output = unset(&args, &mut self.context);
                self.completed(output);
                Action::Proceed
            },
            None => {
                let plan = exec(&self.context, name.as_slice(), &args, &assigns);
                self.phase = Phase::AwaitFork;
                Action::Fork { plan, stdio: self.stdio, spare: self.next_stdin }
            },
        }
    }

    /// Goes on to the pipeline that is next once one is over.
    fn andor_list(&mut self, op: AndOrOp, pipelines: usize)
        requires
            old(self).pl < pipelines,
        ensures
            final(self)@ == settled(old(self)@, op, pipelines as int),
            final(self).context.interactive == old(self).context.interactive,
    {
        let stop = match op {
            AndOrOp::And => self.context.last_return != 0,
            AndOrOp::Or => self.context.last_return == 0,
        };
        if stop || self.pl + 1 >= pipelines {
            self.ao = next_index(self.ao);
            self.pl = 0;
        } else {
            self.pl = next_index(self.pl);
        }
        self.phase = Phase::Idle;
    }

    /// Works on the pipeline that the evaluator is at: starts its next
    /// command, or waits for its children and records its status.
    fn exec_pipeline(
        &mut self,
        term: TermOp,
        op: AndOrOp,
        pipeline: &ast::Pipeline,
        pipelines: usize,
    ) -> (r: Action)
        requires
            old(self)@.queue.len() == 0,
            old(self).phase != Phase::Idle,
            old(self).pl < pipelines,
        ensures
            (final(self)@, r@) == pipeline_step(
                old(self)@,
                term,
                op,
                pipeline@,
                pipelines as int,
            ),
            final(self).context.interactive == old(self).context.interactive,
    {
        match self.phase {
            Phase::Launch => {
                if self.cmd >= pipeline.commands.len() {
                    self.phase = Phase::Reap;
                    return Action::Proceed;
                }
                let stdin = if self.cmd == 0 {
                    0
                } else {
                    self.next_stdin
                };
                self.stdio = StdIo { stdin, stdout: 1, stderr: 2 };
                self.next_stdin = 0;
                if self.cmd + 1 == pipeline.commands.len() {
                    self.rightmost = true;
                    self.run_command(&pipeline.commands[self.cmd])
                } else {
                    self.rightmost = false;
                    self.phase = Phase::AwaitPipe;
                    Action::Pipe
                }
            },
            Phase::Run => {
                if self.cmd >= pipeline.commands.len() {
                    self.phase = Phase::Reap;
                    return Action::Proceed;
                }
                self.run_command(&pipeline.commands[self.cmd])
            },
            Phase::Reap => {
                if term == TermOp::Amp {
                    self.context.last_return = 0;
                    self.children = Vec::new();
                    self.andor_list(op, pipelines);
                    Action::Proceed
                } else if let Some(pid) = self.children.pop() {
                    self.phase = Phase::AwaitWait;
                    Action::Wait { pid }
                } else {
                    if let Some(status) = self.final_return {
                        if !self.aborted {
                            self.context.last_return = if !pipeline.negated {
                                status
                            } else if status == 0 {
                                1
                            } else {
                                0
                            };
                        }
                    }
                    self.andor_list(op, pipelines);
                    Action::Proceed
                }
            },
            _ => {
                self.phase = Phase::Idle;
                Action::Proceed
            },
        }
    }

    /// Between pipelines: finds the pipeline that is next, or finds that
    /// there is none.
    fn complete_command(&mut self, program: &ast::Program) -> (r: Action)
        requires
            old(self)@.queue.len() == 0,
            old(self).phase == Phase::Idle,
        ensures
            (final(self)@, r@) == emit(old(self)@, program@),
            final(self).context.interactive == old(self).context.interactive,
    {
        let commands = &program.commands.complete_commands;
        if self.cc >= commands.len() {
            return Action::Finished;
        }
        let lists = &commands[self.cc].and_ors;
        if self.ao >= lists.len() {
            self.cc = next_index(self.cc);
            self.ao = 0;
            self.pl = 0;
        } else if self.pl >= lists[self.ao].1.pipelines.len() {
            self.ao = next_index(self.ao);
            self.pl = 0;
        } else {
            self.cmd = 0;
            self.children = Vec::new();
            self.final_return = None;
            self.aborted = false;
            self.next_stdin = 0;
            self.phase = Phase::Launch;
        }
        Action::Proceed
    }

    /// One step of the evaluation of `program`: takes the host's answer to
    /// what was asked last (`Event::Done` at first), and returns what is
    /// asked next. The evaluation is over with `Action::Finished`.
    pub fn eval(&mut self, program: &ast::Program, event: Event) -> (r: Action)
        ensures
            (final(self)@, r@) == step(old(self)@, program@, event@),
            final(self).context.interactive == old(self).context.interactive,
    {
        self.absorb(event);
        if self.queue.len() > 0 {
            let ghost before = self@.queue;
            let action = self.queue.remove(0);
            assert(self@.queue =~= before.drop_first());
            assert(before[0] == action@);
            return action;
        }
        assert(self@.queue.len() == 0);
        if self.phase == Phase::Idle {
            return self.complete_command(program);
        }
        let commands = &program.commands.complete_commands;
        if self.cc < commands.len() && self.ao < commands[self.cc].and_ors.len() && self.pl
            < commands[self.cc].and_ors[self.ao].1.pipelines.len() {
            let list = &commands[self.cc].and_ors[self.ao];
            let entry = &list.1.pipelines[self.pl];
            self.exec_pipeline(list.0, entry.0, &entry.1, list.1.pipelines.len())
        } else {
            self.phase = Phase::Idle;
            Action::Proceed
        }
    }
}

} // verus!
