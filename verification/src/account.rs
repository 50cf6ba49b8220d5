//! An account of what the machine asks of its host in the course of a
//! pipeline: the children that it asks for and waits for, and the file
//! descriptors of the pipes that it is given and that it has closed.

use vstd::prelude::*;
use crate::ast::AndOrOp;
use crate::ast::CommandView;
use crate::ast::PipelineView;
use crate::ast::ProgramView;
use crate::ast::TermOp;
use crate::builtins::builtin_named;
use crate::builtins::OutputView;
use crate::context::StdIo;
use crate::environment::VarView;
use crate::errno::errno_display;
use crate::errno::wait_failure_spec;
use crate::eval::absorb;
use crate::eval::closes;
use crate::eval::completed;
use crate::eval::current;
use crate::eval::emit;
use crate::eval::gave_up;
use crate::eval::pipeline_step;
use crate::eval::run;
use crate::eval::step;
use crate::eval::succ;
use crate::eval::writes;
use crate::eval::ActionView;
use crate::eval::EventView;
use crate::eval::Machine;
use crate::eval::Phase;
use crate::eval::WaitStatus;
use crate::exec::child_vars;
use crate::expand::expand;

verus! {

/// What has been seen of the machine's dealings with its host.
pub struct Ledger {
    /// How many children were asked for.
    pub forks: nat,
    /// How many children were waited for.
    pub waits: nat,
    /// The file descriptors of the pipes that the host has made.
    pub opened: Seq<i32>,
    /// The file descriptors that the host was asked to close.
    pub closed: Seq<i32>,
    /// Whether the host has failed to make a pipe or a child.
    pub refused: bool,
}

/// The ledger in which nothing is written yet.
pub open spec fn blank() -> Ledger {
    Ledger { forks: 0, waits: 0, opened: seq![], closed: seq![], refused: false }
}

/// The ledger after the machine in the state `m` has taken `event` and asked
/// for `action`.
pub open spec fn noted(l: Ledger, m: Machine, event: EventView, action: ActionView) -> Ledger {
    Ledger {
        forks: if action is Fork {
            l.forks + 1
        } else {
            l.forks
        },
        waits: if action is Wait {
            l.waits + 1
        } else {
            l.waits
        },
        opened: match event {
            EventView::Pipe(Some((read, write))) => if m.phase == Phase::AwaitPipe {
                l.opened.push(read).push(write)
            } else {
                l.opened
            },
            _ => l.opened,
        },
        closed: match action {
            ActionView::Close { fd } => l.closed.push(fd),
            _ => l.closed,
        },
        refused: l.refused || (m.phase == Phase::AwaitPipe && !(event matches EventView::Pipe(
            Some(_),
        ))) || (m.phase == Phase::AwaitFork && !(event matches EventView::Fork(Some(_)))),
    }
}

/// The machine and the ledger after the machine has worked on its pipeline
/// with the answers `events`: the work is over when the machine stands
/// between pipelines.
pub open spec fn run_pipeline(
    m: Machine,
    l: Ledger,
    program: ProgramView,
    events: Seq<EventView>,
) -> (Machine, Ledger)
    decreases events.len(),
{
    if events.len() == 0 || m.phase == Phase::Idle {
        (m, l)
    } else {
        let (next, action) = step(m, program, events[0]);
        run_pipeline(next, noted(l, m, events[0], action), program, events.drop_first())
    }
}

/// The machine at the start of a pipeline: as it is when it has found one.
pub open spec fn begun(m: Machine) -> bool {
    &&& m.phase == Phase::Launch
    &&& m.cmd == 0
    &&& m.children.len() == 0
    &&& m.final_return is None
    &&& !m.aborted
    &&& m.next_stdin == 0
    &&& m.queue.len() == 0
}

/// The number of commands in the pipeline that the machine is at.
pub open spec fn width(m: Machine, program: ProgramView) -> int {
    current(m, program).unwrap().2.commands.len() as int
}

/// How often `fd` occurs in `fds`.
pub open spec fn count(fds: Seq<i32>, fd: i32) -> nat
    decreases fds.len(),
{
    if fds.len() == 0 {
        0
    } else {
        count(fds.drop_last(), fd) + if fds.last() == fd {
            1nat
        } else {
            0nat
        }
    }
}

/// How many of the actions `queue` close `fd`.
pub open spec fn pending(queue: Seq<ActionView>, fd: i32) -> nat
    decreases queue.len(),
{
    if queue.len() == 0 {
        0
    } else {
        pending(queue.drop_first(), fd) + if queue[0] == (ActionView::Close { fd }) {
            1nat
        } else {
            0nat
        }
    }
}

/// 1 where `held` is the file descriptor `fd` and not `standard`, else 0.
pub open spec fn one(held: i32, standard: i32, fd: i32) -> nat {
    if held != standard && held == fd {
        1
    } else {
        0
    }
}

/// How often the machine holds `fd` as a file descriptor that it has yet to
/// hand to a command or to close.
pub open spec fn held(m: Machine, fd: i32) -> nat {
    match m.phase {
        Phase::Launch => one(m.next_stdin, 0, fd),
        Phase::AwaitPipe => one(m.stdio.stdin, 0, fd),
        Phase::Run | Phase::AwaitFork | Phase::AwaitChdir => one(m.stdio.stdin, 0, fd) + one(
            m.stdio.stdout,
            1,
            fd,
        ) + one(m.next_stdin, 0, fd),
        _ => 0,
    }
}

/// Where the machine stands among the `n` commands of its pipeline, as far
/// as its file descriptors depend on it.
pub open spec fn in_step(m: Machine, n: int) -> bool {
    match m.phase {
        Phase::Launch => m.cmd <= n && (m.cmd == 0 || m.cmd == n ==> m.next_stdin == 0),
        Phase::AwaitPipe => m.cmd + 1 < n && m.stdio.stdout == 1 && m.next_stdin == 0,
        Phase::Run | Phase::AwaitFork | Phase::AwaitChdir => m.cmd < n && (m.cmd + 1 == n
            ==> m.next_stdin == 0 && m.stdio.stdout == 1),
        _ => true,
    }
}

/// Whether every file descriptor that was opened has been closed as often.
pub open spec fn balanced(l: Ledger) -> bool {
    forall|fd: i32| count(l.opened, fd) == count(l.closed, fd)
}

/// Whether the file descriptor `fd` is accounted for: it has been opened as
/// often as it has been closed, is to be closed or is held.
pub open spec fn accounted(m: Machine, l: Ledger, fd: i32) -> bool {
    count(l.opened, fd) == count(l.closed, fd) + pending(m.queue, fd) + held(m, fd)
}

/// A pipe whose read end is not the standard input and whose write end is
/// not the standard output, as every pipe is that is made while these are open.
pub open spec fn sound(event: EventView) -> bool {
    match event {
        EventView::Pipe(Some((read, write))) => read != 0 && write != 1,
        _ => true,
    }
}

proof fn lemma_pending_concat(a: Seq<ActionView>, b: Seq<ActionView>, fd: i32)
    ensures
        pending(a + b, fd) == pending(a, fd) + pending(b, fd),
    decreases a.len(),
{
    if a.len() == 0 {
        assert(a + b =~= b);
    } else {
        assert((a + b).drop_first() =~= a.drop_first() + b);
        lemma_pending_concat(a.drop_first(), b, fd);
    }
}

proof fn lemma_pending_one(a: ActionView, fd: i32)
    ensures
        pending(seq![a], fd) == if a == (ActionView::Close { fd }) {
            1nat
        } else {
            0nat
        },
        pending(Seq::<ActionView>::empty(), fd) == 0,
{
    reveal_with_fuel(pending, 3);
    assert(seq![a].len() == 1);
    assert(seq![a][0] == a);
    assert(seq![a].drop_first() =~= Seq::<ActionView>::empty());
}

proof fn lemma_pending_closes(stdio: StdIo, fd: i32)
    ensures
        pending(closes(stdio), fd) == one(stdio.stdin, 0, fd) + one(stdio.stdout, 1, fd),
{
    let a = if stdio.stdin != 0 {
        seq![ActionView::Close { fd: stdio.stdin }]
    } else {
        seq![]
    };
    let b = if stdio.stdout != 1 {
        seq![ActionView::Close { fd: stdio.stdout }]
    } else {
        seq![]
    };
    lemma_pending_concat(a, b, fd);
    lemma_pending_one(ActionView::Close { fd: stdio.stdin }, fd);
    lemma_pending_one(ActionView::Close { fd: stdio.stdout }, fd);
}

proof fn lemma_pending_writes(stdio: StdIo, output: OutputView, fd: i32)
    ensures
        pending(writes(stdio, output), fd) == 0,
{
    let a = if output.out.len() > 0 {
        seq![ActionView::Write { fd: stdio.stdout, data: output.out }]
    } else {
        seq![]
    };
    let b = if output.err.len() > 0 {
        seq![ActionView::Write { fd: stdio.stderr, data: output.err }]
    } else {
        seq![]
    };
    lemma_pending_concat(a, b, fd);
    lemma_pending_one(ActionView::Write { fd: stdio.stdout, data: output.out }, fd);
    lemma_pending_one(ActionView::Write { fd: stdio.stderr, data: output.err }, fd);
}

proof fn lemma_count_push(fds: Seq<i32>, x: i32, fd: i32)
    ensures
        count(fds.push(x), fd) == count(fds, fd) + if x == fd {
            1nat
        } else {
            0nat
        },
{
    assert(fds.push(x).drop_last() =~= fds);
}

/// What `completed` does to the account.
proof fn lemma_completed(m: Machine, output: OutputView, fd: i32)
    ensures
        pending(completed(m, output).queue, fd) == pending(m.queue, fd) + one(m.stdio.stdin, 0, fd)
            + one(m.stdio.stdout, 1, fd),
        completed(m, output).phase == Phase::Launch,
        completed(m, output).cmd == succ(m.cmd),
        completed(m, output).next_stdin == m.next_stdin,
{
    lemma_pending_concat(m.queue + writes(m.stdio, output), closes(m.stdio), fd);
    lemma_pending_concat(m.queue, writes(m.stdio, output), fd);
    lemma_pending_writes(m.stdio, output, fd);
    lemma_pending_closes(m.stdio, fd);
}

/// What `gave_up` does to the account.
proof fn lemma_gave_up(m: Machine, message: Seq<u8>, stdio: StdIo, spare: i32, fd: i32)
    ensures
        pending(gave_up(m, message, stdio, spare).queue, fd) == pending(m.queue, fd) + one(
            stdio.stdin,
            0,
            fd,
        ) + one(stdio.stdout, 1, fd) + one(spare, 0, fd),
        gave_up(m, message, stdio, spare).phase == Phase::Reap,
{
    let write = seq![ActionView::Write { fd: 2, data: message }];
    let last = if spare != 0 {
        seq![ActionView::Close { fd: spare }]
    } else {
        seq![]
    };
    lemma_pending_concat(m.queue + write + closes(stdio), last, fd);
    lemma_pending_concat(m.queue + write, closes(stdio), fd);
    lemma_pending_concat(m.queue, write, fd);
    lemma_pending_one(ActionView::Write { fd: 2, data: message }, fd);
    lemma_pending_one(ActionView::Close { fd: spare }, fd);
    lemma_pending_closes(stdio, fd);
}

/// What the ledger holds of `fd` after the answer `event` has been noted.
pub open spec fn opened_after(l: Ledger, m: Machine, event: EventView) -> Seq<i32> {
    noted(l, m, event, ActionView::Proceed).opened
}

/// To take an answer keeps every file descriptor accounted for.
#[verifier::spinoff_prover]
proof fn lemma_absorb_accounts(m: Machine, l: Ledger, event: EventView, n: int, fd: i32)
    requires
        accounted(m, l, fd),
        in_step(m, n),
        sound(event),
        n <= usize::MAX,
    ensures
        count(opened_after(l, m, event), fd) == count(l.closed, fd) + pending(
            absorb(m, event).queue,
            fd,
        ) + held(absorb(m, event), fd),
        in_step(absorb(m, event), n),
        m.phase != Phase::Idle ==> absorb(m, event).phase != Phase::Idle,
        absorb(m, event).cc == m.cc,
        absorb(m, event).ao == m.ao,
        absorb(m, event).pl == m.pl,
{
    match m.phase {
        Phase::AwaitPipe => match event {
            EventView::Pipe(Some((read, write))) => {
                lemma_count_push(l.opened, read, fd);
                lemma_count_push(l.opened.push(read), write, fd);
            },
            _ => {
                lemma_gave_up_queue(m, StdIo { stdout: 1, ..m.stdio }, 0, fd);
            },
        },
        Phase::AwaitFork => match event {
            EventView::Fork(Some(child)) => {
                lemma_pending_concat(m.queue, closes(m.stdio), fd);
                lemma_pending_closes(m.stdio, fd);
            },
            _ => {
                lemma_gave_up_queue(m, m.stdio, m.next_stdin, fd);
            },
        },
        Phase::AwaitChdir => {
            lemma_completed_any(m, fd);
        },
        Phase::AwaitWait => match event {
            EventView::Wait(WaitStatus::Failed(code)) => {
                let w = ActionView::Write {
                    fd: 2,
                    data: wait_failure_spec(errno_display(code)),
                };
                assert(m.queue.push(w) =~= m.queue + seq![w]);
                lemma_pending_concat(m.queue, seq![w], fd);
                lemma_pending_one(w, fd);
            },
            _ => {},
        },
        _ => {},
    }
}

/// `gave_up` adds the same closes to the queue whatever the message is.
proof fn lemma_gave_up_queue(m: Machine, stdio: StdIo, spare: i32, fd: i32)
    ensures
        forall|message: Seq<u8>|
            pending(#[trigger] gave_up(m, message, stdio, spare).queue, fd) == pending(
                m.queue,
                fd,
            ) + one(stdio.stdin, 0, fd) + one(stdio.stdout, 1, fd) + one(spare, 0, fd),
{
    assert forall|message: Seq<u8>|
        pending(#[trigger] gave_up(m, message, stdio, spare).queue, fd) == pending(m.queue, fd)
            + one(stdio.stdin, 0, fd) + one(stdio.stdout, 1, fd) + one(spare, 0, fd) by {
        lemma_gave_up(m, message, stdio, spare, fd);
    }
}

/// `completed` adds the same closes to the queue whatever the output is,
/// and whatever else has changed in the shell.
proof fn lemma_completed_any(m: Machine, fd: i32)
    ensures
        forall|vars: Seq<VarView>, output: OutputView|
            pending(#[trigger] completed(Machine { vars, ..m }, output).queue, fd) == pending(
                m.queue,
                fd,
            ) + one(m.stdio.stdin, 0, fd) + one(m.stdio.stdout, 1, fd),
{
    assert forall|vars: Seq<VarView>, output: OutputView|
        pending(#[trigger] completed(Machine { vars, ..m }, output).queue, fd) == pending(
            m.queue,
            fd,
        ) + one(m.stdio.stdin, 0, fd) + one(m.stdio.stdout, 1, fd) by {
        lemma_completed(Machine { vars, ..m }, output, fd);
    }
}

/// Whether the step from `a` to `next`, which asks for `action`, keeps `fd`
/// accounted for within a pipeline of `n` commands.
pub open spec fn kept(a: Machine, next: Machine, action: ActionView, n: int, fd: i32) -> bool {
    &&& pending(next.queue, fd) + held(next, fd) + (if action == (ActionView::Close { fd }) {
        1nat
    } else {
        0nat
    }) == pending(a.queue, fd) + held(a, fd)
    &&& next.phase == Phase::Idle ==> next.queue.len() == 0
    &&& next.phase != Phase::Idle ==> next.cc == a.cc && next.ao == a.ao && next.pl == a.pl
        && in_step(next, n)
}

/// To run a command keeps every file descriptor accounted for.
#[verifier::spinoff_prover]
proof fn lemma_run_accounts(m: Machine, command: CommandView, n: int, fd: i32)
    requires
        m.phase == Phase::Run || m.phase == Phase::Launch,
        m.cmd < n <= usize::MAX,
        m.cmd + 1 == n ==> m.next_stdin == 0 && m.stdio.stdout == 1,
    ensures
        kept(Machine { phase: Phase::Run, ..m }, run(m, command).0, run(m, command).1, n, fd),
{
    lemma_completed_any(m, fd);
}

/// To hand out what is to be written or closed keeps every file descriptor
/// accounted for.
proof fn lemma_queue_accounts(a: Machine, program: ProgramView, n: int, fd: i32)
    requires
        a.queue.len() > 0,
        a.phase != Phase::Idle,
        in_step(a, n),
    ensures
        kept(a, emit(a, program).0, emit(a, program).1, n, fd),
{
}

/// To start a command keeps every file descriptor accounted for.
#[verifier::spinoff_prover]
proof fn lemma_launch_accounts(
    a: Machine,
    term: TermOp,
    op: AndOrOp,
    pipeline: PipelineView,
    pipelines: int,
    fd: i32,
)
    requires
        a.queue.len() == 0,
        a.phase == Phase::Launch || a.phase == Phase::Run,
        in_step(a, pipeline.commands.len() as int),
        pipeline.commands.len() <= usize::MAX,
    ensures
        kept(
            a,
            pipeline_step(a, term, op, pipeline, pipelines).0,
            pipeline_step(a, term, op, pipeline, pipelines).1,
            pipeline.commands.len() as int,
            fd,
        ),
{
    let n = pipeline.commands.len() as int;
    assert(pending(a.queue, fd) == 0);
    if a.cmd < n {
        if a.phase == Phase::Run {
            lemma_run_accounts(a, pipeline.commands[a.cmd as int], n, fd);
        } else if a.cmd + 1 == n {
            let stdin = if a.cmd == 0 {
                0
            } else {
                a.next_stdin
            };
            let ready = Machine {
                stdio: StdIo { stdin, stdout: 1, stderr: 2 },
                next_stdin: 0,
                rightmost: true,
                ..a
            };
            lemma_run_accounts(ready, pipeline.commands[a.cmd as int], n, fd);
        }
    }
}

/// To wait for the children and to go on to the next pipeline keeps every
/// file descriptor accounted for.
#[verifier::spinoff_prover]
proof fn lemma_reap_accounts(
    a: Machine,
    term: TermOp,
    op: AndOrOp,
    pipeline: PipelineView,
    pipelines: int,
    fd: i32,
)
    requires
        a.queue.len() == 0,
        a.phase == Phase::Reap,
    ensures
        kept(
            a,
            pipeline_step(a, term, op, pipeline, pipelines).0,
            pipeline_step(a, term, op, pipeline, pipelines).1,
            pipeline.commands.len() as int,
            fd,
        ),
{
    assert(pending(a.queue, fd) == 0);
}

/// One step of the machine within a pipeline keeps every file descriptor
/// accounted for, and leaves none to account for when the pipeline is over.
#[verifier::spinoff_prover]
proof fn lemma_step_accounts(
    m: Machine,
    l: Ledger,
    program: ProgramView,
    event: EventView,
    fd: i32,
)
    requires
        m.phase != Phase::Idle,
        current(m, program) is Some,
        width(m, program) <= usize::MAX,
        accounted(m, l, fd),
        in_step(m, width(m, program)),
        sound(event),
    ensures
        ({
            let (next, action) = step(m, program, event);
            let ledger = noted(l, m, event, action);
            &&& accounted(next, ledger, fd)
            &&& next.phase == Phase::Idle ==> next.queue.len() == 0
            &&& next.phase != Phase::Idle ==> {
                &&& current(next, program) == current(m, program)
                &&& in_step(next, width(m, program))
            }
        }),
{
    let (term, op, pipeline, pipelines) = current(m, program).unwrap();
    let n = pipeline.commands.len() as int;
    lemma_absorb_accounts(m, l, event, n, fd);
    let a = absorb(m, event);
    assert(current(a, program) == current(m, program));
    assert(a.phase == Phase::Launch || a.phase == Phase::Run || a.phase == Phase::Reap);
    let (next, action) = emit(a, program);
    let ledger = noted(l, m, event, action);
    assert(ledger.opened == opened_after(l, m, event));
    if a.queue.len() > 0 {
        lemma_queue_accounts(a, program, n, fd);
    } else if a.phase == Phase::Launch || a.phase == Phase::Run {
        lemma_launch_accounts(a, term, op, pipeline, pipelines, fd);
    } else {
        lemma_reap_accounts(a, term, op, pipeline, pipelines, fd);
    }
    assert(kept(a, next, action, n, fd));
    match action {
        ActionView::Close { fd: closed } => {
            lemma_count_push(l.closed, closed, fd);
        },
        _ => {},
    }
    if next.phase != Phase::Idle {
        assert(current(next, program) == current(m, program));
    }
}

/// Every file descriptor stays accounted for while the machine works on a
/// pipeline, and none is left to account for when the pipeline is over.
proof fn lemma_run_pipeline_accounts(
    m: Machine,
    l: Ledger,
    program: ProgramView,
    events: Seq<EventView>,
    fd: i32,
)
    requires
        m.phase != Phase::Idle ==> {
            &&& current(m, program) is Some
            &&& width(m, program) <= usize::MAX
            &&& in_step(m, width(m, program))
        },
        m.phase == Phase::Idle ==> m.queue.len() == 0,
        accounted(m, l, fd),
        forall|i: int| 0 <= i < events.len() ==> sound(#[trigger] events[i]),
    ensures
        run_pipeline(m, l, program, events).0.phase == Phase::Idle ==> count(
            run_pipeline(m, l, program, events).1.opened,
            fd,
        ) == count(run_pipeline(m, l, program, events).1.closed, fd),
    decreases events.len(),
{
    if events.len() == 0 || m.phase == Phase::Idle {
    } else {
        lemma_step_accounts(m, l, program, events[0], fd);
        let (next, action) = step(m, program, events[0]);
        lemma_run_pipeline_accounts(
            next,
            noted(l, m, events[0], action),
            program,
            events.drop_first(),
            fd,
        );
    }
}

/// When a pipeline is over, every file descriptor that a pipe has brought
/// has been closed, as often as it was brought: whatever the commands of the
/// pipeline are, whether it runs in the foreground or not, and also where
/// the host has failed to make a pipe or a child. The pipes are such that
/// the read end is not the standard input and the write end is not the
/// standard output.
pub proof fn lemma_pipeline_closes_its_pipes(
    m: Machine,
    program: ProgramView,
    events: Seq<EventView>,
)
    requires
        begun(m),
        current(m, program) is Some,
        width(m, program) <= usize::MAX,
        forall|i: int| 0 <= i < events.len() ==> sound(#[trigger] events[i]),
    ensures
        run_pipeline(m, blank(), program, events).0.phase == Phase::Idle ==> balanced(
            run_pipeline(m, blank(), program, events).1,
        ),
{
    let end = run_pipeline(m, blank(), program, events);
    if end.0.phase == Phase::Idle {
        assert forall|fd: i32| count(end.1.opened, fd) == count(end.1.closed, fd) by {
            assert(m.queue =~= Seq::<ActionView>::empty());
            lemma_run_pipeline_accounts(m, blank(), program, events, fd);
        }
    }
}

/// Whether the place `(cc, ao, pl)` of `next` is that of `m` or lies behind it.
pub open spec fn not_before(m: Machine, next: Machine) -> bool {
    next.cc > m.cc || (next.cc == m.cc && (next.ao > m.ao || (next.ao == m.ao && next.pl
        >= m.pl)))
}

/// Whether the program `program` is one that can be held: it has no more
/// complete commands, and none of these more lists, than can be counted.
pub open spec fn fits(program: ProgramView) -> bool {
    &&& program.commands.len() <= usize::MAX
    &&& forall|i: int|
        0 <= i < program.commands.len() ==> (#[trigger] program.commands[i]).and_ors.len()
            <= usize::MAX
}

/// Whether the step from `a` to `next`, which asks for `action`, goes on in
/// order through `program`.
pub open spec fn in_order(
    a: Machine,
    next: Machine,
    action: ActionView,
    program: ProgramView,
) -> bool {
    &&& plain(next.queue)
    &&& not_before(a, next)
    &&& action is Finished ==> {
        &&& next.phase == Phase::Idle
        &&& next.cc >= program.commands.len()
        &&& next.queue.len() == 0
    }
}

#[verifier::spinoff_prover]
proof fn lemma_queue_in_order(a: Machine, program: ProgramView)
    requires
        a.queue.len() > 0,
        plain(a.queue),
    ensures
        in_order(a, emit(a, program).0, emit(a, program).1, program),
{
    assert(a.queue[0] is Write || a.queue[0] is Close);
    let rest = a.queue.drop_first();
    assert forall|i: int| 0 <= i < rest.len() implies (#[trigger] rest[i] is Write) || (
    #[trigger] rest[i] is Close) by {
        assert(a.queue[i + 1] is Write || a.queue[i + 1] is Close);
    }
}

#[verifier::spinoff_prover]
proof fn lemma_idle_in_order(a: Machine, program: ProgramView)
    requires
        a.queue.len() == 0,
        a.phase == Phase::Idle,
        fits(program),
    ensures
        in_order(a, emit(a, program).0, emit(a, program).1, program),
{
    if a.cc < program.commands.len() {
        assert(program.commands[a.cc as int].and_ors.len() <= usize::MAX);
    }
}

#[verifier::spinoff_prover]
proof fn lemma_pipeline_in_order(
    a: Machine,
    term: TermOp,
    op: AndOrOp,
    pipeline: PipelineView,
    pipelines: int,
    program: ProgramView,
)
    requires
        a.queue.len() == 0,
        a.phase != Phase::Idle,
        a.ao < usize::MAX,
    ensures
        in_order(
            a,
            pipeline_step(a, term, op, pipeline, pipelines).0,
            pipeline_step(a, term, op, pipeline, pipelines).1,
            program,
        ),
{
    let ready = Machine {
        stdio: StdIo {
            stdin: if a.cmd == 0 {
                0
            } else {
                a.next_stdin
            },
            stdout: 1,
            stderr: 2,
        },
        next_stdin: 0,
        rightmost: true,
        ..a
    };
    lemma_run_keeps_place(a);
    lemma_run_keeps_place(ready);
}

/// The machine walks the program in order: a step never takes it back to a
/// pipeline that it has left. It says that it has finished only between
/// pipelines, behind the last complete command, and with nothing left to
/// write or to close.
#[verifier::spinoff_prover]
pub proof fn lemma_step_in_order(m: Machine, program: ProgramView, event: EventView)
    requires
        fits(program),
        plain(m.queue),
    ensures
        plain(step(m, program, event).0.queue),
        not_before(m, step(m, program, event).0),
        step(m, program, event).1 is Finished ==> {
            &&& step(m, program, event).0.phase == Phase::Idle
            &&& step(m, program, event).0.cc >= program.commands.len()
            &&& step(m, program, event).0.queue.len() == 0
        },
{
    let a = absorb(m, event);
    lemma_absorb_plain(m, event);
    assert(a.cc == m.cc && a.ao == m.ao && a.pl == m.pl);
    if a.queue.len() > 0 {
        lemma_queue_in_order(a, program);
    } else if a.phase == Phase::Idle {
        lemma_idle_in_order(a, program);
    } else if current(a, program) is Some {
        let (term, op, pipeline, pipelines) = current(a, program).unwrap();
        assert(program.commands[a.cc as int].and_ors.len() <= usize::MAX);
        lemma_pipeline_in_order(a, term, op, pipeline, pipelines, program);
    }
    assert(in_order(a, emit(a, program).0, emit(a, program).1, program));
}

/// To take an answer leaves nothing but writes and closes to hand out.
#[verifier::spinoff_prover]
proof fn lemma_absorb_plain(m: Machine, event: EventView)
    requires
        plain(m.queue),
    ensures
        plain(absorb(m, event).queue),
{
    lemma_plain_closes(m.stdio);
    match m.phase {
        Phase::AwaitPipe => match event {
            EventView::Pipe(Some(_)) => {},
            _ => {
                lemma_gave_up_plain(m, StdIo { stdout: 1, ..m.stdio }, 0);
            },
        },
        Phase::AwaitFork => match event {
            EventView::Fork(Some(_)) => {
                lemma_plain_concat(m.queue, closes(m.stdio));
            },
            _ => {
                lemma_gave_up_plain(m, m.stdio, m.next_stdin);
            },
        },
        Phase::AwaitChdir => {
            lemma_completed_plain(m);
        },
        Phase::AwaitWait => match event {
            EventView::Wait(WaitStatus::Failed(code)) => {
                let w = ActionView::Write { fd: 2, data: wait_failure_spec(errno_display(code)) };
                assert(m.queue.push(w) =~= m.queue + seq![w]);
                assert(plain(seq![w]));
                lemma_plain_concat(m.queue, seq![w]);
            },
            _ => {},
        },
        _ => {},
    }
}

/// To give a pipeline up leaves nothing but writes and closes to hand out.
proof fn lemma_gave_up_plain(m: Machine, stdio: StdIo, spare: i32)
    requires
        plain(m.queue),
    ensures
        forall|message: Seq<u8>| plain(#[trigger] gave_up(m, message, stdio, spare).queue),
{
    assert forall|message: Seq<u8>| plain(#[trigger] gave_up(m, message, stdio, spare).queue) by {
        let write = seq![ActionView::Write { fd: 2, data: message }];
        let last = if spare != 0 {
            seq![ActionView::Close { fd: spare }]
        } else {
            seq![]
        };
        assert(plain(write));
        assert(plain(last));
        lemma_plain_closes(stdio);
        lemma_plain_concat(m.queue, write);
        lemma_plain_concat(m.queue + write, closes(stdio));
        lemma_plain_concat(m.queue + write + closes(stdio), last);
    }
}

/// A command that has run within the shell leaves nothing but writes and
/// closes to hand out.
proof fn lemma_completed_plain(m: Machine)
    requires
        plain(m.queue),
    ensures
        forall|vars: Seq<VarView>, output: OutputView|
            plain(#[trigger] completed(Machine { vars, ..m }, output).queue),
{
    assert forall|vars: Seq<VarView>, output: OutputView|
        plain(#[trigger] completed(Machine { vars, ..m }, output).queue) by {
        lemma_plain_closes(m.stdio);
        assert(plain(writes(m.stdio, output)));
        lemma_plain_concat(m.queue, writes(m.stdio, output));
        lemma_plain_concat(m.queue + writes(m.stdio, output), closes(m.stdio));
    }
}

/// To run a command leaves the machine at its pipeline with nothing but
/// writes and closes to hand out, and does not finish.
proof fn lemma_run_keeps_place(m: Machine)
    requires
        plain(m.queue),
    ensures
        forall|command: CommandView|
            #![trigger run(m, command)]
            run(m, command).0.cc == m.cc && run(m, command).0.ao == m.ao && run(
                m,
                command,
            ).0.pl == m.pl && !(run(m, command).1 is Finished) && plain(run(m, command).0.queue),
{
    lemma_completed_plain(m);
    assert forall|command: CommandView|
        #![trigger run(m, command)]
        plain(run(m, command).0.queue) by {
        assert(m == Machine { vars: m.vars, ..m });
    }
}

/// A command for which a child is asked for where the variables are `vars`
/// and the last status is `status`: a simple command whose name does not
/// expand to nothing and is not that of a built-in command.
pub open spec fn external(command: CommandView, vars: Seq<VarView>, status: i32) -> bool {
    match command {
        CommandView::Simple(s) => {
            let name = expand(s.cmd, child_vars(vars, s.assign, 0), status as int);
            name.len() > 0 && builtin_named(name) is None
        },
        CommandView::Compound => false,
    }
}

/// Whether the actions `queue` are writes and closes only.
pub open spec fn plain(queue: Seq<ActionView>) -> bool {
    forall|i: int|
        0 <= i < queue.len() ==> (#[trigger] queue[i] is Write) || (#[trigger] queue[i] is Close)
}

/// Whether the ledger tallies with the machine in a pipeline of `n` commands
/// that began with the variables `vars` and the status `status`, as long as
/// the host has not failed to make a pipe or a child: a child has been asked
/// for for every command that was started, and every child has either been
/// waited for or is still to be.
pub open spec fn tallied(m: Machine, l: Ledger, n: int, vars: Seq<VarView>, status: i32) -> bool {
    !l.refused ==> {
        &&& plain(m.queue)
        &&& m.phase != Phase::Idle ==> m.vars == vars && m.last_return == status && !m.aborted
        &&& match m.phase {
            Phase::Launch => l.forks == m.cmd && l.waits == 0 && m.children.len() == m.cmd
                && m.cmd <= n,
            Phase::AwaitPipe => l.forks == m.cmd && l.waits == 0 && m.children.len() == m.cmd
                && m.cmd + 1 < n,
            Phase::Run => l.forks == m.cmd && l.waits == 0 && m.children.len() == m.cmd && m.cmd
                < n,
            Phase::AwaitFork => l.forks == m.cmd + 1 && l.waits == 0 && m.children.len()
                == m.cmd && m.cmd < n,
            Phase::AwaitChdir => false,
            Phase::Reap | Phase::AwaitWait => l.forks == n && l.waits + m.children.len() == n,
            Phase::Idle => l.forks == n && l.waits == n,
        }
    }
}

proof fn lemma_plain_concat(a: Seq<ActionView>, b: Seq<ActionView>)
    requires
        plain(a),
        plain(b),
    ensures
        plain(a + b),
{
    let all = a + b;
    assert forall|i: int| 0 <= i < all.len() implies (#[trigger] all[i] is Write) || (
    #[trigger] all[i] is Close) by {
        if i < a.len() {
            assert(a[i] is Write || a[i] is Close);
        } else {
            assert(b[i - a.len()] is Write || b[i - a.len()] is Close);
        }
    }
}

proof fn lemma_plain_closes(stdio: StdIo)
    ensures
        plain(closes(stdio)),
{
}

/// To take an answer keeps the ledger tallied.
#[verifier::spinoff_prover]
proof fn lemma_absorb_tallies(
    m: Machine,
    l: Ledger,
    event: EventView,
    n: int,
    vars: Seq<VarView>,
    status: i32,
)
    requires
        m.phase != Phase::Idle,
        tallied(m, l, n, vars, status),
        n <= usize::MAX,
    ensures
        tallied_after(absorb(m, event), noted(l, m, event, ActionView::Proceed), n, vars, status),
        absorb(m, event).cc == m.cc,
        absorb(m, event).ao == m.ao,
        absorb(m, event).pl == m.pl,
{
    let ledger = noted(l, m, event, ActionView::Proceed);
    if !ledger.refused {
        match m.phase {
            Phase::AwaitFork => {
                lemma_plain_closes(m.stdio);
                lemma_plain_concat(m.queue, closes(m.stdio));
            },
            Phase::AwaitWait => match event {
                EventView::Wait(WaitStatus::Failed(code)) => {
                    let w = ActionView::Write {
                        fd: 2,
                        data: wait_failure_spec(errno_display(code)),
                    };
                    assert(m.queue.push(w) =~= m.queue + seq![w]);
                    assert(plain(seq![w]));
                    lemma_plain_concat(m.queue, seq![w]);
                },
                _ => {},
            },
            _ => {},
        }
    }
}

/// Whether the ledger tallies with the machine that has taken an answer and
/// has not yet asked for anything: the child that was asked for last is
/// among the children, and the one that was waited for last is not.
pub open spec fn tallied_after(
    a: Machine,
    l: Ledger,
    n: int,
    vars: Seq<VarView>,
    status: i32,
) -> bool {
    !l.refused ==> {
        &&& plain(a.queue)
        &&& a.vars == vars && a.last_return == status && !a.aborted
        &&& match a.phase {
            Phase::Launch => l.forks == a.cmd && l.waits == 0 && a.children.len() == a.cmd
                && a.cmd <= n,
            Phase::Run => l.forks == a.cmd && l.waits == 0 && a.children.len() == a.cmd && a.cmd
                < n,
            Phase::Reap => l.forks == n && l.waits + a.children.len() == n,
            _ => false,
        }
    }
}

/// To ask for the next thing keeps the ledger tallied.
#[verifier::spinoff_prover]
proof fn lemma_emit_tallies(
    a: Machine,
    l: Ledger,
    program: ProgramView,
    vars: Seq<VarView>,
    status: i32,
)
    requires
        a.phase != Phase::Idle,
        current(a, program) is Some,
        current(a, program).unwrap().0 == TermOp::Semi,
        width(a, program) <= usize::MAX,
        forall|i: int|
            0 <= i < width(a, program) ==> external(
                #[trigger] current(a, program).unwrap().2.commands[i],
                vars,
                status,
            ),
        tallied_after(a, l, width(a, program), vars, status),
    ensures
        ({
            let (next, action) = emit(a, program);
            let ledger = Ledger {
                forks: if action is Fork {
                    l.forks + 1
                } else {
                    l.forks
                },
                waits: if action is Wait {
                    l.waits + 1
                } else {
                    l.waits
                },
                ..l
            };
            &&& tallied(next, ledger, width(a, program), vars, status)
            &&& next.phase != Phase::Idle ==> next.cc == a.cc && next.ao == a.ao && next.pl
                == a.pl
        }),
{
    let (term, op, pipeline, pipelines) = current(a, program).unwrap();
    let n = pipeline.commands.len() as int;
    if !l.refused {
        if a.queue.len() > 0 {
            assert(a.queue[0] is Write || a.queue[0] is Close);
            let rest = a.queue.drop_first();
            assert forall|i: int| 0 <= i < rest.len() implies (#[trigger] rest[i] is Write) || (
            #[trigger] rest[i] is Close) by {
                assert(a.queue[i + 1] is Write || a.queue[i + 1] is Close);
            }
        } else if a.phase == Phase::Launch || a.phase == Phase::Run {
            if a.cmd < n {
                assert(external(pipeline.commands[a.cmd as int], vars, status));
            }
        }
    }
}

/// One step of the machine within a pipeline keeps the ledger tallied.
#[verifier::spinoff_prover]
proof fn lemma_step_tallies(
    m: Machine,
    l: Ledger,
    program: ProgramView,
    event: EventView,
    vars: Seq<VarView>,
    status: i32,
)
    requires
        m.phase != Phase::Idle,
        current(m, program) is Some,
        current(m, program).unwrap().0 == TermOp::Semi,
        width(m, program) <= usize::MAX,
        forall|i: int|
            0 <= i < width(m, program) ==> external(
                #[trigger] current(m, program).unwrap().2.commands[i],
                vars,
                status,
            ),
        tallied(m, l, width(m, program), vars, status),
    ensures
        ({
            let (next, action) = step(m, program, event);
            let ledger = noted(l, m, event, action);
            &&& tallied(next, ledger, width(m, program), vars, status)
            &&& next.phase != Phase::Idle ==> current(next, program) == current(m, program)
        }),
{
    let n = width(m, program);
    lemma_absorb_tallies(m, l, event, n, vars, status);
    let a = absorb(m, event);
    let between = noted(l, m, event, ActionView::Proceed);
    assert(current(a, program) == current(m, program));
    let (next, action) = emit(a, program);
    let ledger = noted(l, m, event, action);
    if !between.refused {
        assert(tallied_after(a, between, n, vars, status));
        assert(a.phase != Phase::Idle);
        lemma_emit_tallies(a, between, program, vars, status);
        assert(ledger == (Ledger {
            forks: if action is Fork {
                between.forks + 1
            } else {
                between.forks
            },
            waits: if action is Wait {
                between.waits + 1
            } else {
                between.waits
            },
            closed: ledger.closed,
            ..between
        }));
        if next.phase != Phase::Idle {
            assert(current(next, program) == current(m, program));
        }
    } else {
        assert(ledger.refused);
        lemma_cursor_stays(m, program, event);
    }
}

/// Within a pipeline the machine stays at its pipeline.
#[verifier::spinoff_prover]
proof fn lemma_cursor_stays(m: Machine, program: ProgramView, event: EventView)
    requires
        m.phase != Phase::Idle,
        current(m, program) is Some,
    ensures
        step(m, program, event).0.phase != Phase::Idle ==> current(
            step(m, program, event).0,
            program,
        ) == current(m, program),
{
    let a = absorb(m, event);
    assert(a.cc == m.cc && a.ao == m.ao && a.pl == m.pl);
    assert(current(a, program) == current(m, program));
    let (term, op, pipeline, pipelines) = current(a, program).unwrap();
    if a.queue.len() == 0 && a.phase != Phase::Idle {
        let next = pipeline_step(a, term, op, pipeline, pipelines).0;
        if next.phase != Phase::Idle {
            assert(next.cc == a.cc && next.ao == a.ao && next.pl == a.pl);
        }
    }
}

proof fn lemma_run_pipeline_tallies(
    m: Machine,
    l: Ledger,
    program: ProgramView,
    events: Seq<EventView>,
    n: int,
    vars: Seq<VarView>,
    status: i32,
)
    requires
        m.phase != Phase::Idle ==> {
            &&& current(m, program) is Some
            &&& current(m, program).unwrap().0 == TermOp::Semi
            &&& width(m, program) == n
            &&& n <= usize::MAX
            &&& forall|i: int|
                0 <= i < n ==> external(
                    #[trigger] current(m, program).unwrap().2.commands[i],
                    vars,
                    status,
                )
        },
        tallied(m, l, n, vars, status),
    ensures
        ({
            let (end, ledger) = run_pipeline(m, l, program, events);
            end.phase == Phase::Idle && !ledger.refused ==> ledger.forks == n && ledger.waits == n
        }),
    decreases events.len(),
{
    if events.len() == 0 || m.phase == Phase::Idle {
    } else {
        lemma_step_tallies(m, l, program, events[0], vars, status);
        let (next, action) = step(m, program, events[0]);
        lemma_run_pipeline_tallies(
            next,
            noted(l, m, events[0], action),
            program,
            events.drop_first(),
            n,
            vars,
            status,
        );
    }
}

/// For a pipeline in the foreground whose commands are all run by children,
/// exactly one child is asked for and exactly one is waited for for each of
/// its commands by the time it is over, as long as the host has made every
/// pipe and every child that it was asked for.
pub proof fn lemma_pipeline_forks_and_waits(
    m: Machine,
    program: ProgramView,
    events: Seq<EventView>,
)
    requires
        begun(m),
        current(m, program) is Some,
        current(m, program).unwrap().0 == TermOp::Semi,
        width(m, program) <= usize::MAX,
        forall|i: int|
            0 <= i < width(m, program) ==> external(
                #[trigger] current(m, program).unwrap().2.commands[i],
                m.vars,
                m.last_return,
            ),
    ensures
        ({
            let (end, ledger) = run_pipeline(m, blank(), program, events);
            end.phase == Phase::Idle && !ledger.refused ==> ledger.forks == width(m, program)
                && ledger.waits == width(m, program)
        }),
{
    lemma_run_pipeline_tallies(
        m,
        blank(),
        program,
        events,
        width(m, program),
        m.vars,
        m.last_return,
    );
}

} // verus!
