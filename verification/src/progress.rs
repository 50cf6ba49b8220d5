//! The evaluation of a program comes to an end: with every step the machine
//! gets nearer to it.

use vstd::prelude::*;
use crate::account::fits;
use crate::account::width;
use crate::ast::AndOrOp;
use crate::ast::CommandView;
use crate::ast::PipelineView;
use crate::ast::ProgramView;
use crate::ast::TermOp;
use crate::context::StdIo;
use crate::eval::absorb;
use crate::eval::current;
use crate::eval::emit;
use crate::eval::pipeline_step;
use crate::eval::run;
use crate::eval::step;
use crate::eval::succ;
use crate::eval::ActionView;
use crate::eval::EventView;
use crate::eval::Machine;
use crate::eval::Phase;

verus! {

/// How far the machine is from the end of its work, in numbers of which the
/// first count most: the complete commands, the lists and the pipelines that
/// lie before it, whether it stands between pipelines, the commands of its
/// pipeline that are not started, the children that are not waited for, the
/// steps that it can take where it stands, and the writes and closes that it
/// has to hand out.
pub struct Distance {
    pub commands: nat,
    pub lists: nat,
    pub pipelines: nat,
    pub idle: nat,
    pub launches: nat,
    pub children: nat,
    pub steps: nat,
    pub queue: nat,
}

/// `a - b`, or 0 where that is less.
pub open spec fn left(a: nat, b: usize) -> nat {
    if b < a {
        (a - b) as nat
    } else {
        0
    }
}

/// How far the machine `m` is from the end of its work on `program`.
pub open spec fn distance(m: Machine, program: ProgramView) -> Distance {
    let lists = if m.cc < program.commands.len() {
        left(program.commands[m.cc as int].and_ors.len(), m.ao)
    } else {
        0
    };
    let pipelines = if lists > 0 {
        left(program.commands[m.cc as int].and_ors[m.ao as int].1.pipelines.len(), m.pl)
    } else {
        0
    };
    let launching = m.phase == Phase::Launch || m.phase == Phase::AwaitPipe || m.phase
        == Phase::Run || m.phase == Phase::AwaitFork || m.phase == Phase::AwaitChdir;
    Distance {
        commands: left(program.commands.len(), m.cc),
        lists,
        pipelines,
        idle: if m.phase == Phase::Idle {
            1
        } else {
            0
        },
        launches: if launching && pipelines > 0 {
            left(width(m, program) as nat, m.cmd)
        } else {
            0
        },
        children: if m.phase == Phase::Idle {
            0
        } else {
            m.children.len()
        },
        steps: match m.phase {
            Phase::Idle => 0,
            Phase::Launch => 5,
            Phase::AwaitPipe => 4,
            Phase::Run => 3,
            Phase::AwaitFork => 2,
            Phase::AwaitChdir => 2,
            Phase::AwaitWait => 2,
            Phase::Reap => 1,
        },
        queue: m.queue.len(),
    }
}

/// Whether `a` is nearer than `b`: the first number in which they differ is
/// less in `a`. Nothing can get nearer for ever.
pub open spec fn nearer(a: Distance, b: Distance) -> bool {
    a.commands < b.commands || (a.commands == b.commands && (a.lists < b.lists || (a.lists
        == b.lists && (a.pipelines < b.pipelines || (a.pipelines == b.pipelines && (a.idle
        < b.idle || (a.idle == b.idle && (a.launches < b.launches || (a.launches == b.launches
        && (a.children < b.children || (a.children == b.children && (a.steps < b.steps || (
    a.steps == b.steps && a.queue < b.queue)))))))))))))
}

/// Whether `a` is nearer than `b` or as near.
pub open spec fn as_near(a: Distance, b: Distance) -> bool {
    a == b || nearer(a, b)
}

/// Whether the machine stands as it does in the course of an evaluation:
/// within a pipeline it is at a pipeline of the program, and a command that
/// is being started is one of that pipeline.
pub open spec fn steady(m: Machine, program: ProgramView) -> bool {
    m.phase != Phase::Idle ==> {
        &&& current(m, program) is Some
        &&& width(m, program) <= usize::MAX
        &&& m.phase == Phase::AwaitPipe || m.phase == Phase::Run || m.phase == Phase::AwaitFork
            || m.phase == Phase::AwaitChdir ==> m.cmd < width(m, program)
    }
}

/// Whether every list of `program` has no more pipelines, and every
/// pipeline no more commands, than can be counted.
pub open spec fn narrow(program: ProgramView) -> bool {
    &&& forall|cc: int, ao: int|
        0 <= cc < program.commands.len() && 0 <= ao < program.commands[cc].and_ors.len() ==> (
        #[trigger] program.commands[cc].and_ors[ao]).1.pipelines.len() <= usize::MAX
    &&& forall|cc: int, ao: int, pl: int|
        0 <= cc < program.commands.len() && 0 <= ao < program.commands[cc].and_ors.len() && 0
            <= pl < program.commands[cc].and_ors[ao].1.pipelines.len() ==> (
        #[trigger] program.commands[cc].and_ors[ao].1.pipelines[pl]).1.commands.len()
            <= usize::MAX
}

/// To take an answer brings the machine nearer to the end, or leaves it as near.
#[verifier::spinoff_prover]
proof fn lemma_absorb_nearer(m: Machine, program: ProgramView, event: EventView)
    requires
        steady(m, program),
    ensures
        steady(absorb(m, event), program),
        as_near(distance(absorb(m, event), program), distance(m, program)),
        absorb(m, event).phase == Phase::Idle || absorb(m, event).phase == Phase::Launch
            || absorb(m, event).phase == Phase::Run || absorb(m, event).phase == Phase::Reap,
        absorb(m, event).phase == Phase::Idle ==> absorb(m, event) == m,
{
    let a = absorb(m, event);
    assert(a.cc == m.cc && a.ao == m.ao && a.pl == m.pl);
    if m.phase != Phase::Idle {
        assert(current(a, program) == current(m, program));
    }
}

/// To hand out what is to be written or closed brings the machine nearer to the end.
#[verifier::spinoff_prover]
proof fn lemma_queue_nearer(a: Machine, program: ProgramView)
    requires
        a.queue.len() > 0,
        steady(a, program),
    ensures
        steady(emit(a, program).0, program),
        nearer(distance(emit(a, program).0, program), distance(a, program)),
{
    let next = emit(a, program).0;
    assert(next.queue.len() == a.queue.len() - 1);
    if a.phase != Phase::Idle {
        assert(current(next, program) == current(a, program));
    }
}

/// To find the next pipeline brings the machine nearer to the end, unless
/// it has finished.
#[verifier::spinoff_prover]
proof fn lemma_idle_nearer(a: Machine, program: ProgramView)
    requires
        a.queue.len() == 0,
        a.phase == Phase::Idle,
        fits(program),
        narrow(program),
    ensures
        steady(emit(a, program).0, program),
        emit(a, program).1 is Finished || nearer(
            distance(emit(a, program).0, program),
            distance(a, program),
        ),
{
    if a.cc < program.commands.len() {
        assert(program.commands[a.cc as int].and_ors.len() <= usize::MAX);
        let next = emit(a, program).0;
        if a.ao < program.commands[a.cc as int].and_ors.len() && a.pl
            < program.commands[a.cc as int].and_ors[a.ao as int].1.pipelines.len() {
            assert(current(next, program) == current(a, program));
            let list = program.commands[a.cc as int].and_ors[a.ao as int];
            assert(list.1.pipelines[a.pl as int].1.commands.len() <= usize::MAX);
        }
    }
}

/// To run a command leaves the machine at its pipeline, with the next
/// command to start or with an answer to wait for.
proof fn lemma_run_places(m: Machine)
    ensures
        forall|command: CommandView|
            #![trigger run(m, command)]
            {
                let next = run(m, command).0;
                &&& next.cc == m.cc && next.ao == m.ao && next.pl == m.pl
                &&& !(run(m, command).1 is Finished)
                &&& (next.phase == Phase::Launch && next.cmd == succ(m.cmd))
                    || ((next.phase == Phase::AwaitFork || next.phase == Phase::AwaitChdir)
                    && next.cmd == m.cmd && next.children == m.children)
            },
{
}

/// To work on a pipeline brings the machine nearer to the end.
#[verifier::spinoff_prover]
proof fn lemma_pipeline_nearer(a: Machine, program: ProgramView)
    requires
        a.queue.len() == 0,
        a.phase == Phase::Launch || a.phase == Phase::Run || a.phase == Phase::Reap,
        steady(a, program),
        fits(program),
        narrow(program),
    ensures
        steady(emit(a, program).0, program),
        !(emit(a, program).1 is Finished),
        nearer(distance(emit(a, program).0, program), distance(a, program)),
{
    let (term, op, pipeline, pipelines) = current(a, program).unwrap();
    let n = pipeline.commands.len() as int;
    let (next, action) = pipeline_step(a, term, op, pipeline, pipelines);
    assert(emit(a, program) == (next, action));
    assert(program.commands[a.cc as int].and_ors.len() <= usize::MAX);
    assert(program.commands[a.cc as int].and_ors[a.ao as int].1.pipelines.len() <= usize::MAX);
    let ready = Machine {
        stdio: StdIo {
            stdin: if a.cmd == 0 {
                0
            } else {
                a.next_stdin
            },
            stdout: 1,
            stderr: 2,
        },
        next_stdin: 0,
        rightmost: true,
        ..a
    };
    lemma_run_places(a);
    lemma_run_places(ready);
    if next.phase != Phase::Idle {
        assert(next.cc == a.cc && next.ao == a.ao && next.pl == a.pl);
        assert(current(next, program) == current(a, program));
    }
}

/// With every step the machine gets nearer to the end of its work, unless
/// it says that it has finished: whatever the host answers, the evaluation of
/// a program comes to an end.
pub proof fn lemma_step_nearer(m: Machine, program: ProgramView, event: EventView)
    requires
        steady(m, program),
        fits(program),
        narrow(program),
    ensures
        steady(step(m, program, event).0, program),
        step(m, program, event).1 is Finished || nearer(
            distance(step(m, program, event).0, program),
            distance(m, program),
        ),
{
    let a = absorb(m, event);
    lemma_absorb_nearer(m, program, event);
    if a.queue.len() > 0 {
        lemma_queue_nearer(a, program);
    } else if a.phase == Phase::Idle {
        lemma_idle_nearer(a, program);
    } else {
        lemma_pipeline_nearer(a, program);
    }
}

/// The number of steps that the evaluation of `program` takes from the
/// machine `m` on until it has finished, where the machine takes `event` now
/// and the host answers each action as `host` says. That the number is
/// defined says that the evaluation comes to an end.
pub open spec fn steps(
    m: Machine,
    program: ProgramView,
    event: EventView,
    host: spec_fn(Machine, ActionView) -> EventView,
) -> nat
    decreases
            distance(m, program).commands,
            distance(m, program).lists,
            distance(m, program).pipelines,
            distance(m, program).idle,
            distance(m, program).launches,
            distance(m, program).children,
            distance(m, program).steps,
            distance(m, program).queue,
    when steady(m, program) && fits(program) && narrow(program)
{
    let (next, action) = step(m, program, event);
    if action is Finished {
        0
    } else {
        proof {
            lemma_step_nearer(m, program, event);
        }
        1 + steps(next, program, host(next, action), host)
    }
}

} // verus!
