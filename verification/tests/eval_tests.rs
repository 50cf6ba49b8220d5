use rash::context::Context;
use rash::environment::empty;
use rash::eval::Action;
use rash::eval::Eval;
use rash::eval::Event;
use rash::eval::WaitStatus;
use rash::grammar::parse;

/// A host that plays the operating system: it knows a few programs and keeps
/// account of pipes, children and file descriptors.
struct Host {
    stdout: Vec<u8>,
    stderr: Vec<u8>,
    /// what has been written into each pipe, under its read end
    pipes: Vec<(i32, i32, Vec<u8>)>,
    open: Vec<i32>,
    next_fd: i32,
    next_pid: i32,
    statuses: Vec<(i32, i32)>,
    forks: usize,
    waits: Vec<i32>,
    closes: Vec<i32>,
    fail_fork_at: Option<usize>,
    fail_pipe: bool,
    cwd: Vec<u8>,
}

impl Host {
    fn new() -> Host {
        Host {
            stdout: Vec::new(),
            stderr: Vec::new(),
            pipes: Vec::new(),
            open: Vec::new(),
            next_fd: 3,
            next_pid: 100,
            statuses: Vec::new(),
            forks: 0,
            waits: Vec::new(),
            closes: Vec::new(),
            fail_fork_at: None,
            fail_pipe: false,
            cwd: b"/start".to_vec(),
        }
    }

    fn write(&mut self, fd: i32, data: &[u8]) {
        if fd == 1 {
            self.stdout.extend_from_slice(data);
        } else if fd == 2 {
            self.stderr.extend_from_slice(data);
        } else {
            let pipe = self.pipes.iter_mut().find(|p| p.1 == fd).unwrap();
            pipe.2.extend_from_slice(data);
        }
    }

    fn read(&mut self, fd: i32) -> Vec<u8> {
        if fd == 0 {
            Vec::new()
        } else {
            self.pipes.iter().find(|p| p.0 == fd).unwrap().2.clone()
        }
    }

    fn spawn(&mut self, args: &[Vec<u8>], env: &[Vec<u8>], stdin: i32, stdout: i32) -> i32 {
        let input = self.read(stdin);
        let name = String::from_utf8(args[0].clone()).unwrap();
        let (output, status): (Vec<u8>, i32) = match name.as_str() {
            "echo" => {
                let mut line = args[1..].join(&b' ');
                line.push(b'\n');
                (line, 0)
            }
            "true" => (Vec::new(), 0),
            "false" => (Vec::new(), 1),
            "cat" => (input, 0),
            "tr" => {
                let from = args[1][0];
                let to = args[2][0];
                (input.iter().map(|c| if *c == from { to } else { *c }).collect(), 0)
            }
            "printenv" => {
                let mut prefix = args[1].clone();
                prefix.push(b'=');
                match env.iter().find(|line| line.starts_with(&prefix)) {
                    Some(line) => {
                        let mut value = line[prefix.len()..].to_vec();
                        value.push(b'\n');
                        (value, 0)
                    }
                    None => (Vec::new(), 1),
                }
            }
            _ => (Vec::new(), 127),
        };
        self.write(stdout, &output);
        let pid = self.next_pid;
        self.next_pid += 1;
        self.statuses.push((pid, status));
        pid
    }

    fn perform(&mut self, action: Action) -> Event {
        match action {
            Action::Proceed => Event::Done,
            Action::Finished => Event::Done,
            Action::Pipe => {
                if self.fail_pipe {
                    return Event::Pipe(None);
                }
                let read = self.next_fd;
                let write = self.next_fd + 1;
                self.next_fd += 2;
                self.pipes.push((read, write, Vec::new()));
                self.open.push(read);
                self.open.push(write);
                Event::Pipe(Some((read, write)))
            }
            Action::Fork { plan, stdio, spare } => {
                assert_eq!(spare == 0, stdio.stdout == 1);
                self.forks += 1;
                if self.fail_fork_at == Some(self.forks) {
                    return Event::Fork(None);
                }
                assert_eq!(stdio.stderr, 2);
                Event::Fork(Some(self.spawn(&plan.args, &plan.env, stdio.stdin, stdio.stdout)))
            }
            Action::Chdir { dir } => {
                let previous = Some(self.cwd.clone());
                if dir.starts_with(b"/nonexistent") {
                    Event::Chdir { previous, outcome: Err(2) }
                } else {
                    self.cwd = dir;
                    Event::Chdir { previous, outcome: Ok(()) }
                }
            }
            Action::Write { fd, data } => {
                self.write(fd, &data);
                Event::Done
            }
            Action::Close { fd } => {
                assert!(self.open.contains(&fd), "closing {} which is not open", fd);
                self.open.retain(|open| *open != fd);
                self.closes.push(fd);
                Event::Done
            }
            Action::Wait { pid } => {
                self.waits.push(pid);
                let status = self.statuses.iter().find(|s| s.0 == pid).unwrap().1;
                Event::Wait(WaitStatus::Exited(status))
            }
        }
    }
}

fn shell() -> Eval {
    Eval::new(Context::new(false, empty()))
}

fn run_on(eval: &mut Eval, host: &mut Host, input: &str) {
    let program = parse(input.as_bytes()).unwrap();
    eval.rewind();
    let mut event = Event::Done;
    for _ in 0..10_000 {
        match eval.eval(&program, event) {
            Action::Finished => return,
            action => event = host.perform(action),
        }
    }
    panic!("the evaluation does not end");
}

fn run(input: &str) -> (Eval, Host) {
    let mut eval = shell();
    let mut host = Host::new();
    run_on(&mut eval, &mut host, input);
    (eval, host)
}

fn text(bytes: &[u8]) -> String {
    String::from_utf8(bytes.to_vec()).unwrap()
}

#[test]
fn echo_hello() {
    let (eval, host) = run("echo hello\n");
    assert_eq!(text(&host.stdout), "hello\n");
    assert_eq!(eval.context.last_return, 0);
    assert_eq!(host.forks, 1);
    assert_eq!(host.waits.len(), 1);
}

#[test]
fn and_stops_after_a_failure() {
    let (eval, host) = run("false && echo x; echo y\n");
    assert_eq!(text(&host.stdout), "y\n");
    assert_eq!(eval.context.last_return, 0);
}

#[test]
fn or_stops_after_a_success() {
    let (eval, host) = run("true || echo x; echo y\n");
    assert_eq!(text(&host.stdout), "y\n");
    assert_eq!(eval.context.last_return, 0);
}

#[test]
fn and_or_chains_go_on_where_they_should() {
    let (eval, host) = run("false || echo a && echo b\n");
    assert_eq!(text(&host.stdout), "a\nb\n");
    assert_eq!(eval.context.last_return, 0);
    let (eval, host) = run("true && false || echo c\n");
    assert_eq!(text(&host.stdout), "c\n");
    assert_eq!(eval.context.last_return, 0);
    let (eval, host) = run("true && false\n");
    assert_eq!(text(&host.stdout), "");
    assert_eq!(eval.context.last_return, 1);
}

#[test]
fn pipeline_of_two_commands() {
    let (eval, host) = run("echo a | tr a b\n");
    assert_eq!(text(&host.stdout), "b\n");
    assert_eq!(eval.context.last_return, 0);
    assert_eq!(host.pipes.len(), 1);
    let mut closed = host.closes.clone();
    closed.sort();
    assert_eq!(closed, vec![3, 4]);
    assert!(host.open.is_empty());
}

#[test]
fn pipeline_spawns_and_reaps_every_command() {
    let (eval, host) = run("echo abc | tr a x | tr b y | cat\n");
    assert_eq!(text(&host.stdout), "xyc\n");
    assert_eq!(host.forks, 4);
    // the children are waited for from the last to the first
    assert_eq!(host.waits, vec![103, 102, 101, 100]);
    assert_eq!(host.pipes.len(), 3);
    assert!(host.open.is_empty());
    assert_eq!(host.closes.len(), 6);
    assert_eq!(eval.context.last_return, 0);
}

#[test]
fn status_is_that_of_the_rightmost_command() {
    let (eval, _) = run("false | true\n");
    assert_eq!(eval.context.last_return, 0);
    let (eval, _) = run("true | false\n");
    assert_eq!(eval.context.last_return, 1);
    let (eval, _) = run("nosuchprogram\n");
    assert_eq!(eval.context.last_return, 127);
}

#[test]
fn prefix_assignment_reaches_the_child_only() {
    let (eval, host) = run("FOO=bar printenv FOO\n");
    assert_eq!(text(&host.stdout), "bar\n");
    assert_eq!(eval.context.env.get(b"FOO"), None);
}

#[test]
fn prefix_assignment_is_in_force_for_the_words_of_its_command() {
    let (eval, host) = run("FOO=bar echo $FOO\n");
    assert_eq!(text(&host.stdout), "bar\n");
    assert_eq!(eval.context.env.get(b"FOO"), None);
    let (eval, host) = run("FOO=bar echo $FOO; echo $FOO.\n");
    assert_eq!(text(&host.stdout), "bar\n.\n");
    assert_eq!(eval.context.env.get(b"FOO"), None);
}

#[test]
fn assignment_alone_changes_the_shell() {
    let (eval, host) = run("FOO=bar\necho $FOO\n");
    assert_eq!(text(&host.stdout), "bar\n");
    assert_eq!(eval.context.env.get(b"FOO"), Some(&b"bar"[..]));
    assert!(eval.context.env.exports().is_empty());
    assert_eq!(eval.context.last_return, 0);
    assert_eq!(host.forks, 1);
}

#[test]
fn assignment_alone_resets_the_status() {
    let mut eval = shell();
    let mut host = Host::new();
    run_on(&mut eval, &mut host, "false");
    assert_eq!(eval.context.last_return, 1);
    run_on(&mut eval, &mut host, "A=1 B=2");
    assert_eq!(eval.context.last_return, 0);
    assert_eq!(eval.context.env.get(b"A"), Some(&b"1"[..]));
    assert_eq!(eval.context.env.get(b"B"), Some(&b"2"[..]));
}

#[test]
fn empty_program_changes_nothing() {
    let mut eval = shell();
    let mut host = Host::new();
    run_on(&mut eval, &mut host, "false");
    run_on(&mut eval, &mut host, "");
    assert_eq!(eval.context.last_return, 1);
    run_on(&mut eval, &mut host, "\n\n");
    assert_eq!(eval.context.last_return, 1);
    assert_eq!(host.forks, 1);
}

#[test]
fn status_parameter_follows_the_last_command() {
    let (_, host) = run("false; echo $?; echo $?\n");
    assert_eq!(text(&host.stdout), "1\n0\n");
}

#[test]
fn background_pipeline_is_not_waited_for() {
    let (eval, host) = run("false &\n");
    assert_eq!(host.forks, 1);
    assert!(host.waits.is_empty());
    assert_eq!(eval.context.last_return, 0);
    let (eval, host) = run("echo a | cat & echo b\n");
    assert_eq!(text(&host.stdout), "a\nb\n");
    assert_eq!(host.forks, 3);
    assert_eq!(host.waits, vec![102]);
    assert!(host.open.is_empty());
    assert_eq!(eval.context.last_return, 0);
}

#[test]
fn negation_turns_the_status_round() {
    let (eval, _) = run("! true\n");
    assert_eq!(eval.context.last_return, 1);
    let (eval, _) = run("! false\n");
    assert_eq!(eval.context.last_return, 0);
    let (_, host) = run("! false && echo yes\n");
    assert_eq!(text(&host.stdout), "yes\n");
}

#[test]
fn builtin_runs_without_a_child() {
    let (eval, host) = run("export FOO=bar; printenv FOO\n");
    assert_eq!(text(&host.stdout), "bar\n");
    assert_eq!(host.forks, 1);
    assert_eq!(eval.context.env.exports(), vec![b"FOO=bar".to_vec()]);
    let (eval, host) = run("export A=1 B=2; unset A; export\n");
    assert_eq!(text(&host.stdout), "export B=2\n");
    assert_eq!(host.forks, 0);
    assert_eq!(eval.context.last_return, 0);
}

#[test]
fn builtin_writes_into_a_pipe() {
    let (eval, host) = run("export A=1; export | tr A B\n");
    assert_eq!(text(&host.stdout), "export B=1\n");
    assert_eq!(host.forks, 1);
    assert!(host.open.is_empty());
    assert_eq!(eval.context.last_return, 0);
}

#[test]
fn rightmost_builtin_gives_the_status() {
    let (eval, host) = run("false | cd /nonexistent\n");
    assert_eq!(eval.context.last_return, 1);
    assert!(host.open.is_empty());
    let (eval, _) = run("false | unset X\n");
    assert_eq!(eval.context.last_return, 0);
}

#[test]
fn cd_to_a_missing_directory_fails() {
    let (eval, host) = run("cd /nonexistent\n");
    assert!(text(&host.stderr).contains("cd: /nonexistent:"));
    assert_eq!(text(&host.stderr), "rash: cd: /nonexistent: No such file or directory\n");
    assert_eq!(eval.context.last_return, 1);
    assert_eq!(eval.context.env.get(b"OLDPWD"), None);
    assert_eq!(host.cwd, b"/start".to_vec());
}

#[test]
fn cd_records_the_directory_left() {
    let (eval, host) = run("cd /tmp\n");
    assert_eq!(host.cwd, b"/tmp".to_vec());
    assert_eq!(eval.context.env.get(b"OLDPWD"), Some(&b"/start"[..]));
    assert_eq!(eval.context.last_return, 0);
    let (eval, host) = run("cd /tmp; cd /var; cd -\n");
    assert_eq!(host.cwd, b"/tmp".to_vec());
    assert_eq!(text(&host.stdout), "/tmp\n");
    assert_eq!(eval.context.env.get(b"OLDPWD"), Some(&b"/var"[..]));
}

#[test]
fn failed_fork_gives_the_pipeline_up() {
    let mut eval = shell();
    let mut host = Host::new();
    host.fail_fork_at = Some(2);
    run_on(&mut eval, &mut host, "echo a | cat | cat; echo after\n");
    assert_eq!(text(&host.stderr), "rash: fork failed\n");
    assert_eq!(text(&host.stdout), "after\n");
    // both pipes are closed, the one child is waited for, the third command never starts
    assert!(host.open.is_empty());
    assert_eq!(host.pipes.len(), 2);
    assert_eq!(host.waits, vec![100, 101]);
    assert_eq!(host.forks, 3);
}

#[test]
fn failed_fork_leaves_the_status() {
    let mut eval = shell();
    let mut host = Host::new();
    run_on(&mut eval, &mut host, "false");
    host.fail_fork_at = Some(2);
    run_on(&mut eval, &mut host, "true");
    assert_eq!(eval.context.last_return, 1);
}

#[test]
fn failed_pipe_gives_the_pipeline_up() {
    let mut eval = shell();
    let mut host = Host::new();
    host.fail_pipe = true;
    run_on(&mut eval, &mut host, "echo a | cat\n");
    assert_eq!(text(&host.stderr), "rash: pipe failed\n");
    assert_eq!(host.forks, 0);
    assert!(host.open.is_empty());
}

#[test]
fn failed_wait_is_reported() {
    let mut eval = shell();
    let program = parse(b"true").unwrap();
    let mut event = Event::Done;
    let mut said = Vec::new();
    loop {
        match eval.eval(&program, event) {
            Action::Finished => break,
            Action::Fork { .. } => event = Event::Fork(Some(5)),
            Action::Wait { pid } => {
                assert_eq!(pid, 5);
                event = Event::Wait(WaitStatus::Failed(10));
            }
            Action::Write { fd, data } => {
                assert_eq!(fd, 2);
                said.extend_from_slice(&data);
                event = Event::Done;
            }
            _ => event = Event::Done,
        }
    }
    assert_eq!(text(&said), "rash: wait failed: ECHILD: No child processes\n");
    assert_eq!(eval.context.last_return, 0);
}

#[test]
fn child_that_did_not_exit_leaves_the_status_to_the_one_before() {
    let mut eval = shell();
    let program = parse(b"false | true").unwrap();
    let mut event = Event::Done;
    let mut pid = 10;
    loop {
        match eval.eval(&program, event) {
            Action::Finished => break,
            Action::Pipe => event = Event::Pipe(Some((3, 4))),
            Action::Fork { .. } => {
                pid += 1;
                event = Event::Fork(Some(pid));
            }
            Action::Wait { pid } => {
                event = if pid == 12 {
                    Event::Wait(WaitStatus::Other)
                } else {
                    Event::Wait(WaitStatus::Exited(1))
                };
            }
            _ => event = Event::Done,
        }
    }
    assert_eq!(eval.context.last_return, 1);
}

#[test]
fn expand_arg_uses_the_state_of_the_shell() {
    let mut eval = shell();
    eval.context.env.set_var(b"X", b"y".to_vec(), None);
    eval.context.last_return = 42;
    assert_eq!(eval.expand_arg(b"$X-$?"), b"y-42".to_vec());
}

#[test]
fn answer_that_does_not_fit_counts_as_a_failure() {
    let mut eval = shell();
    let program = parse(b"a | b").unwrap();
    let mut event = Event::Done;
    let mut said = Vec::new();
    let mut asked_for_pipe = false;
    let mut forks = 0;
    for _ in 0..100 {
        match eval.eval(&program, event) {
            Action::Finished => break,
            Action::Pipe => {
                asked_for_pipe = true;
                // not what was asked for
                event = Event::Fork(Some(1));
            }
            Action::Fork { .. } => {
                forks += 1;
                event = Event::Done;
            }
            Action::Write { data, .. } => {
                said.extend_from_slice(&data);
                event = Event::Done;
            }
            _ => event = Event::Done,
        }
    }
    assert!(asked_for_pipe);
    assert_eq!(forks, 0);
    assert_eq!(text(&said), "rash: pipe failed\n");
}

#[test]
fn evaluation_can_start_over() {
    let mut eval = shell();
    let program = parse(b"a | b").unwrap();
    assert!(matches!(eval.eval(&program, Event::Done), Action::Proceed));
    assert!(matches!(eval.eval(&program, Event::Done), Action::Pipe));
    eval.rewind();
    assert!(matches!(eval.eval(&program, Event::Done), Action::Proceed));
    assert!(matches!(eval.eval(&program, Event::Done), Action::Pipe));
    let finished = parse(b"").unwrap();
    eval.rewind();
    assert!(matches!(eval.eval(&finished, Event::Done), Action::Finished));
    assert!(matches!(eval.eval(&finished, Event::Done), Action::Finished));
}

#[test]
fn child_is_told_what_to_close() {
    let mut eval = shell();
    let program = parse(b"X=1 a b | c").unwrap();
    let mut event = Event::Done;
    let mut seen = Vec::new();
    let mut closed = Vec::new();
    for _ in 0..100 {
        match eval.eval(&program, event) {
            Action::Finished => break,
            Action::Pipe => event = Event::Pipe(Some((7, 8))),
            Action::Fork { plan, stdio, spare } => {
                seen.push((plan.args.clone(), plan.env.clone(), stdio.stdin, stdio.stdout, spare));
                event = Event::Fork(Some(40 + seen.len() as i32));
            }
            Action::Close { fd } => {
                closed.push(fd);
                event = Event::Done;
            }
            Action::Wait { .. } => event = Event::Wait(WaitStatus::Exited(0)),
            _ => event = Event::Done,
        }
    }
    assert_eq!(
        seen,
        vec![
            (vec![b"a".to_vec(), b"b".to_vec()], vec![b"X=1".to_vec()], 0, 8, 7),
            (vec![b"c".to_vec()], vec![], 7, 1, 0),
        ]
    );
    assert_eq!(closed, vec![8, 7]);
}

#[test]
fn compound_command_fails() {
    let program = rash::ast::Program {
        commands: rash::ast::CompleteCommands {
            complete_commands: vec![rash::ast::CompleteCommand {
                and_ors: vec![(
                    rash::ast::TermOp::Semi,
                    rash::ast::AndOr {
                        pipelines: vec![(
                            rash::ast::AndOrOp::And,
                            rash::ast::Pipeline {
                                commands: vec![rash::ast::Command::Compound],
                                negated: false,
                            },
                        )],
                    },
                )],
            }],
        },
    };
    let mut eval = shell();
    let mut host = Host::new();
    let mut event = Event::Done;
    for _ in 0..100 {
        match eval.eval(&program, event) {
            Action::Finished => break,
            action => event = host.perform(action),
        }
    }
    assert_eq!(text(&host.stderr), "rash: compound commands are not implemented\n");
    assert_eq!(eval.context.last_return, 1);
    assert_eq!(host.forks, 0);
}
