use rash::builtins::cd;
use rash::builtins::cd_done;
use rash::builtins::export;
use rash::builtins::readonly;
use rash::builtins::unset;
use rash::builtins::Builtins;
use rash::builtins::CdPlan;
use rash::builtins::Command;
use rash::context::Context;
use rash::environment::empty;
use rash::errno::cd_failure_message;
use rash::errno::exec_failure_message;
use rash::errno::wait_failure_message;

fn args(words: &[&str]) -> Vec<Vec<u8>> {
    words.iter().map(|w| w.as_bytes().to_vec()).collect()
}

fn context() -> Context {
    let mut env = empty();
    env.set_var(b"HOME", b"/home/me".to_vec(), Some(true));
    env.set_var(b"PLAIN", b"p".to_vec(), None);
    Context::new(false, env)
}

fn text(bytes: &[u8]) -> String {
    String::from_utf8(bytes.to_vec()).unwrap()
}

#[test]
fn registry_knows_the_four_builtins() {
    let builtins = Builtins::new();
    assert_eq!(builtins.get(b"cd"), Some(Command::Cd));
    assert_eq!(builtins.get(b"export"), Some(Command::Export));
    assert_eq!(builtins.get(b"readonly"), Some(Command::Readonly));
    assert_eq!(builtins.get(b"unset"), Some(Command::Unset));
    assert_eq!(builtins.get(b"echo"), None);
    assert_eq!(builtins.get(b""), None);
    assert_eq!(builtins.get(b"cdx"), None);
    assert_eq!(Builtins::default().get(b"cd"), Some(Command::Cd));
}

#[test]
fn cd_without_argument_goes_home() {
    match cd(&args(&["cd"]), &context()) {
        CdPlan::Go { dir, echo } => {
            assert_eq!(text(&dir), "/home/me");
            assert!(!echo);
        }
        other => panic!("{:?}", other),
    }
    let bare = Context::new(false, empty());
    match cd(&args(&["cd"]), &bare) {
        CdPlan::Go { dir, echo } => {
            assert_eq!(text(&dir), "/");
            assert!(!echo);
        }
        other => panic!("{:?}", other),
    }
}

#[test]
fn cd_with_a_directory_goes_there() {
    match cd(&args(&["cd", "/tmp"]), &context()) {
        CdPlan::Go { dir, echo } => {
            assert_eq!(text(&dir), "/tmp");
            assert!(!echo);
        }
        other => panic!("{:?}", other),
    }
}

#[test]
fn cd_dash_goes_back_and_says_so() {
    let mut ctx = context();
    match cd(&args(&["cd", "-"]), &ctx) {
        CdPlan::Fail { output } => {
            assert_eq!(output.status, 1);
            assert_eq!(text(&output.err), "rash: cd: -: OLDPWD not set\n");
            assert!(output.out.is_empty());
        }
        other => panic!("{:?}", other),
    }
    ctx.env.set_var(b"OLDPWD", b"/before".to_vec(), None);
    match cd(&args(&["cd", "-"]), &ctx) {
        CdPlan::Go { dir, echo } => {
            assert_eq!(text(&dir), "/before");
            assert!(echo);
        }
        other => panic!("{:?}", other),
    }
}

#[test]
fn cd_with_too_many_arguments_fails() {
    match cd(&args(&["cd", "a", "b"]), &context()) {
        CdPlan::Fail { output } => {
            assert_eq!(output.status, 1);
            assert_eq!(text(&output.err), "rash: too many arguments\n");
        }
        other => panic!("{:?}", other),
    }
}

#[test]
fn cd_that_succeeds_records_the_directory_left() {
    let mut ctx = context();
    let output = cd_done(&mut ctx, b"/tmp", false, Some(b"/start".to_vec()), Ok(()));
    assert_eq!(output.status, 0);
    assert!(output.out.is_empty() && output.err.is_empty());
    assert_eq!(ctx.env.get(b"OLDPWD"), Some(&b"/start"[..]));
    // where the directory left is not known, OLDPWD stays
    let output = cd_done(&mut ctx, b"/", true, None, Ok(()));
    assert_eq!(output.status, 0);
    assert_eq!(text(&output.out), "/\n");
    assert_eq!(ctx.env.get(b"OLDPWD"), Some(&b"/start"[..]));
}

#[test]
fn cd_that_fails_names_the_directory_and_the_error() {
    let mut ctx = context();
    let output = cd_done(&mut ctx, b"/nonexistent", false, Some(b"/start".to_vec()), Err(2));
    assert_eq!(output.status, 1);
    assert_eq!(text(&output.err), "rash: cd: /nonexistent: No such file or directory\n");
    assert_eq!(ctx.env.get(b"OLDPWD"), None);
    let output = cd_done(&mut ctx, b"/root", false, None, Err(13));
    assert_eq!(text(&output.err), "rash: cd: /root: Permission denied\n");
}

#[test]
fn export_lists_exported_variables() {
    let mut ctx = context();
    ctx.env.export(b"LATER");
    for words in [&["export"][..], &["export", "-p"][..]] {
        let output = export(&args(words), &mut ctx);
        assert_eq!(output.status, 0);
        assert_eq!(text(&output.out), "export HOME=/home/me\nexport LATER\n");
        assert!(output.err.is_empty());
    }
}

#[test]
fn export_assigns_and_marks() {
    let mut ctx = context();
    let output = export(&args(&["export", "NEW=1", "PLAIN", "BARE"]), &mut ctx);
    assert_eq!(output.status, 0);
    assert!(output.out.is_empty());
    assert_eq!(
        ctx.env.exports(),
        vec![b"HOME=/home/me".to_vec(), b"PLAIN=p".to_vec(), b"NEW=1".to_vec()]
    );
    assert_eq!(ctx.env.get(b"BARE"), None);
    assert_eq!(ctx.env.iter().len(), 4);
}

#[test]
fn readonly_lists_and_marks() {
    let mut ctx = context();
    let output = readonly(&args(&["readonly", "R=1", "PLAIN", "HOME=/other"]), &mut ctx);
    assert_eq!(output.status, 0);
    ctx.env.set_var(b"R", b"2".to_vec(), None);
    ctx.env.set_var(b"PLAIN", b"q".to_vec(), None);
    assert_eq!(ctx.env.get(b"R"), Some(&b"1"[..]));
    assert_eq!(ctx.env.get(b"PLAIN"), Some(&b"p"[..]));
    assert_eq!(ctx.env.get(b"HOME"), Some(&b"/other"[..]));
    let output = readonly(&args(&["readonly"]), &mut ctx);
    assert_eq!(text(&output.out), "readonly HOME=/other\nreadonly PLAIN=p\nreadonly R=1\n");
    // the assignment took the export mark of HOME away
    assert!(ctx.env.exports().is_empty());
}

#[test]
fn unset_forgets_each_name() {
    let mut ctx = context();
    ctx.env.set_var(b"KEEP", b"k".to_vec(), None);
    ctx.env.readonly(b"KEEP");
    let output = unset(&args(&["unset", "HOME", "KEEP", "missing"]), &mut ctx);
    assert_eq!(output.status, 0);
    assert!(output.out.is_empty() && output.err.is_empty());
    assert_eq!(ctx.env.get(b"HOME"), None);
    assert_eq!(ctx.env.get(b"KEEP"), Some(&b"k"[..]));
    assert_eq!(ctx.env.get(b"PLAIN"), Some(&b"p"[..]));
}

#[test]
fn messages_are_lines() {
    assert_eq!(text(&cd_failure_message(b"/x", b"why")), "rash: cd: /x: why\n");
    assert_eq!(text(&wait_failure_message(b"why")), "rash: wait failed: why\n");
    assert_eq!(text(&exec_failure_message(b"why")), "could not exec: why\n");
}

#[test]
fn new_context_has_status_zero() {
    let ctx = Context::new(true, empty());
    assert!(ctx.interactive);
    assert_eq!(ctx.last_return, 0);
}
