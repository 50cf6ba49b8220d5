use rash::context::Context;
use rash::environment::empty;
use rash::errno::ENOENT;
use rash::exec::child_environment;
use rash::exec::exec;
use rash::exec::exec_failure_status;
use rash::exec::filepath;
use rash::exec::first_error;
use rash::exec::search;

fn words(list: &[&str]) -> Vec<Vec<u8>> {
    list.iter().map(|w| w.as_bytes().to_vec()).collect()
}

#[test]
fn filepath_joins_with_a_slash() {
    assert_eq!(filepath(b"/bin", b"ls"), b"/bin/ls".to_vec());
    assert_eq!(filepath(b"/bin/", b"ls"), b"/bin/ls".to_vec());
    assert_eq!(filepath(b"", b"ls"), b"ls".to_vec());
    assert_eq!(filepath(b"/", b"ls"), b"/ls".to_vec());
    assert_eq!(filepath(b"rel", b"ls"), b"rel/ls".to_vec());
}

#[test]
fn search_goes_through_the_path() {
    let mut env = empty();
    env.set_var(b"PATH", b"/a:/b/:c".to_vec(), None);
    assert_eq!(search(&env, b"ls"), words(&["/a/ls", "/b/ls", "c/ls"]));
    env.set_var(b"PATH", b"/a::/b:".to_vec(), None);
    assert_eq!(search(&env, b"ls"), words(&["/a/ls", "ls", "/b/ls", "ls"]));
    env.set_var(b"PATH", b"".to_vec(), None);
    assert_eq!(search(&env, b"ls"), words(&["ls"]));
}

#[test]
fn search_without_path_uses_the_default() {
    assert_eq!(search(&empty(), b"ls"), words(&["/bin/ls", "/usr/bin/ls"]));
}

#[test]
fn search_leaves_names_with_a_slash_alone() {
    let mut env = empty();
    env.set_var(b"PATH", b"/a:/b".to_vec(), None);
    assert_eq!(search(&env, b"./ls"), words(&["./ls"]));
    assert_eq!(search(&env, b"/bin/ls"), words(&["/bin/ls"]));
    assert_eq!(search(&env, b"dir/"), words(&["dir/"]));
}

#[test]
fn first_error_is_the_first_that_is_not_enoent() {
    assert_eq!(ENOENT, 2);
    assert_eq!(first_error(&vec![]), 2);
    assert_eq!(first_error(&vec![2, 2]), 2);
    assert_eq!(first_error(&vec![2, 13, 8]), 13);
    assert_eq!(first_error(&vec![8, 13]), 8);
    assert_eq!(exec_failure_status(2), 127);
    assert_eq!(exec_failure_status(13), 126);
}

#[test]
fn child_environment_exports_the_assignments() {
    let mut env = empty();
    env.set_var(b"KEPT", b"k".to_vec(), Some(true));
    env.set_var(b"LOCAL", b"l".to_vec(), None);
    let child = child_environment(&env, &words(&["FOO=bar", "LOCAL=seen", "junk"]));
    assert_eq!(child.exports(), words(&["KEPT=k", "LOCAL=seen", "FOO=bar"]));
    // the shell's own variables stay as they are
    assert_eq!(env.get(b"FOO"), None);
    assert_eq!(env.exports(), words(&["KEPT=k"]));
}

#[test]
fn exec_plans_what_a_child_runs() {
    let mut env = empty();
    env.set_var(b"PATH", b"/bin".to_vec(), Some(true));
    let ctx = Context::new(false, env);
    let plan = exec(&ctx, b"echo", &words(&["echo", "hi"]), &words(&["PATH=/opt:/x", "A=1"]));
    assert_eq!(plan.candidates, words(&["/opt/echo", "/x/echo"]));
    assert_eq!(plan.args, words(&["echo", "hi"]));
    assert_eq!(plan.env, words(&["PATH=/opt:/x", "A=1"]));
    assert_eq!(ctx.env.get(b"PATH"), Some(&b"/bin"[..]));
}
