//! What a child process is to run: where the program is looked for, with
//! which arguments and in which environment.

use vstd::prelude::*;
use vstd::string::StringSliceAdditionalSpecFns;
use crate::bytes::append;
use crate::bytes::find_byte;
use crate::bytes::first_at_or_after;
use crate::bytes::has_byte;
use crate::bytes::slice;
use crate::bytes::to_vec;
use crate::bytes::views_of;
use crate::bytes::COLON;
use crate::bytes::SLASH;
use crate::context::Context;
use crate::environment::exports_spec;
use crate::environment::set_vareq_spec;
use crate::environment::value_of;
use crate::environment::Environment;
use crate::environment::VarView;
use crate::errno::ENOENT;

verus! {

/// The variables of a child: those of the shell, and each `NAME=VALUE` of
/// `assigns` from `from` on assigned and marked for export.
pub open spec fn child_vars(vars: Seq<VarView>, assigns: Seq<Seq<u8>>, from: int) -> Seq<VarView>
    decreases assigns.len() - from,
{
    if from < 0 || from >= assigns.len() {
        vars
    } else {
        child_vars(set_vareq_spec(vars, assigns[from], Some(true)), assigns, from + 1)
    }
}

/// The directories in which programs are looked for: `$PATH`, or `/bin:/usr/bin`.
pub open spec fn search_path(vars: Seq<VarView>) -> Seq<u8> {
    match value_of(vars, "PATH".spec_bytes()) {
        Some(path) => path,
        None => "/bin:/usr/bin".spec_bytes(),
    }
}

/// The file `filename` in the directory `dir`: the two joined by a `/`,
/// unless the directory ends with one or is empty.
pub open spec fn filepath_spec(dir: Seq<u8>, filename: Seq<u8>) -> Seq<u8> {
    if dir.len() == 0 || dir.last() == SLASH {
        dir + filename
    } else {
        dir + seq![SLASH] + filename
    }
}

/// The file `filename` in each directory of `path` from `from` on, where `:`
/// parts the directories.
pub open spec fn candidates_from(path: Seq<u8>, from: int, filename: Seq<u8>) -> Seq<Seq<u8>>
    decreases path.len() - from,
{
    if from < 0 || from > path.len() {
        seq![]
    } else {
        let stop = first_at_or_after(path, COLON, from);
        let first = seq![filepath_spec(path.subrange(from, stop), filename)];
        if from <= stop < path.len() {
            first + candidates_from(path, stop + 1, filename)
        } else {
            first
        }
    }
}

/// The files that are tried for the command `filename`: the name itself where
/// it holds a `/`, else the file of that name in each directory of the path.
pub open spec fn candidates(vars: Seq<VarView>, filename: Seq<u8>) -> Seq<Seq<u8>> {
    if has_byte(filename, SLASH) {
        seq![filename]
    } else {
        candidates_from(search_path(vars), 0, filename)
    }
}

/// What a child is to run.
#[derive(Debug)]
pub struct ExecPlan {
    /// The files to try, in order.
    pub candidates: Vec<Vec<u8>>,
    /// The arguments, the name of the command first.
    pub args: Vec<Vec<u8>>,
    /// The environment: a line `NAME=VALUE` for each exported variable.
    pub env: Vec<Vec<u8>>,
}

/// The mathematical value of an `ExecPlan`.
pub struct ExecPlanView {
    pub candidates: Seq<Seq<u8>>,
    pub args: Seq<Seq<u8>>,
    pub env: Seq<Seq<u8>>,
}

impl View for ExecPlan {
    type V = ExecPlanView;

    open spec fn view(&self) -> ExecPlanView {
        ExecPlanView {
            candidates: views_of(self.candidates@),
            args: views_of(self.args@),
            env: views_of(self.env@),
        }
    }
}

/// What a child is to run for the command `filename` with the arguments
/// `args` and the assignments `assigns` before it.
pub open spec fn exec_plan(
    vars: Seq<VarView>,
    filename: Seq<u8>,
    args: Seq<Seq<u8>>,
    assigns: Seq<Seq<u8>>,
) -> ExecPlanView {
    let child = child_vars(vars, assigns, 0);
    ExecPlanView { candidates: candidates(child, filename), args, env: exports_spec(child) }
}

/// The file `filename` in the directory `dir`.
pub fn filepath(dir: &[u8], filename: &[u8]) -> (r: Vec<u8>)
    ensures
        r@ == filepath_spec(dir@, filename@),
{
    let mut out = to_vec(dir);
    if dir.len() > 0 && dir[dir.len() - 1] != SLASH {
        out.push(SLASH);
    }
    append(&mut out, filename);
    assert(out@ =~= filepath_spec(dir@, filename@));
    out
}

/// The environment of a child: that of the shell with each `NAME=VALUE` of
/// `assigns` assigned and marked for export. The shell's own is not changed.
pub fn child_environment(env: &Environment, assigns: &Vec<Vec<u8>>) -> (r: Environment)
    ensures
        r.vars() == child_vars(env.vars(), views_of(assigns@), 0),
{
    let mut child = env.clone();
    let mut i: usize = 0;
    while i < assigns.len()
        invariant
            i <= assigns@.len(),
            child_vars(env.vars(), views_of(assigns@), 0) == child_vars(
                child.vars(),
                views_of(assigns@),
                i as int,
            ),
        decreases assigns@.len() - i,
    {
        if let Some((key, value)) = child.parse(assigns[i].as_slice()) {
            child.set_var(key, to_vec(value), Some(true));
        }
        i += 1;
    }
    child
}

/// The files that are tried for the command `filename` in the environment `env`.
pub fn search(env: &Environment, filename: &[u8]) -> (r: Vec<Vec<u8>>)
    ensures
        views_of(r@) == candidates(env.vars(), filename@),
{
    let mut out: Vec<Vec<u8>> = Vec::new();
    if find_byte(filename, SLASH, 0) < filename.len() {
        out.push(to_vec(filename));
        assert(views_of(out@) =~= seq![filename@]);
        return out;
    }
    let path: &[u8] = match env.get("PATH".as_bytes()) {
        Some(path) => path,
        None => "/bin:/usr/bin".as_bytes(),
    };
    assert(path@ == search_path(env.vars()));
    let mut from: usize = 0;
    assert(views_of(out@) =~= Seq::<Seq<u8>>::empty());
    loop
        invariant
            from <= path@.len(),
            !has_byte(filename@, SLASH),
            path@ == search_path(env.vars()),
            candidates_from(path@, 0, filename@) == views_of(out@) + candidates_from(
                path@,
                from as int,
                filename@,
            ),
        decreases path@.len() - from,
    {
        let stop = find_byte(path, COLON, from);
        let ghost before = views_of(out@);
        let file = filepath(slice(path, from, stop), filename);
        out.push(file);
        assert(views_of(out@) =~= before.push(file@));
        if stop >= path.len() {
            assert(before + seq![file@] =~= views_of(out@));
            return out;
        }
        proof {
            let rest = candidates_from(path@, stop + 1, filename@);
            assert(before + (seq![file@] + rest) =~= views_of(out@) + rest);
        }
        from = stop + 1;
    }
}

/// What a child is to run for the command `filename` with the arguments
/// `args`, where the assignments `env` stand before the command.
pub fn exec(context: &Context, filename: &[u8], args: &Vec<Vec<u8>>, env: &Vec<Vec<u8>>) -> (r:
    ExecPlan)
    ensures
        r@ == exec_plan(context.env.vars(), filename@, views_of(args@), views_of(env@)),
{
    let child = child_environment(&context.env, env);
    let mut copy: Vec<Vec<u8>> = Vec::new();
    let mut i: usize = 0;
    while i < args.len()
        invariant
            i <= args@.len(),
            copy@.len() == i,
            forall|k: int| 0 <= k < i ==> copy@[k]@ == args@[k]@,
        decreases args@.len() - i,
    {
        copy.push(to_vec(args[i].as_slice()));
        i += 1;
    }
    assert(views_of(copy@) =~= views_of(args@));
    ExecPlan { candidates: search(&child, filename), args: copy, env: child.exports() }
}

/// The error that is reported where every attempt to run a file failed with
/// the error numbers `errors`, in order: the first that says more than that
/// the file does not exist, or, without one, that it does not exist.
pub open spec fn first_error_spec(errors: Seq<i32>) -> i32
    decreases errors.len(),
{
    if errors.len() == 0 {
        ENOENT
    } else if errors[0] != ENOENT {
        errors[0]
    } else {
        first_error_spec(errors.drop_first())
    }
}

/// The error that is reported where every attempt to run a file failed.
pub fn first_error(errors: &Vec<i32>) -> (r: i32)
    ensures
        r == first_error_spec(errors@),
{
    let mut i: usize = 0;
    assert(errors@.subrange(0, errors@.len() as int) =~= errors@);
    while i < errors.len()
        invariant
            i <= errors@.len(),
            first_error_spec(errors@) == first_error_spec(
                errors@.subrange(i as int, errors@.len() as int),
            ),
        decreases errors@.len() - i,
    {
        let ghost rest = errors@.subrange(i as int, errors@.len() as int);
        assert(rest[0] == errors@[i as int]);
        if errors[i] != ENOENT {
            return errors[i];
        }
        assert(rest.drop_first() =~= errors@.subrange(i + 1, errors@.len() as int));
        i += 1;
    }
    ENOENT
}

/// The exit status of a child that could run no program: 127 where no file
/// was found, else 126.
pub fn exec_failure_status(error: i32) -> (r: i32)
    ensures
        r == (if error == ENOENT {
            127i32
        } else {
            126i32
        }),
{
    if error == ENOENT {
        127
    } else {
        126
    }
}

} // verus!
