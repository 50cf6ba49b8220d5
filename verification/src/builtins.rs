//! The commands that the shell runs itself: `cd`, `export`, `readonly` and `unset`.

use vstd::prelude::*;
use vstd::string::StringSliceAdditionalSpecFns;
use crate::bytes::append;
use crate::bytes::bytes_eq;
use crate::bytes::to_vec;
use crate::bytes::views_of;
use crate::bytes::NEWLINE;
use crate::context::Context;
use crate::environment::distinct_keys;
use crate::environment::export_line;
use crate::environment::has_key;
use crate::environment::index_of;
use crate::environment::lemma_set_var_then_get;
use crate::environment::export_spec;
use crate::environment::readonly_spec;
use crate::environment::set_var_spec;
use crate::environment::split_assignment;
use crate::environment::split_point;
use crate::environment::unset_spec;
use crate::environment::value_of;
use crate::environment::Val;
use crate::environment::VarView;
use crate::errno::cd_failure_message;
use crate::errno::cd_failure_spec;
use crate::errno::describe;
use crate::errno::errno_desc;

verus! {

/// The commands that the shell runs itself.
#[derive(Debug, Clone, Copy, PartialEq, Eq, Structural)]
pub enum Command {
    Cd,
    Export,
    Readonly,
    Unset,
}

/// The built-in command that goes by `name`, if there is one.
pub open spec fn builtin_named(name: Seq<u8>) -> Option<Command> {
    if name == "cd".spec_bytes() {
        Some(Command::Cd)
    } else if name == "export".spec_bytes() {
        Some(Command::Export)
    } else if name == "readonly".spec_bytes() {
        Some(Command::Readonly)
    } else if name == "unset".spec_bytes() {
        Some(Command::Unset)
    } else {
        None
    }
}

/// The names of the built-in commands, each with its command: what the
/// registry holds.
pub open spec fn registry() -> Seq<(Seq<u8>, Command)> {
    seq![
        ("cd".spec_bytes(), Command::Cd),
        ("export".spec_bytes(), Command::Export),
        ("readonly".spec_bytes(), Command::Readonly),
        ("unset".spec_bytes(), Command::Unset),
    ]
}

/// The command that stands under `name` in `entries` at or behind `from`:
/// that of the first entry with the name.
pub open spec fn registered(entries: Seq<(Seq<u8>, Command)>, name: Seq<u8>, from: int) -> Option<
    Command,
>
    decreases entries.len() - from,
{
    if from < 0 || from >= entries.len() {
        None
    } else if entries[from].0 == name {
        Some(entries[from].1)
    } else {
        registered(entries, name, from + 1)
    }
}

/// The built-in command that goes by a name is the one that stands under
/// that name in the registry.
pub proof fn lemma_registry(name: Seq<u8>)
    ensures
        registered(registry(), name, 0) == builtin_named(name),
{
    reveal_with_fuel(registered, 5);
    let entries = registry();
    assert(entries.len() == 4);
    assert(entries[0] == ("cd".spec_bytes(), Command::Cd));
    assert(entries[1] == ("export".spec_bytes(), Command::Export));
    assert(entries[2] == ("readonly".spec_bytes(), Command::Readonly));
    assert(entries[3] == ("unset".spec_bytes(), Command::Unset));
}

/// The registry of the built-in commands: it holds the four commands of
/// `Command`, each under its name, and is never changed.
#[derive(Debug)]
pub struct Builtins {
    commands: Vec<(Vec<u8>, Command)>,
}

spec fn entries_of(commands: Seq<(Vec<u8>, Command)>) -> Seq<(Seq<u8>, Command)> {
    Seq::new(commands.len(), |i: int| (commands[i].0@, commands[i].1))
}

/// The four names with their commands.
fn four() -> (r: Vec<(Vec<u8>, Command)>)
    ensures
        entries_of(r@) == registry(),
{
    let mut commands: Vec<(Vec<u8>, Command)> = Vec::new();
    commands.push((to_vec("cd".as_bytes()), Command::Cd));
    commands.push((to_vec("export".as_bytes()), Command::Export));
    commands.push((to_vec("readonly".as_bytes()), Command::Readonly));
    commands.push((to_vec("unset".as_bytes()), Command::Unset));
    assert(entries_of(commands@) =~= registry());
    commands
}

impl Builtins {
    /// The names that the registry holds, each with its command.
    pub closed spec fn commands(&self) -> Seq<(Seq<u8>, Command)> {
        entries_of(self.commands@)
    }

    /// The registry holds the four built-in commands, and nothing else.
    #[verifier::type_invariant]
    pub open spec fn wf(&self) -> bool {
        self.commands() == registry()
    }

    /// The registry: `cd`, `export`, `readonly` and `unset`, each under its name.
    pub fn new() -> (r: Builtins)
        ensures
            r.commands() == registry(),
    {
        Builtins { commands: four() }
    }

    /// The built-in command that goes by `key`, if there is one: the one
    /// that stands under that name in the registry.
    pub fn get(&self, key: &[u8]) -> (r: Option<Command>)
        ensures
            r == registered(self.commands(), key@, 0),
            r == builtin_named(key@),
    {
        proof {
            use_type_invariant(self);
            lemma_registry(key@);
        }
        let mut i: usize = 0;
        while i < self.commands.len()
            invariant
                i <= self.commands@.len(),
                registered(self.commands(), key@, 0) == builtin_named(key@),
                registered(self.commands(), key@, 0) == registered(
                    self.commands(),
                    key@,
                    i as int,
                ),
            decreases self.commands@.len() - i,
        {
            if bytes_eq(self.commands[i].0.as_slice(), key) {
                return Some(self.commands[i].1);
            }
            i += 1;
        }
        None
    }
}

impl Default for Builtins {
    fn default() -> (r: Builtins)
        ensures
            r.commands() == registry(),
    {
        Builtins { commands: four() }
    }
}

/// What a built-in command leaves behind: its exit status, and what it
/// writes to its standard output and to its standard error.
#[derive(Debug)]
pub struct Output {
    pub status: i32,
    pub out: Vec<u8>,
    pub err: Vec<u8>,
}

/// The mathematical value of an `Output`.
pub struct OutputView {
    pub status: i32,
    pub out: Seq<u8>,
    pub err: Seq<u8>,
}

impl View for Output {
    type V = OutputView;

    open spec fn view(&self) -> OutputView {
        OutputView { status: self.status, out: self.out@, err: self.err@ }
    }
}

/// Success, with nothing written.
pub open spec fn silent() -> OutputView {
    OutputView { status: 0, out: seq![], err: seq![] }
}

/// Whether `export` and `readonly` are asked to list: with no argument, or with `-p`.
pub open spec fn lists(args: Seq<Seq<u8>>) -> bool {
    args.len() <= 1 || args[1] == "-p".spec_bytes()
}

/// The line that lists one variable under `keyword`.
pub open spec fn listing_line(keyword: Seq<u8>, var: VarView) -> Seq<u8> {
    match var.val.value {
        Some(v) => keyword + export_line(var.key, v) + seq![NEWLINE],
        None => keyword + var.key + seq![NEWLINE],
    }
}

/// The lines that list the exported variables (or, with `readonly`, the
/// readonly ones) of `vars`, in order.
pub open spec fn listing(vars: Seq<VarView>, readonly: bool) -> Seq<u8>
    decreases vars.len(),
{
    if vars.len() == 0 {
        seq![]
    } else {
        let last = vars.last();
        let listed = if readonly {
            last.val.readonly
        } else {
            last.val.export
        };
        let keyword = if readonly {
            "readonly ".spec_bytes()
        } else {
            "export ".spec_bytes()
        };
        listing(vars.drop_last(), readonly) + if listed {
            listing_line(keyword, last)
        } else {
            seq![]
        }
    }
}

/// `vars` after `export ARG`: `NAME=VALUE` assigns and exports, `NAME` exports.
pub open spec fn export_one(vars: Seq<VarView>, arg: Seq<u8>) -> Seq<VarView> {
    match split_point(arg) {
        Some(i) => set_var_spec(
            vars,
            arg.subrange(0, i),
            arg.subrange(i + 1, arg.len() as int),
            Some(true),
        ),
        None => export_spec(vars, arg),
    }
}

/// `vars` after `readonly ARG`: `NAME=VALUE` assigns, which takes the export
/// mark away, and makes readonly; `NAME` makes readonly.
pub open spec fn readonly_one(vars: Seq<VarView>, arg: Seq<u8>) -> Seq<VarView> {
    match split_point(arg) {
        Some(i) => readonly_spec(
            set_var_spec(vars, arg.subrange(0, i), arg.subrange(i + 1, arg.len() as int), None),
            arg.subrange(0, i),
        ),
        None => readonly_spec(vars, arg),
    }
}

/// The three built-in commands that act on each of their arguments in turn.
pub enum Each {
    Export,
    Readonly,
    Unset,
}

/// `vars` after the command `which` has acted on `args[from]` and on what follows it.
pub open spec fn each_from(which: Each, vars: Seq<VarView>, args: Seq<Seq<u8>>, from: int) -> Seq<
    VarView,
>
    decreases args.len() - from,
{
    if from < 0 || from >= args.len() {
        vars
    } else {
        let next = match which {
            Each::Export => export_one(vars, args[from]),
            Each::Readonly => readonly_one(vars, args[from]),
            Each::Unset => unset_spec(vars, args[from]),
        };
        each_from(which, next, args, from + 1)
    }
}

/// The variables after `export` with the arguments `args`, the first of
/// which is the name of the command.
pub open spec fn export_vars(vars: Seq<VarView>, args: Seq<Seq<u8>>) -> Seq<VarView> {
    if lists(args) {
        vars
    } else {
        each_from(Each::Export, vars, args, 1)
    }
}

/// The variables after `readonly` with the arguments `args`.
pub open spec fn readonly_vars(vars: Seq<VarView>, args: Seq<Seq<u8>>) -> Seq<VarView> {
    if lists(args) {
        vars
    } else {
        each_from(Each::Readonly, vars, args, 1)
    }
}

/// What `export` with the arguments `args` leaves behind.
pub open spec fn export_output(vars: Seq<VarView>, args: Seq<Seq<u8>>) -> OutputView {
    if lists(args) {
        OutputView { status: 0, out: listing(vars, false), err: seq![] }
    } else {
        silent()
    }
}

/// What `readonly` with the arguments `args` leaves behind.
pub open spec fn readonly_output(vars: Seq<VarView>, args: Seq<Seq<u8>>) -> OutputView {
    if lists(args) {
        OutputView { status: 0, out: listing(vars, true), err: seq![] }
    } else {
        silent()
    }
}

fn is_listing(args: &Vec<Vec<u8>>) -> (r: bool)
    ensures
        r == lists(views_of(args@)),
{
    args.len() <= 1 || bytes_eq(args[1].as_slice(), "-p".as_bytes())
}

fn list(context: &Context, readonly: bool) -> (r: Vec<u8>)
    ensures
        r@ == listing(context.env.vars(), readonly),
{
    let vars = context.env.iter();
    let ghost model = context.env.vars();
    let mut out: Vec<u8> = Vec::new();
    let mut i: usize = 0;
    assert(model.take(0) =~= Seq::<VarView>::empty());
    while i < vars.len()
        invariant
            i <= vars@.len(),
            vars@.len() == model.len(),
            forall|k: int|
                0 <= k < vars@.len() ==> vars@[k].0@ == model[k].key && vars@[k].1@
                    == model[k].val,
            out@ == listing(model.take(i as int), readonly),
        decreases vars@.len() - i,
    {
        let ghost next = model.take(i + 1);
        assert(next.drop_last() =~= model.take(i as int));
        assert(next.last() == model[i as int]);
        let var: &(Vec<u8>, Val) = &vars[i];
        let ghost before = out@;
        let listed = if readonly {
            var.1.readonly
        } else {
            var.1.export
        };
        if listed {
            let keyword = if readonly {
                "readonly ".as_bytes()
            } else {
                "export ".as_bytes()
            };
            let mut line = to_vec(keyword);
            append(&mut line, var.0.as_slice());
            if let Some(v) = &var.1.value {
                line.push(crate::bytes::EQUALS);
                append(&mut line, v.as_slice());
                assert(line@ =~= keyword@ + export_line(var.0@, v@));
            }
            line.push(NEWLINE);
            append(&mut out, line.as_slice());
        } else {
            assert(before + Seq::<u8>::empty() =~= before);
        }
        i += 1;
    }
    assert(model.take(i as int) =~= model);
    out
}

/// `export`: with no argument or with `-p`, lists the exported variables;
/// else assigns and exports each `NAME=VALUE`, and exports each `NAME`.
pub fn export(args: &Vec<Vec<u8>>, context: &mut Context) -> (r: Output)
    ensures
        r@ == export_output(old(context).env.vars(), views_of(args@)),
        final(context).env.vars() == export_vars(old(context).env.vars(), views_of(args@)),
        final(context).last_return == old(context).last_return,
        final(context).interactive == old(context).interactive,
{
    if is_listing(args) {
        return Output { status: 0, out: list(context, false), err: Vec::new() };
    }
    let mut i: usize = 1;
    while i < args.len()
        invariant
            1 <= i <= args@.len(),
            context.last_return == old(context).last_return,
            context.interactive == old(context).interactive,
            each_from(Each::Export, old(context).env.vars(), views_of(args@), 1) == each_from(
                Each::Export,
                context.env.vars(),
                views_of(args@),
                i as int,
            ),
        decreases args@.len() - i,
    {
        let arg = args[i].as_slice();
        match split_assignment(arg) {
            Some((key, value)) => context.env.set_var(key, to_vec(value), Some(true)),
            None => context.env.export(arg),
        }
        i += 1;
    }
    Output { status: 0, out: Vec::new(), err: Vec::new() }
}

/// `readonly`: with no argument or with `-p`, lists the readonly variables;
/// else assigns each `NAME=VALUE` and makes it readonly, and makes each
/// `NAME` readonly.
pub fn readonly(args: &Vec<Vec<u8>>, context: &mut Context) -> (r: Output)
    ensures
        r@ == readonly_output(old(context).env.vars(), views_of(args@)),
        final(context).env.vars() == readonly_vars(old(context).env.vars(), views_of(args@)),
        final(context).last_return == old(context).last_return,
        final(context).interactive == old(context).interactive,
{
    if is_listing(args) {
        return Output { status: 0, out: list(context, true), err: Vec::new() };
    }
    let mut i: usize = 1;
    while i < args.len()
        invariant
            1 <= i <= args@.len(),
            context.last_return == old(context).last_return,
            context.interactive == old(context).interactive,
            each_from(Each::Readonly, old(context).env.vars(), views_of(args@), 1) == each_from(
                Each::Readonly,
                context.env.vars(),
                views_of(args@),
                i as int,
            ),
        decreases args@.len() - i,
    {
        let arg = args[i].as_slice();
        match split_assignment(arg) {
            Some((key, value)) => {
                context.env.set_var(key, to_vec(value), None);
                context.env.readonly(key);
            },
            None => context.env.readonly(arg),
        }
        i += 1;
    }
    Output { status: 0, out: Vec::new(), err: Vec::new() }
}

/// `unset`: forgets each variable that an argument names. A readonly one stays.
pub fn unset(args: &Vec<Vec<u8>>, context: &mut Context) -> (r: Output)
    ensures
        r@ == silent(),
        final(context).env.vars() == each_from(
            Each::Unset,
            old(context).env.vars(),
            views_of(args@),
            1,
        ),
        final(context).last_return == old(context).last_return,
        final(context).interactive == old(context).interactive,
{
    let mut i: usize = 1;
    while i < args.len()
        invariant
            1 <= i,
            context.last_return == old(context).last_return,
            context.interactive == old(context).interactive,
            each_from(Each::Unset, old(context).env.vars(), views_of(args@), 1) == each_from(
                Each::Unset,
                context.env.vars(),
                views_of(args@),
                i as int,
            ),
        decreases args@.len() - i,
    {
        context.env.unset(args[i].as_slice());
        i += 1;
    }
    Output { status: 0, out: Vec::new(), err: Vec::new() }
}

/// What `cd` sets out to do.
#[derive(Debug)]
pub enum CdPlan {
    /// Nothing: the command has failed already.
    Fail { output: Output },
    /// To enter `dir`. With `echo`, the directory is written to the standard
    /// output as well.
    Go { dir: Vec<u8>, echo: bool },
}

/// The mathematical value of a `CdPlan`.
pub enum CdPlanView {
    Fail { output: OutputView },
    Go { dir: Seq<u8>, echo: bool },
}

impl View for CdPlan {
    type V = CdPlanView;

    open spec fn view(&self) -> CdPlanView {
        match self {
            CdPlan::Fail { output } => CdPlanView::Fail { output: output@ },
            CdPlan::Go { dir, echo } => CdPlanView::Go { dir: dir@, echo: *echo },
        }
    }
}

/// What `cd` with the arguments `args` sets out to do: with more than one
/// argument it fails; with none it goes to `$HOME`, or to `/` without one;
/// with `-` it goes to `$OLDPWD` and says so, or fails without one; else it
/// goes where its argument says.
pub open spec fn cd_plan(vars: Seq<VarView>, args: Seq<Seq<u8>>) -> CdPlanView {
    if args.len() > 2 {
        CdPlanView::Fail {
            output: OutputView {
                status: 1,
                out: seq![],
                err: "rash: too many arguments\n".spec_bytes(),
            },
        }
    } else if args.len() <= 1 {
        CdPlanView::Go {
            dir: match value_of(vars, "HOME".spec_bytes()) {
                Some(home) => home,
                None => "/".spec_bytes(),
            },
            echo: false,
        }
    } else if args[1] == "-".spec_bytes() {
        match value_of(vars, "OLDPWD".spec_bytes()) {
            Some(dir) => CdPlanView::Go { dir, echo: true },
            None => CdPlanView::Fail {
                output: OutputView {
                    status: 1,
                    out: seq![],
                    err: "rash: cd: -: OLDPWD not set\n".spec_bytes(),
                },
            },
        }
    } else {
        CdPlanView::Go { dir: args[1], echo: false }
    }
}

/// `cd`, as far as it goes without the operating system: where to go.
pub fn cd(args: &Vec<Vec<u8>>, context: &Context) -> (r: CdPlan)
    ensures
        r@ == cd_plan(context.env.vars(), views_of(args@)),
{
    if args.len() > 2 {
        return CdPlan::Fail {
            output: Output {
                status: 1,
                out: Vec::new(),
                err: to_vec("rash: too many arguments\n".as_bytes()),
            },
        };
    }
    if args.len() <= 1 {
        let dir = match context.env.get("HOME".as_bytes()) {
            Some(home) => to_vec(home),
            None => to_vec("/".as_bytes()),
        };
        return CdPlan::Go { dir, echo: false };
    }
    if bytes_eq(args[1].as_slice(), "-".as_bytes()) {
        return match context.env.get("OLDPWD".as_bytes()) {
            Some(dir) => CdPlan::Go { dir: to_vec(dir), echo: true },
            None => CdPlan::Fail {
                output: Output {
                    status: 1,
                    out: Vec::new(),
                    err: to_vec("rash: cd: -: OLDPWD not set\n".as_bytes()),
                },
            },
        };
    }
    CdPlan::Go { dir: to_vec(args[1].as_slice()), echo: false }
}

/// The variables after an attempt to enter a directory: where it succeeded
/// and the directory that was left is known, `OLDPWD` gets that directory.
pub open spec fn cd_vars(
    vars: Seq<VarView>,
    previous: Option<Seq<u8>>,
    outcome: Result<(), i32>,
) -> Seq<VarView> {
    match (outcome, previous) {
        (Ok(_), Some(left)) => set_var_spec(vars, "OLDPWD".spec_bytes(), left, None),
        _ => vars,
    }
}

/// After a `cd` that succeeded, `OLDPWD` is the directory that was left,
/// where that directory is known and `OLDPWD` is not readonly.
pub proof fn lemma_cd_records_the_directory_left(vars: Seq<VarView>, left: Seq<u8>)
    requires
        distinct_keys(vars),
        !(has_key(vars, "OLDPWD".spec_bytes()) && vars[index_of(
            vars,
            "OLDPWD".spec_bytes(),
        )].val.readonly),
    ensures
        value_of(cd_vars(vars, Some(left), Ok(())), "OLDPWD".spec_bytes()) == Some(left),
{
    lemma_set_var_then_get(vars, "OLDPWD".spec_bytes(), left, None);
}

/// What `cd` leaves behind after an attempt to enter `dir`: success, or the
/// status 1 and a line that names the directory and the error. With `echo`
/// the directory was written to the standard output before the attempt.
pub open spec fn cd_output(dir: Seq<u8>, echo: bool, outcome: Result<(), i32>) -> OutputView {
    let out = if echo {
        dir + seq![NEWLINE]
    } else {
        seq![]
    };
    match outcome {
        Ok(_) => OutputView { status: 0, out, err: seq![] },
        Err(code) => OutputView { status: 1, out, err: cd_failure_spec(dir, errno_desc(code)) },
    }
}

/// The second half of `cd`, after the attempt to enter `dir`: `previous` is
/// the directory that was current before it, where that is known, and
/// `outcome` the error number of a failure.
pub fn cd_done(
    context: &mut Context,
    dir: &[u8],
    echo: bool,
    previous: Option<Vec<u8>>,
    outcome: Result<(), i32>,
) -> (r: Output)
    ensures
        r@ == cd_output(dir@, echo, outcome),
        final(context).env.vars() == cd_vars(
            old(context).env.vars(),
            match previous {
                Some(p) => Some(p@),
                None => None,
            },
            outcome,
        ),
        final(context).last_return == old(context).last_return,
        final(context).interactive == old(context).interactive,
{
    let mut out: Vec<u8> = Vec::new();
    if echo {
        append(&mut out, dir);
        out.push(NEWLINE);
    }
    assert(out@ =~= cd_output(dir@, echo, outcome).out);
    match outcome {
        Ok(_) => {
            if let Some(left) = previous {
                context.env.set_var("OLDPWD".as_bytes(), left, None);
            }
            let r = Output { status: 0, out, err: Vec::new() };
            assert(r@.err =~= Seq::<u8>::empty());
            r
        },
        Err(code) => {
            let description = describe(code);
            Output { status: 1, out, err: cd_failure_message(dir, description.as_slice()) }
        },
    }
}

} // verus!
