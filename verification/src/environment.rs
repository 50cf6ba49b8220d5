//! The shell environment: variables with a value and the export and readonly marks.

use vstd::prelude::*;
use crate::bytes::append;
use crate::bytes::bytes_eq;
use crate::bytes::find_byte;
use crate::bytes::first_at_or_after;
use crate::bytes::lemma_first_at_or_after;
use crate::bytes::slice;
use crate::bytes::to_vec;
use crate::bytes::views_of;
use crate::bytes::EQUALS;

verus! {

/// What the environment holds of one variable.
#[derive(Debug, Clone)]
pub struct Val {
    pub value: Option<Vec<u8>>,
    pub export: bool,
    pub readonly: bool,
}

/// The mathematical value of a `Val`.
pub struct ValView {
    pub value: Option<Seq<u8>>,
    pub export: bool,
    pub readonly: bool,
}

impl View for Val {
    type V = ValView;

    open spec fn view(&self) -> ValView {
        ValView {
            value: match self.value {
                Some(v) => Some(v@),
                None => None,
            },
            export: self.export,
            readonly: self.readonly,
        }
    }
}

impl Default for Val {
    fn default() -> (r: Val)
        ensures
            r@ == (ValView { value: None, export: false, readonly: false }),
    {
        Val { value: None, export: false, readonly: false }
    }
}

/// One variable of the model: its name and what is held of it.
pub struct VarView {
    pub key: Seq<u8>,
    pub val: ValView,
}

#[derive(Debug, Clone)]
struct Var {
    key: Vec<u8>,
    val: Val,
}

impl View for Var {
    type V = VarView;

    closed spec fn view(&self) -> VarView {
        VarView { key: self.key@, val: self.val@ }
    }
}

/// Whether no name occurs twice in `vars`.
pub open spec fn distinct_keys(vars: Seq<VarView>) -> bool {
    forall|i: int, j: int|
        0 <= i < vars.len() && 0 <= j < vars.len() && i != j ==> vars[i].key != vars[j].key
}

/// Whether `vars` holds the name `key`.
pub open spec fn has_key(vars: Seq<VarView>, key: Seq<u8>) -> bool {
    exists|i: int| 0 <= i < vars.len() && #[trigger] vars[i].key == key
}

/// The position of `key` in `vars`, where `has_key(vars, key)`.
pub open spec fn index_of(vars: Seq<VarView>, key: Seq<u8>) -> int {
    choose|i: int| 0 <= i < vars.len() && #[trigger] vars[i].key == key
}

/// Where no name occurs twice, the position of a name is the one place that holds it.
pub proof fn lemma_index_of(vars: Seq<VarView>, key: Seq<u8>, i: int)
    requires
        distinct_keys(vars),
        0 <= i < vars.len(),
        vars[i].key == key,
    ensures
        has_key(vars, key),
        index_of(vars, key) == i,
{
    let j = index_of(vars, key);
    assert(0 <= j < vars.len() && vars[j].key == key);
    if j != i {
        assert(vars[i].key != vars[j].key);
    }
}

/// What `vars` holds of `key`, if anything.
pub open spec fn lookup(vars: Seq<VarView>, key: Seq<u8>) -> Option<ValView> {
    if has_key(vars, key) {
        Some(vars[index_of(vars, key)].val)
    } else {
        None
    }
}

/// The value of `key` in `vars`: `None` when the name is unknown or has no value.
pub open spec fn value_of(vars: Seq<VarView>, key: Seq<u8>) -> Option<Seq<u8>> {
    match lookup(vars, key) {
        Some(v) => v.value,
        None => None,
    }
}

/// `vars` after the assignment of `val` to `key`: a readonly variable is left
/// as it is, a known one gets the value and the export mark given, and an
/// unknown one is added at the end.
pub open spec fn set_var_spec(
    vars: Seq<VarView>,
    key: Seq<u8>,
    val: Seq<u8>,
    export: Option<bool>,
) -> Seq<VarView> {
    let exported = match export {
        Some(e) => e,
        None => false,
    };
    if has_key(vars, key) {
        let i = index_of(vars, key);
        if vars[i].val.readonly {
            vars
        } else {
            vars.update(
                i,
                VarView {
                    key,
                    val: ValView { value: Some(val), export: exported, readonly: false },
                },
            )
        }
    } else {
        vars.push(
            VarView { key, val: ValView { value: Some(val), export: exported, readonly: false } },
        )
    }
}

/// `vars` without `key`: a readonly variable stays.
pub open spec fn unset_spec(vars: Seq<VarView>, key: Seq<u8>) -> Seq<VarView> {
    if has_key(vars, key) && !vars[index_of(vars, key)].val.readonly {
        vars.remove(index_of(vars, key))
    } else {
        vars
    }
}

/// `vars` with `key` marked for export: an unknown name is added without a value.
pub open spec fn export_spec(vars: Seq<VarView>, key: Seq<u8>) -> Seq<VarView> {
    if has_key(vars, key) {
        let i = index_of(vars, key);
        vars.update(i, VarView { key, val: ValView { export: true, ..vars[i].val } })
    } else {
        vars.push(VarView { key, val: ValView { value: None, export: true, readonly: false } })
    }
}

/// `vars` with `key` marked readonly: an unknown name is added without a value.
pub open spec fn readonly_spec(vars: Seq<VarView>, key: Seq<u8>) -> Seq<VarView> {
    if has_key(vars, key) {
        let i = index_of(vars, key);
        vars.update(i, VarView { key, val: ValView { readonly: true, ..vars[i].val } })
    } else {
        vars.push(VarView { key, val: ValView { value: None, export: false, readonly: true } })
    }
}

/// Where `s` splits into a name and a value: the first `=` that is not the
/// first byte. `None` when there is no such `=`.
pub open spec fn split_point(s: Seq<u8>) -> Option<int> {
    if first_at_or_after(s, EQUALS, 1) < s.len() {
        Some(first_at_or_after(s, EQUALS, 1))
    } else {
        None
    }
}

/// `vars` after the assignment written as `NAME=VALUE` in `s`.
pub open spec fn set_vareq_spec(vars: Seq<VarView>, s: Seq<u8>, export: Option<bool>) -> Seq<
    VarView,
> {
    match split_point(s) {
        Some(i) => set_var_spec(vars, s.subrange(0, i), s.subrange(i + 1, s.len() as int), export),
        None => vars,
    }
}

/// `split_point` finds the first `=` that is not the first byte: text splits
/// into a name and a value if and only if it holds an `=` behind its first
/// byte, and then at the first of them.
pub proof fn lemma_split_point(s: Seq<u8>)
    ensures
        match split_point(s) {
            Some(i) => {
                &&& 1 <= i < s.len()
                &&& s[i] == EQUALS
                &&& forall|k: int| 1 <= k < i ==> s[k] != EQUALS
            },
            None => forall|k: int| 1 <= k < s.len() ==> s[k] != EQUALS,
        },
{
    if s.len() >= 1 {
        lemma_first_at_or_after(s, EQUALS, 1);
    }
}

/// A name is held after it has been assigned to, and in no other place than before.
pub proof fn lemma_set_var_keeps_keys(
    vars: Seq<VarView>,
    key: Seq<u8>,
    val: Seq<u8>,
    export: Option<bool>,
)
    requires
        distinct_keys(vars),
    ensures
        distinct_keys(set_var_spec(vars, key, val, export)),
        has_key(set_var_spec(vars, key, val, export), key),
        forall|other: Seq<u8>|
            other != key ==> lookup(set_var_spec(vars, key, val, export), other) == lookup(
                vars,
                other,
            ),
{
    let after = set_var_spec(vars, key, val, export);
    if has_key(vars, key) {
        let i = index_of(vars, key);
        assert(after[i].key == key);
        assert forall|a: int, b: int|
            0 <= a < after.len() && 0 <= b < after.len() && a != b implies after[a].key
            != after[b].key by {
            assert(after[a].key == vars[a].key);
            assert(after[b].key == vars[b].key);
        }
    } else {
        assert(after[vars.len() as int].key == key);
        assert forall|a: int, b: int|
            0 <= a < after.len() && 0 <= b < after.len() && a != b implies after[a].key
            != after[b].key by {
            if a < vars.len() {
                assert(after[a].key == vars[a].key);
            }
            if b < vars.len() {
                assert(after[b].key == vars[b].key);
            }
        }
    }
    assert forall|other: Seq<u8>| other != key implies lookup(after, other) == lookup(
        vars,
        other,
    ) by {
        if has_key(vars, other) {
            let j = index_of(vars, other);
            assert(after[j] == vars[j]);
            lemma_index_of(after, other, j);
        } else if has_key(after, other) {
            let j = index_of(after, other);
            if j < vars.len() {
                assert(vars[j].key == other);
            }
        }
    }
}

/// A variable that is not readonly has the value that was last assigned to it.
pub proof fn lemma_set_var_then_get(
    vars: Seq<VarView>,
    key: Seq<u8>,
    val: Seq<u8>,
    export: Option<bool>,
)
    requires
        distinct_keys(vars),
        !(has_key(vars, key) && vars[index_of(vars, key)].val.readonly),
    ensures
        value_of(set_var_spec(vars, key, val, export), key) == Some(val),
{
    lemma_set_var_keeps_keys(vars, key, val, export);
    let after = set_var_spec(vars, key, val, export);
    if has_key(vars, key) {
        let i = index_of(vars, key);
        assert(after[i].key == key);
        lemma_index_of(after, key, i);
    } else {
        assert(after[vars.len() as int].key == key);
        lemma_index_of(after, key, vars.len() as int);
    }
}

/// A readonly variable keeps what it has, whatever is assigned to it, and stays when it is unset.
pub proof fn lemma_readonly_is_kept(
    vars: Seq<VarView>,
    key: Seq<u8>,
    val: Seq<u8>,
    export: Option<bool>,
)
    requires
        has_key(vars, key),
        vars[index_of(vars, key)].val.readonly,
    ensures
        set_var_spec(vars, key, val, export) == vars,
        unset_spec(vars, key) == vars,
{
}

/// The line `NAME=VALUE` for a variable.
pub open spec fn export_line(key: Seq<u8>, value: Seq<u8>) -> Seq<u8> {
    key + seq![EQUALS] + value
}

/// The `NAME=VALUE` lines of the exported variables of `vars` that have a value, in order.
pub open spec fn exports_spec(vars: Seq<VarView>) -> Seq<Seq<u8>>
    decreases vars.len(),
{
    if vars.len() == 0 {
        seq![]
    } else {
        let rest = exports_spec(vars.drop_last());
        let last = vars.last();
        match last.val.value {
            Some(v) => if last.val.export {
                rest.push(export_line(last.key, v))
            } else {
                rest
            },
            None => rest,
        }
    }
}

/// The variables of a shell, each name held once, in the order in which they
/// were first set.
#[derive(Debug)]
pub struct Environment {
    vars: Vec<Var>,
}

spec fn views(vars: Seq<Var>) -> Seq<VarView> {
    Seq::new(vars.len(), |i: int| vars[i]@)
}

impl Environment {
    /// The variables held, in order.
    pub closed spec fn vars(&self) -> Seq<VarView> {
        views(self.vars@)
    }

    /// No name is held twice.
    #[verifier::type_invariant]
    pub open spec fn wf(&self) -> bool {
        distinct_keys(self.vars())
    }

    fn take_vars(&mut self) -> (r: Vec<Var>)
        ensures
            r@ == old(self).vars@,
            final(self).vars@.len() == 0,
    {
        let mut vars: Vec<Var> = Vec::new();
        core::mem::swap(&mut self.vars, &mut vars);
        vars
    }

    fn put_vars(&mut self, vars: Vec<Var>)
        requires
            distinct_keys(views(vars@)),
        ensures
            final(self).vars@ == vars@,
    {
        let mut vars = vars;
        core::mem::swap(&mut self.vars, &mut vars);
    }

    /// The position of `key`, if it is held.
    fn find(&self, key: &[u8]) -> (r: Option<usize>)
        ensures
            match r {
                Some(i) => has_key(self.vars(), key@) && i == index_of(self.vars(), key@) && i
                    < self.vars@.len(),
                None => !has_key(self.vars(), key@),
            },
    {
        proof {
            use_type_invariant(self);
        }
        let mut i: usize = 0;
        while i < self.vars.len()
            invariant
                i <= self.vars@.len(),
                distinct_keys(self.vars()),
                forall|k: int| 0 <= k < i ==> self.vars()[k].key != key@,
            decreases self.vars@.len() - i,
        {
            if bytes_eq(self.vars[i].key.as_slice(), key) {
                proof {
                    lemma_index_of(self.vars(), key@, i as int);
                }
                return Some(i);
            }
            i += 1;
        }
        None
    }

    /// Writes `val` at position `i`, or at the end where `i` is `None`.
    fn store(&mut self, i: Option<usize>, key: &[u8], val: Val)
        requires
            match i {
                Some(i) => i < old(self).vars().len() && old(self).vars()[i as int].key == key@,
                None => !has_key(old(self).vars(), key@),
            },
        ensures
            final(self).vars() == (match i {
                Some(i) => old(self).vars().update(i as int, VarView { key: key@, val: val@ }),
                None => old(self).vars().push(VarView { key: key@, val: val@ }),
            }),
    {
        proof {
            use_type_invariant(&*self);
        }
        let ghost before = self.vars();
        let var = Var { key: to_vec(key), val };
        let mut vars = self.take_vars();
        match i {
            Some(i) => {
                vars.set(i, var);
                assert(views(vars@) =~= before.update(i as int, VarView { key: key@, val: val@ }));
            },
            None => {
                vars.push(var);
                assert(views(vars@) =~= before.push(VarView { key: key@, val: val@ }));
                assert forall|a: int, b: int|
                    0 <= a < vars@.len() && 0 <= b < vars@.len() && a != b implies views(
                    vars@,
                )[a].key != views(vars@)[b].key by {
                    if a < before.len() {
                        assert(before[a].key == views(vars@)[a].key);
                    }
                    if b < before.len() {
                        assert(before[b].key == views(vars@)[b].key);
                    }
                }
            },
        }
        self.put_vars(vars);
    }

    /// Assigns `val` to `key`, marked for export as `export` says (`None`: not
    /// exported). A readonly variable keeps what it has.
    pub fn set_var(&mut self, key: &[u8], val: Vec<u8>, export: Option<bool>)
        ensures
            final(self).vars() == set_var_spec(old(self).vars(), key@, val@, export),
    {
        let exported = match export {
            Some(e) => e,
            None => false,
        };
        let new_val = Val { value: Some(val), export: exported, readonly: false };
        match self.find(key) {
            Some(i) => {
                if !self.vars[i].val.readonly {
                    self.store(Some(i), key, new_val);
                }
            },
            None => {
                self.store(None, key, new_val);
            },
        }
    }

    /// Makes the assignment written as `NAME=VALUE`. Text without a name and
    /// an `=` changes nothing.
    pub fn set_vareq(&mut self, var_eq: &[u8])
        ensures
            final(self).vars() == set_vareq_spec(old(self).vars(), var_eq@, None),
    {
        if let Some((key, value)) = self.parse(var_eq) {
            self.set_var(key, to_vec(value), None)
        }
    }

    /// Forgets `key`. A readonly variable stays.
    pub fn unset(&mut self, key: &[u8])
        ensures
            final(self).vars() == unset_spec(old(self).vars(), key@),
    {
        proof {
            use_type_invariant(&*self);
        }
        if let Some(i) = self.find(key) {
            if !self.vars[i].val.readonly {
                let ghost before = self.vars();
                let mut vars = self.take_vars();
                vars.remove(i);
                assert(views(vars@) =~= before.remove(i as int));
                self.put_vars(vars);
            }
        }
    }

    /// Marks `key` for export. An unknown name is added without a value.
    pub fn export(&mut self, key: &[u8])
        ensures
            final(self).vars() == export_spec(old(self).vars(), key@),
    {
        match self.find(key) {
            Some(i) => {
                let val = Val {
                    value: copy_value(&self.vars[i].val.value),
                    export: true,
                    readonly: self.vars[i].val.readonly,
                };
                self.store(Some(i), key, val);
            },
            None => {
                self.store(None, key, Val { value: None, export: true, readonly: false });
            },
        }
    }

    /// Marks `key` readonly. An unknown name is added without a value.
    pub fn readonly(&mut self, key: &[u8])
        ensures
            final(self).vars() == readonly_spec(old(self).vars(), key@),
    {
        match self.find(key) {
            Some(i) => {
                let val = Val {
                    value: copy_value(&self.vars[i].val.value),
                    export: self.vars[i].val.export,
                    readonly: true,
                };
                self.store(Some(i), key, val);
            },
            None => {
                self.store(None, key, Val { value: None, export: false, readonly: true });
            },
        }
    }

    /// The value of `key`: `None` when the name is unknown or has no value.
    pub fn get(&self, key: &[u8]) -> (r: Option<&[u8]>)
        ensures
            match r {
                Some(v) => value_of(self.vars(), key@) == Some(v@),
                None => value_of(self.vars(), key@) is None,
            },
    {
        match self.find(key) {
            Some(i) => match &self.vars[i].val.value {
                Some(v) => Some(v.as_slice()),
                None => None,
            },
            None => None,
        }
    }

    /// The `NAME=VALUE` lines of the exported variables that have a value, in order.
    pub fn exports(&self) -> (r: Vec<Vec<u8>>)
        ensures
            views_of(r@) == exports_spec(self.vars()),
    {
        let mut out: Vec<Vec<u8>> = Vec::new();
        let mut i: usize = 0;
        assert(self.vars().take(0) =~= Seq::<VarView>::empty());
        assert(views_of(out@) =~= exports_spec(self.vars().take(0)));
        while i < self.vars.len()
            invariant
                i <= self.vars@.len(),
                views_of(out@) == exports_spec(self.vars().take(i as int)),
            decreases self.vars@.len() - i,
        {
            let ghost done = self.vars().take(i as int);
            let ghost next = self.vars().take(i + 1);
            assert(next.drop_last() =~= done);
            assert(next.last() == self.vars()[i as int]);
            let var = &self.vars[i];
            if var.val.export {
                if let Some(v) = &var.val.value {
                    let mut line = to_vec(var.key.as_slice());
                    line.push(EQUALS);
                    append(&mut line, v.as_slice());
                    assert(line@ =~= export_line(var.key@, v@));
                    let ghost before = views_of(out@);
                    out.push(line);
                    assert(views_of(out@) =~= before.push(line@));
                }
            }
            i += 1;
        }
        assert(self.vars().take(i as int) =~= self.vars());
        out
    }

    /// Every variable with what is held of it, in order.
    pub fn iter(&self) -> (r: Vec<(Vec<u8>, Val)>)
        ensures
            r@.len() == self.vars().len(),
            forall|i: int|
                0 <= i < r@.len() ==> r@[i].0@ == self.vars()[i].key && r@[i].1@
                    == self.vars()[i].val,
    {
        let mut out: Vec<(Vec<u8>, Val)> = Vec::new();
        let mut i: usize = 0;
        while i < self.vars.len()
            invariant
                i <= self.vars@.len(),
                out@.len() == i,
                forall|k: int|
                    0 <= k < i ==> out@[k].0@ == self.vars()[k].key && out@[k].1@
                        == self.vars()[k].val,
            decreases self.vars@.len() - i,
        {
            let var = &self.vars[i];
            let val = Val {
                value: copy_value(&var.val.value),
                export: var.val.export,
                readonly: var.val.readonly,
            };
            out.push((to_vec(var.key.as_slice()), val));
            i += 1;
        }
        out
    }

    /// Splits `NAME=VALUE` at the first `=` that is not the first byte.
    pub fn parse<'a>(&self, var_eq: &'a [u8]) -> (r: Option<(&'a [u8], &'a [u8])>)
        ensures
            match r {
                Some((key, value)) => {
                    &&& split_point(var_eq@) is Some
                    &&& key@ == var_eq@.subrange(0, split_point(var_eq@).unwrap())
                    &&& value@ == var_eq@.subrange(
                        split_point(var_eq@).unwrap() + 1,
                        var_eq@.len() as int,
                    )
                },
                None => split_point(var_eq@) is None,
            },
    {
        split_assignment(var_eq)
    }
}

/// Splits `NAME=VALUE` at the first `=` that is not the first byte.
pub fn split_assignment<'a>(var_eq: &'a [u8]) -> (r: Option<(&'a [u8], &'a [u8])>)
    ensures
        match r {
            Some((key, value)) => {
                &&& split_point(var_eq@) is Some
                &&& key@ == var_eq@.subrange(0, split_point(var_eq@).unwrap())
                &&& value@ == var_eq@.subrange(
                    split_point(var_eq@).unwrap() + 1,
                    var_eq@.len() as int,
                )
            },
            None => split_point(var_eq@) is None,
        },
{
    if var_eq.len() < 2 {
        proof {
            lemma_first_at_or_after(var_eq@, EQUALS, if var_eq@.len() == 0 { 0 } else { 1 });
        }
        return None;
    }
    let i = find_byte(var_eq, EQUALS, 1);
    if i < var_eq.len() {
        Some((slice(var_eq, 0, i), slice(var_eq, i + 1, var_eq.len())))
    } else {
        None
    }
}

fn copy_value(value: &Option<Vec<u8>>) -> (r: Option<Vec<u8>>)
    ensures
        match (r, *value) {
            (Some(a), Some(b)) => a@ == b@,
            (None, None) => true,
            _ => false,
        },
{
    match value {
        Some(v) => Some(to_vec(v.as_slice())),
        None => None,
    }
}

impl Clone for Environment {
    fn clone(&self) -> (r: Environment)
        ensures
            r.vars() == self.vars(),
    {
        proof {
            use_type_invariant(self);
        }
        let mut vars: Vec<Var> = Vec::new();
        let mut i: usize = 0;
        while i < self.vars.len()
            invariant
                i <= self.vars@.len(),
                vars@.len() == i,
                forall|k: int| 0 <= k < i ==> vars@[k]@ == self.vars@[k]@,
            decreases self.vars@.len() - i,
        {
            let var = &self.vars[i];
            let val = Val {
                value: copy_value(&var.val.value),
                export: var.val.export,
                readonly: var.val.readonly,
            };
            vars.push(Var { key: to_vec(var.key.as_slice()), val });
            i += 1;
        }
        assert(views(vars@) =~= self.vars());
        Environment { vars }
    }
}

/// An environment without variables.
pub fn empty() -> (r: Environment)
    ensures
        r.vars() == Seq::<VarView>::empty(),
{
    let r = Environment { vars: Vec::new() };
    assert(r.vars() =~= Seq::<VarView>::empty());
    r
}

/// The environment that holds each `(name, value)` pair of `pairs`, in order
/// and marked for export: what a shell takes over from its host.
pub fn from_pairs(pairs: &Vec<(Vec<u8>, Vec<u8>)>) -> (r: Environment)
    ensures
        r.vars() == from_pairs_spec(pairs_view(pairs@)),
{
    let mut env = empty();
    let mut i: usize = 0;
    assert(pairs_view(pairs@).take(0) =~= Seq::<(Seq<u8>, Seq<u8>)>::empty());
    while i < pairs.len()
        invariant
            i <= pairs@.len(),
            env.vars() == from_pairs_spec(pairs_view(pairs@).take(i as int)),
        decreases pairs@.len() - i,
    {
        let ghost next = pairs_view(pairs@).take(i + 1);
        assert(next.drop_last() =~= pairs_view(pairs@).take(i as int));
        assert(next.last() == (pairs@[i as int].0@, pairs@[i as int].1@));
        env.set_var(pairs[i].0.as_slice(), to_vec(pairs[i].1.as_slice()), Some(true));
        i += 1;
    }
    assert(pairs_view(pairs@).take(i as int) =~= pairs_view(pairs@));
    env
}

/// The names and values that `pairs` holds.
pub open spec fn pairs_view(pairs: Seq<(Vec<u8>, Vec<u8>)>) -> Seq<(Seq<u8>, Seq<u8>)> {
    Seq::new(pairs.len(), |i: int| (pairs[i].0@, pairs[i].1@))
}

/// The variables after each pair of `pairs` was assigned in order, for export.
pub open spec fn from_pairs_spec(pairs: Seq<(Seq<u8>, Seq<u8>)>) -> Seq<VarView>
    decreases pairs.len(),
{
    if pairs.len() == 0 {
        seq![]
    } else {
        set_var_spec(
            from_pairs_spec(pairs.drop_last()),
            pairs.last().0,
            pairs.last().1,
            Some(true),
        )
    }
}

} // verus!
