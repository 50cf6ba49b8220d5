//! Word expansion: quotation marks and backslashes are taken away, and
//! parameters are replaced by their values.

use vstd::prelude::*;
use crate::bytes::append;
use crate::bytes::decimal;
use crate::bytes::to_decimal;
use crate::bytes::find_byte;
use crate::bytes::first_at_or_after;
use crate::bytes::lemma_first_at_or_after;
use crate::bytes::slice;
use crate::bytes::BACKSLASH;
use crate::bytes::BACKTICK;
use crate::bytes::DASH;
use crate::bytes::DIGIT_0;
use crate::bytes::DIGIT_9;
use crate::bytes::DOLLAR;
use crate::bytes::DQUOTE;
use crate::bytes::LBRACE;
use crate::bytes::LOWER_A;
use crate::bytes::LOWER_Z;
use crate::bytes::NEWLINE;
use crate::bytes::QUESTION;
use crate::bytes::RBRACE;
use crate::bytes::SQUOTE;
use crate::bytes::UNDERSCORE;
use crate::bytes::UPPER_A;
use crate::bytes::UPPER_Z;
use crate::environment::value_of;
use crate::environment::Environment;
use crate::environment::VarView;
use crate::lexer::name_byte;

verus! {

/// A letter or an underscore: what a name starts with.
pub open spec fn name_start(c: u8) -> bool {
    ||| LOWER_A <= c <= LOWER_Z
    ||| UPPER_A <= c <= UPPER_Z
    ||| c == UNDERSCORE
}

/// The end of the letters, digits and underscores that start at `pos`.
pub open spec fn name_run_end(arg: Seq<u8>, pos: int) -> int
    decreases arg.len() - pos,
{
    if 0 <= pos < arg.len() && name_byte(arg[pos]) {
        name_run_end(arg, pos + 1)
    } else {
        pos
    }
}

/// The end of the name that starts at `pos`: `pos` itself where none does.
pub open spec fn name_end(arg: Seq<u8>, pos: int) -> int {
    if 0 <= pos < arg.len() && name_start(arg[pos]) {
        name_run_end(arg, pos + 1)
    } else {
        pos
    }
}

/// The end of what stands for the name in `${...}`: the first `}` or `-` at
/// or behind `pos`, or the end of `arg`.
pub open spec fn braced_name_end(arg: Seq<u8>, pos: int) -> int
    decreases arg.len() - pos,
{
    if 0 <= pos < arg.len() && arg[pos] != RBRACE && arg[pos] != DASH {
        braced_name_end(arg, pos + 1)
    } else {
        pos
    }
}

/// The value of `name`, or `default` where it has none.
pub open spec fn value_or(vars: Seq<VarView>, name: Seq<u8>, default: Seq<u8>) -> Seq<u8> {
    match value_of(vars, name) {
        Some(v) => v,
        None => default,
    }
}

/// What a parameter expands to, and where the text that names it ends.
pub struct Parameter {
    pub text: Seq<u8>,
    pub end: int,
}

/// The parameter whose `$` stands just before `pos`:
/// `?` gives the status in decimal (after `${` too, where the `}` is then left);
/// `NAME` gives the value of the name, which may be empty, or nothing;
/// `{NAME}` gives the same for whatever stands before the `}`;
/// `{NAME-DEFAULT}` gives the value, or `DEFAULT` where there is none.
/// A form that the end of `arg` cuts short is read as if it were closed there.
pub open spec fn parameter(arg: Seq<u8>, pos: int, vars: Seq<VarView>, status: int) -> Parameter {
    let braced = 0 <= pos < arg.len() && arg[pos] == LBRACE;
    let p = if braced {
        pos + 1
    } else {
        pos
    };
    if 0 <= p < arg.len() && arg[p] == QUESTION {
        Parameter { text: decimal(status), end: p + 1 }
    } else if braced {
        let stop = braced_name_end(arg, p);
        let name = arg.subrange(p, stop);
        if stop < arg.len() && arg[stop] == DASH {
            let close = first_at_or_after(arg, RBRACE, stop + 1);
            Parameter {
                text: value_or(vars, name, arg.subrange(stop + 1, close)),
                end: if close < arg.len() {
                    close + 1
                } else {
                    close
                },
            }
        } else {
            Parameter {
                text: value_or(vars, name, seq![]),
                end: if stop < arg.len() {
                    stop + 1
                } else {
                    stop
                },
            }
        }
    } else {
        let stop = name_end(arg, p);
        Parameter { text: value_or(vars, arg.subrange(p, stop), seq![]), end: stop }
    }
}

/// The bytes that a backslash escapes between double quotes.
pub open spec fn escapable(c: u8) -> bool {
    c == DOLLAR || c == BACKTICK || c == DQUOTE || c == BACKSLASH || c == NEWLINE
}

/// What an escaped byte leaves: itself, or nothing for a newline.
pub open spec fn escaped(c: u8) -> Seq<u8> {
    if c == NEWLINE {
        seq![]
    } else {
        seq![c]
    }
}

/// The expansion of `arg` from `pos` on, where `quoted` is the quotation mark
/// that is open there, if any.
///
/// Outside quotation marks a backslash makes the next byte literal, and a
/// backslash with a newline vanishes. Between single quotes and between
/// backticks every byte is literal. Between double quotes a backslash
/// escapes only `$`, a backtick, `"`, a backslash and a newline, and is
/// literal before anything else. Outside quotation marks and between double
/// quotes `$` starts a parameter. (The text that names a parameter lies
/// within the word: the test for it is there to make the definition
/// well-founded.)
pub open spec fn expand_from(
    arg: Seq<u8>,
    pos: int,
    quoted: Option<u8>,
    vars: Seq<VarView>,
    status: int,
) -> Seq<u8>
    decreases arg.len() - pos,
{
    if pos < 0 || pos >= arg.len() {
        seq![]
    } else {
        let c = arg[pos];
        match quoted {
            None => if c == DQUOTE || c == SQUOTE || c == BACKTICK {
                expand_from(arg, pos + 1, Some(c), vars, status)
            } else if c == BACKSLASH {
                if pos + 1 < arg.len() {
                    escaped(arg[pos + 1]) + expand_from(arg, pos + 2, None, vars, status)
                } else {
                    seq![]
                }
            } else if c == DOLLAR {
                let p = parameter(arg, pos + 1, vars, status);
                if pos < p.end <= arg.len() {
                    p.text + expand_from(arg, p.end, None, vars, status)
                } else {
                    p.text
                }
            } else {
                seq![c] + expand_from(arg, pos + 1, None, vars, status)
            },
            Some(open) => if c == open {
                expand_from(arg, pos + 1, None, vars, status)
            } else if open != DQUOTE {
                seq![c] + expand_from(arg, pos + 1, quoted, vars, status)
            } else if c == BACKSLASH && pos + 1 < arg.len() && escapable(arg[pos + 1]) {
                escaped(arg[pos + 1]) + expand_from(arg, pos + 2, quoted, vars, status)
            } else if c == DOLLAR {
                let p = parameter(arg, pos + 1, vars, status);
                if pos < p.end <= arg.len() {
                    p.text + expand_from(arg, p.end, quoted, vars, status)
                } else {
                    p.text
                }
            } else {
                seq![c] + expand_from(arg, pos + 1, quoted, vars, status)
            },
        }
    }
}

/// The expansion of the word `arg`.
pub open spec fn expand(arg: Seq<u8>, vars: Seq<VarView>, status: int) -> Seq<u8> {
    expand_from(arg, 0, None, vars, status)
}

pub proof fn lemma_name_run_end(arg: Seq<u8>, pos: int)
    requires
        0 <= pos <= arg.len(),
    ensures
        pos <= name_run_end(arg, pos) <= arg.len(),
        pos <= braced_name_end(arg, pos) <= arg.len(),
    decreases arg.len() - pos,
{
    if pos < arg.len() {
        lemma_name_run_end(arg, pos + 1);
    }
}

/// The text that names a parameter lies within the word.
pub proof fn lemma_parameter(arg: Seq<u8>, pos: int, vars: Seq<VarView>, status: int)
    requires
        0 <= pos <= arg.len(),
    ensures
        pos <= parameter(arg, pos, vars, status).end <= arg.len(),
{
    let braced = pos < arg.len() && arg[pos] == LBRACE;
    let p = if braced {
        pos + 1
    } else {
        pos
    };
    lemma_name_run_end(arg, p);
    if p < arg.len() {
        lemma_name_run_end(arg, p + 1);
    }
    let stop = braced_name_end(arg, p);
    if stop < arg.len() {
        lemma_first_at_or_after(arg, RBRACE, stop + 1);
    }
}

/// The bytes that expansion acts on: the quotation marks, the backslash and `$`.
pub open spec fn special(c: u8) -> bool {
    c == DQUOTE || c == SQUOTE || c == BACKTICK || c == BACKSLASH || c == DOLLAR
}

/// Text that holds none of the bytes that expansion acts on.
pub open spec fn literal(s: Seq<u8>) -> bool {
    forall|i: int| 0 <= i < s.len() ==> !special(#[trigger] s[i])
}

proof fn lemma_expand_literal_from(s: Seq<u8>, pos: int, vars: Seq<VarView>, status: int)
    requires
        literal(s),
        0 <= pos <= s.len(),
    ensures
        expand_from(s, pos, None, vars, status) == s.subrange(pos, s.len() as int),
    decreases s.len() - pos,
{
    if pos < s.len() {
        assert(!special(s[pos]));
        lemma_expand_literal_from(s, pos + 1, vars, status);
        assert(seq![s[pos]] + s.subrange(pos + 1, s.len() as int) =~= s.subrange(
            pos,
            s.len() as int,
        ));
    } else {
        assert(s.subrange(pos, s.len() as int) =~= Seq::<u8>::empty());
    }
}

/// Text that holds none of the bytes that expansion acts on expands to itself.
pub proof fn lemma_expand_literal(s: Seq<u8>, vars: Seq<VarView>, status: int)
    requires
        literal(s),
    ensures
        expand(s, vars, status) == s,
{
    lemma_expand_literal_from(s, 0, vars, status);
    assert(s.subrange(0, s.len() as int) =~= s);
}

/// To expand a second time changes nothing, where the first expansion has
/// left none of the bytes that expansion acts on.
pub proof fn lemma_expand_twice(arg: Seq<u8>, vars: Seq<VarView>, status: int)
    requires
        literal(expand(arg, vars, status)),
    ensures
        expand(expand(arg, vars, status), vars, status) == expand(arg, vars, status),
{
    lemma_expand_literal(expand(arg, vars, status), vars, status);
}

/// Expands the parameter whose `$` stands just before `pos`: appends what it
/// expands to, and returns where the text that names it ends.
pub fn expand_var(
    env: &Environment,
    last_return: i32,
    arg: &[u8],
    pos: usize,
    expanded: &mut Vec<u8>,
) -> (end: usize)
    requires
        pos <= arg@.len(),
    ensures
        end == parameter(arg@, pos as int, env.vars(), last_return as int).end,
        final(expanded)@ == old(expanded)@ + parameter(
            arg@,
            pos as int,
            env.vars(),
            last_return as int,
        ).text,
        pos <= end <= arg@.len(),
{
    let len = arg.len();
    let delimited = pos < len && arg[pos] == LBRACE;
    let p: usize = if delimited {
        pos + 1
    } else {
        pos
    };
    proof {
        lemma_parameter(arg@, pos as int, env.vars(), last_return as int);
    }
    if p < len && arg[p] == QUESTION {
        let status = to_decimal(last_return);
        append(expanded, status.as_slice());
        return p + 1;
    }
    if delimited {
        let mut stop: usize = p;
        while stop < len && arg[stop] != RBRACE && arg[stop] != DASH
            invariant
                p <= stop <= len,
                len == arg@.len(),
                braced_name_end(arg@, p as int) == braced_name_end(arg@, stop as int),
            decreases len - stop,
        {
            stop += 1;
        }
        let name = slice(arg, p, stop);
        if stop < len && arg[stop] == DASH {
            let close = find_byte(arg, RBRACE, stop + 1);
            match env.get(name) {
                Some(v) => append(expanded, v),
                None => append(expanded, slice(arg, stop + 1, close)),
            }
            if close < len {
                close + 1
            } else {
                close
            }
        } else {
            match env.get(name) {
                Some(v) => append(expanded, v),
                None => {
                    assert(expanded@ + Seq::<u8>::empty() =~= expanded@);
                },
            }
            if stop < len {
                stop + 1
            } else {
                stop
            }
        }
    } else {
        let mut stop: usize = p;
        if p < len && is_name_start(arg[p]) {
            stop = p + 1;
            while stop < len && is_name_byte(arg[stop])
                invariant
                    p < stop <= len,
                    len == arg@.len(),
                    name_run_end(arg@, p + 1) == name_run_end(arg@, stop as int),
                decreases len - stop,
            {
                stop += 1;
            }
        }
        match env.get(slice(arg, p, stop)) {
            Some(v) => append(expanded, v),
            None => {
                assert(expanded@ + Seq::<u8>::empty() =~= expanded@);
            },
        }
        stop
    }
}

/// Whether a name can start with `c`.
pub fn is_name_start(c: u8) -> (r: bool)
    ensures
        r == name_start(c),
{
    (LOWER_A <= c && c <= LOWER_Z) || (UPPER_A <= c && c <= UPPER_Z) || c == UNDERSCORE
}

/// Whether a name can hold `c`.
pub fn is_name_byte(c: u8) -> (r: bool)
    ensures
        r == name_byte(c),
{
    is_name_start(c) || (DIGIT_0 <= c && c <= DIGIT_9)
}

/// Expands the word `arg`.
pub fn expand_arg(env: &Environment, last_return: i32, arg: &[u8]) -> (r: Vec<u8>)
    ensures
        r@ == expand(arg@, env.vars(), last_return as int),
{
    let len = arg.len();
    let ghost vars = env.vars();
    let ghost status = last_return as int;
    let mut expanded: Vec<u8> = Vec::new();
    let mut quoted: Option<u8> = None;
    let mut pos: usize = 0;
    assert(expanded@ + expand_from(arg@, 0, None, vars, status) =~= expand(arg@, vars, status));
    while pos < len
        invariant
            pos <= len,
            len == arg@.len(),
            vars == env.vars(),
            status == last_return as int,
            expand(arg@, vars, status) == expanded@ + expand_from(
                arg@,
                pos as int,
                quoted,
                vars,
                status,
            ),
        decreases len - pos,
    {
        let c = arg[pos];
        let ghost before = expanded@;
        let ghost rest = expand_from(arg@, pos as int, quoted, vars, status);
        let mut literal = false;
        match quoted {
            None => {
                if c == DQUOTE || c == SQUOTE || c == BACKTICK {
                    quoted = Some(c);
                    pos += 1;
                } else if c == BACKSLASH {
                    if pos + 1 < len {
                        if arg[pos + 1] != NEWLINE {
                            expanded.push(arg[pos + 1]);
                        }
                        assert(expanded@ =~= before + escaped(arg@[pos + 1]));
                        assert(before + (escaped(arg@[pos + 1]) + expand_from(
                            arg@,
                            pos + 2,
                            quoted,
                            vars,
                            status,
                        )) =~= expanded@ + expand_from(arg@, pos + 2, quoted, vars, status));
                        pos += 2;
                    } else {
                        assert(before + Seq::<u8>::empty() =~= before);
                        pos += 1;
                    }
                } else if c == DOLLAR {
                    let end = expand_var(env, last_return, arg, pos + 1, &mut expanded);
                    proof {
                        let p = parameter(arg@, pos + 1, vars, status);
                        assert(before + (p.text + expand_from(arg@, p.end, quoted, vars, status))
                            =~= expanded@ + expand_from(arg@, p.end, quoted, vars, status));
                    }
                    pos = end;
                } else {
                    literal = true;
                }
            },
            Some(open) => {
                if c == open {
                    quoted = None;
                    pos += 1;
                } else if open != DQUOTE {
                    literal = true;
                } else if c == BACKSLASH && pos + 1 < len && is_escapable(arg[pos + 1]) {
                    if arg[pos + 1] != NEWLINE {
                        expanded.push(arg[pos + 1]);
                    }
                    assert(expanded@ =~= before + escaped(arg@[pos + 1]));
                    assert(before + (escaped(arg@[pos + 1]) + expand_from(
                        arg@,
                        pos + 2,
                        quoted,
                        vars,
                        status,
                    )) =~= expanded@ + expand_from(arg@, pos + 2, quoted, vars, status));
                    pos += 2;
                } else if c == DOLLAR {
                    let end = expand_var(env, last_return, arg, pos + 1, &mut expanded);
                    proof {
                        let p = parameter(arg@, pos + 1, vars, status);
                        assert(before + (p.text + expand_from(arg@, p.end, quoted, vars, status))
                            =~= expanded@ + expand_from(arg@, p.end, quoted, vars, status));
                    }
                    pos = end;
                } else {
                    literal = true;
                }
            },
        }
        if literal {
            expanded.push(c);
            assert(before + (seq![c] + expand_from(arg@, pos + 1, quoted, vars, status))
                =~= expanded@ + expand_from(arg@, pos + 1, quoted, vars, status));
            pos += 1;
        }
    }
    assert(expanded@ + Seq::<u8>::empty() =~= expanded@);
    expanded
}

/// Whether a backslash escapes `c` between double quotes.
pub fn is_escapable(c: u8) -> (r: bool)
    ensures
        r == escapable(c),
{
    c == DOLLAR || c == BACKTICK || c == DQUOTE || c == BACKSLASH || c == NEWLINE
}

} // verus!
