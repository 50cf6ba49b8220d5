//! What the grammar makes of a program that is written out again: the same
//! program.

use vstd::prelude::*;
use crate::ast::with_last;
use crate::ast::AndOrOp;
use crate::ast::AndOrView;
use crate::ast::CommandView;
use crate::ast::CompleteView;
use crate::ast::PipelineView;
use crate::ast::ProgramView;
use crate::ast::SimpleView;
use crate::ast::TermOp;
use crate::bytes::AMP;
use crate::bytes::BANG;
use crate::bytes::NEWLINE;
use crate::bytes::PIPE;
use crate::bytes::SEMI;
use crate::grammar::and_or;
use crate::grammar::and_or_op;
use crate::grammar::and_or_rest;
use crate::grammar::assignments_end;
use crate::grammar::complete_command;
use crate::grammar::complete_rest;
use crate::grammar::is_bang;
use crate::grammar::is_op;
use crate::grammar::is_word;
use crate::grammar::lemma_and_or;
use crate::grammar::lemma_and_or_rest;
use crate::grammar::lemma_complete_command;
use crate::grammar::lemma_complete_rest;
use crate::grammar::lemma_pipeline;
use crate::grammar::lemma_pipeline_rest;
use crate::grammar::lemma_runs;
use crate::grammar::lemma_simple_command;
use crate::grammar::newlines_end;
use crate::grammar::pipeline;
use crate::grammar::pipeline_rest;
use crate::grammar::program;
use crate::grammar::program_rest;
use crate::grammar::simple_command;
use crate::grammar::term_op;
use crate::grammar::texts;
use crate::grammar::words_end;
use crate::grammar::parse_spec;
use crate::grammar::span_views;
use crate::lexer::lex;
use crate::render::rendered;
use crate::grammar::TokenView;
use crate::lexer::TokType;
use crate::relex::flag_at;
use crate::relex::lemma_lexable_at;
use crate::relex::lemma_lexable_concat;
use crate::relex::lemma_lexable_one;
use crate::relex::lemma_lexable_part;
use crate::relex::lexable;
use crate::relex::lemma_lex_joined;
use crate::relex::lemma_lex_lexable;
use crate::relex::lexable_with;
use crate::relex::token_ok;
use crate::render::and_or_text;
use crate::render::commands_tokens;
use crate::render::lists_tokens;
use crate::render::op_token;
use crate::render::pipeline_tokens;
use crate::render::pipelines_tokens;
use crate::render::program_tokens;
use crate::render::simple_tokens;
use crate::render::term_text;
use crate::render::tokens_of;

verus! {

/// Whether `a` from `i` and `b` from `j` hold the same `n` tokens.
pub open spec fn same(a: Seq<TokenView>, i: int, b: Seq<TokenView>, j: int, n: int) -> bool {
    &&& 0 <= i && 0 <= j && 0 <= n
    &&& i + n <= a.len()
    &&& j + n <= b.len()
    &&& a.subrange(i, i + n) == b.subrange(j, j + n)
}

proof fn lemma_same_at(a: Seq<TokenView>, i: int, b: Seq<TokenView>, j: int, n: int, k: int)
    requires
        same(a, i, b, j, n),
        0 <= k < n,
    ensures
        a[i + k] == b[j + k],
{
    assert(a.subrange(i, i + n)[k] == a[i + k]);
    assert(b.subrange(j, j + n)[k] == b[j + k]);
}

/// Tokens that are the same are the same in every part.
proof fn lemma_same_part(
    a: Seq<TokenView>,
    i: int,
    b: Seq<TokenView>,
    j: int,
    n: int,
    from: int,
    to: int,
)
    requires
        same(a, i, b, j, n),
        0 <= from <= to <= n,
    ensures
        same(a, i + from, b, j + from, to - from),
{
    assert(a.subrange(i + from, i + to) =~= a.subrange(i, i + n).subrange(from, to));
    assert(b.subrange(j + from, j + to) =~= b.subrange(j, j + n).subrange(from, to));
}

/// What the runs of assignment words, of words and of newlines are made of,
/// and what ends them.
pub proof fn lemma_run_ends(tokens: Seq<TokenView>, i: int)
    requires
        0 <= i <= tokens.len(),
    ensures
        forall|k: int|
            i <= k < assignments_end(tokens, i) ==> (#[trigger] tokens[k]).kind
                == TokType::AssignmentWord,
        assignments_end(tokens, i) < tokens.len() ==> tokens[assignments_end(tokens, i)].kind
            != TokType::AssignmentWord,
        forall|k: int| i <= k < words_end(tokens, i) ==> is_word(#[trigger] tokens[k]),
        words_end(tokens, i) < tokens.len() ==> !is_word(tokens[words_end(tokens, i)]),
        forall|k: int|
            i <= k < newlines_end(tokens, i) ==> (#[trigger] tokens[k]).kind == TokType::Newline,
        newlines_end(tokens, i) < tokens.len() ==> tokens[newlines_end(tokens, i)].kind
            != TokType::Newline,
    decreases tokens.len() - i,
{
    lemma_runs(tokens, i);
    if i < tokens.len() {
        lemma_run_ends(tokens, i + 1);
    }
}

/// A run is where it is, given what it is made of and what ends it.
proof fn lemma_run_is(tokens: Seq<TokenView>, i: int, end: int)
    requires
        0 <= i <= end <= tokens.len(),
    ensures
        (forall|k: int| i <= k < end ==> (#[trigger] tokens[k]).kind == TokType::AssignmentWord)
            && (end < tokens.len() ==> tokens[end].kind != TokType::AssignmentWord)
            ==> assignments_end(tokens, i) == end,
        (forall|k: int| i <= k < end ==> is_word(#[trigger] tokens[k])) && (end < tokens.len()
            ==> !is_word(tokens[end])) ==> words_end(tokens, i) == end,
        (forall|k: int| i <= k < end ==> (#[trigger] tokens[k]).kind == TokType::Newline) && (end
            < tokens.len() ==> tokens[end].kind != TokType::Newline) ==> newlines_end(tokens, i)
            == end,
    decreases end - i,
{
    if i < end {
        lemma_run_is(tokens, i + 1, end);
    }
}

/// A simple command ends where no word follows.
pub proof fn lemma_simple_stop(tokens: Seq<TokenView>, i: int)
    requires
        0 <= i <= tokens.len(),
        simple_command(tokens, i) is Ok,
    ensures
        ({
            let j = simple_command(tokens, i)->Ok_0.1;
            &&& i < j <= tokens.len()
            &&& is_word(tokens[i])
            &&& j < tokens.len() ==> !is_word(tokens[j])
        }),
{
    lemma_simple_command(tokens, i);
    lemma_run_ends(tokens, i);
    let j0 = assignments_end(tokens, i);
    lemma_runs(tokens, i);
    if j0 < tokens.len() {
        lemma_run_ends(tokens, j0 + 1);
    }
}

/// The words behind a word that is no assignment are words that are no
/// assignment either, where the tokens are such as the lexer hands out.
proof fn lemma_words_behind_word(tokens: Seq<TokenView>, flag: bool, i: int, k: int)
    requires
        lexable_with(tokens, flag),
        0 < i <= k < words_end(tokens, i),
        i <= tokens.len(),
        tokens[i - 1].kind == TokType::Word,
    ensures
        tokens[k].kind == TokType::Word,
    decreases k - i,
{
    lemma_run_ends(tokens, i);
    lemma_runs(tokens, i);
    if k > i {
        lemma_words_behind_word(tokens, flag, i, k - 1);
    }
    lemma_lexable_at(tokens, flag, k);
    assert(is_word(tokens[k]));
}

/// A simple command is spelt by the very tokens that it was read from,
/// where these are such as the lexer hands out.
#[verifier::spinoff_prover]
pub proof fn lemma_simple_exact(tokens: Seq<TokenView>, flag: bool, i: int)
    requires
        lexable_with(tokens, flag),
        0 <= i <= tokens.len(),
        simple_command(tokens, i) is Ok,
    ensures
        ({
            let (s, j) = simple_command(tokens, i)->Ok_0;
            i < j <= tokens.len() && simple_tokens(s) == tokens.subrange(i, j)
        }),
{
    lemma_simple_stop(tokens, i);
    lemma_run_ends(tokens, i);
    lemma_runs(tokens, i);
    let (s, j) = simple_command(tokens, i)->Ok_0;
    let j0 = assignments_end(tokens, i);
    let assigns = tokens_of(TokType::AssignmentWord, s.assign);
    assert(assigns =~= tokens.subrange(i, j0)) by {
        assert forall|k: int| 0 <= k < j0 - i implies assigns[k] == tokens.subrange(i, j0)[k] by {
            assert(tokens[i + k].kind == TokType::AssignmentWord);
        }
    }
    if j0 < tokens.len() && tokens[j0].kind == TokType::Word {
        lemma_run_ends(tokens, j0 + 1);
        lemma_runs(tokens, j0 + 1);
        lemma_lexable_at(tokens, flag, j0);
        let args = tokens_of(TokType::Word, s.args);
        assert(args =~= tokens.subrange(j0 + 1, j)) by {
            assert forall|k: int| 0 <= k < j - (j0 + 1) implies args[k] == tokens.subrange(
                j0 + 1,
                j,
            )[k] by {
                lemma_words_behind_word(tokens, flag, j0 + 1, j0 + 1 + k);
            }
        }
        assert(seq![TokenView { kind: TokType::Word, text: s.cmd }] =~= tokens.subrange(
            j0,
            j0 + 1,
        ));
        assert(tokens.subrange(i, j0) + tokens.subrange(j0, j0 + 1) + tokens.subrange(j0 + 1, j)
            =~= tokens.subrange(i, j));
    } else {
        assert(s.cmd.len() == 0);
        assert(tokens_of(TokType::Word, s.args) =~= Seq::<TokenView>::empty());
        assert(assigns + Seq::<TokenView>::empty() + Seq::<TokenView>::empty() =~= assigns);
    }
}

/// A simple command is read from the same tokens in the same way wherever
/// they stand, as long as no word follows them.
#[verifier::spinoff_prover]
pub proof fn lemma_simple_local(a: Seq<TokenView>, i: int, b: Seq<TokenView>, j: int)
    requires
        0 <= i <= a.len(),
        simple_command(a, i) is Ok,
        same(a, i, b, j, simple_command(a, i)->Ok_0.1 - i),
        j + (simple_command(a, i)->Ok_0.1 - i) < b.len() ==> !is_word(
            b[j + (simple_command(a, i)->Ok_0.1 - i)],
        ),
    ensures
        simple_command(b, j) == Ok::<(SimpleView, int), int>(
            (simple_command(a, i)->Ok_0.0, j + (simple_command(a, i)->Ok_0.1 - i)),
        ),
{
    lemma_simple_stop(a, i);
    lemma_run_ends(a, i);
    lemma_runs(a, i);
    let (s, end) = simple_command(a, i)->Ok_0;
    let n = end - i;
    let d = j - i;
    let a0 = assignments_end(a, i);
    assert forall|k: int| j <= k < a0 + d implies (#[trigger] b[k]).kind
        == TokType::AssignmentWord by {
        lemma_same_at(a, i, b, j, n, k - j);
    }
    if a0 < end {
        lemma_same_at(a, i, b, j, n, a0 - i);
    }
    lemma_run_is(b, j, a0 + d);
    assert(assignments_end(b, j) == a0 + d);
    let assigns_b = texts(b, j, a0 + d);
    let assigns_a = texts(a, i, a0);
    assert(assigns_b =~= assigns_a) by {
        assert forall|k: int| 0 <= k < assigns_a.len() implies assigns_b[k] == assigns_a[k] by {
            lemma_same_at(a, i, b, j, n, k);
        }
    }
    if a0 < a.len() && a[a0].kind == TokType::Word {
        lemma_run_ends(a, a0 + 1);
        lemma_runs(a, a0 + 1);
        assert forall|k: int| a0 + 1 + d <= k < end + d implies is_word(#[trigger] b[k]) by {
            lemma_same_at(a, i, b, j, n, k - j);
        }
        lemma_run_is(b, a0 + 1 + d, end + d);
        let in_b = texts(b, a0 + 1 + d, end + d);
        let in_a = texts(a, a0 + 1, end);
        assert(in_b =~= in_a) by {
            assert forall|k: int| 0 <= k < in_a.len() implies in_b[k] == in_a[k] by {
                lemma_same_at(a, i, b, j, n, a0 + 1 + k - i);
            }
        }
    }
}

/// Whether nothing stands at `i` with which a pipeline could go on.
pub open spec fn ends_pipeline(tokens: Seq<TokenView>, i: int) -> bool {
    0 <= i < tokens.len() ==> !is_word(tokens[i]) && !is_op(tokens[i], seq![PIPE])
}

/// Whether nothing stands at `i` with which an and-or list could go on.
pub open spec fn ends_and_or(tokens: Seq<TokenView>, i: int) -> bool {
    ends_pipeline(tokens, i) && (0 <= i < tokens.len() ==> and_or_op(tokens[i]) is None)
}

/// Behind the commands that a pipeline takes up nothing stands with which
/// it could go on.
proof fn lemma_pipeline_rest_stop(tokens: Seq<TokenView>, i: int, acc: PipelineView)
    requires
        0 <= i <= tokens.len(),
        i < tokens.len() ==> !is_word(tokens[i]),
        pipeline_rest(tokens, i, acc) is Ok,
    ensures
        i <= pipeline_rest(tokens, i, acc)->Ok_0.1 <= tokens.len(),
        ends_pipeline(tokens, pipeline_rest(tokens, i, acc)->Ok_0.1),
    decreases tokens.len() - i,
{
    if i < tokens.len() && is_op(tokens[i], seq![PIPE]) {
        lemma_simple_command(tokens, i + 1);
        let (cmd, k) = simple_command(tokens, i + 1)->Ok_0;
        lemma_simple_stop(tokens, i + 1);
        lemma_pipeline_rest_stop(
            tokens,
            k,
            PipelineView { commands: acc.commands.push(CommandView::Simple(cmd)), ..acc },
        );
    }
}

/// A pipeline starts with a word, and nothing follows it with which it could go on.
pub proof fn lemma_pipeline_stop(tokens: Seq<TokenView>, i: int)
    requires
        0 <= i <= tokens.len(),
        pipeline(tokens, i) is Ok,
    ensures
        i < pipeline(tokens, i)->Ok_0.1 <= tokens.len(),
        is_word(tokens[i]),
        ends_pipeline(tokens, pipeline(tokens, i)->Ok_0.1),
{
    lemma_pipeline(tokens, i);
    let negated = i < tokens.len() && is_bang(tokens[i]);
    let start = if negated {
        i + 1
    } else {
        i
    };
    let (cmd, k) = simple_command(tokens, start)->Ok_0;
    lemma_simple_stop(tokens, start);
    lemma_pipeline_rest_stop(
        tokens,
        k,
        PipelineView { commands: seq![CommandView::Simple(cmd)], negated },
    );
}

/// Behind the pipelines that an and-or list takes up nothing stands with
/// which it could go on.
proof fn lemma_and_or_rest_stop(tokens: Seq<TokenView>, i: int, acc: AndOrView)
    requires
        0 <= i <= tokens.len(),
        ends_pipeline(tokens, i),
        and_or_rest(tokens, i, acc) is Ok,
    ensures
        i <= and_or_rest(tokens, i, acc)->Ok_0.1 <= tokens.len(),
        ends_and_or(tokens, and_or_rest(tokens, i, acc)->Ok_0.1),
    decreases tokens.len() - i,
{
    if i < tokens.len() && and_or_op(tokens[i]) is Some {
        lemma_pipeline(tokens, i + 1);
        let (p, k) = pipeline(tokens, i + 1)->Ok_0;
        lemma_pipeline_stop(tokens, i + 1);
        lemma_and_or_rest_stop(
            tokens,
            k,
            AndOrView {
                pipelines: with_last(acc.pipelines, and_or_op(tokens[i]).unwrap()).push(
                    (AndOrOp::And, p),
                ),
            },
        );
    }
}

/// An and-or list starts with a word, and nothing follows it with which it could go on.
pub proof fn lemma_and_or_stop(tokens: Seq<TokenView>, i: int)
    requires
        0 <= i <= tokens.len(),
        and_or(tokens, i) is Ok,
    ensures
        i < and_or(tokens, i)->Ok_0.1 <= tokens.len(),
        is_word(tokens[i]),
        ends_and_or(tokens, and_or(tokens, i)->Ok_0.1),
{
    lemma_and_or(tokens, i);
    let (p, k) = pipeline(tokens, i)->Ok_0;
    lemma_pipeline_stop(tokens, i);
    lemma_and_or_rest_stop(tokens, k, AndOrView { pipelines: seq![(AndOrOp::And, p)] });
}

/// The commands that a pipeline takes up behind those that it has are spelt
/// by the very tokens that they were read from.
#[verifier::spinoff_prover]
proof fn lemma_pipeline_rest_exact(tokens: Seq<TokenView>, flag: bool, i: int, acc: PipelineView)
    requires
        lexable_with(tokens, flag),
        0 <= i <= tokens.len(),
        acc.commands.len() >= 1,
        pipeline_rest(tokens, i, acc) is Ok,
    ensures
        ({
            let (p, j) = pipeline_rest(tokens, i, acc)->Ok_0;
            &&& i <= j <= tokens.len()
            &&& p.negated == acc.negated
            &&& p.commands.len() >= acc.commands.len()
            &&& p.commands.take(acc.commands.len() as int) == acc.commands
            &&& commands_tokens(p.commands, acc.commands.len() as int) == tokens.subrange(i, j)
        }),
    decreases tokens.len() - i,
{
    let n = acc.commands.len() as int;
    let (p, j) = pipeline_rest(tokens, i, acc)->Ok_0;
    lemma_pipeline_rest(tokens, i, acc);
    if i < tokens.len() && is_op(tokens[i], seq![PIPE]) {
        lemma_simple_command(tokens, i + 1);
        let (cmd, k) = simple_command(tokens, i + 1)->Ok_0;
        lemma_simple_exact(tokens, flag, i + 1);
        let next = PipelineView { commands: acc.commands.push(CommandView::Simple(cmd)), ..acc };
        lemma_pipeline_rest_exact(tokens, flag, k, next);
        assert(p.commands.take(n + 1) == next.commands);
        assert(p.commands.take(n) =~= p.commands.take(n + 1).take(n));
        assert(next.commands.take(n) =~= acc.commands);
        assert(p.commands[n] == next.commands[n]);
        assert(seq![op_token(seq![PIPE])] =~= tokens.subrange(i, i + 1));
        assert(tokens.subrange(i, i + 1) + tokens.subrange(i + 1, k) + tokens.subrange(k, j)
            =~= tokens.subrange(i, j));
    } else {
        assert(p.commands.take(n) =~= acc.commands);
        assert(tokens.subrange(i, j) =~= Seq::<TokenView>::empty());
    }
}

/// A pipeline is spelt by the very tokens that it was read from.
#[verifier::spinoff_prover]
pub proof fn lemma_pipeline_exact(tokens: Seq<TokenView>, flag: bool, i: int)
    requires
        lexable_with(tokens, flag),
        0 <= i <= tokens.len(),
        pipeline(tokens, i) is Ok,
    ensures
        pipeline_tokens(pipeline(tokens, i)->Ok_0.0) == tokens.subrange(
            i,
            pipeline(tokens, i)->Ok_0.1,
        ),
{
    lemma_pipeline(tokens, i);
    let negated = i < tokens.len() && is_bang(tokens[i]);
    let start = if negated {
        i + 1
    } else {
        i
    };
    let (cmd, k) = simple_command(tokens, start)->Ok_0;
    lemma_simple_command(tokens, start);
    lemma_simple_exact(tokens, flag, start);
    let first = PipelineView { commands: seq![CommandView::Simple(cmd)], negated };
    lemma_pipeline_rest_exact(tokens, flag, k, first);
    let (p, j) = pipeline(tokens, i)->Ok_0;
    assert(p.commands[0] == p.commands.take(1)[0]);
    assert(p.commands[0] == CommandView::Simple(cmd));
    let bang = if negated {
        seq![TokenView { kind: TokType::Word, text: seq![BANG] }]
    } else {
        seq![]
    };
    assert(bang =~= tokens.subrange(i, start));
    assert(Seq::<TokenView>::empty() + simple_tokens(cmd) =~= simple_tokens(cmd));
    assert(tokens.subrange(i, start) + (tokens.subrange(start, k) + tokens.subrange(k, j))
        =~= tokens.subrange(i, j));
}

/// The commands that a pipeline takes up are read from the same tokens in
/// the same way wherever they stand, as long as nothing follows them with
/// which the pipeline could go on.
#[verifier::spinoff_prover]
proof fn lemma_pipeline_rest_local(
    a: Seq<TokenView>,
    i: int,
    acc: PipelineView,
    b: Seq<TokenView>,
    j: int,
)
    requires
        0 <= i <= a.len(),
        pipeline_rest(a, i, acc) is Ok,
        same(a, i, b, j, pipeline_rest(a, i, acc)->Ok_0.1 - i),
        ends_pipeline(b, j + (pipeline_rest(a, i, acc)->Ok_0.1 - i)),
    ensures
        pipeline_rest(b, j, acc) == Ok::<(PipelineView, int), int>(
            (pipeline_rest(a, i, acc)->Ok_0.0, j + (pipeline_rest(a, i, acc)->Ok_0.1 - i)),
        ),
    decreases a.len() - i,
{
    lemma_pipeline_rest(a, i, acc);
    let (p, e) = pipeline_rest(a, i, acc)->Ok_0;
    let n = e - i;
    if i < a.len() && is_op(a[i], seq![PIPE]) {
        lemma_simple_command(a, i + 1);
        let (cmd, k) = simple_command(a, i + 1)->Ok_0;
        lemma_simple_stop(a, i + 1);
        let next = PipelineView { commands: acc.commands.push(CommandView::Simple(cmd)), ..acc };
        lemma_pipeline_rest(a, k, next);
        lemma_same_at(a, i, b, j, n, 0);
        lemma_same_part(a, i, b, j, n, 1, k - i);
        if k < e {
            lemma_same_at(a, i, b, j, n, k - i);
        }
        lemma_simple_local(a, i + 1, b, j + 1);
        lemma_same_part(a, i, b, j, n, k - i, n);
        lemma_pipeline_rest_local(a, k, next, b, j + (k - i));
    } else {
    }
}

/// A pipeline is read from the same tokens in the same way wherever they
/// stand, as long as nothing follows them with which it could go on.
#[verifier::spinoff_prover]
pub proof fn lemma_pipeline_local(a: Seq<TokenView>, i: int, b: Seq<TokenView>, j: int)
    requires
        0 <= i <= a.len(),
        pipeline(a, i) is Ok,
        same(a, i, b, j, pipeline(a, i)->Ok_0.1 - i),
        ends_pipeline(b, j + (pipeline(a, i)->Ok_0.1 - i)),
    ensures
        pipeline(b, j) == Ok::<(PipelineView, int), int>(
            (pipeline(a, i)->Ok_0.0, j + (pipeline(a, i)->Ok_0.1 - i)),
        ),
{
    lemma_pipeline(a, i);
    let (p, e) = pipeline(a, i)->Ok_0;
    let n = e - i;
    let negated = i < a.len() && is_bang(a[i]);
    let start = if negated {
        i + 1
    } else {
        i
    };
    lemma_same_at(a, i, b, j, n, 0);
    let (cmd, k) = simple_command(a, start)->Ok_0;
    lemma_simple_command(a, start);
    lemma_simple_stop(a, start);
    let first = PipelineView { commands: seq![CommandView::Simple(cmd)], negated };
    lemma_pipeline_rest(a, k, first);
    lemma_same_part(a, i, b, j, n, start - i, k - i);
    if k < e {
        lemma_same_at(a, i, b, j, n, k - i);
    }
    lemma_simple_local(a, start, b, j + (start - i));
    lemma_same_part(a, i, b, j, n, k - i, n);
    lemma_pipeline_rest_local(a, k, first, b, j + (k - i));
}

/// What spells an and-or list from behind its pipeline before the one at
/// `n` on: the operator behind that pipeline, if any pipeline follows it,
/// and the pipelines from the one at `n` on.
pub open spec fn pipelines_tail(pipelines: Seq<(AndOrOp, PipelineView)>, n: int) -> Seq<
    TokenView,
> {
    (if 0 < n < pipelines.len() {
        seq![op_token(and_or_text(pipelines[n - 1].0))]
    } else {
        seq![]
    }) + pipelines_tokens(pipelines, n)
}

/// The pipelines that an and-or list takes up behind those that it has are
/// spelt by the very tokens that they were read from.
#[verifier::spinoff_prover]
proof fn lemma_and_or_rest_exact(tokens: Seq<TokenView>, flag: bool, i: int, acc: AndOrView)
    requires
        lexable_with(tokens, flag),
        0 <= i <= tokens.len(),
        acc.pipelines.len() >= 1,
        acc.pipelines.last().0 == AndOrOp::And,
        and_or_rest(tokens, i, acc) is Ok,
    ensures
        ({
            let (list, j) = and_or_rest(tokens, i, acc)->Ok_0;
            let n = acc.pipelines.len() as int;
            &&& i <= j <= tokens.len()
            &&& list.pipelines.len() >= n
            &&& list.pipelines.take(n - 1) == acc.pipelines.take(n - 1)
            &&& list.pipelines[n - 1].1 == acc.pipelines[n - 1].1
            &&& list.pipelines.last().0 == AndOrOp::And
            &&& pipelines_tail(list.pipelines, n) == tokens.subrange(i, j)
        }),
    decreases tokens.len() - i,
{
    let n = acc.pipelines.len() as int;
    let (list, j) = and_or_rest(tokens, i, acc)->Ok_0;
    lemma_and_or_rest(tokens, i, acc);
    if i < tokens.len() && and_or_op(tokens[i]) is Some {
        let op = and_or_op(tokens[i]).unwrap();
        lemma_pipeline(tokens, i + 1);
        let (p, k) = pipeline(tokens, i + 1)->Ok_0;
        lemma_pipeline_exact(tokens, flag, i + 1);
        let next = AndOrView { pipelines: with_last(acc.pipelines, op).push((AndOrOp::And, p)) };
        lemma_and_or_rest_exact(tokens, flag, k, next);
        lemma_and_or_rest_join(tokens, i, k, j, acc, op, p, list);
    } else {
        assert(list == acc);
        assert(pipelines_tokens(list.pipelines, n) =~= Seq::<TokenView>::empty());
        assert(pipelines_tail(list.pipelines, n) =~= Seq::<TokenView>::empty());
        assert(tokens.subrange(i, j) =~= Seq::<TokenView>::empty());
        assert(list.pipelines.take(n - 1) =~= acc.pipelines.take(n - 1));
    }
}

/// The step of `lemma_and_or_rest_exact`: what is known of the list behind
/// one more pipeline gives what is to be known of it before that pipeline.
#[verifier::spinoff_prover]
proof fn lemma_and_or_rest_join(
    tokens: Seq<TokenView>,
    i: int,
    k: int,
    j: int,
    acc: AndOrView,
    op: AndOrOp,
    p: PipelineView,
    list: AndOrView,
)
    requires
        0 <= i < k <= j <= tokens.len(),
        acc.pipelines.len() >= 1,
        and_or_op(tokens[i]) == Some(op),
        pipeline_tokens(p) == tokens.subrange(i + 1, k),
        ({
            let n = acc.pipelines.len() as int;
            let next = with_last(acc.pipelines, op).push((AndOrOp::And, p));
            &&& list.pipelines.len() >= n + 1
            &&& list.pipelines.take(n) == next.take(n)
            &&& list.pipelines[n].1 == p
            &&& pipelines_tail(list.pipelines, n + 1) == tokens.subrange(k, j)
        }),
    ensures
        ({
            let n = acc.pipelines.len() as int;
            &&& list.pipelines.take(n - 1) == acc.pipelines.take(n - 1)
            &&& list.pipelines[n - 1].1 == acc.pipelines[n - 1].1
            &&& pipelines_tail(list.pipelines, n) == tokens.subrange(i, j)
        }),
{
    let n = acc.pipelines.len() as int;
    let next = with_last(acc.pipelines, op).push((AndOrOp::And, p));
    assert(list.pipelines.take(n - 1) =~= list.pipelines.take(n).take(n - 1));
    assert(next.take(n).take(n - 1) =~= acc.pipelines.take(n - 1));
    assert(list.pipelines[n - 1] == list.pipelines.take(n)[n - 1]);
    assert(next.take(n)[n - 1] == (op, acc.pipelines[n - 1].1));
    assert(seq![op_token(and_or_text(op))] =~= tokens.subrange(i, i + 1));
    let follows = if n + 1 < list.pipelines.len() {
        seq![op_token(and_or_text(list.pipelines[n].0))]
    } else {
        seq![]
    };
    assert(pipelines_tokens(list.pipelines, n) == pipeline_tokens(p) + follows + pipelines_tokens(
        list.pipelines,
        n + 1,
    ));
    assert(pipelines_tail(list.pipelines, n + 1) == follows + pipelines_tokens(
        list.pipelines,
        n + 1,
    ));
    assert(tokens.subrange(i + 1, k) + follows + pipelines_tokens(list.pipelines, n + 1)
        =~= tokens.subrange(i + 1, k) + tokens.subrange(k, j));
    assert(tokens.subrange(i, i + 1) + (tokens.subrange(i + 1, k) + tokens.subrange(k, j))
        =~= tokens.subrange(i, j));
}

/// An and-or list is spelt by the very tokens that it was read from.
#[verifier::spinoff_prover]
pub proof fn lemma_and_or_exact(tokens: Seq<TokenView>, flag: bool, i: int)
    requires
        lexable_with(tokens, flag),
        0 <= i <= tokens.len(),
        and_or(tokens, i) is Ok,
    ensures
        ({
            let (list, j) = and_or(tokens, i)->Ok_0;
            &&& list.pipelines.len() >= 1
            &&& list.pipelines.last().0 == AndOrOp::And
            &&& pipelines_tokens(list.pipelines, 0) == tokens.subrange(i, j)
        }),
{
    lemma_and_or(tokens, i);
    let (p, k) = pipeline(tokens, i)->Ok_0;
    lemma_pipeline(tokens, i);
    lemma_pipeline_exact(tokens, flag, i);
    let first = AndOrView { pipelines: seq![(AndOrOp::And, p)] };
    lemma_and_or_rest_exact(tokens, flag, k, first);
    let (list, j) = and_or(tokens, i)->Ok_0;
    assert(list.pipelines[0].1 == p);
    let follows = if 1 < list.pipelines.len() {
        seq![op_token(and_or_text(list.pipelines[0].0))]
    } else {
        seq![]
    };
    assert(pipelines_tokens(list.pipelines, 0) == pipeline_tokens(p) + follows
        + pipelines_tokens(list.pipelines, 1));
    assert(pipelines_tail(list.pipelines, 1) == follows + pipelines_tokens(list.pipelines, 1));
    assert(tokens.subrange(i, k) + follows + pipelines_tokens(list.pipelines, 1)
        =~= tokens.subrange(i, k) + tokens.subrange(k, j));
    assert(tokens.subrange(i, k) + tokens.subrange(k, j) =~= tokens.subrange(i, j));
}

/// The pipelines that an and-or list takes up are read from the same tokens
/// in the same way wherever they stand, as long as nothing follows them with
/// which the list could go on.
#[verifier::spinoff_prover]
proof fn lemma_and_or_rest_local(
    a: Seq<TokenView>,
    i: int,
    acc: AndOrView,
    b: Seq<TokenView>,
    j: int,
)
    requires
        0 <= i <= a.len(),
        and_or_rest(a, i, acc) is Ok,
        same(a, i, b, j, and_or_rest(a, i, acc)->Ok_0.1 - i),
        ends_and_or(b, j + (and_or_rest(a, i, acc)->Ok_0.1 - i)),
    ensures
        and_or_rest(b, j, acc) == Ok::<(AndOrView, int), int>(
            (and_or_rest(a, i, acc)->Ok_0.0, j + (and_or_rest(a, i, acc)->Ok_0.1 - i)),
        ),
    decreases a.len() - i,
{
    lemma_and_or_rest(a, i, acc);
    let (list, e) = and_or_rest(a, i, acc)->Ok_0;
    let n = e - i;
    if i < a.len() && and_or_op(a[i]) is Some {
        let op = and_or_op(a[i]).unwrap();
        lemma_pipeline(a, i + 1);
        let (p, k) = pipeline(a, i + 1)->Ok_0;
        lemma_pipeline_stop(a, i + 1);
        let next = AndOrView { pipelines: with_last(acc.pipelines, op).push((AndOrOp::And, p)) };
        lemma_and_or_rest(a, k, next);
        lemma_same_at(a, i, b, j, n, 0);
        lemma_same_part(a, i, b, j, n, 1, k - i);
        if k < e {
            lemma_same_at(a, i, b, j, n, k - i);
        }
        lemma_pipeline_local(a, i + 1, b, j + 1);
        lemma_same_part(a, i, b, j, n, k - i, n);
        lemma_and_or_rest_local(a, k, next, b, j + (k - i));
    } else {
    }
}

/// An and-or list is read from the same tokens in the same way wherever
/// they stand, as long as nothing follows them with which it could go on.
#[verifier::spinoff_prover]
pub proof fn lemma_and_or_local(a: Seq<TokenView>, i: int, b: Seq<TokenView>, j: int)
    requires
        0 <= i <= a.len(),
        and_or(a, i) is Ok,
        same(a, i, b, j, and_or(a, i)->Ok_0.1 - i),
        ends_and_or(b, j + (and_or(a, i)->Ok_0.1 - i)),
    ensures
        and_or(b, j) == Ok::<(AndOrView, int), int>(
            (and_or(a, i)->Ok_0.0, j + (and_or(a, i)->Ok_0.1 - i)),
        ),
{
    lemma_and_or(a, i);
    let (list, e) = and_or(a, i)->Ok_0;
    let n = e - i;
    let (p, k) = pipeline(a, i)->Ok_0;
    lemma_pipeline(a, i);
    lemma_pipeline_stop(a, i);
    let first = AndOrView { pipelines: seq![(AndOrOp::And, p)] };
    lemma_and_or_rest(a, k, first);
    lemma_same_part(a, i, b, j, n, 0, k - i);
    if k < e {
        lemma_same_at(a, i, b, j, n, k - i);
    }
    lemma_pipeline_local(a, i, b, j);
    lemma_same_part(a, i, b, j, n, k - i, n);
    lemma_and_or_rest_local(a, k, first, b, j + (k - i));
}

/// Whether `b` holds the tokens `r` from `pos` on.
pub open spec fn holds(b: Seq<TokenView>, pos: int, r: Seq<TokenView>) -> bool {
    0 <= pos && pos + r.len() <= b.len() && b.subrange(pos, pos + r.len()) == r
}

/// What is held is held in every part.
proof fn lemma_holds_parts(b: Seq<TokenView>, pos: int, x: Seq<TokenView>, y: Seq<TokenView>)
    requires
        holds(b, pos, x + y),
    ensures
        holds(b, pos, x),
        holds(b, pos + x.len(), y),
{
    let r = x + y;
    assert(b.subrange(pos, pos + x.len()) =~= b.subrange(pos, pos + r.len()).subrange(
        0,
        x.len() as int,
    ));
    assert(r.subrange(0, x.len() as int) =~= x);
    assert(b.subrange(pos + x.len(), pos + x.len() + y.len()) =~= b.subrange(
        pos,
        pos + r.len(),
    ).subrange(x.len() as int, r.len() as int));
    assert(r.subrange(x.len() as int, r.len() as int) =~= y);
}

/// What holds tokens holds the same tokens as that from which they are a part.
proof fn lemma_holds_same(a: Seq<TokenView>, i: int, e: int, b: Seq<TokenView>, pos: int)
    requires
        0 <= i <= e <= a.len(),
        holds(b, pos, a.subrange(i, e)),
    ensures
        same(a, i, b, pos, e - i),
{
}

/// What spells a complete command from behind its list before the one at
/// `n` on: the operator that ends that list, and the lists from the one at
/// `n` on.
pub open spec fn lists_tail(lists: Seq<(TermOp, AndOrView)>, n: int) -> Seq<TokenView> {
    seq![op_token(term_text(lists[n - 1].0))] + lists_tokens(lists, n)
}

/// The token of the operator that ends a list is that operator to the grammar.
proof fn lemma_term_token(op: TermOp)
    ensures
        term_op(op_token(term_text(op))) == Some(op),
        token_ok(op_token(term_text(op))),
        !is_word(op_token(term_text(op))),
        !is_op(op_token(term_text(op)), seq![PIPE]),
        and_or_op(op_token(term_text(op))) is None,
        op_token(term_text(op)).kind == TokType::Operator,
{
    let semi = seq![SEMI];
    let amp = seq![AMP];
    assert(semi.len() == 1 && semi[0] == SEMI);
    assert(amp.len() == 1 && amp[0] == AMP);
    assert(seq![PIPE].len() == 1 && seq![PIPE][0] == PIPE);
    assert(seq![AMP, AMP].len() == 2);
    assert(seq![PIPE, PIPE].len() == 2);
}

/// The lists that a complete command takes up behind those that it has:
/// what they are, and that the tokens that spell them are such as the lexer
/// hands out.
#[verifier::spinoff_prover]
proof fn lemma_complete_rest_shape(tokens: Seq<TokenView>, flag: bool, j: int, acc: CompleteView)
    requires
        lexable_with(tokens, flag),
        0 <= j <= tokens.len(),
        acc.and_ors.len() >= 1,
        acc.and_ors.last().0 == TermOp::Semi,
        complete_rest(tokens, j, acc) is Ok,
    ensures
        ({
            let (c, e) = complete_rest(tokens, j, acc)->Ok_0;
            let n = acc.and_ors.len() as int;
            &&& j <= e <= tokens.len()
            &&& c.and_ors.len() >= n
            &&& c.and_ors.take(n - 1) == acc.and_ors.take(n - 1)
            &&& c.and_ors[n - 1].1 == acc.and_ors[n - 1].1
            &&& lexable_with(lists_tokens(c.and_ors, n), false)
        }),
    decreases tokens.len() - j,
{
    let n = acc.and_ors.len() as int;
    let (c, e) = complete_rest(tokens, j, acc)->Ok_0;
    lemma_complete_rest(tokens, j, acc);
    lemma_lexable_one(op_token(term_text(TermOp::Semi)), false);
    lemma_term_token(TermOp::Semi);
    if j < tokens.len() && term_op(tokens[j]) is Some {
        let op = term_op(tokens[j]).unwrap();
        let ended = with_last(acc.and_ors, op);
        if j + 1 < tokens.len() && is_word(tokens[j + 1]) {
            lemma_and_or(tokens, j + 1);
            let (list, k) = and_or(tokens, j + 1)->Ok_0;
            lemma_and_or_exact(tokens, flag, j + 1);
            let next = CompleteView { and_ors: ended.push((TermOp::Semi, list)) };
            lemma_complete_rest_shape(tokens, flag, k, next);
            assert(c.and_ors.take(n - 1) =~= c.and_ors.take(n).take(n - 1));
            assert(next.and_ors.take(n).take(n - 1) =~= acc.and_ors.take(n - 1));
            assert(c.and_ors[n - 1] == c.and_ors.take(n)[n - 1]);
            assert(next.and_ors.take(n)[n - 1] == (op, acc.and_ors[n - 1].1));
            assert(c.and_ors[n].1 == list);
            let block = tokens.subrange(j + 1, k);
            let t = op_token(term_text(c.and_ors[n].0));
            let rest = lists_tokens(c.and_ors, n + 1);
            assert(lists_tokens(c.and_ors, n) == block + seq![t] + rest);
            lemma_lexable_part(tokens, flag, j + 1, k);
            assert(flag_at(tokens, flag, j + 1) == false);
            lemma_term_token(c.and_ors[n].0);
            lemma_lexable_one(t, flag_at(block, false, block.len() as int));
            lemma_lexable_concat(block, seq![t], false);
            assert((block + seq![t]).last() == t);
            lemma_lexable_concat(block + seq![t], rest, false);
        } else {
            assert(c.and_ors =~= ended);
            assert(c.and_ors.take(n - 1) =~= acc.and_ors.take(n - 1));
            assert(lists_tokens(c.and_ors, n) =~= Seq::<TokenView>::empty());
        }
    } else {
        assert(c == acc);
        assert(lists_tokens(c.and_ors, n) =~= Seq::<TokenView>::empty());
    }
}

/// The lists that a complete command takes up are read in the same way
/// from the tokens that spell the command as it was read.
#[verifier::spinoff_prover]
proof fn lemma_complete_rest_again(
    tokens: Seq<TokenView>,
    flag: bool,
    j: int,
    acc: CompleteView,
    b: Seq<TokenView>,
    pos: int,
)
    requires
        lexable_with(tokens, flag),
        0 <= j <= tokens.len(),
        acc.and_ors.len() >= 1,
        acc.and_ors.last().0 == TermOp::Semi,
        complete_rest(tokens, j, acc) is Ok,
        holds(
            b,
            pos,
            lists_tail(complete_rest(tokens, j, acc)->Ok_0.0.and_ors, acc.and_ors.len() as int),
        ),
        ({
            let end = pos + lists_tail(
                complete_rest(tokens, j, acc)->Ok_0.0.and_ors,
                acc.and_ors.len() as int,
            ).len();
            end < b.len() ==> !is_word(b[end])
        }),
    ensures
        complete_rest(b, pos, acc) == Ok::<(CompleteView, int), int>(
            (
                complete_rest(tokens, j, acc)->Ok_0.0,
                pos + lists_tail(
                    complete_rest(tokens, j, acc)->Ok_0.0.and_ors,
                    acc.and_ors.len() as int,
                ).len(),
            ),
        ),
    decreases tokens.len() - j,
{
    let n = acc.and_ors.len() as int;
    let (c, e) = complete_rest(tokens, j, acc)->Ok_0;
    lemma_complete_rest(tokens, j, acc);
    lemma_complete_rest_shape(tokens, flag, j, acc);
    let tail = lists_tail(c.and_ors, n);
    let mark = op_token(term_text(c.and_ors[n - 1].0));
    let after = lists_tokens(c.and_ors, n);
    lemma_term_token(c.and_ors[n - 1].0);
    lemma_holds_parts(b, pos, seq![mark], after);
    assert(b[pos] == b.subrange(pos, pos + 1)[0]);
    assert(b[pos] == mark);
    if j < tokens.len() && term_op(tokens[j]) is Some {
        let op = term_op(tokens[j]).unwrap();
        let ended = with_last(acc.and_ors, op);
        if j + 1 < tokens.len() && is_word(tokens[j + 1]) {
            lemma_and_or(tokens, j + 1);
            let (list, k) = and_or(tokens, j + 1)->Ok_0;
            lemma_and_or_exact(tokens, flag, j + 1);
            lemma_and_or_stop(tokens, j + 1);
            let next = CompleteView { and_ors: ended.push((TermOp::Semi, list)) };
            lemma_complete_rest_shape(tokens, flag, k, next);
            assert(c.and_ors[n - 1] == c.and_ors.take(n)[n - 1]);
            assert(next.and_ors.take(n)[n - 1] == (op, acc.and_ors[n - 1].1));
            assert(c.and_ors[n].1 == list);
            let block = tokens.subrange(j + 1, k);
            let t = op_token(term_text(c.and_ors[n].0));
            let rest = lists_tokens(c.and_ors, n + 1);
            assert(after == block + seq![t] + rest);
            assert(after =~= block + (seq![t] + rest));
            lemma_holds_parts(b, pos + 1, block, seq![t] + rest);
            lemma_holds_same(tokens, j + 1, k, b, pos + 1);
            let q = pos + 1 + block.len();
            assert(seq![t] + rest == lists_tail(c.and_ors, n + 1));
            lemma_holds_parts(b, q, seq![t], rest);
            assert(b[q] == b.subrange(q, q + 1)[0]);
            assert(b[q] == t);
            lemma_term_token(c.and_ors[n].0);
            assert(b[pos + 1] == b.subrange(pos + 1, pos + 1 + block.len())[0]);
            assert(block[0] == tokens[j + 1]);
            lemma_and_or_local(tokens, j + 1, b, pos + 1);
            lemma_complete_rest_again(tokens, flag, k, next, b, q);
        } else {
            assert(c.and_ors =~= ended);
            assert(after =~= Seq::<TokenView>::empty());
        }
    } else {
        assert(c == acc);
        assert(after =~= Seq::<TokenView>::empty());
        assert(with_last(acc.and_ors, TermOp::Semi) =~= acc.and_ors);
    }
}

/// A complete command: that the tokens that spell it are such as the lexer
/// hands out, and that it is read from them as it was read, where no word
/// stands before the tokens from which it was read.
#[verifier::spinoff_prover]
pub proof fn lemma_complete_again(
    tokens: Seq<TokenView>,
    flag: bool,
    i: int,
    b: Seq<TokenView>,
    pos: int,
)
    requires
        lexable_with(tokens, flag),
        0 <= i <= tokens.len(),
        !flag_at(tokens, flag, i),
        complete_command(tokens, i) is Ok,
        holds(b, pos, lists_tokens(complete_command(tokens, i)->Ok_0.0.and_ors, 0)),
        ({
            let end = pos + lists_tokens(complete_command(tokens, i)->Ok_0.0.and_ors, 0).len();
            end < b.len() ==> !is_word(b[end])
        }),
    ensures
        complete_command(tokens, i)->Ok_0.0.and_ors.len() >= 1,
        lists_tokens(complete_command(tokens, i)->Ok_0.0.and_ors, 0).len() >= 1,
        is_word(lists_tokens(complete_command(tokens, i)->Ok_0.0.and_ors, 0)[0]),
        lexable_with(lists_tokens(complete_command(tokens, i)->Ok_0.0.and_ors, 0), false),
        complete_command(b, pos) == Ok::<(CompleteView, int), int>(
            (
                complete_command(tokens, i)->Ok_0.0,
                pos + lists_tokens(complete_command(tokens, i)->Ok_0.0.and_ors, 0).len(),
            ),
        ),
{
    let (c, e) = complete_command(tokens, i)->Ok_0;
    lemma_complete_command(tokens, i);
    lemma_and_or(tokens, i);
    let (list, k) = and_or(tokens, i)->Ok_0;
    lemma_and_or_exact(tokens, flag, i);
    lemma_and_or_stop(tokens, i);
    let first = CompleteView { and_ors: seq![(TermOp::Semi, list)] };
    lemma_complete_rest_shape(tokens, flag, k, first);
    assert(c.and_ors[0].1 == list);
    let block = tokens.subrange(i, k);
    let t = op_token(term_text(c.and_ors[0].0));
    let rest = lists_tokens(c.and_ors, 1);
    let all = lists_tokens(c.and_ors, 0);
    assert(all == block + seq![t] + rest);
    assert(all =~= block + (seq![t] + rest));
    assert(all[0] == block[0]);
    assert(block[0] == tokens[i]);
    lemma_lexable_part(tokens, flag, i, k);
    lemma_term_token(c.and_ors[0].0);
    lemma_lexable_one(t, flag_at(block, false, block.len() as int));
    lemma_lexable_concat(block, seq![t], false);
    assert((block + seq![t]).last() == t);
    lemma_lexable_concat(block + seq![t], rest, false);
    lemma_holds_parts(b, pos, block, seq![t] + rest);
    lemma_holds_same(tokens, i, k, b, pos);
    let q = pos + block.len();
    assert(seq![t] + rest == lists_tail(c.and_ors, 1));
    lemma_holds_parts(b, q, seq![t], rest);
    assert(b[q] == b.subrange(q, q + 1)[0]);
    assert(b[q] == t);
    lemma_and_or_local(tokens, i, b, pos);
    lemma_complete_rest_again(tokens, flag, k, first, b, q);
}

/// The newline as a token.
pub open spec fn newline_token() -> TokenView {
    TokenView { kind: TokType::Newline, text: seq![NEWLINE] }
}

/// Tokens such as the lexer hands out with an operator or a newline behind
/// them, and more such tokens behind that, are such as the lexer hands out.
proof fn lemma_lexable_blocks(block: Seq<TokenView>, mark: TokenView, rest: Seq<TokenView>)
    requires
        lexable_with(block, false),
        lexable_with(rest, false),
        token_ok(mark),
        mark.kind == TokType::Operator || mark.kind == TokType::Newline,
    ensures
        lexable_with(block + seq![mark] + rest, false),
{
    lemma_lexable_one(mark, flag_at(block, false, block.len() as int));
    lemma_lexable_concat(block, seq![mark], false);
    assert((block + seq![mark]).last() == mark);
    lemma_lexable_concat(block + seq![mark], rest, false);
}

/// What is known of a list behind one more entry gives what is to be known
/// of it before that entry.
proof fn lemma_take_less<T>(all: Seq<T>, acc: Seq<T>, x: T)
    requires
        all.len() > acc.len(),
        all.take(acc.len() as int + 1) == acc.push(x),
    ensures
        all.take(acc.len() as int) == acc,
        all[acc.len() as int] == x,
{
    let n = acc.len() as int;
    assert(all.take(n) =~= all.take(n + 1).take(n));
    assert(acc.push(x).take(n) =~= acc);
    assert(all[n] == all.take(n + 1)[n]);
}

/// The complete commands that a program takes up behind those that it has:
/// what they are, and that the tokens that spell them are such as the lexer
/// hands out.
#[verifier::spinoff_prover]
proof fn lemma_program_rest_shape(tokens: Seq<TokenView>, i: int, acc: Seq<CompleteView>)
    requires
        lexable(tokens),
        0 <= i <= tokens.len(),
        i == 0 || (i < tokens.len() && tokens[i].kind == TokType::Newline),
        program_rest(tokens, i, acc) is Ok,
    ensures
        ({
            let commands = program_rest(tokens, i, acc)->Ok_0;
            let n = acc.len() as int;
            &&& commands.len() >= n
            &&& commands.take(n) == acc
            &&& lexable_with(program_tokens(commands, n), false)
        }),
    decreases tokens.len() - i,
{
    let n = acc.len() as int;
    let commands = program_rest(tokens, i, acc)->Ok_0;
    lemma_runs(tokens, i);
    lemma_run_ends(tokens, i);
    lemma_lexable_one(newline_token(), false);
    let start = newlines_end(tokens, i);
    if start >= tokens.len() {
        assert(commands.take(n) =~= acc);
        assert(program_tokens(commands, n) =~= Seq::<TokenView>::empty());
    } else {
        lemma_complete_command(tokens, start);
        let (command, j) = complete_command(tokens, start)->Ok_0;
        assert(!flag_at(tokens, false, start)) by {
            if start > 0 {
                assert(tokens[start - 1].kind == TokType::Newline);
            }
        }
        let block = lists_tokens(command.and_ors, 0);
        assert(block.subrange(0, block.len() as int) =~= block);
        lemma_complete_again(tokens, false, start, block, 0);
        let next = acc.push(command);
        if j < tokens.len() {
            lemma_program_rest_shape(tokens, j, next);
        } else {
            assert(commands == next);
            assert(commands.take(n + 1) =~= next);
            assert(program_tokens(commands, n + 1) =~= Seq::<TokenView>::empty());
        }
        lemma_take_less(commands, acc, command);
        lemma_program_tail(commands, n);
        lemma_lexable_blocks(block, newline_token(), program_tokens(commands, n + 1));
        assert(block + seq![newline_token()] + program_tokens(commands, n + 1) =~= block + (seq![
            newline_token(),
        ] + program_tokens(commands, n + 1)));
    }
}

/// Where nothing but a newline is left, a program takes up no more commands.
proof fn lemma_program_rest_end(b: Seq<TokenView>, pos: int, acc: Seq<CompleteView>)
    requires
        pos == b.len() || (pos == b.len() - 1 && 0 <= pos && b[pos].kind == TokType::Newline),
    ensures
        program_rest(b, pos, acc) == Ok::<Seq<CompleteView>, int>(acc),
{
    lemma_run_is(b, pos, b.len() as int);
}

/// Where a complete command stands with a newline behind it, a program
/// takes it up and goes on from the newline.
proof fn lemma_program_rest_step(
    b: Seq<TokenView>,
    pos: int,
    at: int,
    acc: Seq<CompleteView>,
    command: CompleteView,
    q: int,
)
    requires
        0 <= pos,
        pos == at || (pos == at - 1 && b[pos].kind == TokType::Newline),
        at < q < b.len(),
        is_word(b[at]),
        complete_command(b, at) == Ok::<(CompleteView, int), int>((command, q)),
        b[q].kind == TokType::Newline,
    ensures
        program_rest(b, pos, acc) == program_rest(b, q, acc.push(command)),
{
    lemma_run_is(b, pos, at);
}

/// The complete commands that a program takes up are read in the same way
/// from the tokens that spell the program as it was read.
#[verifier::spinoff_prover]
proof fn lemma_program_rest_again(
    tokens: Seq<TokenView>,
    i: int,
    acc: Seq<CompleteView>,
    b: Seq<TokenView>,
    pos: int,
)
    requires
        lexable(tokens),
        0 <= i <= tokens.len(),
        i == 0 || (i < tokens.len() && tokens[i].kind == TokType::Newline),
        program_rest(tokens, i, acc) is Ok,
        ({
            let tail = program_tokens(program_rest(tokens, i, acc)->Ok_0, acc.len() as int);
            let start = b.len() - tail.len();
            &&& holds(b, start, tail)
            &&& pos == start || (pos == start - 1 && 0 <= pos && b[pos].kind == TokType::Newline)
        }),
    ensures
        program_rest(b, pos, acc) == program_rest(tokens, i, acc),
    decreases tokens.len() - i,
{
    let n = acc.len() as int;
    let commands = program_rest(tokens, i, acc)->Ok_0;
    let tail = program_tokens(commands, n);
    let at = b.len() - tail.len();
    lemma_program_rest_shape(tokens, i, acc);
    lemma_runs(tokens, i);
    lemma_run_ends(tokens, i);
    let start = newlines_end(tokens, i);
    if start >= tokens.len() {
        assert(commands =~= acc);
        assert(tail =~= Seq::<TokenView>::empty());
        lemma_program_rest_end(b, pos, acc);
    } else {
        lemma_complete_command(tokens, start);
        let (command, j) = complete_command(tokens, start)->Ok_0;
        assert(!flag_at(tokens, false, start)) by {
            if start > 0 {
                assert(tokens[start - 1].kind == TokType::Newline);
            }
        }
        let next = acc.push(command);
        if j < tokens.len() {
            lemma_program_rest_shape(tokens, j, next);
        }
        assert(commands.take(n + 1) =~= next);
        assert(commands[n] == next[n]);
        let block = lists_tokens(command.and_ors, 0);
        let rest = program_tokens(commands, n + 1);
        lemma_program_tail(commands, n);
        lemma_holds_parts(b, at, block, seq![newline_token()] + rest);
        let q = at + block.len();
        lemma_holds_parts(b, q, seq![newline_token()], rest);
        assert(b[q] == b.subrange(q, q + 1)[0]);
        lemma_complete_again(tokens, false, start, b, at);
        assert(b[at] == b.subrange(at, at + block.len())[0]);
        lemma_program_rest_step(b, pos, at, acc, command, q);
        if j < tokens.len() {
            lemma_program_rest_again(tokens, j, next, b, q);
        } else {
            assert(rest =~= Seq::<TokenView>::empty());
            lemma_program_rest_end(b, q, next);
        }
    }
}

/// What spells the complete commands from the one at `n` on: the lists of
/// that one, a newline, and what spells those behind it.
proof fn lemma_program_tail(commands: Seq<CompleteView>, n: int)
    requires
        0 <= n < commands.len(),
    ensures
        program_tokens(commands, n) == lists_tokens(commands[n].and_ors, 0) + (seq![
            newline_token(),
        ] + program_tokens(commands, n + 1)),
{
    let block = lists_tokens(commands[n].and_ors, 0);
    let rest = program_tokens(commands, n + 1);
    assert(block + seq![newline_token()] + rest =~= block + (seq![newline_token()] + rest));
}

/// The tokens that spell a program that was read from tokens such as the
/// lexer hands out are such as the lexer hands out, and spell that program.
pub proof fn lemma_program_again(tokens: Seq<TokenView>)
    requires
        lexable(tokens),
        program(tokens) is Ok,
    ensures
        lexable(program_tokens(program(tokens)->Ok_0.commands, 0)),
        program(program_tokens(program(tokens)->Ok_0.commands, 0)) == program(tokens),
{
    let p = program(tokens)->Ok_0;
    let written = program_tokens(p.commands, 0);
    lemma_program_rest_shape(tokens, 0, seq![]);
    assert(written.subrange(0, written.len() as int) =~= written);
    lemma_program_rest_again(tokens, 0, seq![], written, 0);
}

/// A program that was read from an input is read again from what it is
/// written out as: to lex and to parse the text that `rendered` gives for a
/// program that was parsed yields that program.
pub proof fn lemma_render_parses_back(input: Seq<u8>)
    requires
        parse_spec(input) is Program,
    ensures
        parse_spec(rendered(parse_spec(input)->Program_0)) == parse_spec(input),
{
    let tokens = span_views(input, lex(input).tokens);
    lemma_lex_lexable(input);
    let p = parse_spec(input)->Program_0;
    assert(program(tokens) == Ok::<ProgramView, int>(p));
    lemma_program_again(tokens);
    let written = program_tokens(p.commands, 0);
    lemma_lex_joined(written);
}

} // verus!
