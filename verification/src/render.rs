//! A program written out again as text that spells it.

use vstd::prelude::*;
use crate::ast::AndOr;
use crate::ast::AndOrOp;
use crate::ast::AndOrView;
use crate::ast::Arg;
use crate::ast::Command;
use crate::ast::CommandView;
use crate::ast::CompleteCommand;
use crate::ast::CompleteView;
use crate::ast::Pipeline;
use crate::ast::PipelineView;
use crate::ast::Program;
use crate::ast::ProgramView;
use crate::ast::SimpleCommand;
use crate::ast::SimpleView;
use crate::ast::TermOp;
use crate::bytes::append;
use crate::bytes::AMP;
use crate::bytes::BANG;
use crate::bytes::NEWLINE;
use crate::bytes::PIPE;
use crate::bytes::SEMI;
use crate::bytes::SPACE;
use crate::grammar::TokenView;
use crate::lexer::TokType;

verus! {

/// The token of the kind `kind` for each text of `texts`.
pub open spec fn tokens_of(kind: TokType, texts: Seq<Seq<u8>>) -> Seq<TokenView> {
    Seq::new(texts.len(), |i: int| TokenView { kind, text: texts[i] })
}

/// The operator `text` as a token.
pub open spec fn op_token(text: Seq<u8>) -> TokenView {
    TokenView { kind: TokType::Operator, text }
}

/// The tokens that spell the simple command `s`: its assignments, its name
/// unless that is empty, and its arguments.
pub open spec fn simple_tokens(s: SimpleView) -> Seq<TokenView> {
    tokens_of(TokType::AssignmentWord, s.assign) + (if s.cmd.len() > 0 {
        seq![TokenView { kind: TokType::Word, text: s.cmd }]
    } else {
        seq![]
    }) + tokens_of(TokType::Word, s.args)
}

/// The tokens that spell the command `c`: a compound command is spelt by nothing.
pub open spec fn command_tokens(c: CommandView) -> Seq<TokenView> {
    match c {
        CommandView::Simple(s) => simple_tokens(s),
        CommandView::Compound => seq![],
    }
}

/// The tokens that spell the commands of a pipeline from the one at `k` on,
/// with a `|` before each but the first.
pub open spec fn commands_tokens(commands: Seq<CommandView>, k: int) -> Seq<TokenView>
    decreases commands.len() - k,
{
    if k < 0 || k >= commands.len() {
        seq![]
    } else {
        (if k > 0 {
            seq![op_token(seq![PIPE])]
        } else {
            seq![]
        }) + command_tokens(commands[k]) + commands_tokens(commands, k + 1)
    }
}

/// The tokens that spell the pipeline `p`.
pub open spec fn pipeline_tokens(p: PipelineView) -> Seq<TokenView> {
    (if p.negated {
        seq![TokenView { kind: TokType::Word, text: seq![BANG] }]
    } else {
        seq![]
    }) + commands_tokens(p.commands, 0)
}

/// The text of the operator `op`.
pub open spec fn and_or_text(op: AndOrOp) -> Seq<u8> {
    match op {
        AndOrOp::And => seq![AMP, AMP],
        AndOrOp::Or => seq![PIPE, PIPE],
    }
}

/// The text of the operator `op`.
pub open spec fn term_text(op: TermOp) -> Seq<u8> {
    match op {
        TermOp::Semi => seq![SEMI],
        TermOp::Amp => seq![AMP],
    }
}

/// The tokens that spell the pipelines of an and-or list from the one at `k`
/// on, each but the last with its operator behind it.
pub open spec fn pipelines_tokens(pipelines: Seq<(AndOrOp, PipelineView)>, k: int) -> Seq<
    TokenView,
>
    decreases pipelines.len() - k,
{
    if k < 0 || k >= pipelines.len() {
        seq![]
    } else {
        pipeline_tokens(pipelines[k].1) + (if k + 1 < pipelines.len() {
            seq![op_token(and_or_text(pipelines[k].0))]
        } else {
            seq![]
        }) + pipelines_tokens(pipelines, k + 1)
    }
}

/// The tokens that spell the and-or lists of a complete command from the one
/// at `k` on, each with what ends it.
pub open spec fn lists_tokens(lists: Seq<(TermOp, AndOrView)>, k: int) -> Seq<TokenView>
    decreases lists.len() - k,
{
    if k < 0 || k >= lists.len() {
        seq![]
    } else {
        pipelines_tokens(lists[k].1.pipelines, 0) + seq![op_token(term_text(lists[k].0))]
            + lists_tokens(lists, k + 1)
    }
}

/// The tokens that spell the complete commands from the one at `k` on, each
/// with a newline behind it.
pub open spec fn program_tokens(commands: Seq<CompleteView>, k: int) -> Seq<TokenView>
    decreases commands.len() - k,
{
    if k < 0 || k >= commands.len() {
        seq![]
    } else {
        lists_tokens(commands[k].and_ors, 0) + seq![
            TokenView { kind: TokType::Newline, text: seq![NEWLINE] },
        ] + program_tokens(commands, k + 1)
    }
}

/// The texts of `tokens` from the one at `k` on, each with a space behind it.
pub open spec fn joined(tokens: Seq<TokenView>, k: int) -> Seq<u8>
    decreases tokens.len() - k,
{
    if k < 0 || k >= tokens.len() {
        seq![]
    } else {
        tokens[k].text + seq![SPACE] + joined(tokens, k + 1)
    }
}

/// The program `p` written out: its tokens, each with a space behind it.
pub open spec fn rendered(p: ProgramView) -> Seq<u8> {
    joined(program_tokens(p.commands, 0), 0)
}

pub proof fn lemma_joined_concat(a: Seq<TokenView>, b: Seq<TokenView>, k: int)
    requires
        0 <= k <= a.len(),
    ensures
        joined(a + b, k) == joined(a, k) + joined(b, 0),
    decreases a.len() - k,
{
    if k < a.len() {
        lemma_joined_concat(a, b, k + 1);
        assert((a + b)[k] == a[k]);
        assert(a[k].text + seq![SPACE] + (joined(a, k + 1) + joined(b, 0)) =~= (a[k].text
            + seq![SPACE] + joined(a, k + 1)) + joined(b, 0));
    } else {
        lemma_joined_shift(a, b, 0);
        assert(joined(a, k) + joined(b, 0) =~= joined(b, 0));
    }
}

proof fn lemma_joined_shift(a: Seq<TokenView>, b: Seq<TokenView>, k: int)
    requires
        0 <= k <= b.len(),
    ensures
        joined(a + b, a.len() + k) == joined(b, k),
    decreases b.len() - k,
{
    if k < b.len() {
        lemma_joined_shift(a, b, k + 1);
        assert((a + b)[a.len() + k] == b[k]);
    }
}

pub proof fn lemma_joined_one(t: TokenView)
    ensures
        joined(seq![t], 0) == t.text + seq![SPACE],
        joined(Seq::<TokenView>::empty(), 0) == Seq::<u8>::empty(),
{
    reveal_with_fuel(joined, 3);
    assert(seq![t][0] == t);
    assert(t.text + seq![SPACE] + Seq::<u8>::empty() =~= t.text + seq![SPACE]);
}

pub proof fn lemma_joined_texts(kind: TokType, texts: Seq<Seq<u8>>, k: int)
    requires
        0 <= k <= texts.len(),
    ensures
        joined(tokens_of(kind, texts), 0) == joined(tokens_of(kind, texts.take(k)), 0) + joined(
            tokens_of(kind, texts),
            k,
        ),
{
    let all = tokens_of(kind, texts);
    let head = tokens_of(kind, texts.take(k));
    let tail = all.subrange(k, all.len() as int);
    assert(all =~= head + tail);
    lemma_joined_concat(head, tail, 0);
    lemma_joined_shift(head, tail, 0);
    lemma_joined_concat(head, tail, k);
    assert(joined(head, k) =~= Seq::<u8>::empty());
    assert(joined(head + tail, k) =~= joined(tail, 0));
}

fn push_token(out: &mut Vec<u8>, text: &[u8])
    ensures
        final(out)@ == old(out)@ + text@ + seq![SPACE],
{
    append(out, text);
    out.push(SPACE);
}

fn render_words(out: &mut Vec<u8>, kind: Ghost<TokType>, words: &Vec<&[u8]>)
    ensures
        final(out)@ == old(out)@ + joined(
            tokens_of(kind@, Seq::new(words@.len(), |i: int| words@[i]@)),
            0,
        ),
{
    let ghost texts = Seq::new(words@.len(), |i: int| words@[i]@);
    let ghost all = tokens_of(kind@, texts);
    let mut i: usize = 0;
    proof {
        assert(texts.take(0) =~= Seq::<Seq<u8>>::empty());
        assert(tokens_of(kind@, texts.take(0)) =~= Seq::<TokenView>::empty());
        lemma_joined_texts(kind@, texts, 0);
        assert(out@ + joined(tokens_of(kind@, texts.take(0)), 0) =~= out@);
    }
    while i < words.len()
        invariant
            i <= words@.len(),
            texts == Seq::new(words@.len(), |i: int| words@[i]@),
            all == tokens_of(kind@, texts),
            out@ + joined(all, i as int) == old(out)@ + joined(all, 0),
        decreases words@.len() - i,
    {
        let ghost before = out@;
        push_token(out, words[i]);
        proof {
            assert(all[i as int].text == words@[i as int]@);
            assert(before + (all[i as int].text + seq![SPACE] + joined(all, i + 1)) =~= out@
                + joined(all, i + 1));
        }
        i += 1;
    }
    assert(out@ + Seq::<u8>::empty() =~= out@);
}

/// Writes the simple command `s` out.
fn render_simple(out: &mut Vec<u8>, s: &SimpleCommand)
    ensures
        final(out)@ == old(out)@ + joined(simple_tokens(s@), 0),
{
    let ghost a = tokens_of(TokType::AssignmentWord, s@.assign);
    let ghost c = if s@.cmd.len() > 0 {
        seq![TokenView { kind: TokType::Word, text: s@.cmd }]
    } else {
        seq![]
    };
    let ghost r = tokens_of(TokType::Word, s@.args);
    render_words(out, Ghost(TokType::AssignmentWord), &s.assign);
    let Arg::Arg(cmd) = &s.cmd;
    if cmd.len() > 0 {
        push_token(out, cmd);
    }
    let mut i: usize = 0;
    proof {
        lemma_joined_one(TokenView { kind: TokType::Word, text: s@.cmd });
        lemma_joined_concat(a, c, 0);
        lemma_joined_concat(a + c, r, 0);
        assert(old(out)@ + joined(a, 0) + joined(c, 0) =~= old(out)@ + (joined(a, 0) + joined(
            c,
            0,
        )));
        assert(old(out)@ + joined(a + c, 0) + joined(r, 0) =~= old(out)@ + (joined(a + c, 0)
            + joined(r, 0)));
    }
    while i < s.args.len()
        invariant
            i <= s.args@.len(),
            r == tokens_of(TokType::Word, s@.args),
            out@ + joined(r, i as int) == old(out)@ + joined(simple_tokens(s@), 0),
        decreases s.args@.len() - i,
    {
        let ghost before = out@;
        let Arg::Arg(word) = &s.args[i];
        push_token(out, word);
        proof {
            assert(r[i as int].text == s.args@[i as int]@);
            assert(before + (r[i as int].text + seq![SPACE] + joined(r, i + 1)) =~= out@ + joined(
                r,
                i + 1,
            ));
        }
        i += 1;
    }
    assert(out@ + Seq::<u8>::empty() =~= out@);
}

/// Writes the pipeline `p` out.
fn render_pipeline(out: &mut Vec<u8>, p: &Pipeline)
    ensures
        final(out)@ == old(out)@ + joined(pipeline_tokens(p@), 0),
{
    let ghost bang = if p@.negated {
        seq![TokenView { kind: TokType::Word, text: seq![BANG] }]
    } else {
        seq![]
    };
    if p.negated {
        out.push(BANG);
        out.push(SPACE);
    }
    proof {
        lemma_joined_one(TokenView { kind: TokType::Word, text: seq![BANG] });
        assert(out@ =~= old(out)@ + joined(bang, 0));
        lemma_joined_concat(bang, commands_tokens(p@.commands, 0), 0);
        assert(old(out)@ + (joined(bang, 0) + joined(commands_tokens(p@.commands, 0), 0))
            =~= out@ + joined(commands_tokens(p@.commands, 0), 0));
    }
    let mut i: usize = 0;
    while i < p.commands.len()
        invariant
            i <= p.commands@.len(),
            out@ + joined(commands_tokens(p@.commands, i as int), 0) == old(out)@ + joined(
                pipeline_tokens(p@),
                0,
            ),
        decreases p.commands@.len() - i,
    {
        let ghost before = out@;
        let ghost bar = if i > 0 {
            seq![op_token(seq![PIPE])]
        } else {
            seq![]
        };
        let ghost this = command_tokens(p@.commands[i as int]);
        let ghost rest = commands_tokens(p@.commands, i + 1);
        if i > 0 {
            out.push(PIPE);
            out.push(SPACE);
        }
        proof {
            lemma_joined_one(op_token(seq![PIPE]));
            assert(out@ =~= before + joined(bar, 0));
        }
        match &p.commands[i] {
            Command::Simple(s) => render_simple(out, s),
            Command::Compound => {
                assert(out@ + joined(this, 0) =~= out@);
            },
        }
        proof {
            lemma_joined_concat(bar + this, rest, 0);
            lemma_joined_concat(bar, this, 0);
            assert(before + ((joined(bar, 0) + joined(this, 0)) + joined(rest, 0)) =~= out@
                + joined(rest, 0));
        }
        i += 1;
    }
    assert(out@ + Seq::<u8>::empty() =~= out@);
}

/// Writes the and-or list `list` out.
fn render_and_or(out: &mut Vec<u8>, list: &AndOr)
    ensures
        final(out)@ == old(out)@ + joined(pipelines_tokens(list@.pipelines, 0), 0),
{
    let mut i: usize = 0;
    while i < list.pipelines.len()
        invariant
            i <= list.pipelines@.len(),
            out@ + joined(pipelines_tokens(list@.pipelines, i as int), 0) == old(out)@ + joined(
                pipelines_tokens(list@.pipelines, 0),
                0,
            ),
        decreases list.pipelines@.len() - i,
    {
        let ghost before = out@;
        let ghost this = pipeline_tokens(list@.pipelines[i as int].1);
        let ghost op = if i + 1 < list.pipelines@.len() {
            seq![op_token(and_or_text(list@.pipelines[i as int].0))]
        } else {
            seq![]
        };
        let ghost rest = pipelines_tokens(list@.pipelines, i + 1);
        render_pipeline(out, &list.pipelines[i].1);
        if i + 1 < list.pipelines.len() {
            match list.pipelines[i].0 {
                AndOrOp::And => {
                    out.push(AMP);
                    out.push(AMP);
                },
                AndOrOp::Or => {
                    out.push(PIPE);
                    out.push(PIPE);
                },
            }
            out.push(SPACE);
        }
        proof {
            lemma_joined_one(op_token(and_or_text(list@.pipelines[i as int].0)));
            assert(out@ =~= before + joined(this, 0) + joined(op, 0));
            lemma_joined_concat(this + op, rest, 0);
            lemma_joined_concat(this, op, 0);
            assert(before + ((joined(this, 0) + joined(op, 0)) + joined(rest, 0)) =~= out@
                + joined(rest, 0));
        }
        i += 1;
    }
    assert(out@ + Seq::<u8>::empty() =~= out@);
}

/// Writes the complete command `command` out.
fn render_complete(out: &mut Vec<u8>, command: &CompleteCommand)
    ensures
        final(out)@ == old(out)@ + joined(lists_tokens(command@.and_ors, 0), 0),
{
    let mut i: usize = 0;
    while i < command.and_ors.len()
        invariant
            i <= command.and_ors@.len(),
            out@ + joined(lists_tokens(command@.and_ors, i as int), 0) == old(out)@ + joined(
                lists_tokens(command@.and_ors, 0),
                0,
            ),
        decreases command.and_ors@.len() - i,
    {
        let ghost before = out@;
        let ghost this = pipelines_tokens(command@.and_ors[i as int].1.pipelines, 0);
        let ghost op = seq![op_token(term_text(command@.and_ors[i as int].0))];
        let ghost rest = lists_tokens(command@.and_ors, i + 1);
        render_and_or(out, &command.and_ors[i].1);
        match command.and_ors[i].0 {
            TermOp::Semi => out.push(SEMI),
            TermOp::Amp => out.push(AMP),
        }
        out.push(SPACE);
        proof {
            lemma_joined_one(op_token(term_text(command@.and_ors[i as int].0)));
            assert(out@ =~= before + joined(this, 0) + joined(op, 0));
            lemma_joined_concat(this + op, rest, 0);
            lemma_joined_concat(this, op, 0);
            assert(before + ((joined(this, 0) + joined(op, 0)) + joined(rest, 0)) =~= out@
                + joined(rest, 0));
        }
        i += 1;
    }
    assert(out@ + Seq::<u8>::empty() =~= out@);
}

/// Writes `program` out as text that spells it: every word and operator
/// with a space behind it, and every complete command on a line of its own.
pub fn render(program: &Program) -> (r: Vec<u8>)
    ensures
        r@ == rendered(program@),
{
    let mut out: Vec<u8> = Vec::new();
    let commands = &program.commands.complete_commands;
    let ghost views = program@.commands;
    let mut i: usize = 0;
    assert(out@ + joined(program_tokens(views, 0), 0) =~= rendered(program@));
    while i < commands.len()
        invariant
            i <= commands@.len(),
            views == program@.commands,
            views.len() == commands@.len(),
            forall|k: int| 0 <= k < views.len() ==> views[k] == commands@[k]@,
            out@ + joined(program_tokens(views, i as int), 0) == rendered(program@),
        decreases commands@.len() - i,
    {
        let ghost before = out@;
        let ghost this = lists_tokens(views[i as int].and_ors, 0);
        let ghost line = seq![TokenView { kind: TokType::Newline, text: seq![NEWLINE] }];
        let ghost rest = program_tokens(views, i + 1);
        render_complete(&mut out, &commands[i]);
        out.push(NEWLINE);
        out.push(SPACE);
        proof {
            lemma_joined_one(TokenView { kind: TokType::Newline, text: seq![NEWLINE] });
            assert(out@ =~= before + joined(this, 0) + joined(line, 0));
            lemma_joined_concat(this + line, rest, 0);
            lemma_joined_concat(this, line, 0);
            assert(before + ((joined(this, 0) + joined(line, 0)) + joined(rest, 0)) =~= out@
                + joined(rest, 0));
        }
        i += 1;
    }
    assert(out@ + Seq::<u8>::empty() =~= out@);
    out
}

} // verus!
