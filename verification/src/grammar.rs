//! The grammar: tokens to a syntax tree.
//!
//! ```text
//! program          -> newline* (complete_command (newline+ complete_command)*)? newline*
//! complete_command -> and_or ((';' | '&') and_or)* (';' | '&')?
//! and_or           -> pipeline (('&&' | '||') pipeline)*
//! pipeline         -> '!'? simple_command ('|' simple_command)*
//! simple_command   -> AssignmentWord* Word (Word | AssignmentWord)* | AssignmentWord+
//! ```

use vstd::prelude::*;
use crate::ast::AndOr;
use crate::ast::AndOrOp;
use crate::ast::AndOrView;
use crate::ast::Arg;
use crate::ast::Command;
use crate::ast::CommandView;
use crate::ast::CompleteCommand;
use crate::ast::CompleteCommands;
use crate::ast::CompleteView;
use crate::ast::Pipeline;
use crate::ast::PipelineView;
use crate::ast::Program;
use crate::ast::ProgramView;
use crate::ast::SimpleCommand;
use crate::ast::SimpleView;
use crate::ast::TermOp;
use crate::ast::with_last;
use crate::bytes::slice;
use crate::bytes::AMP;
use crate::bytes::BANG;
use crate::bytes::PIPE;
use crate::bytes::SEMI;
use crate::lexer::lex;
use crate::lexer::tokenize;
use crate::lexer::LexError;
use crate::lexer::Span;
use crate::lexer::Tok;
use crate::lexer::TokType;

verus! {

/// A token as the grammar sees it: its kind and its text.
pub struct TokenView {
    pub kind: TokType,
    pub text: Seq<u8>,
}

/// The tokens `tokens` as the grammar sees them.
pub open spec fn token_views(tokens: Seq<(usize, Tok, usize)>) -> Seq<TokenView> {
    Seq::new(
        tokens.len(),
        |i: int| TokenView { kind: tokens[i].1.tok_type, text: tokens[i].1.input@ },
    )
}

/// The tokens that cover `spans` of `input`.
pub open spec fn span_views(input: Seq<u8>, spans: Seq<Span>) -> Seq<TokenView> {
    Seq::new(
        spans.len(),
        |i: int|
            TokenView { kind: spans[i].kind, text: input.subrange(spans[i].start, spans[i].end) },
    )
}

/// Whether `t` is the operator `text`.
pub open spec fn is_op(t: TokenView, text: Seq<u8>) -> bool {
    t.kind == TokType::Operator && t.text == text
}

/// Whether `t` is the word `!`.
pub open spec fn is_bang(t: TokenView) -> bool {
    t.kind == TokType::Word && t.text == seq![BANG]
}

/// Whether a simple command can start with `t`.
pub open spec fn is_word(t: TokenView) -> bool {
    t.kind == TokType::Word || t.kind == TokType::AssignmentWord
}

/// The end of the assignment words that start at `i`.
pub open spec fn assignments_end(tokens: Seq<TokenView>, i: int) -> int
    decreases tokens.len() - i,
{
    if 0 <= i < tokens.len() && tokens[i].kind == TokType::AssignmentWord {
        assignments_end(tokens, i + 1)
    } else {
        i
    }
}

/// The end of the words that start at `i`.
pub open spec fn words_end(tokens: Seq<TokenView>, i: int) -> int
    decreases tokens.len() - i,
{
    if 0 <= i < tokens.len() && is_word(tokens[i]) {
        words_end(tokens, i + 1)
    } else {
        i
    }
}

/// The end of the newlines that start at `i`.
pub open spec fn newlines_end(tokens: Seq<TokenView>, i: int) -> int
    decreases tokens.len() - i,
{
    if 0 <= i < tokens.len() && tokens[i].kind == TokType::Newline {
        newlines_end(tokens, i + 1)
    } else {
        i
    }
}

/// The texts of the tokens from `i` up to `j`.
pub open spec fn texts(tokens: Seq<TokenView>, i: int, j: int) -> Seq<Seq<u8>> {
    Seq::new((j - i) as nat, |k: int| tokens[i + k].text)
}

/// The simple command at `i` and where it ends, or the place of the token
/// with which no simple command can go on.
pub open spec fn simple_command(tokens: Seq<TokenView>, i: int) -> Result<(SimpleView, int), int> {
    let j = assignments_end(tokens, i);
    if 0 <= j < tokens.len() && tokens[j].kind == TokType::Word {
        let k = words_end(tokens, j + 1);
        Ok(
            (
                SimpleView {
                    assign: texts(tokens, i, j),
                    cmd: tokens[j].text,
                    args: texts(tokens, j + 1, k),
                },
                k,
            ),
        )
    } else if j > i {
        Ok((SimpleView { assign: texts(tokens, i, j), cmd: seq![], args: seq![] }, j))
    } else {
        Err(i)
    }
}

/// The pipeline `acc` with the commands that follow at `i`, each behind a `|`.
/// (A command holds at least one token, so that the place moves on with each:
/// the test for it is there to make the definition well-founded.)
pub open spec fn pipeline_rest(tokens: Seq<TokenView>, i: int, acc: PipelineView) -> Result<
    (PipelineView, int),
    int,
>
    decreases tokens.len() - i,
{
    if 0 <= i < tokens.len() && is_op(tokens[i], seq![PIPE]) {
        match simple_command(tokens, i + 1) {
            Ok((cmd, j)) => if i < j <= tokens.len() {
                pipeline_rest(
                    tokens,
                    j,
                    PipelineView { commands: acc.commands.push(CommandView::Simple(cmd)), ..acc },
                )
            } else {
                Err(i)
            },
            Err(at) => Err(at),
        }
    } else {
        Ok((acc, i))
    }
}

/// The pipeline at `i`.
pub open spec fn pipeline(tokens: Seq<TokenView>, i: int) -> Result<(PipelineView, int), int> {
    let negated = 0 <= i < tokens.len() && is_bang(tokens[i]);
    let start = if negated {
        i + 1
    } else {
        i
    };
    match simple_command(tokens, start) {
        Ok((cmd, j)) => pipeline_rest(
            tokens,
            j,
            PipelineView { commands: seq![CommandView::Simple(cmd)], negated },
        ),
        Err(at) => Err(at),
    }
}

/// The operator `&&` or `||` that `t` is, if it is one.
pub open spec fn and_or_op(t: TokenView) -> Option<AndOrOp> {
    if is_op(t, seq![AMP, AMP]) {
        Some(AndOrOp::And)
    } else if is_op(t, seq![PIPE, PIPE]) {
        Some(AndOrOp::Or)
    } else {
        None
    }
}

/// The operator `;` or `&` that `t` is, if it is one.
pub open spec fn term_op(t: TokenView) -> Option<TermOp> {
    if is_op(t, seq![SEMI]) {
        Some(TermOp::Semi)
    } else if is_op(t, seq![AMP]) {
        Some(TermOp::Amp)
    } else {
        None
    }
}

/// The and-or list `acc` with the pipelines that follow at `i`, each behind
/// `&&` or `||`. (The test that the place moves on is there to make the
/// definition well-founded.)
pub open spec fn and_or_rest(tokens: Seq<TokenView>, i: int, acc: AndOrView) -> Result<
    (AndOrView, int),
    int,
>
    decreases tokens.len() - i,
{
    if 0 <= i < tokens.len() && and_or_op(tokens[i]) is Some {
        match pipeline(tokens, i + 1) {
            Ok((p, j)) => if i < j <= tokens.len() {
                and_or_rest(
                    tokens,
                    j,
                    AndOrView {
                        pipelines: with_last(acc.pipelines, and_or_op(tokens[i]).unwrap()).push(
                            (AndOrOp::And, p),
                        ),
                    },
                )
            } else {
                Err(i)
            },
            Err(at) => Err(at),
        }
    } else {
        Ok((acc, i))
    }
}

/// The and-or list at `i`.
pub open spec fn and_or(tokens: Seq<TokenView>, i: int) -> Result<(AndOrView, int), int> {
    match pipeline(tokens, i) {
        Ok((p, j)) => and_or_rest(tokens, j, AndOrView { pipelines: seq![(AndOrOp::And, p)] }),
        Err(at) => Err(at),
    }
}

/// The complete command `acc` with the lists that follow at `i`, each behind
/// `;` or `&`. One such operator may stand at the end with nothing behind it.
/// (The test that the place moves on is there to make the definition
/// well-founded.)
pub open spec fn complete_rest(tokens: Seq<TokenView>, i: int, acc: CompleteView) -> Result<
    (CompleteView, int),
    int,
>
    decreases tokens.len() - i,
{
    if 0 <= i < tokens.len() && term_op(tokens[i]) is Some {
        let ended = with_last(acc.and_ors, term_op(tokens[i]).unwrap());
        if i + 1 < tokens.len() && is_word(tokens[i + 1]) {
            match and_or(tokens, i + 1) {
                Ok((list, j)) => if i < j <= tokens.len() {
                    complete_rest(
                        tokens,
                        j,
                        CompleteView { and_ors: ended.push((TermOp::Semi, list)) },
                    )
                } else {
                    Err(i)
                },
                Err(at) => Err(at),
            }
        } else {
            Ok((CompleteView { and_ors: ended }, i + 1))
        }
    } else {
        Ok((acc, i))
    }
}

/// The complete command at `i`.
pub open spec fn complete_command(tokens: Seq<TokenView>, i: int) -> Result<
    (CompleteView, int),
    int,
> {
    match and_or(tokens, i) {
        Ok((list, j)) => complete_rest(
            tokens,
            j,
            CompleteView { and_ors: seq![(TermOp::Semi, list)] },
        ),
        Err(at) => Err(at),
    }
}

/// The complete commands `acc` with those that follow at `i`, one to a line:
/// newlines before a command are passed over, and a command ends with the
/// tokens or at a newline.
pub open spec fn program_rest(tokens: Seq<TokenView>, i: int, acc: Seq<CompleteView>) -> Result<
    Seq<CompleteView>,
    int,
>
    decreases tokens.len() - i,
{
    let start = newlines_end(tokens, i);
    if start < 0 || start >= tokens.len() {
        Ok(acc)
    } else {
        match complete_command(tokens, start) {
            Ok((command, j)) => if j >= tokens.len() {
                Ok(acc.push(command))
            } else if tokens[j].kind == TokType::Newline && j > i {
                program_rest(tokens, j, acc.push(command))
            } else {
                Err(j)
            },
            Err(at) => Err(at),
        }
    }
}

/// The program that `tokens` spell, or the place of the first token with
/// which no program can go on: `tokens.len()` where more tokens are wanted.
pub open spec fn program(tokens: Seq<TokenView>) -> Result<ProgramView, int> {
    match program_rest(tokens, 0, seq![]) {
        Ok(commands) => Ok(ProgramView { commands }),
        Err(at) => Err(at),
    }
}

/// How parsing an input ends.
pub enum Outcome {
    Program(ProgramView),
    /// The input ended where the grammar wants more.
    UnrecognizedEof,
    /// The token at this place cannot stand there.
    UnrecognizedToken(int),
    /// The input ended while this byte was awaited.
    User(u8),
}

/// How parsing `input` ends. A token that cannot stand where it does is
/// reported before anything that comes behind it.
pub open spec fn parse_spec(input: Seq<u8>) -> Outcome {
    let lexed = lex(input);
    let tokens = span_views(input, lexed.tokens);
    match program(tokens) {
        Ok(p) => match lexed.awaited {
            Some(c) => Outcome::User(c),
            None => Outcome::Program(p),
        },
        Err(at) => if at < tokens.len() {
            Outcome::UnrecognizedToken(at)
        } else {
            match lexed.awaited {
                Some(c) => Outcome::User(c),
                None => Outcome::UnrecognizedEof,
            }
        },
    }
}

pub proof fn lemma_runs(tokens: Seq<TokenView>, i: int)
    requires
        0 <= i <= tokens.len(),
    ensures
        i <= assignments_end(tokens, i) <= tokens.len(),
        i <= words_end(tokens, i) <= tokens.len(),
        i <= newlines_end(tokens, i) <= tokens.len(),
    decreases tokens.len() - i,
{
    if i < tokens.len() {
        lemma_runs(tokens, i + 1);
    }
}

/// A simple command holds at least one token, and lies within the tokens.
pub proof fn lemma_simple_command(tokens: Seq<TokenView>, i: int)
    requires
        0 <= i <= tokens.len(),
    ensures
        match simple_command(tokens, i) {
            Ok((_, j)) => i < j <= tokens.len(),
            Err(at) => i <= at <= tokens.len(),
        },
{
    lemma_runs(tokens, i);
    let j = assignments_end(tokens, i);
    if j < tokens.len() {
        lemma_runs(tokens, j + 1);
    }
}

pub proof fn lemma_pipeline_rest(tokens: Seq<TokenView>, i: int, acc: PipelineView)
    requires
        0 <= i <= tokens.len(),
    ensures
        match pipeline_rest(tokens, i, acc) {
            Ok((_, j)) => i <= j <= tokens.len(),
            Err(at) => i <= at <= tokens.len(),
        },
    decreases tokens.len() - i,
{
    if i < tokens.len() && is_op(tokens[i], seq![PIPE]) {
        lemma_simple_command(tokens, i + 1);
        match simple_command(tokens, i + 1) {
            Ok((cmd, j)) => {
                lemma_pipeline_rest(
                    tokens,
                    j,
                    PipelineView { commands: acc.commands.push(CommandView::Simple(cmd)), ..acc },
                );
            },
            Err(_) => {},
        }
    }
}

/// A pipeline holds at least one token, and lies within the tokens.
pub proof fn lemma_pipeline(tokens: Seq<TokenView>, i: int)
    requires
        0 <= i <= tokens.len(),
    ensures
        match pipeline(tokens, i) {
            Ok((_, j)) => i < j <= tokens.len(),
            Err(at) => i <= at <= tokens.len(),
        },
{
    let negated = i < tokens.len() && is_bang(tokens[i]);
    let start = if negated {
        i + 1
    } else {
        i
    };
    lemma_simple_command(tokens, start);
    match simple_command(tokens, start) {
        Ok((cmd, j)) => {
            lemma_pipeline_rest(
                tokens,
                j,
                PipelineView { commands: seq![CommandView::Simple(cmd)], negated },
            );
        },
        Err(_) => {},
    }
}

pub proof fn lemma_and_or_rest(tokens: Seq<TokenView>, i: int, acc: AndOrView)
    requires
        0 <= i <= tokens.len(),
    ensures
        match and_or_rest(tokens, i, acc) {
            Ok((_, j)) => i <= j <= tokens.len(),
            Err(at) => i <= at <= tokens.len(),
        },
    decreases tokens.len() - i,
{
    if i < tokens.len() && and_or_op(tokens[i]) is Some {
        lemma_pipeline(tokens, i + 1);
        match pipeline(tokens, i + 1) {
            Ok((p, j)) => {
                lemma_and_or_rest(
                    tokens,
                    j,
                    AndOrView {
                        pipelines: with_last(acc.pipelines, and_or_op(tokens[i]).unwrap()).push(
                            (AndOrOp::And, p),
                        ),
                    },
                );
            },
            Err(_) => {},
        }
    }
}

/// An and-or list holds at least one token, and lies within the tokens.
pub proof fn lemma_and_or(tokens: Seq<TokenView>, i: int)
    requires
        0 <= i <= tokens.len(),
    ensures
        match and_or(tokens, i) {
            Ok((_, j)) => i < j <= tokens.len(),
            Err(at) => i <= at <= tokens.len(),
        },
{
    lemma_pipeline(tokens, i);
    match pipeline(tokens, i) {
        Ok((p, j)) => {
            lemma_and_or_rest(tokens, j, AndOrView { pipelines: seq![(AndOrOp::And, p)] });
        },
        Err(_) => {},
    }
}

pub proof fn lemma_complete_rest(tokens: Seq<TokenView>, i: int, acc: CompleteView)
    requires
        0 <= i <= tokens.len(),
    ensures
        match complete_rest(tokens, i, acc) {
            Ok((_, j)) => i <= j <= tokens.len(),
            Err(at) => i <= at <= tokens.len(),
        },
    decreases tokens.len() - i,
{
    if i < tokens.len() && term_op(tokens[i]) is Some {
        let ended = with_last(acc.and_ors, term_op(tokens[i]).unwrap());
        if i + 1 < tokens.len() && is_word(tokens[i + 1]) {
            lemma_and_or(tokens, i + 1);
            match and_or(tokens, i + 1) {
                Ok((list, j)) => {
                    lemma_complete_rest(
                        tokens,
                        j,
                        CompleteView { and_ors: ended.push((TermOp::Semi, list)) },
                    );
                },
                Err(_) => {},
            }
        }
    }
}

/// A complete command holds at least one token, and lies within the tokens.
pub proof fn lemma_complete_command(tokens: Seq<TokenView>, i: int)
    requires
        0 <= i <= tokens.len(),
    ensures
        match complete_command(tokens, i) {
            Ok((_, j)) => i < j <= tokens.len(),
            Err(at) => i <= at <= tokens.len(),
        },
{
    lemma_and_or(tokens, i);
    match and_or(tokens, i) {
        Ok((list, j)) => {
            lemma_complete_rest(tokens, j, CompleteView { and_ors: seq![(TermOp::Semi, list)] });
        },
        Err(_) => {},
    }
}

pub proof fn lemma_program_rest(tokens: Seq<TokenView>, i: int, acc: Seq<CompleteView>)
    requires
        0 <= i <= tokens.len(),
    ensures
        match program_rest(tokens, i, acc) {
            Ok(_) => true,
            Err(at) => i <= at <= tokens.len(),
        },
    decreases tokens.len() - i,
{
    lemma_runs(tokens, i);
    let start = newlines_end(tokens, i);
    if start < tokens.len() {
        lemma_complete_command(tokens, start);
        match complete_command(tokens, start) {
            Ok((command, j)) => {
                if j < tokens.len() && tokens[j].kind == TokType::Newline {
                    lemma_program_rest(tokens, j, acc.push(command));
                }
            },
            Err(_) => {},
        }
    }
}

fn is_text1(t: &[u8], a: u8) -> (r: bool)
    ensures
        r == (t@ == seq![a]),
{
    let r = t.len() == 1 && t[0] == a;
    if r {
        assert(t@ =~= seq![a]);
    } else {
        assert(seq![a].len() == 1 && seq![a][0] == a);
    }
    r
}

fn is_text2(t: &[u8], a: u8, b: u8) -> (r: bool)
    ensures
        r == (t@ == seq![a, b]),
{
    let r = t.len() == 2 && t[0] == a && t[1] == b;
    if r {
        assert(t@ =~= seq![a, b]);
    } else {
        assert(seq![a, b].len() == 2 && seq![a, b][0] == a && seq![a, b][1] == b);
    }
    r
}

fn token_is_op(t: &Tok, a: u8) -> (r: bool)
    ensures
        r == is_op(TokenView { kind: t.tok_type, text: t.input@ }, seq![a]),
{
    t.tok_type == TokType::Operator && is_text1(t.input, a)
}

fn token_is_op2(t: &Tok, a: u8, b: u8) -> (r: bool)
    ensures
        r == is_op(TokenView { kind: t.tok_type, text: t.input@ }, seq![a, b]),
{
    t.tok_type == TokType::Operator && is_text2(t.input, a, b)
}

fn token_is_word(t: &Tok) -> (r: bool)
    ensures
        r == is_word(TokenView { kind: t.tok_type, text: t.input@ }),
{
    t.tok_type == TokType::Word || t.tok_type == TokType::AssignmentWord
}

/// The views of the texts in `v`.
pub open spec fn slice_views(v: Seq<&[u8]>) -> Seq<Seq<u8>> {
    Seq::new(v.len(), |i: int| v[i]@)
}

/// The views of the words in `v`.
pub open spec fn arg_views(v: Seq<Arg>) -> Seq<Seq<u8>> {
    Seq::new(v.len(), |i: int| v[i]@)
}

/// Reads the simple command at `i`.
pub fn parse_simple_command<'a>(tokens: &Vec<(usize, Tok<'a>, usize)>, i: usize) -> (r: Result<
    (SimpleCommand<'a>, usize),
    usize,
>)
    requires
        i <= tokens@.len(),
    ensures
        match (r, simple_command(token_views(tokens@), i as int)) {
            (Ok((cmd, j)), Ok((view, k))) => cmd@ == view && j == k,
            (Err(a), Err(b)) => a == b,
            _ => false,
        },
{
    let ghost tv = token_views(tokens@);
    let n = tokens.len();
    let mut assign: Vec<&'a [u8]> = Vec::new();
    let mut j: usize = i;
    assert(slice_views(assign@) =~= texts(tv, i as int, j as int));
    while j < n && tokens[j].1.tok_type == TokType::AssignmentWord
        invariant
            i <= j <= n,
            n == tokens@.len(),
            tv == token_views(tokens@),
            assignments_end(tv, i as int) == assignments_end(tv, j as int),
            assign@.len() == j - i,
            slice_views(assign@) == texts(tv, i as int, j as int),
        decreases n - j,
    {
        let ghost before = assign@;
        assign.push(tokens[j].1.input);
        j += 1;
        assert forall|x: int| 0 <= x < assign@.len() implies slice_views(assign@)[x] == texts(
            tv,
            i as int,
            j as int,
        )[x] by {
            if x < before.len() {
                assert(slice_views(before)[x] == texts(tv, i as int, j - 1)[x]);
            }
        }
        assert(slice_views(assign@) =~= texts(tv, i as int, j as int));
    }
    if j < n && tokens[j].1.tok_type == TokType::Word {
        let cmd = Arg::Arg(tokens[j].1.input);
        let mut args: Vec<Arg<'a>> = Vec::new();
        let mut k: usize = j + 1;
        assert(arg_views(args@) =~= texts(tv, j + 1, k as int));
        while k < n && token_is_word(&tokens[k].1)
            invariant
                j < k <= n,
                n == tokens@.len(),
                tv == token_views(tokens@),
                words_end(tv, j + 1) == words_end(tv, k as int),
                args@.len() == k - (j + 1),
                arg_views(args@) == texts(tv, j + 1, k as int),
            decreases n - k,
        {
            let ghost before = args@;
            args.push(Arg::Arg(tokens[k].1.input));
            k += 1;
            assert forall|x: int| 0 <= x < args@.len() implies arg_views(args@)[x] == texts(
                tv,
                j + 1,
                k as int,
            )[x] by {
                if x < before.len() {
                    assert(arg_views(before)[x] == texts(tv, j + 1, k - 1)[x]);
                }
            }
            assert(arg_views(args@) =~= texts(tv, j + 1, k as int));
        }
        let r = SimpleCommand { assign, cmd, args };
        assert(r@.assign =~= slice_views(r.assign@));
        assert(r@.args =~= arg_views(r.args@));
        Ok((r, k))
    } else if j > i {
        let r = SimpleCommand {
            assign,
            cmd: Arg::Arg(slice(tokens[i].1.input, 0, 0)),
            args: Vec::new(),
        };
        assert(r@.assign =~= slice_views(r.assign@));
        assert(r@.cmd =~= Seq::<u8>::empty());
        assert(r@.args =~= Seq::<Seq<u8>>::empty());
        Ok((r, j))
    } else {
        Err(i)
    }
}

/// Reads the pipeline at `i`.
pub fn parse_pipeline<'a>(tokens: &Vec<(usize, Tok<'a>, usize)>, i: usize) -> (r: Result<
    (Pipeline<'a>, usize),
    usize,
>)
    requires
        i <= tokens@.len(),
    ensures
        match (r, pipeline(token_views(tokens@), i as int)) {
            (Ok((p, j)), Ok((view, k))) => p@ == view && j == k,
            (Err(a), Err(b)) => a == b,
            _ => false,
        },
{
    let ghost tv = token_views(tokens@);
    let n = tokens.len();
    let negated = i < n && tokens[i].1.tok_type == TokType::Word && is_text1(
        tokens[i].1.input,
        BANG,
    );
    let start = if negated {
        i + 1
    } else {
        i
    };
    proof {
        lemma_simple_command(tv, start as int);
    }
    let (first, end) = match parse_simple_command(tokens, start) {
        Ok(found) => found,
        Err(at) => {
            return Err(at);
        },
    };
    let mut p = Pipeline::new(Command::Simple(first));
    if negated {
        p = p.negate();
    }
    let mut j: usize = end;
    assert(p@ == (PipelineView { commands: seq![CommandView::Simple(first@)], negated }));
    while j < n && token_is_op(&tokens[j].1, PIPE)
        invariant
            j <= n,
            n == tokens@.len(),
            tv == token_views(tokens@),
            pipeline(tv, i as int) == pipeline_rest(tv, j as int, p@),
        decreases n - j,
    {
        proof {
            lemma_simple_command(tv, j + 1);
        }
        match parse_simple_command(tokens, j + 1) {
            Ok((cmd, k)) => {
                p = p.push(Command::Simple(cmd));
                j = k;
            },
            Err(at) => {
                return Err(at);
            },
        }
    }
    Ok((p, j))
}

/// Reads the and-or list at `i`.
pub fn parse_and_or<'a>(tokens: &Vec<(usize, Tok<'a>, usize)>, i: usize) -> (r: Result<
    (AndOr<'a>, usize),
    usize,
>)
    requires
        i <= tokens@.len(),
    ensures
        match (r, and_or(token_views(tokens@), i as int)) {
            (Ok((list, j)), Ok((view, k))) => list@ == view && j == k,
            (Err(a), Err(b)) => a == b,
            _ => false,
        },
{
    let ghost tv = token_views(tokens@);
    let n = tokens.len();
    proof {
        lemma_pipeline(tv, i as int);
    }
    let (first, end) = match parse_pipeline(tokens, i) {
        Ok(found) => found,
        Err(at) => {
            return Err(at);
        },
    };
    let mut list = AndOr { pipelines: Vec::new() };
    assert(list@.pipelines =~= Seq::empty());
    list = list.push(AndOrOp::And, first);
    assert(list@.pipelines =~= seq![(AndOrOp::And, first@)]);
    let mut j: usize = end;
    loop
        invariant
            j <= n,
            n == tokens@.len(),
            tv == token_views(tokens@),
            and_or(tv, i as int) == and_or_rest(tv, j as int, list@),
        decreases n - j,
    {
        if j >= n {
            return Ok((list, j));
        }
        let op = if token_is_op2(&tokens[j].1, AMP, AMP) {
            AndOrOp::And
        } else if token_is_op2(&tokens[j].1, PIPE, PIPE) {
            AndOrOp::Or
        } else {
            return Ok((list, j));
        };
        proof {
            lemma_pipeline(tv, j + 1);
        }
        match parse_pipeline(tokens, j + 1) {
            Ok((p, k)) => {
                list = list.push(op, p);
                j = k;
            },
            Err(at) => {
                return Err(at);
            },
        }
    }
}

/// Reads the complete command at `i`.
pub fn parse_complete_command<'a>(tokens: &Vec<(usize, Tok<'a>, usize)>, i: usize) -> (r: Result<
    (CompleteCommand<'a>, usize),
    usize,
>)
    requires
        i <= tokens@.len(),
    ensures
        match (r, complete_command(token_views(tokens@), i as int)) {
            (Ok((command, j)), Ok((view, k))) => command@ == view && j == k,
            (Err(a), Err(b)) => a == b,
            _ => false,
        },
{
    let ghost tv = token_views(tokens@);
    let n = tokens.len();
    proof {
        lemma_and_or(tv, i as int);
    }
    let (first, end) = match parse_and_or(tokens, i) {
        Ok(found) => found,
        Err(at) => {
            return Err(at);
        },
    };
    let mut command = CompleteCommand { and_ors: Vec::new() };
    assert(command@.and_ors =~= Seq::empty());
    command = command.push(TermOp::Semi, first);
    assert(command@.and_ors =~= seq![(TermOp::Semi, first@)]);
    let mut j: usize = end;
    loop
        invariant
            j <= n,
            n == tokens@.len(),
            tv == token_views(tokens@),
            complete_command(tv, i as int) == complete_rest(tv, j as int, command@),
        decreases n - j,
    {
        if j >= n {
            return Ok((command, j));
        }
        let op = if token_is_op(&tokens[j].1, SEMI) {
            TermOp::Semi
        } else if token_is_op(&tokens[j].1, AMP) {
            TermOp::Amp
        } else {
            return Ok((command, j));
        };
        if j + 1 < n && token_is_word(&tokens[j + 1].1) {
            proof {
                lemma_and_or(tv, j + 1);
            }
            match parse_and_or(tokens, j + 1) {
                Ok((list, k)) => {
                    command = command.push(op, list);
                    j = k;
                },
                Err(at) => {
                    return Err(at);
                },
            }
        } else {
            command.update_last(op);
            return Ok((command, j + 1));
        }
    }
}

/// Reads the program that `tokens` spell.
pub fn parse_tokens<'a>(tokens: &Vec<(usize, Tok<'a>, usize)>) -> (r: Result<Program<'a>, usize>)
    ensures
        match (r, program(token_views(tokens@))) {
            (Ok(p), Ok(view)) => p@ == view,
            (Err(a), Err(b)) => a == b && a <= tokens@.len(),
            _ => false,
        },
{
    let ghost tv = token_views(tokens@);
    let n = tokens.len();
    let mut commands = CompleteCommands { complete_commands: Vec::new() };
    assert(commands@ =~= Seq::empty());
    let mut i: usize = 0;
    proof {
        lemma_program_rest(tv, 0, seq![]);
    }
    loop
        invariant
            i <= n,
            n == tokens@.len(),
            tv == token_views(tokens@),
            program_rest(tv, 0, seq![]) == program_rest(tv, i as int, commands@),
            program_rest(tv, 0, seq![]) is Err ==> program_rest(tv, 0, seq![])->Err_0 <= n,
        decreases n - i,
    {
        let mut start: usize = i;
        while start < n && tokens[start].1.tok_type == TokType::Newline
            invariant
                i <= start <= n,
                n == tokens@.len(),
                tv == token_views(tokens@),
                newlines_end(tv, i as int) == newlines_end(tv, start as int),
            decreases n - start,
        {
            start += 1;
        }
        if start >= n {
            return Ok(Program { commands });
        }
        proof {
            lemma_complete_command(tv, start as int);
        }
        match parse_complete_command(tokens, start) {
            Ok((command, j)) => {
                commands = commands.push(command);
                if j >= n {
                    return Ok(Program { commands });
                }
                if tokens[j].1.tok_type != TokType::Newline {
                    return Err(j);
                }
                i = j;
            },
            Err(at) => {
                return Err(at);
            },
        }
    }
}

/// Why an input is no program.
#[derive(Copy, Clone, Debug)]
pub enum ParseError<'input> {
    /// The input ended where the grammar wants more: `location` is its length.
    UnrecognizedEof { location: usize },
    /// This token cannot stand where it does.
    UnrecognizedToken { token: (usize, Tok<'input>, usize) },
    /// The lexer failed.
    User { error: LexError<'input> },
}

/// Lexes and parses `input`.
pub fn parse<'a>(input: &'a [u8]) -> (r: Result<Program<'a>, ParseError<'a>>)
    ensures
        match (r, parse_spec(input@)) {
            (Ok(p), Outcome::Program(view)) => p@ == view,
            (Err(ParseError::UnrecognizedEof { location }), Outcome::UnrecognizedEof) => location
                == input@.len(),
            (Err(ParseError::UnrecognizedToken { token }), Outcome::UnrecognizedToken(at)) => {
                &&& 0 <= at < lex(input@).tokens.len()
                &&& token.0 == lex(input@).tokens[at].start
                &&& token.2 == lex(input@).tokens[at].end
                &&& token.1.tok_type == lex(input@).tokens[at].kind
                &&& token.1.input@ == input@.subrange(token.0 as int, token.2 as int)
            },
            (Err(ParseError::User { error }), Outcome::User(c)) => error
                == LexError::UnexpectedEOF(c),
            _ => false,
        },
{
    let (tokens, failure) = tokenize(input);
    assert(token_views(tokens@) =~= span_views(input@, lex(input@).tokens));
    match parse_tokens(&tokens) {
        Ok(p) => match failure {
            Some(error) => Err(ParseError::User { error }),
            None => Ok(p),
        },
        Err(at) => if at < tokens.len() {
            Err(ParseError::UnrecognizedToken { token: tokens[at] })
        } else {
            match failure {
                Some(error) => Err(ParseError::User { error }),
                None => Err(ParseError::UnrecognizedEof { location: input.len() }),
            }
        },
    }
}

} // verus!
