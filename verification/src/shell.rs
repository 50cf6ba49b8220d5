//! What the driver of a shell decides: whether its input is a program, needs
//! more lines, or is refused.

use vstd::prelude::*;
use vstd::string::StringSliceAdditionalSpecFns;
use crate::ast::Program;
use crate::ast::ProgramView;
use crate::bytes::append;
use crate::bytes::digits;
use crate::bytes::push_digits;
use crate::bytes::to_vec;
use crate::bytes::NEWLINE;
use crate::environment::VarView;
use crate::eval::initial;
use crate::eval::step;
use crate::eval::ActionView;
use crate::eval::EventView;
use crate::eval::Eval;
use crate::eval::Machine;
use crate::grammar::parse;
use crate::grammar::parse_spec;
use crate::grammar::span_views;
use crate::grammar::TokenView;
use crate::grammar::Outcome;
use crate::grammar::ParseError;
use crate::lexer::lex;
use crate::lexer::LexError;
use crate::lexer::Span;
use crate::lexer::Tok;
use crate::lexer::TokType;

verus! {

/// The exit status that a refused input leaves.
pub const SYNTAX_ERROR: i32 = 2;

/// The name of the kind `kind`.
pub open spec fn kind_name(kind: TokType) -> Seq<u8> {
    match kind {
        TokType::AssignmentWord => "AssignmentWord".spec_bytes(),
        TokType::Word => "Word".spec_bytes(),
        TokType::Operator => "Operator".spec_bytes(),
        TokType::Newline => "Newline".spec_bytes(),
        TokType::EOF => "EOF".spec_bytes(),
    }
}

/// A token for a reader: `KIND 'TEXT' at START..END`.
pub open spec fn token_text(kind: TokType, text: Seq<u8>, start: int, end: int) -> Seq<u8> {
    kind_name(kind) + " `".spec_bytes() + text + "' at ".spec_bytes() + digits(start as nat)
        + "..".spec_bytes() + digits(end as nat)
}

/// Writes the token `tok`, which covers the input from `start` to `end`, for a reader.
pub fn describe_token(start: usize, tok: &Tok, end: usize) -> (r: Vec<u8>)
    ensures
        r@ == token_text(tok.tok_type, tok.input@, start as int, end as int),
{
    let name = match tok.tok_type {
        TokType::AssignmentWord => "AssignmentWord".as_bytes(),
        TokType::Word => "Word".as_bytes(),
        TokType::Operator => "Operator".as_bytes(),
        TokType::Newline => "Newline".as_bytes(),
        TokType::EOF => "EOF".as_bytes(),
    };
    let mut out = to_vec(name);
    append(&mut out, " `".as_bytes());
    append(&mut out, tok.input);
    append(&mut out, "' at ".as_bytes());
    push_digits(&mut out, start as u64);
    append(&mut out, "..".as_bytes());
    push_digits(&mut out, end as u64);
    out
}

/// What the driver makes of its input.
#[derive(Debug)]
pub enum Reading<'a> {
    /// The input ends inside a quotation, behind a backslash or where the
    /// grammar wants more: another line is to follow.
    Incomplete,
    /// The input is this program.
    Program(Program<'a>),
    /// The input is no program: this is said to the user.
    Rejected(Vec<u8>),
}

/// The mathematical value of a `Reading`.
pub enum ReadingView {
    Incomplete,
    Program(ProgramView),
    Rejected(Seq<u8>),
}

impl<'a> View for Reading<'a> {
    type V = ReadingView;

    open spec fn view(&self) -> ReadingView {
        match self {
            Reading::Incomplete => ReadingView::Incomplete,
            Reading::Program(p) => ReadingView::Program(p@),
            Reading::Rejected(message) => ReadingView::Rejected(message@),
        }
    }
}

/// The line that refuses the token at `at` among the tokens of `input`.
pub open spec fn rejection(input: Seq<u8>, at: int) -> Seq<u8> {
    let span = lex(input).tokens[at];
    "rash: unrecognized token ".spec_bytes() + token_text(
        span.kind,
        input.subrange(span.start, span.end),
        span.start,
        span.end,
    ) + seq![NEWLINE]
}

/// What the driver makes of `input`: an input that ends too early is
/// incomplete, and one with a token that cannot stand where it does is refused.
pub open spec fn reading(input: Seq<u8>) -> ReadingView {
    match parse_spec(input) {
        Outcome::Program(p) => ReadingView::Program(p),
        Outcome::UnrecognizedEof => ReadingView::Incomplete,
        Outcome::User(_) => ReadingView::Incomplete,
        Outcome::UnrecognizedToken(at) => ReadingView::Rejected(rejection(input, at)),
    }
}

/// The empty input is the empty program, and to evaluate the empty program is
/// to finish at once with the shell as it was.
pub proof fn lemma_empty_input(vars: Seq<VarView>, last_return: i32)
    ensures
        reading(seq![]) == ReadingView::Program(ProgramView { commands: seq![] }),
        step(
            initial(vars, last_return),
            ProgramView { commands: seq![] },
            EventView::Done,
        ) == (initial(vars, last_return), ActionView::Finished),
{
    let input = Seq::<u8>::empty();
    assert(lex(input).tokens =~= Seq::<Span>::empty());
    assert(span_views(input, lex(input).tokens) =~= Seq::<TokenView>::empty());
}

/// Lexes and parses `input`, and says what the driver is to make of it.
pub fn read<'a>(input: &'a [u8]) -> (r: Reading<'a>)
    ensures
        r@ == reading(input@),
{
    match parse(input) {
        Ok(p) => Reading::Program(p),
        Err(ParseError::UnrecognizedEof { .. }) => Reading::Incomplete,
        Err(ParseError::User { error: LexError::UnexpectedEOF(_) }) => Reading::Incomplete,
        Err(ParseError::User { error }) => {
            let mut message = to_vec("rash: ".as_bytes());
            append(&mut message, error.message().as_slice());
            message.push(NEWLINE);
            Reading::Rejected(message)
        },
        Err(ParseError::UnrecognizedToken { token }) => {
            let mut message = to_vec("rash: unrecognized token ".as_bytes());
            let text = describe_token(token.0, &token.1, token.2);
            append(&mut message, text.as_slice());
            message.push(NEWLINE);
            proof {
                let at = parse_spec(input@)->UnrecognizedToken_0;
                assert(message@ =~= rejection(input@, at));
            }
            Reading::Rejected(message)
        },
    }
}

/// Takes the input `input` up: a program is handed out, with the evaluator
/// at its start; an input that is refused leaves the exit status 2.
pub fn run_command<'a>(eval: &mut Eval, input: &'a [u8]) -> (r: Reading<'a>)
    ensures
        r@ == reading(input@),
        final(eval)@ == (match reading(input@) {
            ReadingView::Incomplete => old(eval)@,
            ReadingView::Program(_) => initial(old(eval)@.vars, old(eval)@.last_return),
            ReadingView::Rejected(_) => Machine { last_return: SYNTAX_ERROR, ..old(eval)@ },
        }),
        final(eval).context.interactive == old(eval).context.interactive,
{
    let r = read(input);
    match &r {
        Reading::Incomplete => {},
        Reading::Program(_) => {
            eval.rewind();
        },
        Reading::Rejected(_) => {
            eval.context.last_return = SYNTAX_ERROR;
        },
    }
    r
}

/// The prompt: `$ ` for a new command, `> ` for a line that continues one.
pub fn prompt(continuing: bool) -> (r: &'static str)
    ensures
        r@ == (if continuing {
            "> "@
        } else {
            "$ "@
        }),
{
    if continuing {
        "> "
    } else {
        "$ "
    }
}

/// Adds the line `line` to the input `buffer`: a newline parts it from what
/// was there.
pub fn add_line(buffer: &mut Vec<u8>, line: &[u8])
    ensures
        final(buffer)@ == (if old(buffer)@.len() == 0 {
            line@
        } else {
            old(buffer)@ + seq![NEWLINE] + line@
        }),
{
    if buffer.len() > 0 {
        buffer.push(NEWLINE);
    }
    append(buffer, line);
    assert(buffer@ =~= (if old(buffer)@.len() == 0 {
        line@
    } else {
        old(buffer)@ + seq![NEWLINE] + line@
    }));
}

} // verus!
