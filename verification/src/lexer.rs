//! The lexer: shell source text to words, assignment words, operators and newlines.

use vstd::prelude::*;
use vstd::string::StringSliceAdditionalSpecFns;
use crate::bytes::append;
use crate::bytes::find_byte;
use crate::bytes::first_at_or_after;
use crate::bytes::slice;
use crate::bytes::to_vec;
use crate::bytes::AMP;
use crate::bytes::BACKSLASH;
use crate::bytes::BACKTICK;
use crate::bytes::DASH;
use crate::bytes::DIGIT_0;
use crate::bytes::DIGIT_9;
use crate::bytes::DQUOTE;
use crate::bytes::EQUALS;
use crate::bytes::GREATER;
use crate::bytes::LESS;
use crate::bytes::LOWER_A;
use crate::bytes::LOWER_Z;
use crate::bytes::NEWLINE;
use crate::bytes::PIPE;
use crate::bytes::SEMI;
use crate::bytes::SPACE;
use crate::bytes::SQUOTE;
use crate::bytes::TAB;
use crate::bytes::UNDERSCORE;
use crate::bytes::UPPER_A;
use crate::bytes::UPPER_Z;

verus! {

/// The kinds of token. `EOF` stands for "no token": the lexer never hands it out.
#[derive(Copy, Clone, Debug, PartialEq, Eq, Structural)]
pub enum TokType {
    AssignmentWord,
    Word,
    Operator,
    Newline,
    EOF,
}

impl TokType {
    /// The name of the kind, for tracing.
    pub fn name(&self) -> (r: &'static str)
        ensures
            r@ == (match *self {
                TokType::AssignmentWord => "AssignmentWord"@,
                TokType::Word => "Word"@,
                TokType::Operator => "Operator"@,
                TokType::Newline => "Newline"@,
                TokType::EOF => "EOF"@,
            }),
    {
        match self {
            TokType::AssignmentWord => "AssignmentWord",
            TokType::Word => "Word",
            TokType::Operator => "Operator",
            TokType::Newline => "Newline",
            TokType::EOF => "EOF",
        }
    }
}

/// A token: its kind and its text, a slice of the input.
#[derive(Copy, Clone, Debug)]
pub struct Tok<'input> {
    pub tok_type: TokType,
    pub input: &'input [u8],
}

impl<'input> Tok<'input> {
    pub fn new(tok_type: TokType, input: &'input [u8]) -> (r: Tok<'input>)
        ensures
            r.tok_type == tok_type,
            r.input@ == input@,
    {
        Tok { tok_type, input }
    }
}

/// Why lexing stopped short.
#[derive(Copy, Clone, Debug)]
pub enum LexError<'input> {
    /// The input ended inside a quotation that the given byte would close, or,
    /// for a backslash, right behind a backslash that escapes nothing.
    UnexpectedEOF(u8),
    Other(&'input [u8]),
}

/// The text of an error message for `e`.
pub open spec fn message_spec(e: LexError) -> Seq<u8> {
    match e {
        LexError::UnexpectedEOF(c) => "Unexpected EOF while looking for matching `".spec_bytes()
            + seq![c] + "'".spec_bytes(),
        LexError::Other(s) => s@,
    }
}

impl<'input> LexError<'input> {
    /// The error as a message for the user.
    pub fn message(&self) -> (r: Vec<u8>)
        ensures
            r@ == message_spec(*self),
    {
        match self {
            LexError::UnexpectedEOF(c) => {
                let mut out = to_vec("Unexpected EOF while looking for matching `".as_bytes());
                out.push(*c);
                append(&mut out, "'".as_bytes());
                out
            },
            LexError::Other(s) => to_vec(s),
        }
    }
}

pub type Spanned<Tok, Loc, Error> = Result<(Loc, Tok, Loc), Error>;

/// Space and tab: they part tokens and belong to none.
pub open spec fn is_blank(c: u8) -> bool {
    c == SPACE || c == TAB
}

/// The bytes with which an operator starts.
pub open spec fn operator_start(c: u8) -> bool {
    c == SEMI || c == PIPE || c == AMP || c == LESS || c == GREATER
}

/// The operators of the shell language.
pub open spec fn operator(s: Seq<u8>) -> bool {
    ||| s.len() == 1 && operator_start(s[0])
    ||| s == seq![AMP, AMP]
    ||| s == seq![PIPE, PIPE]
    ||| s == seq![SEMI, SEMI]
    ||| s == seq![LESS, LESS]
    ||| s == seq![GREATER, GREATER]
    ||| s == seq![LESS, AMP]
    ||| s == seq![GREATER, AMP]
    ||| s == seq![LESS, GREATER]
    ||| s == seq![LESS, LESS, DASH]
    ||| s == seq![GREATER, PIPE]
}

/// The bytes that end a word where nothing quotes them.
pub open spec fn delimiter(c: u8) -> bool {
    is_blank(c) || c == NEWLINE || operator_start(c)
}

/// A letter, a digit or an underscore.
pub open spec fn name_byte(c: u8) -> bool {
    ||| LOWER_A <= c <= LOWER_Z
    ||| UPPER_A <= c <= UPPER_Z
    ||| DIGIT_0 <= c <= DIGIT_9
    ||| c == UNDERSCORE
}

/// A name: letters, digits and underscores, the first no digit.
pub open spec fn name(s: Seq<u8>) -> bool {
    &&& s.len() > 0
    &&& !(DIGIT_0 <= s[0] <= DIGIT_9)
    &&& forall|i: int| 0 <= i < s.len() ==> name_byte(#[trigger] s[i])
}

/// A word of the form `NAME=VALUE`: what stands before its first `=` is a name.
pub open spec fn assignment(word: Seq<u8>) -> bool {
    let i = first_at_or_after(word, EQUALS, 0);
    i < word.len() && name(word.subrange(0, i))
}

/// Where a scan stands with respect to quotation: inside a quotation that
/// `quoted` will close, and behind a backslash or not.
#[derive(Copy, Clone, Debug)]
pub struct Quoting {
    pub quoted: Option<u8>,
    pub escaped: bool,
}

/// Outside any quotation, and not behind a backslash.
pub open spec fn unquoted() -> Quoting {
    Quoting { quoted: None, escaped: false }
}

/// The quotation state behind the byte `c`, read in state `q`.
pub open spec fn quoting_after(q: Quoting, c: u8) -> Quoting {
    if q.escaped {
        Quoting { escaped: false, ..q }
    } else {
        match q.quoted {
            None => if c == DQUOTE || c == SQUOTE || c == BACKTICK {
                Quoting { quoted: Some(c), escaped: false }
            } else if c == BACKSLASH {
                Quoting { quoted: None, escaped: true }
            } else {
                q
            },
            Some(open) => if c == open {
                Quoting { quoted: None, escaped: false }
            } else if open == DQUOTE && c == BACKSLASH {
                Quoting { quoted: q.quoted, escaped: true }
            } else {
                q
            },
        }
    }
}

/// Where the word that is being read at `pos` in state `q` ends, and in which
/// state: at the first delimiter that nothing quotes, or with the input.
pub open spec fn word_scan(input: Seq<u8>, pos: int, q: Quoting) -> (int, Quoting)
    decreases input.len() - pos,
{
    if pos < 0 || pos >= input.len() {
        (pos, q)
    } else if q == unquoted() && delimiter(input[pos]) {
        (pos, q)
    } else {
        word_scan(input, pos + 1, quoting_after(q, input[pos]))
    }
}

/// Where the operator that starts at `start` and reaches `end` so far ends: it
/// grows while what it holds stays an operator.
pub open spec fn operator_end(input: Seq<u8>, start: int, end: int) -> int
    decreases input.len() - end,
{
    if 0 <= start < end < input.len() && operator(input.subrange(start, end + 1)) {
        operator_end(input, start, end + 1)
    } else {
        end
    }
}

/// The first position at or behind `pos` that holds no blank.
pub open spec fn skip_blanks(input: Seq<u8>, pos: int) -> int
    decreases input.len() - pos,
{
    if 0 <= pos < input.len() && is_blank(input[pos]) {
        skip_blanks(input, pos + 1)
    } else {
        pos
    }
}

/// A token of the model: its kind and the part of the input that it covers.
pub struct Span {
    pub kind: TokType,
    pub start: int,
    pub end: int,
}

/// What the lexer finds next.
pub enum Step {
    /// Nothing but blanks is left.
    End,
    /// A token, and whether a word that is no assignment has been seen in its command.
    Token { span: Span, past_first_word: bool },
    /// The input ended while the byte given was awaited.
    Fail { awaited: u8 },
}

/// What the lexer finds from `pos` on, where `past_first_word` says whether the
/// command that is being read has had a word that is no assignment.
pub open spec fn step(input: Seq<u8>, pos: int, past_first_word: bool) -> Step {
    let start = skip_blanks(input, pos);
    if start < 0 || start >= input.len() {
        Step::End
    } else if input[start] == NEWLINE {
        Step::Token {
            span: Span { kind: TokType::Newline, start, end: start + 1 },
            past_first_word: false,
        }
    } else if operator_start(input[start]) {
        Step::Token {
            span: Span {
                kind: TokType::Operator,
                start,
                end: operator_end(input, start, start + 1),
            },
            past_first_word: false,
        }
    } else {
        let (end, q) = word_scan(input, start, unquoted());
        if end >= input.len() && q.quoted is Some {
            Step::Fail { awaited: q.quoted.unwrap() }
        } else if end >= input.len() && q.escaped {
            Step::Fail { awaited: BACKSLASH }
        } else if !past_first_word && assignment(input.subrange(start, end)) {
            Step::Token {
                span: Span { kind: TokType::AssignmentWord, start, end },
                past_first_word: false,
            }
        } else {
            Step::Token { span: Span { kind: TokType::Word, start, end }, past_first_word: true }
        }
    }
}

/// The tokens of a whole input, and the byte that was awaited where it ended too early.
pub struct Lexed {
    pub tokens: Seq<Span>,
    pub awaited: Option<u8>,
}

/// The tokens from `pos` on. (A token is never empty, so that the place moves
/// on with each: the test for it is there to make the definition
/// well-founded.)
pub open spec fn lex_from(input: Seq<u8>, pos: int, past_first_word: bool) -> Lexed
    decreases input.len() - pos,
{
    match step(input, pos, past_first_word) {
        Step::End => Lexed { tokens: seq![], awaited: None },
        Step::Fail { awaited } => Lexed { tokens: seq![], awaited: Some(awaited) },
        Step::Token { span, past_first_word } => if pos < span.end <= input.len() {
            let rest = lex_from(input, span.end, past_first_word);
            Lexed { tokens: seq![span] + rest.tokens, awaited: rest.awaited }
        } else {
            Lexed { tokens: seq![], awaited: None }
        },
    }
}

/// The tokens of `input`.
pub open spec fn lex(input: Seq<u8>) -> Lexed {
    lex_from(input, 0, false)
}

pub proof fn lemma_skip_blanks(input: Seq<u8>, pos: int)
    requires
        0 <= pos <= input.len(),
    ensures
        pos <= skip_blanks(input, pos) <= input.len(),
        forall|k: int| pos <= k < skip_blanks(input, pos) ==> is_blank(#[trigger] input[k]),
        skip_blanks(input, pos) < input.len() ==> !is_blank(input[skip_blanks(input, pos)]),
    decreases input.len() - pos,
{
    if pos < input.len() && is_blank(input[pos]) {
        lemma_skip_blanks(input, pos + 1);
    }
}

pub proof fn lemma_operator_end(input: Seq<u8>, start: int, end: int)
    requires
        0 <= start < end <= input.len(),
    ensures
        end <= operator_end(input, start, end) <= input.len(),
    decreases input.len() - end,
{
    if end < input.len() && operator(input.subrange(start, end + 1)) {
        lemma_operator_end(input, start, end + 1);
    }
}

pub proof fn lemma_word_scan(input: Seq<u8>, pos: int, q: Quoting)
    requires
        0 <= pos <= input.len(),
    ensures
        pos <= word_scan(input, pos, q).0 <= input.len(),
        pos < input.len() && !(q == unquoted() && delimiter(input[pos])) ==> pos < word_scan(
            input,
            pos,
            q,
        ).0,
    decreases input.len() - pos,
{
    if pos < input.len() && !(q == unquoted() && delimiter(input[pos])) {
        lemma_word_scan(input, pos + 1, quoting_after(q, input[pos]));
    }
}

/// A token that `step` finds lies behind `pos`, within the input, and is not empty.
pub proof fn lemma_step_bounds(input: Seq<u8>, pos: int, past_first_word: bool)
    requires
        0 <= pos <= input.len(),
    ensures
        match step(input, pos, past_first_word) {
            Step::Token { span, .. } => pos <= span.start < span.end <= input.len()
                && span.kind != TokType::EOF,
            _ => true,
        },
{
    lemma_skip_blanks(input, pos);
    let start = skip_blanks(input, pos);
    if start < input.len() {
        if input[start] == NEWLINE {
        } else if operator_start(input[start]) {
            lemma_operator_end(input, start, start + 1);
        } else {
            lemma_word_scan(input, start, unquoted());
        }
    }
}

/// Whether the input holds nothing but blanks from `from` up to `to`.
pub open spec fn blanks(input: Seq<u8>, from: int, to: int) -> bool {
    forall|k: int| from <= k < to ==> is_blank(#[trigger] input[k])
}

/// Whether `tokens` lie in the input from `from` on in order, none of them
/// empty, with nothing but blanks before, between and behind them.
pub open spec fn tiles(input: Seq<u8>, tokens: Seq<Span>, from: int) -> bool
    decreases tokens.len(),
{
    if tokens.len() == 0 {
        blanks(input, from, input.len() as int)
    } else {
        &&& from <= tokens[0].start < tokens[0].end <= input.len()
        &&& blanks(input, from, tokens[0].start)
        &&& tiles(input, tokens.drop_first(), tokens[0].end)
    }
}

/// The input from `from` on, put together again: the text of each token,
/// with what the input holds before it and behind the last.
pub open spec fn reassembled(input: Seq<u8>, tokens: Seq<Span>, from: int) -> Seq<u8>
    decreases tokens.len(),
{
    if tokens.len() == 0 {
        input.subrange(from, input.len() as int)
    } else {
        input.subrange(from, tokens[0].start) + input.subrange(tokens[0].start, tokens[0].end)
            + reassembled(input, tokens.drop_first(), tokens[0].end)
    }
}

pub proof fn lemma_lex_from_tiles(input: Seq<u8>, pos: int, past_first_word: bool)
    requires
        0 <= pos <= input.len(),
        lex_from(input, pos, past_first_word).awaited is None,
    ensures
        tiles(input, lex_from(input, pos, past_first_word).tokens, pos),
        reassembled(input, lex_from(input, pos, past_first_word).tokens, pos) == input.subrange(
            pos,
            input.len() as int,
        ),
    decreases input.len() - pos,
{
    lemma_skip_blanks(input, pos);
    lemma_step_bounds(input, pos, past_first_word);
    match step(input, pos, past_first_word) {
        Step::Token { span, past_first_word: next } => {
            let rest = lex_from(input, span.end, next);
            let tokens = lex_from(input, pos, past_first_word).tokens;
            lemma_lex_from_tiles(input, span.end, next);
            assert(tokens[0] == span);
            assert(tokens.drop_first() =~= rest.tokens);
            assert(input.subrange(pos, span.start) + input.subrange(span.start, span.end)
                + input.subrange(span.end, input.len() as int) =~= input.subrange(
                pos,
                input.len() as int,
            ));
        },
        _ => {},
    }
}

/// The tokens of an input that lexes to its end lie in it in order, each
/// the text that it covers, with nothing but blanks before, between and
/// behind them: the texts of the tokens and the blanks make up the input.
pub proof fn lemma_lex_tiles(input: Seq<u8>)
    requires
        lex(input).awaited is None,
    ensures
        tiles(input, lex(input).tokens, 0),
        reassembled(input, lex(input).tokens, 0) == input,
{
    lemma_lex_from_tiles(input, 0, false);
    assert(input.subrange(0, input.len() as int) =~= input);
}

/// A lexer over one input.
pub struct Lexer<'input> {
    input: &'input [u8],
    pos: usize,
    past_first_word: bool,
}

impl<'input> Lexer<'input> {
    /// The input that is read.
    pub closed spec fn input(&self) -> Seq<u8> {
        self.input@
    }

    /// How far the input has been read.
    pub closed spec fn position(&self) -> int {
        self.pos as int
    }

    /// Whether the command that is being read has had a word that is no assignment.
    pub closed spec fn past_first_word(&self) -> bool {
        self.past_first_word
    }

    #[verifier::type_invariant]
    closed spec fn wf(&self) -> bool {
        self.pos <= self.input@.len()
    }

    /// A lexer at the start of `input`.
    pub fn new(input: &'input [u8]) -> (r: Self)
        ensures
            r.input() == input@,
            r.position() == 0,
            !r.past_first_word(),
    {
        Lexer { input, pos: 0, past_first_word: false }
    }

    /// Whether an operator starts with `c`.
    pub fn is_operator_start(c: u8) -> (r: bool)
        ensures
            r == operator_start(c),
    {
        c == SEMI || c == PIPE || c == AMP || c == LESS || c == GREATER
    }

    /// Whether `s` is an operator.
    pub fn is_operator(s: &[u8]) -> (r: bool)
        ensures
            r == operator(s@),
    {
        if s.len() == 1 {
            Lexer::is_operator_start(s[0])
        } else if s.len() == 2 {
            let a = s[0];
            let b = s[1];
            let r = (a == AMP && b == AMP) || (a == PIPE && b == PIPE) || (a == SEMI && b == SEMI)
                || (a == LESS && b == LESS) || (a == GREATER && b == GREATER) || (a == LESS && b
                == AMP) || (a == GREATER && b == AMP) || (a == LESS && b == GREATER) || (a
                == GREATER && b == PIPE);
            assert(s@ =~= seq![a, b]);
            assert(seq![a, b] == seq![AMP, AMP] <==> a == AMP && b == AMP) by {
                assert(seq![a, b][0] == a && seq![a, b][1] == b);
                assert(seq![AMP, AMP][0] == AMP && seq![AMP, AMP][1] == AMP);
                if a == AMP && b == AMP {
                    assert(seq![a, b] =~= seq![AMP, AMP]);
                }
            }
            r
        } else if s.len() == 3 {
            let r = s[0] == LESS && s[1] == LESS && s[2] == DASH;
            assert(r == (s@ == seq![LESS, LESS, DASH])) by {
                if r {
                    assert(s@ =~= seq![LESS, LESS, DASH]);
                } else {
                    assert(seq![LESS, LESS, DASH][0] == LESS && seq![LESS, LESS, DASH][1] == LESS
                        && seq![LESS, LESS, DASH][2] == DASH);
                }
            }
            r
        } else {
            false
        }
    }

    /// Ends the token of kind `cur_type` that began at `start`, at `end`. A
    /// word that can still be an assignment word and has the form of one
    /// becomes one; any other word ends that chance for its command, and an
    /// operator or a newline brings it back. Where there is no token
    /// (`TokType::EOF`), nothing is handed out.
    pub fn delimit(&mut self, cur_type: TokType, start: usize, end: usize) -> (r: Option<
        Spanned<Tok<'input>, usize, LexError<'input>>,
    >)
        requires
            start <= end <= old(self).input().len(),
        ensures
            final(self).input() == old(self).input(),
            cur_type == TokType::EOF ==> r is None && final(self).position() == old(
                self,
            ).position() && final(self).past_first_word() == old(self).past_first_word(),
            cur_type != TokType::EOF ==> {
                &&& final(self).position() == end
                &&& r matches Some(Ok((s, tok, e)))
                &&& s == start
                &&& e == end
                &&& tok.input@ == old(self).input().subrange(start as int, end as int)
                &&& tok.tok_type == delimited_kind(
                    cur_type,
                    old(self).past_first_word(),
                    tok.input@,
                )
                &&& final(self).past_first_word() == (tok.tok_type == TokType::Word)
            },
    {
        proof {
            use_type_invariant(&*self);
        }
        if cur_type == TokType::EOF {
            return None;
        }
        let text = slice(self.input, start, end);
        let mut tok_type = cur_type;
        if cur_type == TokType::Word {
            if !self.past_first_word && is_assignment(text) {
                tok_type = TokType::AssignmentWord;
            } else {
                self.past_first_word = true;
            }
        } else {
            self.past_first_word = false;
        }
        self.pos = end;
        Some(Ok((start, Tok::new(tok_type, text), end)))
    }

    /// The next token with the place where it starts and the place where it
    /// ends, an error where the input ends inside a quotation or behind a
    /// backslash, and `None` where nothing but blanks is left.
    pub fn next(&mut self) -> (r: Option<Spanned<Tok<'input>, usize, LexError<'input>>>)
        ensures
            final(self).input() == old(self).input(),
            match step(old(self).input(), old(self).position(), old(self).past_first_word()) {
                Step::End => r is None && final(self).position() == old(self).input().len()
                    && final(self).past_first_word() == old(self).past_first_word(),
                Step::Fail { awaited } => r == Some(
                    Err::<(usize, Tok<'input>, usize), LexError<'input>>(
                        LexError::UnexpectedEOF(awaited),
                    ),
                ) && final(self).position() == old(self).input().len(),
                Step::Token { span, past_first_word } => {
                    &&& r matches Some(Ok((s, tok, e)))
                    &&& s == span.start
                    &&& e == span.end
                    &&& tok.tok_type == span.kind
                    &&& tok.input@ == old(self).input().subrange(span.start, span.end)
                    &&& final(self).position() == span.end
                    &&& final(self).past_first_word() == past_first_word
                },
            },
    {
        proof {
            use_type_invariant(&*self);
            lemma_skip_blanks(self.input@, self.pos as int);
        }
        let input = self.input;
        let len = input.len();
        let mut start: usize = self.pos;
        while start < len && (input[start] == SPACE || input[start] == TAB)
            invariant
                self.pos <= start <= len,
                len == input@.len(),
                skip_blanks(input@, self.pos as int) == skip_blanks(input@, start as int),
            decreases len - start,
        {
            start += 1;
        }
        if start >= len {
            self.pos = len;
            return None;
        }
        let c = input[start];
        if c == NEWLINE {
            return self.delimit(TokType::Newline, start, start + 1);
        }
        if Lexer::is_operator_start(c) {
            let mut end: usize = start + 1;
            while end < len && Lexer::is_operator(slice(input, start, end + 1))
                invariant
                    start < end <= len,
                    len == input@.len(),
                    operator_end(input@, start as int, start + 1) == operator_end(
                        input@,
                        start as int,
                        end as int,
                    ),
                decreases len - end,
            {
                end += 1;
            }
            return self.delimit(TokType::Operator, start, end);
        }
        let mut end: usize = start;
        let mut q = Quoting { quoted: None, escaped: false };
        while end < len && !(q.quoted.is_none() && !q.escaped && is_delimiter(input[end]))
            invariant
                start <= end <= len,
                len == input@.len(),
                word_scan(input@, start as int, unquoted()) == word_scan(input@, end as int, q),
            decreases len - end,
        {
            q = advance(q, input[end]);
            end += 1;
        }
        assert(q == unquoted() <==> q.quoted is None && !q.escaped);
        if end >= len {
            if let Some(open) = q.quoted {
                self.pos = len;
                return Some(Err(LexError::UnexpectedEOF(open)));
            }
            if q.escaped {
                self.pos = len;
                return Some(Err(LexError::UnexpectedEOF(BACKSLASH)));
            }
        }
        self.delimit(TokType::Word, start, end)
    }
}

/// The kind under which a token is handed out: a word before the first word
/// of its command that has the form of an assignment is an assignment word.
pub open spec fn delimited_kind(
    cur_type: TokType,
    past_first_word: bool,
    text: Seq<u8>,
) -> TokType {
    if cur_type == TokType::Word && !past_first_word && assignment(text) {
        TokType::AssignmentWord
    } else {
        cur_type
    }
}

/// The quotation state behind the byte `c`, read in state `q`.
pub fn advance(q: Quoting, c: u8) -> (r: Quoting)
    ensures
        r == quoting_after(q, c),
{
    if q.escaped {
        Quoting { quoted: q.quoted, escaped: false }
    } else {
        match q.quoted {
            None => if c == DQUOTE || c == SQUOTE || c == BACKTICK {
                Quoting { quoted: Some(c), escaped: false }
            } else if c == BACKSLASH {
                Quoting { quoted: None, escaped: true }
            } else {
                q
            },
            Some(open) => if c == open {
                Quoting { quoted: None, escaped: false }
            } else if open == DQUOTE && c == BACKSLASH {
                Quoting { quoted: q.quoted, escaped: true }
            } else {
                q
            },
        }
    }
}

/// Whether `c` ends a word where nothing quotes it.
pub fn is_delimiter(c: u8) -> (r: bool)
    ensures
        r == delimiter(c),
{
    c == SPACE || c == TAB || c == NEWLINE || Lexer::is_operator_start(c)
}

/// Whether `s` is a name: letters, digits and underscores, the first no digit.
pub fn is_name(s: &[u8]) -> (r: bool)
    ensures
        r == name(s@),
{
    if s.len() == 0 || (DIGIT_0 <= s[0] && s[0] <= DIGIT_9) {
        return false;
    }
    let mut i: usize = 0;
    while i < s.len()
        invariant
            i <= s@.len(),
            forall|k: int| 0 <= k < i ==> name_byte(#[trigger] s@[k]),
        decreases s@.len() - i,
    {
        let c = s[i];
        let ok = (LOWER_A <= c && c <= LOWER_Z) || (UPPER_A <= c && c <= UPPER_Z) || (DIGIT_0 <= c
            && c <= DIGIT_9) || c == UNDERSCORE;
        if !ok {
            return false;
        }
        i += 1;
    }
    true
}

/// Whether `word` has the form `NAME=VALUE`.
pub fn is_assignment(word: &[u8]) -> (r: bool)
    ensures
        r == assignment(word@),
{
    let i = find_byte(word, EQUALS, 0);
    i < word.len() && is_name(slice(word, 0, i))
}

/// The tokens of `input` in order, and the error that ended them, if any.
pub fn tokenize<'input>(input: &'input [u8]) -> (r: (
    Vec<(usize, Tok<'input>, usize)>,
    Option<LexError<'input>>,
))
    ensures
        spans_of(r.0@) == lex(input@).tokens,
        forall|i: int|
            0 <= i < r.0@.len() ==> 0 <= r.0@[i].0 <= r.0@[i].2 <= input@.len()
                && (#[trigger] r.0@[i]).1.input@ == input@.subrange(
                r.0@[i].0 as int,
                r.0@[i].2 as int,
            ),
        match lex(input@).awaited {
            Some(c) => r.1 == Some(LexError::UnexpectedEOF(c)),
            None => r.1 is None,
        },
{
    let mut lexer = Lexer::new(input);
    let mut tokens: Vec<(usize, Tok<'input>, usize)> = Vec::new();
    let ghost mut pos: int = 0;
    let ghost mut pfw: bool = false;
    assert(spans_of(tokens@) =~= Seq::<Span>::empty());
    loop
        invariant
            lexer.input() == input@,
            lexer.position() == pos,
            lexer.past_first_word() == pfw,
            0 <= pos <= input@.len(),
            lex(input@).tokens == spans_of(tokens@) + lex_from(input@, pos, pfw).tokens,
            lex(input@).awaited == lex_from(input@, pos, pfw).awaited,
            forall|i: int|
                0 <= i < tokens@.len() ==> 0 <= tokens@[i].0 <= tokens@[i].2 <= input@.len()
                    && (#[trigger] tokens@[i]).1.input@ == input@.subrange(
                    tokens@[i].0 as int,
                    tokens@[i].2 as int,
                ),
        decreases input@.len() - pos,
    {
        proof {
            lemma_step_bounds(input@, pos, pfw);
        }
        let ghost before = spans_of(tokens@);
        match lexer.next() {
            None => {
                assert(before + Seq::<Span>::empty() =~= before);
                return (tokens, None);
            },
            Some(Err(e)) => {
                assert(before + Seq::<Span>::empty() =~= before);
                return (tokens, Some(e));
            },
            Some(Ok(t)) => {
                proof {
                    let span = Span { kind: t.1.tok_type, start: t.0 as int, end: t.2 as int };
                    let rest = lex_from(input@, span.end, lexer.past_first_word()).tokens;
                    assert(spans_of(tokens@.push(t)) =~= before.push(span));
                    assert(before + (seq![span] + rest) =~= before.push(span) + rest);
                    pos = span.end;
                    pfw = lexer.past_first_word();
                }
                tokens.push(t);
            },
        }
    }
}

/// The spans of the tokens `tokens`.
pub open spec fn spans_of(tokens: Seq<(usize, Tok, usize)>) -> Seq<Span> {
    Seq::new(
        tokens.len(),
        |i: int|
            Span {
                kind: tokens[i].1.tok_type,
                start: tokens[i].0 as int,
                end: tokens[i].2 as int,
            },
    )
}

} // verus!
