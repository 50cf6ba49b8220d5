//! What the lexer makes of tokens that are written out with blanks between
//! them: the same tokens.

use vstd::prelude::*;
use crate::bytes::LESS;
use crate::bytes::NEWLINE;
use crate::bytes::SPACE;
use crate::grammar::span_views;
use crate::grammar::TokenView;
use crate::lexer::assignment;
use crate::lexer::delimiter;
use crate::lexer::is_blank;
use crate::lexer::lemma_skip_blanks;
use crate::lexer::lemma_step_bounds;
use crate::lexer::lemma_word_scan;
use crate::lexer::lex;
use crate::lexer::lex_from;
use crate::lexer::operator;
use crate::lexer::operator_end;
use crate::lexer::operator_start;
use crate::lexer::quoting_after;
use crate::lexer::skip_blanks;
use crate::lexer::step;
use crate::lexer::unquoted;
use crate::lexer::word_scan;
use crate::lexer::Quoting;
use crate::lexer::Span;
use crate::lexer::Step;
use crate::lexer::TokType;
use crate::render::joined;

verus! {

/// Text that the lexer takes for one word: it is not empty, no delimiter
/// stands in it unquoted, and every quotation in it is closed.
pub open spec fn word_text(t: Seq<u8>) -> bool {
    t.len() > 0 && word_scan(t, 0, unquoted()) == (t.len() as int, unquoted())
}

/// Whether the text of the token `t` is what the lexer takes for a token of its kind.
pub open spec fn token_ok(t: TokenView) -> bool {
    match t.kind {
        TokType::Word => word_text(t.text),
        TokType::AssignmentWord => word_text(t.text) && assignment(t.text),
        TokType::Operator => operator(t.text),
        TokType::Newline => t.text == seq![NEWLINE],
        TokType::EOF => false,
    }
}

/// Whether the kind of the token `t` is what the lexer gives it, where
/// `past_first_word` says whether a word that is no assignment stands just
/// before it: an assignment word has none before it, and a word has one
/// before it or has not the form of an assignment.
pub open spec fn kind_ok(past_first_word: bool, t: TokenView) -> bool {
    match t.kind {
        TokType::AssignmentWord => !past_first_word,
        TokType::Word => past_first_word || !assignment(t.text),
        _ => true,
    }
}

/// Whether a word that is no assignment stands just before the token at `i`.
pub open spec fn after_word(tokens: Seq<TokenView>, i: int) -> bool {
    0 < i <= tokens.len() && tokens[i - 1].kind == TokType::Word
}

/// Whether `tokens` are such as the lexer hands out, where `past_first_word`
/// holds at the first of them.
#[verifier::opaque]
pub open spec fn lexable_with(tokens: Seq<TokenView>, past_first_word: bool) -> bool {
    forall|i: int|
        0 <= i < tokens.len() ==> token_ok(#[trigger] tokens[i]) && kind_ok(
            if i == 0 {
                past_first_word
            } else {
                after_word(tokens, i)
            },
            tokens[i],
        )
}

/// Whether `tokens` are such as the lexer hands out for a whole input.
pub open spec fn lexable(tokens: Seq<TokenView>) -> bool {
    lexable_with(tokens, false)
}

/// What holds of each token where the tokens are such as the lexer hands out.
pub proof fn lemma_lexable_at(tokens: Seq<TokenView>, past_first_word: bool, i: int)
    requires
        lexable_with(tokens, past_first_word),
        0 <= i < tokens.len(),
    ensures
        token_ok(tokens[i]),
        kind_ok(
            if i == 0 {
                past_first_word
            } else {
                after_word(tokens, i)
            },
            tokens[i],
        ),
{
    reveal(lexable_with);
}

/// What holds of each token makes the tokens such as the lexer hands out.
pub proof fn lemma_lexable_from(tokens: Seq<TokenView>, past_first_word: bool)
    requires
        forall|i: int|
            0 <= i < tokens.len() ==> token_ok(#[trigger] tokens[i]) && kind_ok(
                if i == 0 {
                    past_first_word
                } else {
                    after_word(tokens, i)
                },
                tokens[i],
            ),
    ensures
        lexable_with(tokens, past_first_word),
{
    reveal(lexable_with);
}

/// Whether a word that is no assignment stands just before the token at `i`,
/// where `past_first_word` says so for the first token.
pub open spec fn flag_at(tokens: Seq<TokenView>, past_first_word: bool, i: int) -> bool {
    if i == 0 {
        past_first_word
    } else {
        after_word(tokens, i)
    }
}

/// A part of tokens such as the lexer hands out is such as the lexer hands out.
pub proof fn lemma_lexable_part(tokens: Seq<TokenView>, past_first_word: bool, i: int, j: int)
    requires
        lexable_with(tokens, past_first_word),
        0 <= i <= j <= tokens.len(),
    ensures
        lexable_with(tokens.subrange(i, j), flag_at(tokens, past_first_word, i)),
{
    let part = tokens.subrange(i, j);
    assert forall|k: int| 0 <= k < part.len() implies token_ok(#[trigger] part[k]) && kind_ok(
        if k == 0 {
            flag_at(tokens, past_first_word, i)
        } else {
            after_word(part, k)
        },
        part[k],
    ) by {
        lemma_lexable_at(tokens, past_first_word, i + k);
        assert(part[k] == tokens[i + k]);
        if k > 0 {
            assert(part[k - 1] == tokens[i + k - 1]);
        }
    }
    lemma_lexable_from(part, flag_at(tokens, past_first_word, i));
}

/// Tokens such as the lexer hands out, put behind others, are such as the
/// lexer hands out.
pub proof fn lemma_lexable_concat(a: Seq<TokenView>, b: Seq<TokenView>, past_first_word: bool)
    requires
        lexable_with(a, past_first_word),
        lexable_with(b, flag_at(a, past_first_word, a.len() as int)),
    ensures
        lexable_with(a + b, past_first_word),
{
    let all = a + b;
    assert forall|k: int| 0 <= k < all.len() implies token_ok(#[trigger] all[k]) && kind_ok(
        if k == 0 {
            past_first_word
        } else {
            after_word(all, k)
        },
        all[k],
    ) by {
        if k < a.len() {
            lemma_lexable_at(a, past_first_word, k);
            assert(all[k] == a[k]);
            if k > 0 {
                assert(all[k - 1] == a[k - 1]);
            }
        } else {
            lemma_lexable_at(b, flag_at(a, past_first_word, a.len() as int), k - a.len());
            assert(all[k] == b[k - a.len()]);
            if k > a.len() {
                assert(all[k - 1] == b[k - a.len() - 1]);
            } else if k > 0 {
                assert(all[k - 1] == a[k - 1]);
            }
        }
    }
    lemma_lexable_from(all, past_first_word);
}

/// An operator or a newline alone is such as the lexer hands out.
pub proof fn lemma_lexable_one(t: TokenView, past_first_word: bool)
    requires
        token_ok(t),
        t.kind == TokType::Operator || t.kind == TokType::Newline,
    ensures
        lexable_with(seq![t], past_first_word),
        lexable_with(Seq::<TokenView>::empty(), past_first_word),
{
    let one = seq![t];
    assert forall|k: int| 0 <= k < one.len() implies token_ok(#[trigger] one[k]) && kind_ok(
        if k == 0 {
            past_first_word
        } else {
            after_word(one, k)
        },
        one[k],
    ) by {
        assert(one[k] == t);
    }
    lemma_lexable_from(one, past_first_word);
    lemma_lexable_from(Seq::<TokenView>::empty(), past_first_word);
}

/// A scan that ends at `end` sees nothing but the text up to `end`.
proof fn lemma_scan_local(input: Seq<u8>, start: int, pos: int, q: Quoting)
    requires
        0 <= start <= pos <= input.len(),
    ensures
        word_scan(
            input.subrange(start, word_scan(input, pos, q).0),
            pos - start,
            q,
        ) == (word_scan(input, pos, q).0 - start, word_scan(input, pos, q).1),
    decreases input.len() - pos,
{
    lemma_word_scan(input, pos, q);
    let end = word_scan(input, pos, q).0;
    let text = input.subrange(start, end);
    if pos >= input.len() {
    } else if q == unquoted() && delimiter(input[pos]) {
    } else {
        lemma_word_scan(input, pos + 1, quoting_after(q, input[pos]));
        lemma_scan_local(input, start, pos + 1, quoting_after(q, input[pos]));
        assert(text[pos - start] == input[pos]);
    }
}

/// A word scans in a longer text as it does alone, where a delimiter stands behind it.
proof fn lemma_scan_embedded(input: Seq<u8>, a: int, t: Seq<u8>, pos: int, q: Quoting)
    requires
        0 <= a,
        a + t.len() < input.len(),
        input.subrange(a, a + t.len()) == t,
        delimiter(input[a + t.len()]),
        0 <= pos <= t.len(),
        word_scan(t, pos, q) == (t.len() as int, unquoted()),
    ensures
        word_scan(input, a + pos, q) == (a + t.len(), unquoted()),
    decreases t.len() - pos,
{
    if pos < t.len() {
        assert(input[a + pos] == t[pos]);
        lemma_scan_embedded(input, a, t, pos + 1, quoting_after(q, t[pos]));
    }
}

/// What the lexer takes for an operator is an operator.
proof fn lemma_operator_text(input: Seq<u8>, start: int, end: int)
    requires
        0 <= start < end <= input.len(),
        operator(input.subrange(start, end)),
    ensures
        operator(input.subrange(start, operator_end(input, start, end))),
    decreases input.len() - end,
{
    if end < input.len() && operator(input.subrange(start, end + 1)) {
        lemma_operator_text(input, start, end + 1);
    }
}

/// An operator with a space behind it is taken whole, and no further.
#[verifier::spinoff_prover]
proof fn lemma_operator_embedded(input: Seq<u8>, a: int, t: Seq<u8>)
    requires
        0 <= a,
        a + t.len() < input.len(),
        input.subrange(a, a + t.len()) == t,
        input[a + t.len()] == SPACE,
        operator(t),
    ensures
        operator_start(input[a]),
        input[a] != NEWLINE,
        operator_end(input, a, a + 1) == a + t.len(),
{
    reveal_with_fuel(operator_end, 4);
    assert(input[a] == t[0]);
    let one = input.subrange(a, a + 1);
    let two = input.subrange(a, a + 2);
    assert(one.len() == 1 && one[0] == t[0]);
    assert(two.len() == 2 && two[0] == t[0]);
    if t.len() == 1 {
        assert(two[1] == SPACE);
    } else {
        assert(input[a + 1] == t[1]);
        assert(two[1] == t[1]);
        let three = input.subrange(a, a + 3);
        assert(three.len() == 3);
        if t.len() == 2 {
            assert(two =~= t);
            assert(three[2] == SPACE);
        } else {
            assert(t.len() == 3);
            assert(input[a + 2] == t[2]);
            assert(three =~= t);
            assert(two =~= seq![LESS, LESS]);
            let four = input.subrange(a, a + 4);
            assert(four.len() == 4);
        }
    }
}

/// Where a scan stops before the end of the input, it stops at a delimiter
/// that nothing quotes.
proof fn lemma_scan_stop(input: Seq<u8>, pos: int, q: Quoting)
    requires
        0 <= pos <= input.len(),
    ensures
        word_scan(input, pos, q).0 < input.len() ==> word_scan(input, pos, q).1 == unquoted()
            && delimiter(input[word_scan(input, pos, q).0]),
    decreases input.len() - pos,
{
    if pos < input.len() && !(q == unquoted() && delimiter(input[pos])) {
        lemma_scan_stop(input, pos + 1, quoting_after(q, input[pos]));
    }
}

/// The token that the lexer finds has the text of its kind and the kind
/// that its place calls for.
#[verifier::spinoff_prover]
proof fn lemma_step_lexable(input: Seq<u8>, pos: int, past_first_word: bool)
    requires
        0 <= pos <= input.len(),
        step(input, pos, past_first_word) is Token,
    ensures
        ({
            let span = step(input, pos, past_first_word)->span;
            let next = step(input, pos, past_first_word)->past_first_word;
            let first = TokenView { kind: span.kind, text: input.subrange(span.start, span.end) };
            &&& token_ok(first)
            &&& kind_ok(past_first_word, first)
            &&& next == (span.kind == TokType::Word)
        }),
{
    lemma_skip_blanks(input, pos);
    lemma_step_bounds(input, pos, past_first_word);
    let span = step(input, pos, past_first_word)->span;
    let start = skip_blanks(input, pos);
    let text = input.subrange(span.start, span.end);
    if input[start] == NEWLINE {
        assert(text =~= seq![NEWLINE]);
    } else if operator_start(input[start]) {
        let one = input.subrange(start, start + 1);
        assert(one.len() == 1 && one[0] == input[start]);
        lemma_operator_text(input, start, start + 1);
    } else {
        assert(!delimiter(input[start]));
        lemma_word_scan(input, start, unquoted());
        lemma_scan_stop(input, start, unquoted());
        lemma_scan_local(input, start, start, unquoted());
        let (end, q) = word_scan(input, start, unquoted());
        assert(q == unquoted());
        assert(word_text(text));
    }
}

/// The tokens that the lexer hands out are such as it hands out: each has
/// the text of its kind, and the kind that its place calls for.
#[verifier::spinoff_prover]
proof fn lemma_lex_from_lexable(input: Seq<u8>, pos: int, past_first_word: bool)
    requires
        0 <= pos <= input.len(),
    ensures
        lexable_with(
            span_views(input, lex_from(input, pos, past_first_word).tokens),
            past_first_word,
        ),
    decreases input.len() - pos,
{
    reveal(lexable_with);
    lemma_step_bounds(input, pos, past_first_word);
    let tokens = lex_from(input, pos, past_first_word).tokens;
    let views = span_views(input, tokens);
    match step(input, pos, past_first_word) {
        Step::Token { span, past_first_word: next } => {
            let rest = lex_from(input, span.end, next).tokens;
            let rest_views = span_views(input, rest);
            lemma_lex_from_lexable(input, span.end, next);
            lemma_step_lexable(input, pos, past_first_word);
            assert(tokens =~= seq![span] + rest);
            let first = TokenView { kind: span.kind, text: input.subrange(span.start, span.end) };
            assert(views[0] == first);
            assert forall|i: int| 0 <= i < views.len() implies token_ok(#[trigger] views[i])
                && kind_ok(
                if i == 0 {
                    past_first_word
                } else {
                    after_word(views, i)
                },
                views[i],
            ) by {
                if i > 0 {
                    assert(views[i] == rest_views[i - 1]);
                    assert(token_ok(rest_views[i - 1]));
                    if i > 1 {
                        assert(views[i - 1] == rest_views[i - 2]);
                        assert(after_word(views, i) == after_word(rest_views, i - 1));
                    } else {
                        assert(after_word(views, i) == next);
                    }
                }
            }
        },
        _ => {
            assert(views =~= Seq::<TokenView>::empty());
        },
    }
}

/// The tokens of an input are such as the lexer hands out.
pub proof fn lemma_lex_lexable(input: Seq<u8>)
    ensures
        lexable(span_views(input, lex(input).tokens)),
{
    lemma_lex_from_lexable(input, 0, false);
}

/// Where the token at `k` starts in the text in which each token has a space behind it.
pub open spec fn offset(tokens: Seq<TokenView>, k: int) -> int
    decreases k,
{
    if k <= 0 {
        0
    } else {
        offset(tokens, k - 1) + tokens[k - 1].text.len() + 1
    }
}

/// The text of the tokens lies in what they are joined to as `offset` says.
#[verifier::spinoff_prover]
proof fn lemma_joined_layout(tokens: Seq<TokenView>, k: int)
    requires
        0 <= k <= tokens.len(),
    ensures
        0 <= offset(tokens, k) <= joined(tokens, 0).len(),
        joined(tokens, 0).subrange(offset(tokens, k), joined(tokens, 0).len() as int) == joined(
            tokens,
            k,
        ),
    decreases k,
{
    let input = joined(tokens, 0);
    if k == 0 {
        assert(input.subrange(0, input.len() as int) =~= input);
    } else {
        lemma_joined_layout(tokens, k - 1);
        let before = offset(tokens, k - 1);
        let t = tokens[k - 1].text;
        assert(joined(tokens, k - 1) == t + seq![SPACE] + joined(tokens, k));
        assert(input.subrange(offset(tokens, k), input.len() as int) =~= input.subrange(
            before,
            input.len() as int,
        ).subrange(t.len() as int + 1, input.len() - before));
        assert((t + seq![SPACE] + joined(tokens, k)).subrange(
            t.len() as int + 1,
            (t + seq![SPACE] + joined(tokens, k)).len() as int,
        ) =~= joined(tokens, k));
    }
}

/// The token at `k` stands at its offset, with a space behind it.
#[verifier::spinoff_prover]
proof fn lemma_joined_token(tokens: Seq<TokenView>, k: int)
    requires
        0 <= k < tokens.len(),
    ensures
        0 <= offset(tokens, k),
        offset(tokens, k) + tokens[k].text.len() < joined(tokens, 0).len(),
        joined(tokens, 0).subrange(
            offset(tokens, k),
            offset(tokens, k) + tokens[k].text.len(),
        ) == tokens[k].text,
        joined(tokens, 0)[offset(tokens, k) + tokens[k].text.len()] == SPACE,
        offset(tokens, k + 1) == offset(tokens, k) + tokens[k].text.len() + 1,
        offset(tokens, k + 1) <= joined(tokens, 0).len(),
{
    let input = joined(tokens, 0);
    let t = tokens[k].text;
    let a = offset(tokens, k);
    lemma_joined_layout(tokens, k);
    lemma_joined_layout(tokens, k + 1);
    let tail = joined(tokens, k);
    assert(tail == t + seq![SPACE] + joined(tokens, k + 1));
    assert(input.subrange(a, a + t.len()) =~= tail.subrange(0, t.len() as int));
    assert(tail.subrange(0, t.len() as int) =~= t);
    assert(input[a + t.len()] == tail[t.len() as int]);
}

/// The first byte of a token is no blank.
proof fn lemma_token_start(t: TokenView)
    requires
        token_ok(t),
    ensures
        t.text.len() > 0,
        !is_blank(t.text[0]),
        t.kind == TokType::Newline <==> t.text[0] == NEWLINE,
        t.kind == TokType::Operator <==> operator_start(t.text[0]),
{
    match t.kind {
        TokType::Word | TokType::AssignmentWord => {
            lemma_word_scan(t.text, 0, unquoted());
        },
        _ => {},
    }
}

/// What the lexer finds at or just before the offset of the token at `k` is that token.
#[verifier::spinoff_prover]
proof fn lemma_step_joined(tokens: Seq<TokenView>, k: int, pos: int)
    requires
        lexable(tokens),
        0 <= k < tokens.len(),
        pos == offset(tokens, k) || (k > 0 && pos == offset(tokens, k) - 1),
    ensures
        0 <= pos,
        step(joined(tokens, 0), pos, after_word(tokens, k)) == (Step::Token {
            span: Span {
                kind: tokens[k].kind,
                start: offset(tokens, k),
                end: offset(tokens, k) + tokens[k].text.len(),
            },
            past_first_word: tokens[k].kind == TokType::Word,
        }),
        joined(tokens, 0).subrange(offset(tokens, k), offset(tokens, k) + tokens[k].text.len())
            == tokens[k].text,
        pos < offset(tokens, k) + tokens[k].text.len() < joined(tokens, 0).len(),
        offset(tokens, k) + tokens[k].text.len() == offset(tokens, k + 1) - 1,
{
    let input = joined(tokens, 0);
    let flag = after_word(tokens, k);
    lemma_joined_layout(tokens, k);
    let a = offset(tokens, k);
    if k > 0 {
        lemma_joined_token(tokens, k - 1);
    }
    let t = tokens[k];
    lemma_joined_token(tokens, k);
    lemma_lexable_at(tokens, false, k);
    lemma_token_start(t);
    assert(input[a] == input.subrange(a, a + t.text.len())[0]);
    assert(input[a] == t.text[0]);
    assert(0 <= a < input.len());
    assert(!is_blank(input[a]));
    assert(skip_blanks(input, a) == a);
    if pos != a {
        assert(pos == offset(tokens, k - 1) + tokens[k - 1].text.len());
        assert(input[pos] == SPACE);
        assert(is_blank(input[pos]));
        assert(skip_blanks(input, pos) == skip_blanks(input, pos + 1));
    }
    assert(skip_blanks(input, pos) == a);
    match t.kind {
        TokType::Newline => {
            assert(input.subrange(a, a + 1) =~= t.text);
        },
        TokType::Operator => {
            lemma_operator_embedded(input, a, t.text);
        },
        _ => {
            lemma_scan_embedded(input, a, t.text, 0, unquoted());
        },
    }
}

/// To lex the text in which each of the tokens `tokens` has a space behind it
/// gives the tokens back, from any of them on.
#[verifier::spinoff_prover]
proof fn lemma_lex_joined_from(tokens: Seq<TokenView>, k: int, pos: int)
    requires
        lexable(tokens),
        0 <= k <= tokens.len(),
        pos == offset(tokens, k) || (k > 0 && pos == offset(tokens, k) - 1),
    ensures
        lex_from(joined(tokens, 0), pos, after_word(tokens, k)).awaited is None,
        span_views(
            joined(tokens, 0),
            lex_from(joined(tokens, 0), pos, after_word(tokens, k)).tokens,
        ) == tokens.subrange(k, tokens.len() as int),
    decreases tokens.len() - k,
{
    let input = joined(tokens, 0);
    let flag = after_word(tokens, k);
    if k == tokens.len() {
        lemma_joined_layout(tokens, k);
        if k > 0 {
            lemma_joined_token(tokens, k - 1);
        }
        assert(joined(tokens, k) == Seq::<u8>::empty());
        assert(offset(tokens, k) == input.len());
        reveal_with_fuel(skip_blanks, 2);
        assert(skip_blanks(input, pos) == offset(tokens, k));
        assert(lex_from(input, pos, flag).tokens =~= Seq::<Span>::empty());
        assert(span_views(input, lex_from(input, pos, flag).tokens) =~= tokens.subrange(
            k,
            tokens.len() as int,
        ));
    } else {
        let t = tokens[k];
        lemma_step_joined(tokens, k, pos);
        let a = offset(tokens, k);
        let end = a + t.text.len();
        lemma_lex_joined_from(tokens, k + 1, end);
        let rest = lex_from(input, end, t.kind == TokType::Word);
        assert(after_word(tokens, k + 1) == (t.kind == TokType::Word));
        let all = lex_from(input, pos, flag);
        let span = Span { kind: t.kind, start: a, end };
        assert(all.tokens =~= seq![span] + rest.tokens);
        assert(all.awaited == rest.awaited);
        assert(span_views(input, all.tokens) =~= seq![t] + span_views(input, rest.tokens));
        assert(seq![t] + tokens.subrange(k + 1, tokens.len() as int) =~= tokens.subrange(
            k,
            tokens.len() as int,
        ));
    }
}

/// To lex the text in which each of the tokens `tokens` has a space behind
/// it gives the tokens back, where they are such as the lexer hands out.
pub proof fn lemma_lex_joined(tokens: Seq<TokenView>)
    requires
        lexable(tokens),
    ensures
        lex(joined(tokens, 0)).awaited is None,
        span_views(joined(tokens, 0), lex(joined(tokens, 0)).tokens) == tokens,
{
    lemma_lex_joined_from(tokens, 0, 0);
    assert(tokens.subrange(0, tokens.len() as int) =~= tokens);
}

} // verus!
