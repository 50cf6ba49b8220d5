use rash::lexer::is_assignment;
use rash::lexer::is_name;
use rash::lexer::tokenize;
use rash::lexer::LexError;
use rash::lexer::Lexer;
use rash::lexer::Tok;
use rash::lexer::TokType;

fn kinds_and_texts(input: &str) -> Vec<(TokType, String, usize, usize)> {
    let (tokens, failure) = tokenize(input.as_bytes());
    assert!(failure.is_none());
    tokens
        .iter()
        .map(|(s, t, e)| (t.tok_type, String::from_utf8(t.input.to_vec()).unwrap(), *s, *e))
        .collect()
}

fn tok(kind: TokType, text: &str, start: usize, end: usize) -> (TokType, String, usize, usize) {
    (kind, text.to_string(), start, end)
}

#[test]
fn words_are_parted_by_blanks() {
    assert_eq!(
        kinds_and_texts("echo  foo\tbar"),
        vec![
            tok(TokType::Word, "echo", 0, 4),
            tok(TokType::Word, "foo", 6, 9),
            tok(TokType::Word, "bar", 10, 13),
        ]
    );
}

#[test]
fn empty_input_has_no_tokens() {
    assert_eq!(kinds_and_texts(""), vec![]);
    assert_eq!(kinds_and_texts("  \t "), vec![]);
}

#[test]
fn newline_is_a_token_of_its_own() {
    assert_eq!(
        kinds_and_texts("a\nb\n"),
        vec![
            tok(TokType::Word, "a", 0, 1),
            tok(TokType::Newline, "\n", 1, 2),
            tok(TokType::Word, "b", 2, 3),
            tok(TokType::Newline, "\n", 3, 4),
        ]
    );
}

#[test]
fn operators_take_the_longest_match() {
    assert_eq!(
        kinds_and_texts("a&&b||c;d|e&f"),
        vec![
            tok(TokType::Word, "a", 0, 1),
            tok(TokType::Operator, "&&", 1, 3),
            tok(TokType::Word, "b", 3, 4),
            tok(TokType::Operator, "||", 4, 6),
            tok(TokType::Word, "c", 6, 7),
            tok(TokType::Operator, ";", 7, 8),
            tok(TokType::Word, "d", 8, 9),
            tok(TokType::Operator, "|", 9, 10),
            tok(TokType::Word, "e", 10, 11),
            tok(TokType::Operator, "&", 11, 12),
            tok(TokType::Word, "f", 12, 13),
        ]
    );
    assert_eq!(
        kinds_and_texts("<<- << <> <& >> >& >| ;;"),
        vec![
            tok(TokType::Operator, "<<-", 0, 3),
            tok(TokType::Operator, "<<", 4, 6),
            tok(TokType::Operator, "<>", 7, 9),
            tok(TokType::Operator, "<&", 10, 12),
            tok(TokType::Operator, ">>", 13, 15),
            tok(TokType::Operator, ">&", 16, 18),
            tok(TokType::Operator, ">|", 19, 21),
            tok(TokType::Operator, ";;", 22, 24),
        ]
    );
    // three ampersands are `&&` and `&`
    assert_eq!(
        kinds_and_texts("&&&"),
        vec![tok(TokType::Operator, "&&", 0, 2), tok(TokType::Operator, "&", 2, 3)]
    );
}

#[test]
fn every_operator_is_known() {
    for op in [";", ";;", "|", "||", "&", "&&", "<", "<<", "<<-", "<>", "<&", ">", ">>", ">&", ">|"]
    {
        assert!(Lexer::is_operator(op.as_bytes()), "{}", op);
    }
    for other in ["", "a", "|&", "&|", "<<<", ">>>", "<<--", ";&"] {
        assert!(!Lexer::is_operator(other.as_bytes()), "{}", other);
    }
    for c in ";|&<>".bytes() {
        assert!(Lexer::is_operator_start(c));
    }
    assert!(!Lexer::is_operator_start(b'a'));
    assert!(!Lexer::is_operator_start(b'-'));
}

#[test]
fn quotation_keeps_delimiters_in_a_word() {
    assert_eq!(
        kinds_and_texts("echo \"a b;c\" 'd | e' `f&g`"),
        vec![
            tok(TokType::Word, "echo", 0, 4),
            tok(TokType::Word, "\"a b;c\"", 5, 12),
            tok(TokType::Word, "'d | e'", 13, 20),
            tok(TokType::Word, "`f&g`", 21, 26),
        ]
    );
    // an escaped quotation mark does not end the quotation
    assert_eq!(
        kinds_and_texts("\"a\\\" b\" c"),
        vec![tok(TokType::Word, "\"a\\\" b\"", 0, 7), tok(TokType::Word, "c", 8, 9)]
    );
    // between single quotes a backslash is a byte like any other
    assert_eq!(
        kinds_and_texts("'a\\' b"),
        vec![tok(TokType::Word, "'a\\'", 0, 4), tok(TokType::Word, "b", 5, 6)]
    );
}

#[test]
fn backslash_makes_the_next_byte_part_of_the_word() {
    assert_eq!(kinds_and_texts("a\\ b"), vec![tok(TokType::Word, "a\\ b", 0, 4)]);
    assert_eq!(kinds_and_texts("a\\;b"), vec![tok(TokType::Word, "a\\;b", 0, 4)]);
    assert_eq!(
        kinds_and_texts("echo \\\"foo\\\""),
        vec![tok(TokType::Word, "echo", 0, 4), tok(TokType::Word, "\\\"foo\\\"", 5, 12)]
    );
    // a backslash and a newline continue the line
    assert_eq!(
        kinds_and_texts("foo \\\nbar"),
        vec![tok(TokType::Word, "foo", 0, 3), tok(TokType::Word, "\\\nbar", 4, 9)]
    );
}

#[test]
fn input_that_ends_in_a_quotation_is_an_error() {
    for (input, awaited) in
        [("echo \"unterm", b'"'), ("echo 'unterm", b'\''), ("echo `unterm", b'`'), ("echo \\", b'\\')]
    {
        let (tokens, failure) = tokenize(input.as_bytes());
        assert_eq!(tokens.len(), 1);
        match failure {
            Some(LexError::UnexpectedEOF(c)) => assert_eq!(c, awaited),
            other => panic!("{:?}", other),
        }
    }
}

#[test]
fn error_message_names_the_awaited_byte() {
    assert_eq!(
        LexError::UnexpectedEOF(b'"').message(),
        b"Unexpected EOF while looking for matching `\"'".to_vec()
    );
    assert_eq!(LexError::Other(b"broken").message(), b"broken".to_vec());
}

#[test]
fn assignment_words_come_before_the_first_word() {
    assert_eq!(
        kinds_and_texts("a=1 b=2 cmd c=3"),
        vec![
            tok(TokType::AssignmentWord, "a=1", 0, 3),
            tok(TokType::AssignmentWord, "b=2", 4, 7),
            tok(TokType::Word, "cmd", 8, 11),
            tok(TokType::Word, "c=3", 12, 15),
        ]
    );
}

#[test]
fn each_command_has_its_own_assignment_words() {
    assert_eq!(
        kinds_and_texts("a=1 x; b=2 y | c=3 z\nd=4"),
        vec![
            tok(TokType::AssignmentWord, "a=1", 0, 3),
            tok(TokType::Word, "x", 4, 5),
            tok(TokType::Operator, ";", 5, 6),
            tok(TokType::AssignmentWord, "b=2", 7, 10),
            tok(TokType::Word, "y", 11, 12),
            tok(TokType::Operator, "|", 13, 14),
            tok(TokType::AssignmentWord, "c=3", 15, 18),
            tok(TokType::Word, "z", 19, 20),
            tok(TokType::Newline, "\n", 20, 21),
            tok(TokType::AssignmentWord, "d=4", 21, 24),
        ]
    );
}

#[test]
fn names_are_letters_digits_and_underscores() {
    assert!(is_name(b"FOO"));
    assert!(is_name(b"_foo9"));
    assert!(is_name(b"F9"));
    assert!(!is_name(b""));
    assert!(!is_name(b"9F"));
    assert!(!is_name(b"a-b"));
    assert!(!is_name(b"a b"));
    assert!(!is_name("\u{e9}t\u{e9}".as_bytes()));
    assert!(is_assignment(b"FOO=bar"));
    assert!(is_assignment(b"FOO="));
    assert!(is_assignment(b"a=b=c"));
    assert!(!is_assignment(b"=bar"));
    assert!(!is_assignment(b"FOO"));
    assert!(!is_assignment(b"999FOO=BAR"));
    assert!(!is_assignment(b"\"FOO\"=bar"));
}

#[test]
fn lexer_hands_tokens_out_one_by_one() {
    let mut lexer = Lexer::new(b"a=1 b |c");
    let mut seen = Vec::new();
    while let Some(item) = lexer.next() {
        let (start, tok, end) = item.unwrap();
        seen.push((start, tok.tok_type, tok.input.to_vec(), end));
    }
    assert_eq!(
        seen,
        vec![
            (0, TokType::AssignmentWord, b"a=1".to_vec(), 3),
            (4, TokType::Word, b"b".to_vec(), 5),
            (6, TokType::Operator, b"|".to_vec(), 7),
            (7, TokType::Word, b"c".to_vec(), 8),
        ]
    );
    assert!(lexer.next().is_none());
}

#[test]
fn delimit_hands_out_nothing_without_a_token() {
    let mut lexer = Lexer::new(b"abc");
    assert!(lexer.delimit(TokType::EOF, 0, 3).is_none());
    let (start, tok, end) = lexer.delimit(TokType::Word, 0, 3).unwrap().unwrap();
    assert_eq!((start, end), (0, 3));
    assert_eq!(tok.tok_type, TokType::Word);
    assert_eq!(tok.input, b"abc");
}

#[test]
fn lexemes_and_blanks_make_up_the_input() {
    for input in ["echo  \"a b\"|tr a b ; x=1\ty\n", " a&&b ", "a\\ b 'c d'  "] {
        let (tokens, failure) = tokenize(input.as_bytes());
        assert!(failure.is_none());
        let mut rebuilt: Vec<u8> = Vec::new();
        let mut at = 0;
        for (start, tok, end) in tokens {
            let gap = &input.as_bytes()[at..start];
            assert!(gap.iter().all(|c| *c == b' ' || *c == b'\t'));
            rebuilt.extend_from_slice(gap);
            assert_eq!(tok.input, &input.as_bytes()[start..end]);
            rebuilt.extend_from_slice(tok.input);
            at = end;
        }
        let gap = &input.as_bytes()[at..];
        assert!(gap.iter().all(|c| *c == b' ' || *c == b'\t'));
        rebuilt.extend_from_slice(gap);
        assert_eq!(rebuilt, input.as_bytes());
    }
}

#[test]
fn token_kinds_have_names() {
    assert_eq!(TokType::AssignmentWord.name(), "AssignmentWord");
    assert_eq!(TokType::Word.name(), "Word");
    assert_eq!(TokType::Operator.name(), "Operator");
    assert_eq!(TokType::Newline.name(), "Newline");
    assert_eq!(TokType::EOF.name(), "EOF");
    let tok = Tok::new(TokType::Word, b"x");
    assert_eq!(tok.tok_type, TokType::Word);
    assert_eq!(tok.input, b"x");
}
