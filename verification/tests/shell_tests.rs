use rash::context::Context;
use rash::environment::empty;
use rash::eval::Action;
use rash::eval::Eval;
use rash::eval::Event;
use rash::lexer::Tok;
use rash::lexer::TokType;
use rash::shell::add_line;
use rash::shell::describe_token;
use rash::shell::prompt;
use rash::shell::read;
use rash::shell::run_command;
use rash::shell::Reading;
use rash::shell::SYNTAX_ERROR;

fn is_incomplete(input: &str) -> bool {
    matches!(read(input.as_bytes()), Reading::Incomplete)
}

#[test]
fn empty_input_is_the_empty_program() {
    match read(b"") {
        Reading::Program(p) => assert!(p.commands.complete_commands.is_empty()),
        other => panic!("{:?}", other),
    }
    match read(b" \n \n") {
        Reading::Program(p) => assert!(p.commands.complete_commands.is_empty()),
        other => panic!("{:?}", other),
    }
}

#[test]
fn open_quotation_asks_for_more() {
    assert!(is_incomplete("echo \"unterm"));
    assert!(is_incomplete("echo 'unterm"));
    assert!(is_incomplete("echo `unterm"));
    let mut buffer = b"echo \"unterm".to_vec();
    add_line(&mut buffer, b"ation\"");
    assert_eq!(buffer, b"echo \"unterm\nation\"".to_vec());
    match read(&buffer) {
        Reading::Program(p) => {
            assert_eq!(p.commands.complete_commands.len(), 1);
        }
        other => panic!("{:?}", other),
    }
}

#[test]
fn continued_quotation_is_printed_with_its_newline() {
    let mut buffer = Vec::new();
    add_line(&mut buffer, b"echo \"unterm");
    let mut eval = Eval::new(Context::new(true, empty()));
    assert!(matches!(run_command(&mut eval, &buffer), Reading::Incomplete));
    let mut buffer = buffer.clone();
    add_line(&mut buffer, b"ation\"");
    let program = match run_command(&mut eval, &buffer) {
        Reading::Program(p) => p,
        other => panic!("{:?}", other),
    };
    let mut event = Event::Done;
    let mut printed = Vec::new();
    loop {
        match eval.eval(&program, event) {
            Action::Finished => break,
            Action::Fork { plan, .. } => {
                assert_eq!(plan.args[0], b"echo".to_vec());
                printed = plan.args[1].clone();
                event = Event::Fork(None);
            }
            _ => event = Event::Done,
        }
    }
    assert_eq!(printed, b"unterm\nation".to_vec());
}

#[test]
fn trailing_backslash_asks_for_more() {
    assert!(is_incomplete("echo foo \\"));
    assert!(is_incomplete("echo foo\\"));
    let mut buffer = b"echo foo \\".to_vec();
    add_line(&mut buffer, b"bar");
    assert_eq!(buffer, b"echo foo \\\nbar".to_vec());
    let eval = Eval::new(Context::new(true, empty()));
    match read(&buffer) {
        Reading::Program(p) => {
            let command = &p.commands.complete_commands[0].and_ors[0].1.pipelines[0].1.commands[0];
            match command {
                rash::ast::Command::Simple(s) => {
                    assert_eq!(s.args.len(), 2);
                    let rash::ast::Arg::Arg(last) = &s.args[1];
                    assert_eq!(eval.expand_arg(last), b"bar".to_vec());
                }
                other => panic!("{:?}", other),
            }
        }
        other => panic!("{:?}", other),
    }
}

#[test]
fn input_that_ends_too_early_asks_for_more() {
    assert!(is_incomplete("echo a |"));
    assert!(is_incomplete("echo a &&"));
    assert!(is_incomplete("echo a ||"));
    assert!(is_incomplete("!"));
    assert!(!is_incomplete("echo a ;"));
    assert!(!is_incomplete("echo a &"));
}

#[test]
fn misplaced_token_is_refused() {
    match read(b"test | | \n") {
        Reading::Rejected(message) => {
            assert_eq!(
                String::from_utf8(message).unwrap(),
                "rash: unrecognized token Operator `|' at 7..8\n"
            );
        }
        other => panic!("{:?}", other),
    }
    for input in ["| a", "a ;; b", "; a", "a > b", "&& a", "a |\nb", "a && \n b", "a ; ; b"] {
        assert!(matches!(read(input.as_bytes()), Reading::Rejected(_)), "{}", input);
    }
    // the misplaced token comes before the open quotation
    assert!(matches!(read(b"| \"open"), Reading::Rejected(_)));
}

#[test]
fn refused_input_leaves_the_status_two() {
    let mut eval = Eval::new(Context::new(false, empty()));
    assert!(matches!(run_command(&mut eval, b"a | | b"), Reading::Rejected(_)));
    assert_eq!(SYNTAX_ERROR, 2);
    assert_eq!(eval.context.last_return, 2);
    assert!(matches!(run_command(&mut eval, b"echo \"x"), Reading::Incomplete));
    assert_eq!(eval.context.last_return, 2);
    assert!(matches!(run_command(&mut eval, b"echo"), Reading::Program(_)));
    assert_eq!(eval.context.last_return, 2);
}

#[test]
fn prompts() {
    assert_eq!(prompt(false), "$ ");
    assert_eq!(prompt(true), "> ");
}

#[test]
fn tokens_are_described_with_kind_text_and_span() {
    let tok = Tok::new(TokType::Word, b"foo");
    assert_eq!(describe_token(12, &tok, 15), b"Word `foo' at 12..15".to_vec());
    let tok = Tok::new(TokType::AssignmentWord, b"a=1");
    assert_eq!(describe_token(0, &tok, 3), b"AssignmentWord `a=1' at 0..3".to_vec());
}

#[test]
fn lines_are_joined_by_newlines() {
    let mut buffer = Vec::new();
    add_line(&mut buffer, b"a");
    assert_eq!(buffer, b"a".to_vec());
    add_line(&mut buffer, b"");
    assert_eq!(buffer, b"a\n".to_vec());
    add_line(&mut buffer, b"b");
    assert_eq!(buffer, b"a\n\nb".to_vec());
}
