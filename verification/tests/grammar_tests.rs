use rash::ast::AndOr;
use rash::ast::AndOrOp;
use rash::ast::CompleteCommand;
use rash::ast::CompleteCommands;
use rash::ast::Pipeline;
use rash::ast::Arg;
use rash::ast::Command;
use rash::ast::Program;
use rash::ast::SimpleCommand;
use rash::ast::TermOp;
use rash::grammar::parse;
use rash::grammar::ParseError;

fn try_parse(input: &str) -> Result<Program<'_>, ParseError<'_>> {
    parse(input.as_bytes())
}

fn parse_ok(input: &str) -> Program<'_> {
    try_parse(input).unwrap()
}

fn complete_command<'a>(program: &'a Program) -> &'a Vec<(TermOp, AndOr<'a>)> {
    &program.commands.complete_commands[0].and_ors
}

fn single_command<'a>(program: &'a Program, index: usize) -> &'a SimpleCommand<'a> {
    let command = &complete_command(program)[index].1.pipelines[0].1.commands[0];
    match command {
        Command::Simple(s) => s,
        Command::Compound => {
            panic!("unimplemented");
        }
    }
}

fn first_command<'a>(program: &'a Program) -> &'a SimpleCommand<'a> {
    single_command(program, 0)
}

fn arg(text: &str) -> Arg<'_> {
    Arg::Arg(text.as_bytes())
}

#[test]
fn valid_commands() {
    assert!(try_parse("test\n").is_ok());
    assert!(try_parse("test foo &\n").is_ok());
    assert!(try_parse("test | | \n").is_err());
}

#[test]
fn semicolon_delimiter() {
    // these should parse as two commands
    for input in ["echo foo; bar", "echo foo;bar", "echo foo ; bar"] {
        let program = parse_ok(input);
        let command = complete_command(&program);
        assert_eq!(command.len(), 2);
        let SimpleCommand { assign, cmd, args } = first_command(&program);
        assert_eq!(assign.len(), 0);
        assert_eq!(cmd, &arg("echo"));
        assert_eq!(args[0], arg("foo"));

        let SimpleCommand { assign, cmd, args } = single_command(&program, 1);
        assert_eq!(assign.len(), 0);
        assert_eq!(cmd, &arg("bar"));
        assert_eq!(args.len(), 0);
    }

    // these should parse as one command
    assert_eq!(complete_command(&parse_ok("echo \"foo; bar\"")).len(), 1);
    assert_eq!(complete_command(&parse_ok("echo 'foo; bar'")).len(), 1);
    assert_eq!(complete_command(&parse_ok("echo `foo; bar`")).len(), 1);
}

#[test]
fn simple_argument_parsing() {
    // argument parsing
    let program = parse_ok("echo");
    let SimpleCommand { args, assign: _, cmd } = first_command(&program);
    assert_eq!(cmd, &arg("echo"));
    assert_eq!(args.len(), 0);

    let program = parse_ok("echo foo");
    let SimpleCommand { args, assign: _, cmd: _ } = first_command(&program);
    assert_eq!(args.len(), 1);
    assert_eq!(args[0], arg("foo"));

    // quoting is preserved in the AST
    let program = parse_ok("echo \"foo\"");
    let SimpleCommand { args, assign: _, cmd: _ } = first_command(&program);
    assert_eq!(args.len(), 1);
    assert_eq!(args[0], arg("\"foo\""));

    let program = parse_ok("echo 'foo'");
    let SimpleCommand { args, assign: _, cmd: _ } = first_command(&program);
    assert_eq!(args.len(), 1);
    assert_eq!(args[0], arg("'foo'"));

    // "foo"bar is a single argument
    let program = parse_ok("echo \"foo\"bar");
    let SimpleCommand { args, assign: _, cmd: _ } = first_command(&program);
    assert_eq!(args.len(), 1);
    assert_eq!(args[0], arg("\"foo\"bar"));

    let program = parse_ok("echo \"foo\" bar");
    let SimpleCommand { args, assign: _, cmd: _ } = first_command(&program);
    assert_eq!(args.len(), 2);
    assert_eq!(args[0], arg("\"foo\""));
    assert_eq!(args[1], arg("bar"));
}

#[test]
fn assignment_before_command() {
    // parse a variable assignment before a command
    let program = parse_ok("FOO=BAR echo");
    assert_eq!(
        first_command(&program),
        &SimpleCommand { assign: vec!["FOO=BAR".as_bytes()], cmd: arg("echo"), args: vec![] }
    );
    // value can be empty
    let program = parse_ok("FOO= echo");
    assert_eq!(
        first_command(&program),
        &SimpleCommand { assign: vec!["FOO=".as_bytes()], cmd: arg("echo"), args: vec![] }
    );
    // variable name can't start with a number
    let program = parse_ok("999FOO=BAR echo");
    assert_eq!(
        first_command(&program),
        &SimpleCommand { assign: vec![], cmd: arg("999FOO=BAR"), args: vec![arg("echo")] }
    );
    // but it can contain one
    let program = parse_ok("F9=BAR echo");
    assert_eq!(
        first_command(&program),
        &SimpleCommand { assign: vec!["F9=BAR".as_bytes()], cmd: arg("echo"), args: vec![] }
    );

    // multiple assignments
    let program = parse_ok("a=1 b=2 c=3 echo");
    assert_eq!(
        first_command(&program),
        &SimpleCommand {
            assign: vec!["a=1".as_bytes(), "b=2".as_bytes(), "c=3".as_bytes()],
            cmd: arg("echo"),
            args: vec![],
        }
    );
}

#[test]
fn recognize_pipe_as_delimiter() {
    for input in &["foo | bar\n", "foo|bar\n"] {
        let program = parse_ok(input);
        let pipeline = &program.commands.complete_commands[0].and_ors[0].1.pipelines[0].1;
        assert_eq!(pipeline.commands.len(), 2);
        let commands = &pipeline.commands;
        if let Command::Simple(SimpleCommand { assign: _assign, cmd: Arg::Arg(cmd), args: _args }) =
            &commands[0]
        {
            assert_eq!(cmd, &"foo".as_bytes());
        }
    }
}

#[test]
fn assignment_words_are_positional() {
    let program = parse_ok("a=1 b=2 cmd c=3");
    assert_eq!(
        first_command(&program),
        &SimpleCommand {
            assign: vec!["a=1".as_bytes(), "b=2".as_bytes()],
            cmd: arg("cmd"),
            args: vec![arg("c=3")],
        }
    );
}

#[test]
fn assignments_alone_are_a_command_without_a_name() {
    let program = parse_ok("FOO=bar BAZ=qux");
    assert_eq!(
        first_command(&program),
        &SimpleCommand {
            assign: vec!["FOO=bar".as_bytes(), "BAZ=qux".as_bytes()],
            cmd: arg(""),
            args: vec![],
        }
    );
}

#[test]
fn terminators_are_recorded() {
    let program = parse_ok("a & b ; c &");
    let command = complete_command(&program);
    let ops: Vec<TermOp> = command.iter().map(|(op, _)| *op).collect();
    assert_eq!(ops, vec![TermOp::Amp, TermOp::Semi, TermOp::Amp]);
    let program = parse_ok("a ; b");
    let ops: Vec<TermOp> = complete_command(&program).iter().map(|(op, _)| *op).collect();
    assert_eq!(ops, vec![TermOp::Semi, TermOp::Semi]);
}

#[test]
fn and_or_operators_follow_their_pipelines() {
    let program = parse_ok("a && b || c");
    let list = &complete_command(&program)[0].1;
    let ops: Vec<AndOrOp> = list.pipelines.iter().map(|(op, _)| *op).collect();
    assert_eq!(ops, vec![AndOrOp::And, AndOrOp::Or, AndOrOp::And]);
}

#[test]
fn bang_negates_a_pipeline() {
    let program = parse_ok("! a | b");
    let pipeline = &complete_command(&program)[0].1.pipelines[0].1;
    assert!(pipeline.negated);
    assert_eq!(pipeline.commands.len(), 2);
    let program = parse_ok("a | b");
    assert!(!complete_command(&program)[0].1.pipelines[0].1.negated);
}

#[test]
fn lines_are_complete_commands() {
    let program = parse_ok("\n\na; b\n\nc | d\n");
    assert_eq!(program.commands.complete_commands.len(), 2);
    assert_eq!(program.commands.complete_commands[0].and_ors.len(), 2);
    assert_eq!(program.commands.complete_commands[1].and_ors.len(), 1);
    assert_eq!(parse_ok("").commands.complete_commands.len(), 0);
}

#[test]
fn errors_say_what_is_wrong() {
    match try_parse("a |") {
        Err(ParseError::UnrecognizedEof { location }) => assert_eq!(location, 3),
        other => panic!("{:?}", other),
    }
    match try_parse("a | ; b") {
        Err(ParseError::UnrecognizedToken { token }) => {
            assert_eq!((token.0, token.2), (4, 5));
            assert_eq!(token.1.input, b";");
        }
        other => panic!("{:?}", other),
    }
    match try_parse("a \"b") {
        Err(ParseError::User { error: rash::lexer::LexError::UnexpectedEOF(c) }) => {
            assert_eq!(c, b'"')
        }
        other => panic!("{:?}", other),
    }
}

#[test]
fn syntax_tree_is_built_by_pushing() {
    let simple = |name: &'static str| {
        Command::Simple(SimpleCommand { assign: vec![], cmd: arg(name), args: vec![] })
    };
    let pipeline = Pipeline::new(simple("a")).push(simple("b")).negate();
    assert_eq!(pipeline.commands.len(), 2);
    assert!(pipeline.negated);
    assert!(!pipeline.negate().negated);
    let list = AndOr { pipelines: vec![] }
        .push(AndOrOp::And, Pipeline::new(simple("a")))
        .push(AndOrOp::Or, Pipeline::new(simple("b")));
    assert_eq!(list.pipelines[0].0, AndOrOp::Or);
    assert_eq!(list.pipelines[1].0, AndOrOp::And);
    let mut command = CompleteCommand { and_ors: vec![] }
        .push(TermOp::Semi, AndOr { pipelines: vec![] })
        .push(TermOp::Amp, AndOr { pipelines: vec![] });
    assert_eq!(command.and_ors[0].0, TermOp::Amp);
    assert_eq!(command.and_ors[1].0, TermOp::Semi);
    command.update_last(TermOp::Amp);
    assert_eq!(command.and_ors[1].0, TermOp::Amp);
    let commands = CompleteCommands { complete_commands: vec![] }.push(command);
    assert_eq!(commands.complete_commands.len(), 1);
    let program = Program { commands };
    assert_eq!(program.commands.complete_commands[0].and_ors.len(), 2);
}

#[test]
fn rendered_program_parses_to_the_same_program() {
    for input in [
        "",
        "echo hello\n",
        "a=1 b=2 cmd c=3",
        "FOO=bar",
        "! a | b && c || d ; e & f\n\n g 'h i' \"j;k\" | l\\ m\n",
        "echo \"unterm\nation\" `x y`",
        "a;b;",
        "! ! x",
        "a | ! b=1",
    ] {
        let program = parse_ok(input);
        let text = rash::render::render(&program);
        let again = parse(&text).unwrap();
        assert_eq!(again, program, "{:?}", input);
        // what is written out is written out in the same way again
        assert_eq!(rash::render::render(&again), text);
    }
    assert_eq!(rash::render::render(&parse_ok("a  |b;c&")), b"a | b ; c & \n ".to_vec());
    assert_eq!(rash::render::render(&parse_ok("x=1 !  y &&\tz")), b"x=1 ! y && z ; \n ".to_vec());
    assert_eq!(rash::render::render(&parse_ok("")), b"".to_vec());
}
