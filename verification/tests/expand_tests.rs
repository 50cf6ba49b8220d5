use rash::bytes::to_decimal;
use rash::environment::empty;
use rash::environment::Environment;
use rash::expand::expand_arg;
use rash::expand::expand_var;

fn env() -> Environment {
    let mut env = empty();
    env.set_var(b"FOO", b"bar".to_vec(), None);
    env.set_var(b"EMPTY", b"".to_vec(), None);
    env.set_var(b"A_1", b"x y".to_vec(), None);
    env.export(b"NOVALUE");
    env
}

fn expand(arg: &str) -> String {
    String::from_utf8(expand_arg(&env(), 7, arg.as_bytes())).unwrap()
}

#[test]
fn plain_words_expand_to_themselves() {
    assert_eq!(expand("hello"), "hello");
    assert_eq!(expand(""), "");
    assert_eq!(expand("a=b/c.d"), "a=b/c.d");
}

#[test]
fn escaped_quotes_stay() {
    assert_eq!(expand("\\\"foo\\\""), "\"foo\"");
}

#[test]
fn quoted_and_unquoted_parts_make_one_word() {
    assert_eq!(expand("\"foo\"bar"), "foobar");
    assert_eq!(expand("a'b c'\"d e\"f"), "ab cd ef");
}

#[test]
fn backslash_outside_quotes() {
    assert_eq!(expand("a\\ b"), "a b");
    assert_eq!(expand("a\\\\b"), "a\\b");
    assert_eq!(expand("a\\$FOO"), "a$FOO");
    assert_eq!(expand("a\\\nb"), "ab");
    assert_eq!(expand("a\\"), "a");
}

#[test]
fn single_quotes_and_backticks_are_literal() {
    assert_eq!(expand("'$FOO \\n \"x\"'"), "$FOO \\n \"x\"");
    assert_eq!(expand("`echo $FOO`"), "echo $FOO");
    assert_eq!(expand("'unterminated"), "unterminated");
}

#[test]
fn backslash_between_double_quotes() {
    assert_eq!(expand("\"a\\$b\""), "a$b");
    assert_eq!(expand("\"a\\\"b\""), "a\"b");
    assert_eq!(expand("\"a\\\\b\""), "a\\b");
    assert_eq!(expand("\"a\\`b\""), "a`b");
    assert_eq!(expand("\"a\\\nb\""), "ab");
    // before any other byte the backslash stays
    assert_eq!(expand("\"a\\nb\""), "a\\nb");
    assert_eq!(expand("\"a'b`c\""), "a'b`c");
    assert_eq!(expand("\"unterm\nation\""), "unterm\nation");
}

#[test]
fn status_parameter() {
    assert_eq!(expand("$?"), "7");
    assert_eq!(expand("a$?b"), "a7b");
    assert_eq!(expand("\"$?\""), "7");
    assert_eq!(expand("${?}"), "7}");
    assert_eq!(String::from_utf8(expand_arg(&env(), -3, b"$?")).unwrap(), "-3");
}

#[test]
fn named_parameters() {
    assert_eq!(expand("$FOO"), "bar");
    assert_eq!(expand("$FOO/bin"), "bar/bin");
    assert_eq!(expand("x$A_1.y"), "xx y.y");
    assert_eq!(expand("\"$FOO baz\""), "bar baz");
    assert_eq!(expand("$UNSET"), "");
    assert_eq!(expand("$NOVALUE"), "");
    assert_eq!(expand("$FOOBAR"), "");
    assert_eq!(expand("$"), "");
    assert_eq!(expand("$1x"), "1x");
    assert_eq!(expand("a$ b"), "a b");
}

#[test]
fn braced_parameters() {
    assert_eq!(expand("${FOO}"), "bar");
    assert_eq!(expand("${FOO}BAR"), "barBAR");
    assert_eq!(expand("${UNSET}x"), "x");
    assert_eq!(expand("${FOO"), "bar");
    assert_eq!(expand("${FOO-other}"), "bar");
    assert_eq!(expand("${UNSET-other}"), "other");
    assert_eq!(expand("${UNSET-a b}c"), "a bc");
    assert_eq!(expand("${NOVALUE-d}"), "d");
    // a value that is empty is a value
    assert_eq!(expand("${EMPTY-d}"), "");
    assert_eq!(expand("${UNSET-}"), "");
    assert_eq!(expand("${UNSET-open"), "open");
}

#[test]
fn expand_var_returns_where_the_parameter_ends() {
    let mut out = b"<".to_vec();
    let arg = b"$FOO/x";
    let end = expand_var(&env(), 0, arg, 1, &mut out);
    assert_eq!(end, 4);
    assert_eq!(out, b"<bar".to_vec());
    let end = expand_var(&env(), 0, b"${UNSET-d}e", 1, &mut out);
    assert_eq!(end, 10);
    assert_eq!(out, b"<bard".to_vec());
}

#[test]
fn expansion_of_expanded_text_changes_nothing() {
    for arg in ["hello", "\"foo\"bar", "'a b'", "a\\ b", "x\\\ny"] {
        let once = expand(arg);
        assert_eq!(expand(&once), once);
    }
}

#[test]
fn decimal_numbers() {
    assert_eq!(to_decimal(0), b"0".to_vec());
    assert_eq!(to_decimal(7), b"7".to_vec());
    assert_eq!(to_decimal(10), b"10".to_vec());
    assert_eq!(to_decimal(127), b"127".to_vec());
    assert_eq!(to_decimal(-1), b"-1".to_vec());
    assert_eq!(to_decimal(i32::MAX), b"2147483647".to_vec());
    assert_eq!(to_decimal(i32::MIN), b"-2147483648".to_vec());
}
