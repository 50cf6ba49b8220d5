use rash::environment::empty;
use rash::environment::from_pairs;
use rash::environment::split_assignment;
use rash::environment::Val;

fn text(bytes: Option<&[u8]>) -> Option<String> {
    bytes.map(|b| String::from_utf8(b.to_vec()).unwrap())
}

#[test]
fn empty_environment_holds_nothing() {
    let env = empty();
    assert_eq!(env.get(b"HOME"), None);
    assert!(env.iter().is_empty());
    assert!(env.exports().is_empty());
}

#[test]
fn set_var_assigns_and_replaces() {
    let mut env = empty();
    env.set_var(b"FOO", b"bar".to_vec(), None);
    assert_eq!(text(env.get(b"FOO")), Some("bar".to_string()));
    env.set_var(b"FOO", b"baz".to_vec(), Some(true));
    assert_eq!(text(env.get(b"FOO")), Some("baz".to_string()));
    assert_eq!(env.iter().len(), 1);
    assert!(env.iter()[0].1.export);
    // an assignment without a word on export takes the mark away
    env.set_var(b"FOO", b"qux".to_vec(), None);
    assert!(!env.iter()[0].1.export);
}

#[test]
fn readonly_variable_keeps_its_value() {
    let mut env = empty();
    env.set_var(b"FOO", b"bar".to_vec(), Some(true));
    env.readonly(b"FOO");
    env.set_var(b"FOO", b"other".to_vec(), None);
    assert_eq!(text(env.get(b"FOO")), Some("bar".to_string()));
    env.unset(b"FOO");
    assert_eq!(text(env.get(b"FOO")), Some("bar".to_string()));
    let vars = env.iter();
    assert!(vars[0].1.export && vars[0].1.readonly);
}

#[test]
fn unset_forgets_a_variable() {
    let mut env = empty();
    env.set_var(b"A", b"1".to_vec(), None);
    env.set_var(b"B", b"2".to_vec(), None);
    env.set_var(b"C", b"3".to_vec(), None);
    env.unset(b"B");
    env.unset(b"missing");
    assert_eq!(env.get(b"B"), None);
    let names: Vec<Vec<u8>> = env.iter().into_iter().map(|(k, _)| k).collect();
    assert_eq!(names, vec![b"A".to_vec(), b"C".to_vec()]);
}

#[test]
fn export_and_readonly_add_unknown_names_without_a_value() {
    let mut env = empty();
    env.export(b"E");
    env.readonly(b"R");
    assert_eq!(env.get(b"E"), None);
    assert_eq!(env.get(b"R"), None);
    let vars = env.iter();
    assert_eq!(vars.len(), 2);
    assert_eq!(vars[0].0, b"E".to_vec());
    assert!(vars[0].1.export && !vars[0].1.readonly && vars[0].1.value.is_none());
    assert!(!vars[1].1.export && vars[1].1.readonly && vars[1].1.value.is_none());
    // a name without a value is not handed to children
    assert!(env.exports().is_empty());
}

#[test]
fn exports_lists_exported_variables_in_order() {
    let mut env = empty();
    env.set_var(b"A", b"1".to_vec(), Some(true));
    env.set_var(b"B", b"2".to_vec(), None);
    env.set_var(b"C", b"".to_vec(), Some(true));
    env.export(b"D");
    assert_eq!(env.exports(), vec![b"A=1".to_vec(), b"C=".to_vec()]);
    env.export(b"B");
    assert_eq!(env.exports(), vec![b"A=1".to_vec(), b"B=2".to_vec(), b"C=".to_vec()]);
}

#[test]
fn parse_splits_at_the_first_equals_sign_behind_the_first_byte() {
    let env = empty();
    assert_eq!(env.parse(b"KEY=VAL"), Some((&b"KEY"[..], &b"VAL"[..])));
    assert_eq!(env.parse(b"KEY="), Some((&b"KEY"[..], &b""[..])));
    assert_eq!(env.parse(b"a=b=c"), Some((&b"a"[..], &b"b=c"[..])));
    // a name may start with `=`
    assert_eq!(env.parse(b"=a=b"), Some((&b"=a"[..], &b"b"[..])));
    assert_eq!(env.parse(b"=="), Some((&b"="[..], &b""[..])));
    assert_eq!(env.parse(b""), None);
    assert_eq!(env.parse(b"="), None);
    assert_eq!(env.parse(b"k"), None);
    assert_eq!(env.parse(b"=a"), None);
    assert_eq!(env.parse(b"KEY"), None);
    assert_eq!(split_assignment(b"x=y"), Some((&b"x"[..], &b"y"[..])));
}

#[test]
fn set_vareq_assigns_without_export() {
    let mut env = empty();
    env.set_vareq(b"FOO=bar");
    env.set_vareq(b"nothing");
    assert_eq!(text(env.get(b"FOO")), Some("bar".to_string()));
    assert_eq!(env.iter().len(), 1);
    assert!(!env.iter()[0].1.export);
}

#[test]
fn from_pairs_exports_every_name() {
    let env = from_pairs(&vec![
        (b"HOME".to_vec(), b"/root".to_vec()),
        (b"PATH".to_vec(), b"/bin".to_vec()),
        (b"HOME".to_vec(), b"/home".to_vec()),
    ]);
    assert_eq!(text(env.get(b"HOME")), Some("/home".to_string()));
    assert_eq!(env.exports(), vec![b"HOME=/home".to_vec(), b"PATH=/bin".to_vec()]);
}

#[test]
fn clone_is_independent() {
    let mut env = empty();
    env.set_var(b"A", b"1".to_vec(), Some(true));
    let mut copy = env.clone();
    copy.set_var(b"A", b"2".to_vec(), Some(true));
    copy.set_var(b"B", b"3".to_vec(), None);
    assert_eq!(text(env.get(b"A")), Some("1".to_string()));
    assert_eq!(env.get(b"B"), None);
    assert_eq!(text(copy.get(b"A")), Some("2".to_string()));
}

#[test]
fn default_val_is_unset() {
    let val = Val::default();
    assert!(val.value.is_none() && !val.export && !val.readonly);
}
