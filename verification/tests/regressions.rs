use docopt::fields::{Field, FieldKind, FieldValue};
use docopt::{get_args, map_from_alist, same_args, ArgvMap, Docopt, Error, Value};

fn field(name: &str, kind: FieldKind) -> Field {
    Field { name: name.to_string(), kind }
}

fn strings(items: &[&str]) -> Vec<String> {
    items.iter().map(|s| s.to_string()).collect()
}

#[test]
fn test_issue_13() {
    let vals = get_args("Usage: prog file <file>", &["file", "file"]);
    let expected = map_from_alist(vec![
        ("file", Value::Switch(true)),
        ("<file>", Value::Plain(Some("file".to_string()))),
    ]);
    same_args(&expected, &vals);
}

#[test]
fn test_issue_129() {
    let vals = get_args(
        "Usage: prog [options]

Options:
    --foo ARG   Foo foo.",
        &["--foo=a b"],
    );
    let expected = map_from_alist(vec![("--foo", Value::Plain(Some("a b".into())))]);
    same_args(&expected, &vals);
}

#[test]
fn regression_issue_12() {
    const USAGE: &'static str = "
    Usage:
        whisper info <file>
        whisper update <file> <timestamp> <value>
        whisper mark <file> <value>
    ";

    let fields = vec![
        field("arg_file", FieldKind::Text),
        field("cmd_info", FieldKind::Flag),
        field("cmd_update", FieldKind::Flag),
        field("arg_timestamp", FieldKind::Number),
        field("arg_value", FieldKind::Text),
    ];
    let dopt = Docopt::new(USAGE)
        .unwrap()
        .argv(&["whisper", "mark", "./p/blah", "100"])
        .parse()
        .unwrap()
        .decode(&fields)
        .unwrap();
    assert_eq!(dopt[3], FieldValue::Number(0));
    assert_eq!(dopt[0], FieldValue::Text("./p/blah".to_string()));
    assert_eq!(dopt[1], FieldValue::Flag(false));
    assert_eq!(dopt[2], FieldValue::Flag(false));
    let arg_value: f64 = match &dopt[4] {
        FieldValue::Text(s) => s.parse().unwrap(),
        _ => panic!("arg_value is no text"),
    };
    assert_eq!(arg_value, 100.0);
}

#[test]
fn regression_issue_195() {
    const USAGE: &'static str = "
    Usage:
        slow [-abcdefghijklmnopqrs...]
    ";

    let argv = &["slow", "-abcdefghijklmnopqrs"];
    let dopt: Docopt = Docopt::new(USAGE).unwrap().argv(argv);

    let vals = dopt.parse().unwrap();
    for c in "abcdefghijklmnopqrs".chars() {
        let key = format!("-{}", c);
        assert_eq!(vals.find(&key), Some(&Value::Switch(true)));
    }
}

#[test]
fn regression_issue_219() {
    const USAGE: &'static str = "
    Usage:
        encode [-v <type> <param>]...
    ";

    let argv = &["encode", "-v", "bool", "true", "string", "foo"];
    let fields = vec![field("arg_type", FieldKind::List), field("arg_param", FieldKind::List)];
    let args = Docopt::new(USAGE).unwrap().argv(argv).parse().unwrap().decode(&fields).unwrap();
    assert_eq!(args[0], FieldValue::List(vec!["bool".to_owned(), "string".to_owned()]));
    assert_eq!(args[1], FieldValue::List(vec!["true".to_owned(), "foo".to_owned()]));
}

#[test]
fn test_unit_struct() {
    const USAGE: &'static str = "
    Usage:
        cargo version [options]

    Options:
        -h, --help               Print this message
    ";

    let argv = &["cargo", "version"];
    let dopt: Result<Vec<FieldValue>, Error> =
        Docopt::new(USAGE).unwrap().argv(argv).parse().and_then(|m: ArgvMap| m.decode(&Vec::new()));
    assert!(dopt.is_ok());
}

#[test]
fn post_double_dash_is_always_arg() {
    const USAGE: &str = "
    Usage:
        whisper info [--foo] [-- <arbitrary>...]
    ";

    const ARGS: &[&str] = &["whisper", "info", "--foo", "--", "./p/blah", "foo", "-fff", "--yy"];
    let fields = vec![
        field("cmd_info", FieldKind::Flag),
        field("flag_foo", FieldKind::Flag),
        field("arg_arbitrary", FieldKind::List),
    ];
    let dopt = Docopt::new(USAGE)
        .expect("Parsing usage works. qed")
        .argv(ARGS)
        .parse()
        .expect("Parsing of arguments works")
        .decode(&fields)
        .expect("Deserializing of test works");
    assert_eq!(dopt[0], FieldValue::Flag(true));
    assert_eq!(dopt[1], FieldValue::Flag(true));
    assert_eq!(dopt[2], FieldValue::List(strings(&ARGS[4..])));
}
