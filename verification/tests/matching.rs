use docopt::fields::{field_key, Field, FieldKind, FieldValue};
use docopt::pattern::Pattern;
use docopt::token::{tokenize, Token};
use docopt::{args_agree, get_args, map_from_alist, same_args, ArgvMap, Docopt, Error, Value};

fn chars(s: &str) -> Vec<char> {
    s.chars().collect()
}

fn use_signed(text: &str, expected: Option<i64>) {
    assert_eq!(docopt::value::read_signed(text), expected);
    assert_eq!(plain(text).as_signed(), expected);
}

fn plain(s: &str) -> Value {
    Value::Plain(Some(s.to_string()))
}

fn list(items: &[&str]) -> Value {
    Value::List(items.iter().map(|s| s.to_string()).collect())
}

fn parse(doc: &str, argv: &[&str]) -> Result<ArgvMap, Error> {
    let mut all = vec!["prog"];
    all.extend_from_slice(argv);
    Docopt::new(doc).unwrap().argv(&all).parse()
}

fn shown(toks: &[Token]) -> Vec<String> {
    toks.iter()
        .map(|t| match t {
            Token::Word(w) => format!("word:{}", w.iter().collect::<String>()),
            Token::Flag { name, value: None } => format!("flag:{}", name.iter().collect::<String>()),
            Token::Flag { name, value: Some(v) } => {
                format!("flag:{}={}", name.iter().collect::<String>(), v.iter().collect::<String>())
            },
            Token::Separator => "--".to_string(),
        })
        .collect()
}

const OPTS: &str = "Usage: prog [options] [<x>...]

Options:
  -a            A.
  -b            B.
  -o FILE       Output.
  --long=<v>    Long.
";

#[test]
fn a_bundle_is_one_flag_for_each_letter() {
    let d = Docopt::new(OPTS).unwrap();
    let toks = tokenize(&d.table, &vec![chars("-ab"), chars("-ba")]);
    assert_eq!(shown(&toks), vec!["flag:-a", "flag:-b", "flag:-b", "flag:-a"]);
}

#[test]
fn a_letter_that_takes_a_value_ends_the_bundle() {
    let d = Docopt::new(OPTS).unwrap();
    let toks = tokenize(&d.table, &vec![chars("-aofile"), chars("-o"), chars("-bo"), chars("-oab")]);
    assert_eq!(shown(&toks), vec!["flag:-a", "flag:-o=file", "flag:-o", "flag:-b", "flag:-o", "flag:-o=ab"]);
}

#[test]
fn a_long_flag_is_cut_at_the_first_equal_sign() {
    let d = Docopt::new(OPTS).unwrap();
    let toks = tokenize(&d.table, &vec![chars("--long=a=b c"), chars("--long"), chars("--x="), chars("--=")]);
    assert_eq!(shown(&toks), vec!["flag:--long=a=b c", "flag:--long", "flag:--x=", "flag:--="]);
}

#[test]
fn after_the_separator_everything_is_a_word() {
    let d = Docopt::new(OPTS).unwrap();
    let toks = tokenize(&d.table, &vec![chars("-a"), chars("--"), chars("-b"), chars("--"), chars("--long=1")]);
    assert_eq!(shown(&toks), vec!["flag:-a", "--", "word:-b", "word:--", "word:--long=1"]);
}

#[test]
fn a_dash_alone_and_an_empty_argument_are_words() {
    let d = Docopt::new(OPTS).unwrap();
    let toks = tokenize(&d.table, &vec![chars("-"), chars(""), chars("x")]);
    assert_eq!(shown(&toks), vec!["word:-", "word:", "word:x"]);
}

#[test]
fn an_option_takes_its_value_inline_or_from_the_next_word() {
    let vals = parse(OPTS, &["-o", "f", "--long", "v"]).unwrap();
    assert_eq!(vals.find("-o"), Some(&plain("f")));
    assert_eq!(vals.find("--long"), Some(&plain("v")));
    let vals = parse(OPTS, &["-of", "--long=v"]).unwrap();
    assert_eq!(vals.find("-o"), Some(&plain("f")));
    assert_eq!(vals.find("--long"), Some(&plain("v")));
}

#[test]
fn an_option_without_its_value_does_not_match() {
    assert!(matches!(parse(OPTS, &["-o"]), Err(Error::Usage(_))));
    assert!(matches!(parse(OPTS, &["-o", "-a"]), Err(Error::Usage(_))));
    assert!(matches!(parse(OPTS, &["-a=1"]), Err(Error::Usage(_))));
}

#[test]
fn a_flag_with_a_value_it_does_not_take_does_not_match() {
    let doc = "Usage: prog [--quiet]";
    assert!(parse(doc, &["--quiet"]).is_ok());
    assert!(matches!(parse(doc, &["--quiet=yes"]), Err(Error::Usage(_))));
}

#[test]
fn what_is_not_given_has_its_default() {
    let doc = "Usage: prog [--speed=<kn>] [--name=<n>] [-q] [go] [<x>] [<y>...] [--tag=<t>...] [--lvl=<l>...]

Options:
  --speed=<kn>  Speed [default: 10].
  --lvl=<l>     Level [default: 3].
";
    let vals = parse(doc, &[]).unwrap();
    assert_eq!(vals.find("--speed"), Some(&plain("10")));
    assert_eq!(vals.find("--name"), Some(&Value::Absent));
    assert_eq!(vals.find("-q"), Some(&Value::Switch(false)));
    assert_eq!(vals.find("go"), Some(&Value::Switch(false)));
    assert_eq!(vals.find("<x>"), Some(&Value::Absent));
    assert_eq!(vals.find("<y>"), Some(&list(&[])));
    assert_eq!(vals.find("--tag"), Some(&list(&[])));
    assert_eq!(vals.find("--lvl"), Some(&list(&["3"])));
    assert_eq!(vals.find("--none"), None);
    assert_eq!(vals.entries.len(), 8);
}

#[test]
fn a_given_value_replaces_the_default() {
    let doc = "Usage: prog [--speed=<kn>] [--lvl=<l>]...

Options:
  --speed=<kn>  Speed [default: 10].
  --lvl=<l>     Level [default: 3].
";
    let vals = parse(doc, &["--speed", "20", "--lvl=1", "--lvl=2"]).unwrap();
    assert_eq!(vals.find("--speed"), Some(&plain("20")));
    assert_eq!(vals.find("--lvl"), Some(&list(&["1", "2"])));
}

#[test]
fn both_spellings_find_one_entry() {
    let doc = "Usage: prog [options]\n\nOptions:\n  -h, --help  Help.\n  -o, --out=<f>  Out.";
    let vals = parse(doc, &["-h", "-o", "x"]).unwrap();
    assert_eq!(vals.entries.len(), 2);
    assert_eq!(vals.find("-h"), Some(&Value::Switch(true)));
    assert_eq!(vals.find("--help"), Some(&Value::Switch(true)));
    assert_eq!(vals.find("-o"), Some(&plain("x")));
    assert_eq!(vals.find("--out"), Some(&plain("x")));
    let vals = parse(doc, &["--help", "--out=y"]).unwrap();
    assert_eq!(vals.find("-h"), Some(&Value::Switch(true)));
    assert_eq!(vals.find("-o"), Some(&plain("y")));
}

#[test]
fn the_first_line_that_matches_everything_wins() {
    let doc = "Usage:\n  prog <a>\n  prog <a> <b>\n  prog <c> <d>";
    let vals = parse(doc, &["1", "2"]).unwrap();
    assert_eq!(vals.find("<a>"), Some(&plain("1")));
    assert_eq!(vals.find("<b>"), Some(&plain("2")));
    assert_eq!(vals.find("<c>"), Some(&Value::Absent));
    assert_eq!(vals.find("<d>"), Some(&Value::Absent));
}

#[test]
fn the_first_alternative_that_matches_wins() {
    let doc = "Usage: prog (<a> | <b>) [<c>]";
    let vals = parse(doc, &["1"]).unwrap();
    assert_eq!(vals.find("<a>"), Some(&plain("1")));
    assert_eq!(vals.find("<b>"), Some(&Value::Absent));
    let doc = "Usage: prog (go | <b>)";
    let vals = parse(doc, &["stop"]).unwrap();
    assert_eq!(vals.find("go"), Some(&Value::Switch(false)));
    assert_eq!(vals.find("<b>"), Some(&plain("stop")));
}

#[test]
fn a_sequence_fails_as_a_whole() {
    let doc = "Usage: prog [(<a> stop)] <b>";
    let vals = parse(doc, &["1"]).unwrap();
    assert_eq!(vals.find("<a>"), Some(&Value::Absent));
    assert_eq!(vals.find("<b>"), Some(&plain("1")));
    let vals = parse(doc, &["1", "stop", "2"]).unwrap();
    assert_eq!(vals.find("<a>"), Some(&plain("1")));
    assert_eq!(vals.find("stop"), Some(&Value::Switch(true)));
    assert_eq!(vals.find("<b>"), Some(&plain("2")));
}

#[test]
fn a_repetition_needs_one_match_and_takes_all() {
    let doc = "Usage: prog <x>... ";
    assert!(matches!(parse(doc, &[]), Err(Error::Usage(_))));
    let vals = parse(doc, &["1"]).unwrap();
    assert_eq!(vals.find("<x>"), Some(&list(&["1"])));
    let vals = parse(doc, &["1", "2", "3"]).unwrap();
    assert_eq!(vals.find("<x>"), Some(&list(&["1", "2", "3"])));
}

#[test]
fn a_repetition_of_what_takes_nothing_ends() {
    let doc = "Usage: prog [<x>]... [-v]...";
    let vals = parse(doc, &[]).unwrap();
    assert_eq!(vals.find("<x>"), Some(&list(&[])));
    let vals = parse(doc, &["a", "-v", "-v"]).unwrap();
    assert_eq!(vals.find("<x>"), Some(&list(&["a"])));
    assert_eq!(vals.find("-v"), Some(&Value::Switch(true)));
}

#[test]
fn tokens_left_over_are_an_error_that_holds_the_document() {
    let doc = "Usage: prog <x>\n\nSome more text.";
    assert_eq!(parse(doc, &["1", "2"]), Err(Error::Usage(doc.to_string())));
    assert_eq!(parse(doc, &[]), Err(Error::Usage(doc.to_string())));
    assert_eq!(parse(doc, &["--nope"]), Err(Error::Usage(doc.to_string())));
}

#[test]
fn the_separator_of_the_usage_must_be_given() {
    let doc = "Usage: prog [-- <x>...]";
    assert!(matches!(parse(doc, &["a"]), Err(Error::Usage(_))));
    let vals = parse(doc, &["--", "a", "--b"]).unwrap();
    assert_eq!(vals.find("<x>"), Some(&list(&["a", "--b"])));
    assert!(parse(doc, &[]).is_ok());
}

#[test]
fn strict_mode_names_the_unknown_flag() {
    let doc = "Usage: prog [options] [--] [<x>...]\n\nOptions:\n  -a  A.\n  -o FILE  Out.";
    let d = Docopt::new(doc).unwrap().strict(true);
    let d = d.argv(&["prog", "-a", "--nope=1", "-z"]);
    assert_eq!(d.parse(), Err(Error::UnknownOption("--nope=1".to_string())));
    let d = d.argv(&["prog", "-az"]);
    assert_eq!(d.parse(), Err(Error::UnknownOption("-az".to_string())));
    let d = d.argv(&["prog", "-oz", "--", "--nope"]);
    assert!(d.parse().is_ok());
    let d = d.strict(false).argv(&["prog", "-z"]);
    assert!(matches!(d.parse(), Err(Error::Usage(_))));
}

#[test]
fn the_first_argument_names_the_program() {
    let d = Docopt::new("Usage: prog [<x>]").unwrap();
    let d = d.argv(&[]);
    assert_eq!(d.argv.len(), 0);
    let d = d.argv(&["only"]);
    assert_eq!(d.argv.len(), 0);
    let d = d.argv(&["prog", "a"]);
    assert_eq!(d.argv, vec![chars("a")]);
}

#[test]
fn a_field_reads_the_key_that_its_name_says() {
    assert_eq!(field_key("flag_f"), Some("-f".to_string()));
    assert_eq!(field_key("flag_foo"), Some("--foo".to_string()));
    assert_eq!(field_key("flag_dry_run"), Some("--dry-run".to_string()));
    assert_eq!(field_key("flag_"), Some("--".to_string()));
    assert_eq!(field_key("arg_file"), Some("<file>".to_string()));
    assert_eq!(field_key("arg_FILE"), Some("FILE".to_string()));
    assert_eq!(field_key("arg_my_file"), Some("<my-file>".to_string()));
    assert_eq!(field_key("arg_"), Some("<>".to_string()));
    assert_eq!(field_key("cmd_add"), Some("add".to_string()));
    assert_eq!(field_key("cmd_add_all"), Some("add-all".to_string()));
    assert_eq!(field_key("other"), None);
    assert_eq!(field_key("flag"), None);
}

#[test]
fn a_number_is_decimal_digits_within_64_bits() {
    let doc = "Usage: prog <n>";
    let fields = vec![Field { name: "arg_n".to_string(), kind: FieldKind::Number }];
    let number = |s: &str| parse(doc, &[s]).unwrap().decode(&fields);
    assert_eq!(number("0"), Ok(vec![FieldValue::Number(0)]));
    assert_eq!(number("007"), Ok(vec![FieldValue::Number(7)]));
    assert_eq!(number("1234567890"), Ok(vec![FieldValue::Number(1234567890)]));
    assert_eq!(number("18446744073709551615"), Ok(vec![FieldValue::Number(u64::MAX)]));
    assert_eq!(number("18446744073709551616"), Err(Error::ValueConversion("arg_n".to_string())));
    assert_eq!(number("99999999999999999999999"), Err(Error::ValueConversion("arg_n".to_string())));
    assert_eq!(number("12a"), Err(Error::ValueConversion("arg_n".to_string())));
    assert_eq!(number("+1"), Err(Error::ValueConversion("arg_n".to_string())));
    assert_eq!(number(" 1"), Err(Error::ValueConversion("arg_n".to_string())));
    assert_eq!(number("  "), Err(Error::ValueConversion("arg_n".to_string())));
    assert_eq!(number(""), Err(Error::ValueConversion("arg_n".to_string())));
}

#[test]
fn a_field_without_a_key_is_an_error() {
    let vals = parse("Usage: prog <n>", &["1"]).unwrap();
    let missing = vec![Field { name: "arg_m".to_string(), kind: FieldKind::Text }];
    assert_eq!(vals.decode(&missing), Err(Error::ValueConversion("arg_m".to_string())));
    let unnamed = vec![Field { name: "n".to_string(), kind: FieldKind::Text }];
    assert_eq!(vals.decode(&unnamed), Err(Error::ValueConversion("n".to_string())));
    let both = vec![
        Field { name: "arg_n".to_string(), kind: FieldKind::Text },
        Field { name: "cmd_x".to_string(), kind: FieldKind::Flag },
        Field { name: "cmd_y".to_string(), kind: FieldKind::Flag },
    ];
    assert_eq!(vals.decode(&both), Err(Error::ValueConversion("cmd_x".to_string())));
}

#[test]
fn a_record_without_fields_is_filled_from_any_map() {
    let empty = ArgvMap { entries: Vec::new() };
    assert_eq!(empty.decode(&Vec::new()), Ok(Vec::new()));
    let vals = parse(OPTS, &["-a", "x", "y"]).unwrap();
    assert_eq!(vals.decode(&Vec::new()), Ok(Vec::new()));
}

#[test]
fn values_convert_to_each_type() {
    let doc = "Usage: prog [-q] [-r] [<x>] [<y>...] [<z>]";
    let vals = parse(doc, &["-q", "1"]).unwrap();
    let as_kind = |name: &str, kind: FieldKind| {
        vals.decode(&vec![Field { name: name.to_string(), kind }]).map(|mut v| v.remove(0))
    };
    assert_eq!(as_kind("flag_q", FieldKind::Flag), Ok(FieldValue::Flag(true)));
    assert_eq!(as_kind("flag_q", FieldKind::Number), Ok(FieldValue::Number(1)));
    assert_eq!(as_kind("flag_r", FieldKind::Number), Ok(FieldValue::Number(0)));
    assert_eq!(as_kind("flag_q", FieldKind::Text), Ok(FieldValue::Text(String::new())));
    assert_eq!(as_kind("flag_q", FieldKind::List), Ok(FieldValue::List(vec![])));
    assert_eq!(as_kind("arg_x", FieldKind::Flag), Ok(FieldValue::Flag(true)));
    assert_eq!(as_kind("arg_x", FieldKind::Number), Ok(FieldValue::Number(1)));
    assert_eq!(as_kind("arg_x", FieldKind::Text), Ok(FieldValue::Text("1".to_string())));
    assert_eq!(as_kind("arg_x", FieldKind::List), Ok(FieldValue::List(vec!["1".to_string()])));
    assert_eq!(as_kind("arg_y", FieldKind::Flag), Ok(FieldValue::Flag(false)));
    assert_eq!(as_kind("arg_y", FieldKind::Number), Err(Error::ValueConversion("arg_y".to_string())));
    assert_eq!(as_kind("arg_y", FieldKind::List), Ok(FieldValue::List(vec![])));
    assert_eq!(as_kind("arg_z", FieldKind::Flag), Ok(FieldValue::Flag(false)));
    assert_eq!(as_kind("arg_z", FieldKind::Number), Ok(FieldValue::Number(0)));
    assert_eq!(as_kind("arg_z", FieldKind::Text), Ok(FieldValue::Text(String::new())));
    assert_eq!(as_kind("arg_z", FieldKind::List), Ok(FieldValue::List(vec![])));
}

#[test]
fn the_getters_read_by_key() {
    let vals = parse("Usage: prog [-q] <x> <y>...", &["-q", "1", "2", "3"]).unwrap();
    assert!(vals.get_bool("-q"));
    assert!(!vals.get_bool("-z"));
    assert_eq!(vals.get_str("<x>"), "1");
    assert_eq!(vals.get_str("<y>"), "");
    assert_eq!(vals.get_str("<z>"), "");
    assert_eq!(vals.get_vec("<y>"), vec!["2".to_string(), "3".to_string()]);
    assert_eq!(vals.get_vec("<x>"), vec!["1".to_string()]);
    assert_eq!(vals.get_vec("<z>"), Vec::<String>::new());
}

#[test]
fn in_a_list_of_pairs_the_later_of_two_with_one_key_counts() {
    let m = map_from_alist(vec![("a", Value::Switch(true)), ("b", plain("1")), ("a", Value::Switch(false))]);
    assert_eq!(m.entries.len(), 2);
    assert_eq!(m.find("a"), Some(&Value::Switch(false)));
    assert_eq!(m.find("b"), Some(&plain("1")));
    assert_eq!(m.find("c"), None);
    assert_eq!(map_from_alist(vec![]).entries.len(), 0);
}

#[test]
fn same_args_holds_what_was_got_to_what_was_expected() {
    let got = get_args("Usage: prog go <x> [<y>]", &["go", "1"]);
    same_args(&map_from_alist(vec![]), &got);
    same_args(&map_from_alist(vec![("<x>", plain("1"))]), &got);
    same_args(
        &map_from_alist(vec![("<x>", plain("1")), ("go", Value::Switch(true)), ("<y>", Value::Absent)]),
        &got,
    );
    assert!(args_agree(&map_from_alist(vec![("<x>", plain("1"))]), &got));
    assert!(!args_agree(&map_from_alist(vec![("<x>", plain("2"))]), &got));
    assert!(!args_agree(&map_from_alist(vec![("<x>", list(&["1"]))]), &got));
    assert!(!args_agree(&map_from_alist(vec![("<z>", Value::Absent)]), &got));
    assert!(!args_agree(&map_from_alist(vec![("<x>", plain("1")), ("go", Value::Switch(false))]), &got));
}

#[test]
fn a_signed_number_may_begin_with_a_dash() {
    use_signed("0", Some(0));
    use_signed("-0", Some(0));
    use_signed("42", Some(42));
    use_signed("-42", Some(-42));
    use_signed("9223372036854775807", Some(i64::MAX));
    use_signed("9223372036854775808", None);
    use_signed("-9223372036854775808", Some(i64::MIN));
    use_signed("-9223372036854775809", None);
    use_signed("-", None);
    use_signed("", None);
    use_signed("+1", None);
    use_signed("--1", None);
    use_signed("1-", None);
    assert_eq!(Value::Absent.as_signed(), Some(0));
    assert_eq!(Value::Switch(true).as_signed(), Some(1));
    assert_eq!(list(&["1"]).as_signed(), None);
}

#[test]
fn values_written_back_as_arguments_parse_to_the_same_map() {
    let doc = "Usage: prog add <x> --out <f> -q <y>\n\nOptions:\n  -o, --out FILE  Out.\n  -q  Quiet.";
    let first = parse(doc, &["add", "1", "-o", "a b", "-q", "2"]).unwrap();
    assert_eq!(first.find("<x>"), Some(&plain("1")));
    assert_eq!(first.find("--out"), Some(&plain("a b")));
    let again = vec![
        "add".to_string(),
        first.get_str("<x>"),
        format!("--out={}", first.get_str("--out")),
        "-q".to_string(),
        first.get_str("<y>"),
    ];
    let again: Vec<&str> = again.iter().map(|s| s.as_str()).collect();
    assert_eq!(parse(doc, &again), Ok(first));
}

#[test]
fn lists_of_leaves_captured_in_turns_pair_up() {
    let doc = "Usage: prog (<k> <v>)...";
    let vals = parse(doc, &["a", "1", "b", "2", "c", "3"]).unwrap();
    assert_eq!(vals.find("<k>"), Some(&list(&["a", "b", "c"])));
    assert_eq!(vals.find("<v>"), Some(&list(&["1", "2", "3"])));
    assert!(matches!(parse(doc, &["a", "1", "b"]), Err(Error::Usage(_))));
}

fn inside(p: &Pattern, n: usize) -> bool {
    match p {
        Pattern::Command(id) | Pattern::Positional(id) | Pattern::OptionRef(id) => *id < n,
        Pattern::Separator => true,
        Pattern::AnyOptions(count) => *count <= n,
        Pattern::Sequence(ps) | Pattern::Either(ps) => ps.iter().all(|q| inside(q, n)),
        Pattern::Optional(q) | Pattern::Required(q) | Pattern::OneOrMore(q) => inside(q, n),
    }
}

#[test]
fn a_compiled_grammar_names_leaves_of_its_table() {
    let d = Docopt::new("Usage:\n  prog [options] (a | <b>)... [-x -- <c>]\n  prog -yz Y\n\nOptions:\n  -z ARG  Z.").unwrap();
    assert_eq!(d.table.len(), 6);
    assert!(d.usages.iter().all(|p| inside(p, d.table.len())));
}

const NAVAL: &str = "Naval Fate.

Usage:
  naval_fate ship new <name>...
  naval_fate ship <name> move <x> <y> [--speed=<kn>]
  naval_fate ship shoot <x> <y>
  naval_fate mine (set|remove) <x> <y> [--moored|--drifting]
  naval_fate -h | --help
  naval_fate --version

Options:
  -h --help     Show this screen.
  --version     Show version.
  --speed=<kn>  Speed in knots [default: 10].
  --moored      Moored (anchored) mine.
  --drifting    Drifting mine.
";

#[test]
fn a_ship_moves() {
    let vals = parse(NAVAL, &["ship", "Guardian", "move", "10", "50", "--speed=20"]).unwrap();
    assert_eq!(vals.find("ship"), Some(&Value::Switch(true)));
    assert_eq!(vals.find("new"), Some(&Value::Switch(false)));
    assert_eq!(vals.find("<name>"), Some(&list(&["Guardian"])));
    assert_eq!(vals.find("move"), Some(&Value::Switch(true)));
    assert_eq!(vals.find("<x>"), Some(&plain("10")));
    assert_eq!(vals.find("<y>"), Some(&plain("50")));
    assert_eq!(vals.find("--speed"), Some(&plain("20")));
    assert_eq!(vals.find("--help"), Some(&Value::Switch(false)));
    assert_eq!(vals.entries.len(), 15);
}

#[test]
fn new_ships_and_a_mine() {
    let vals = parse(NAVAL, &["ship", "new", "a", "b"]).unwrap();
    assert_eq!(vals.find("<name>"), Some(&list(&["a", "b"])));
    assert_eq!(vals.find("--speed"), Some(&plain("10")));
    let vals = parse(NAVAL, &["mine", "remove", "1", "2", "--drifting"]).unwrap();
    assert_eq!(vals.find("set"), Some(&Value::Switch(false)));
    assert_eq!(vals.find("remove"), Some(&Value::Switch(true)));
    assert_eq!(vals.find("--drifting"), Some(&Value::Switch(true)));
    assert_eq!(vals.find("--moored"), Some(&Value::Switch(false)));
    let vals = parse(NAVAL, &["-h"]).unwrap();
    assert_eq!(vals.find("--help"), Some(&Value::Switch(true)));
    assert!(matches!(parse(NAVAL, &["mine", "set", "1"]), Err(Error::Usage(_))));
    assert!(matches!(parse(NAVAL, &["mine", "set", "1", "2", "--moored", "--drifting"]), Err(Error::Usage(_))));
}

#[test]
fn an_option_declared_twice_is_one_leaf() {
    let d = Docopt::new("usage: p\noptions:\n -a\n -a").unwrap();
    assert_eq!(d.table.len(), 1);
    let vals = get_args("usage: p\noptions:\n -a\n -a", &[]);
    assert_eq!(vals.entries.len(), 1);
    assert_eq!(vals.find("-a"), Some(&Value::Switch(false)));
}

#[test]
fn a_repeated_declaration_adds_to_the_first() {
    let doc = "Usage: prog [options]

Options:
  -o, --out        Output.
  --out FILE       With a placeholder now.
  -o               With a default [default: x].
  -v, --out        A new spelling beside a known one is not taken up.
  -o               A later default does not count [default: y].
";
    let d = Docopt::new(doc).unwrap();
    assert_eq!(d.table.len(), 1);
    assert_eq!(d.table[0].name.iter().collect::<String>(), "--out");
    assert_eq!(d.table[0].alias, Some(vec!['-', 'o']));
    assert!(d.table[0].takes_value);
    assert_eq!(d.table[0].default, Some(vec!['x']));
    let vals = parse(doc, &["-o", "f"]).unwrap();
    assert_eq!(vals.entries.len(), 1);
    assert_eq!(vals.find("--out"), Some(&plain("f")));
    assert_eq!(parse(doc, &[]).unwrap().find("-o"), Some(&plain("x")));
    assert!(matches!(parse(doc, &["-v"]), Err(Error::Usage(_))));
}

#[test]
fn no_key_names_two_entries() {
    let vals = parse(NAVAL, &["ship", "new", "a"]).unwrap();
    for (i, a) in vals.entries.iter().enumerate() {
        for b in vals.entries.iter().skip(i + 1) {
            assert_ne!(a.key, b.key);
            assert_ne!(Some(&a.key), b.alias.as_ref());
            assert_ne!(a.alias.as_ref(), Some(&b.key));
            assert!(a.alias.is_none() || a.alias != b.alias);
        }
    }
}

#[test]
fn the_line_of_pairs_is_the_group_repeated() {
    let d = Docopt::new("Usage: encode [-v <type> <param>]...").unwrap();
    assert_eq!(d.table.len(), 3);
    assert_eq!(d.table[0].name, chars("-v"));
    assert_eq!(d.table[1].name, chars("<type>"));
    assert_eq!(d.table[2].name, chars("<param>"));
    assert_eq!(d.usages.len(), 1);
    let shape = format!("{:?}", d.usages[0]);
    assert_eq!(
        shape,
        "Sequence([OneOrMore(Optional(Sequence([Optional(OptionRef(0)), Positional(1), Positional(2)])))])"
    );
}

#[test]
fn the_lists_pair_up_for_every_number_of_pairs() {
    let doc = "Usage: encode [-v <type> <param>]...";
    for n in 1..8 {
        let mut argv = vec!["-v".to_string()];
        let mut types = Vec::new();
        let mut params = Vec::new();
        for i in 0..n {
            types.push(format!("t{}", i));
            params.push(format!("p{}", i));
            argv.push(format!("t{}", i));
            argv.push(format!("p{}", i));
        }
        let args: Vec<&str> = argv.iter().map(|s| s.as_str()).collect();
        let vals = parse(doc, &args).unwrap();
        assert_eq!(vals.find("<type>"), Some(&Value::List(types)));
        assert_eq!(vals.find("<param>"), Some(&Value::List(params)));
        assert_eq!(vals.find("-v"), Some(&Value::Switch(true)));
    }
}

#[test]
fn what_follows_the_separator_changes_no_option() {
    let doc = "Usage: prog [options] [<x>] [-- <rest>...]\n\nOptions:\n  -a  A.\n  -o FILE  Out [default: d].";
    let vals = parse(doc, &["-a", "--", "-o", "f", "-a", "--", "--out=1"]).unwrap();
    assert_eq!(vals.find("-a"), Some(&Value::Switch(true)));
    assert_eq!(vals.find("-o"), Some(&plain("d")));
    assert_eq!(vals.find("<x>"), Some(&Value::Absent));
    assert_eq!(vals.find("<rest>"), Some(&list(&["-o", "f", "-a", "--", "--out=1"])));
    let vals = parse(doc, &["--", "-a"]).unwrap();
    assert_eq!(vals.find("-a"), Some(&Value::Switch(false)));
    assert_eq!(vals.find("<rest>"), Some(&list(&["-a"])));
}

#[test]
fn a_value_comes_back_the_same_in_the_next_argument_and_under_either_spelling() {
    let doc = "Usage: prog [options] [go | stop] [<x>]\n\nOptions:\n  -o, --out FILE  Out.\n  -q  Quiet.";
    let inline = parse(doc, &["--out=f", "-q", "stop", "1"]).unwrap();
    assert_eq!(parse(doc, &["-o", "f", "-q", "stop", "1"]), Ok(inline.clone()));
    assert_eq!(parse(doc, &["-of", "-q", "stop", "1"]), Ok(inline.clone()));
    assert_eq!(parse(doc, &["--out", "f", "-q", "stop", "1"]), Ok(inline));
}
