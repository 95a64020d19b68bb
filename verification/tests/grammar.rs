use docopt::errors::Fault;
use docopt::leaf::LeafKind;
use docopt::pattern::Pattern;
use docopt::{Docopt, Error, Value};

fn text(v: &Vec<char>) -> String {
    v.iter().collect()
}

fn fault(doc: &str) -> Fault {
    match Docopt::new(doc) {
        Err(Error::Grammar(f)) => f,
        other => panic!("no grammar error: {:?}", other),
    }
}

#[test]
fn a_document_without_usage_is_refused() {
    assert_eq!(fault("Options:\n  -h  Help."), Fault::MissingUsage);
    assert_eq!(fault(""), Fault::MissingUsage);
}

#[test]
fn a_usage_section_without_pattern_is_refused() {
    assert_eq!(fault("Usage:\n\n  prog"), Fault::EmptyUsage);
    assert_eq!(fault("usage:   "), Fault::EmptyUsage);
    assert_eq!(fault("Usage:\nprog"), Fault::EmptyUsage);
}

#[test]
fn brackets_must_balance() {
    assert_eq!(fault("Usage: prog [a"), Fault::Unclosed);
    assert_eq!(fault("Usage: prog (a"), Fault::Unclosed);
    assert_eq!(fault("Usage: prog (a]"), Fault::Unclosed);
    assert_eq!(fault("Usage: prog [a)"), Fault::Unclosed);
    assert_eq!(fault("Usage: prog a]"), Fault::Unopened);
    assert_eq!(fault("Usage: prog a)"), Fault::Unopened);
}

#[test]
fn an_ellipsis_needs_something_before_it() {
    assert_eq!(fault("Usage: prog ..."), Fault::DanglingDots);
    assert_eq!(fault("Usage: prog [...]"), Fault::DanglingDots);
    assert_eq!(fault("Usage: prog a | ..."), Fault::DanglingDots);
}

#[test]
fn the_word_usage_is_found_in_any_case() {
    assert!(Docopt::new("USAGE: prog").is_ok());
    assert!(Docopt::new("  uSaGe: prog").is_ok());
}

#[test]
fn each_usage_line_is_one_alternative() {
    let d = Docopt::new("Usage:\n  prog a\n  prog b <x>\n\nMore text, not usage.\n  prog c").unwrap();
    assert_eq!(d.usages.len(), 2);
    assert_eq!(d.table.len(), 3);
    assert_eq!(text(&d.table[0].name), "a");
    assert_eq!(text(&d.table[1].name), "b");
    assert_eq!(text(&d.table[2].name), "<x>");
    assert_eq!(d.table[2].kind, LeafKind::Positional);
}

#[test]
fn a_line_indented_less_than_the_header_ends_the_section() {
    let d = Docopt::new("    Usage:\n      prog a\n  prog b").unwrap();
    assert_eq!(d.usages.len(), 1);
}

#[test]
fn declared_options_come_first_in_the_table() {
    let d = Docopt::new(
        "Usage: prog [-v] [--out=<file>] <in>

Options:
  -h, --help        Show help.
  -o, --out=<file>  Output [default: a.out].
  -v                Verbose.
",
    )
    .unwrap();
    assert_eq!(d.table.len(), 4);
    assert_eq!(text(&d.table[0].name), "--help");
    assert_eq!(d.table[0].alias.as_ref().map(text), Some("-h".to_string()));
    assert!(!d.table[0].takes_value);
    assert_eq!(text(&d.table[1].name), "--out");
    assert_eq!(d.table[1].alias.as_ref().map(text), Some("-o".to_string()));
    assert!(d.table[1].takes_value);
    assert_eq!(d.table[1].default.as_ref().map(text), Some("a.out".to_string()));
    assert_eq!(text(&d.table[2].name), "-v");
    assert_eq!(d.table[2].alias, None);
    assert_eq!(d.table[2].kind, LeafKind::Flag);
    assert_eq!(text(&d.table[3].name), "<in>");
}

#[test]
fn a_placeholder_or_a_default_makes_an_option_take_a_value() {
    let d = Docopt::new(
        "Usage: prog [options]

Options:
  -a ARG       With a placeholder.
  -b  ARG      The placeholder is part of the description.
  --cc         Given as [default:  x y  ].
  --dd <v>     In angle brackets.
  --ee         Plain.
  --ff         An open [default: z
  -g x         A word in lower case is no placeholder.
  -h=Arg       Nor is one in mixed case.
  -i, --ii=II  One after an equal sign is.
",
    )
    .unwrap();
    let takes: Vec<bool> = d.table.iter().map(|l| l.takes_value).collect();
    assert_eq!(takes, vec![true, false, true, true, false, false, false, false, true]);
    assert_eq!(d.table[2].default.as_ref().map(text), Some("x y".to_string()));
    assert_eq!(d.table[5].default, None);
}

#[test]
fn an_option_line_outside_an_options_section_declares_nothing() {
    let d = Docopt::new("Usage: prog\n\n  -x ARG  Not declared.\n").unwrap();
    assert_eq!(d.table.len(), 0);
    let d = Docopt::new("Usage: prog\n\nOptions:\n  -x ARG  Declared.\nText.\n  -y  Not declared.\n").unwrap();
    assert_eq!(d.table.len(), 1);
}

#[test]
fn a_line_without_a_spelling_declares_nothing() {
    let d = Docopt::new("Usage: prog\n\nOptions:\n  - x\n  -  ARG\n  -, -a  A.").unwrap();
    assert_eq!(d.table.len(), 1);
    assert_eq!(text(&d.table[0].name), "-a");
}

#[test]
fn an_undeclared_option_takes_no_value() {
    let d = Docopt::new("Usage: prog --out FILE").unwrap();
    assert_eq!(d.table.len(), 2);
    assert!(!d.table[0].takes_value);
    assert_eq!(text(&d.table[1].name), "FILE");
    assert_eq!(d.table[1].kind, LeafKind::Positional);
}

#[test]
fn a_declared_option_takes_the_placeholder_after_it() {
    let d = Docopt::new("Usage: prog --out FILE <in>\n\nOptions:\n  --out FILE  Output.").unwrap();
    assert_eq!(d.table.len(), 2);
    assert_eq!(text(&d.table[1].name), "<in>");
    let d = Docopt::new("Usage: prog -vo FILE\n\nOptions:\n  -o FILE  Output.").unwrap();
    assert_eq!(d.table.len(), 2);
    assert_eq!(text(&d.table[1].name), "-v");
}

#[test]
fn an_equal_sign_in_the_usage_makes_a_new_option_take_a_value() {
    let d = Docopt::new("Usage: prog --speed=<kn>").unwrap();
    assert_eq!(d.table.len(), 1);
    assert_eq!(text(&d.table[0].name), "--speed");
    assert!(d.table[0].takes_value);
}

#[test]
fn leaves_under_an_ellipsis_repeat() {
    let d = Docopt::new("Usage: prog <a> (<b> [<c>])... [-v...] <d>").unwrap();
    let repeats: Vec<bool> = d.table.iter().map(|l| l.repeats).collect();
    assert_eq!(repeats, vec![false, true, true, true, false]);
}

#[test]
fn the_tree_of_a_line() {
    let d = Docopt::new("Usage: prog a [-x <y>] (b | c)...").unwrap();
    assert_eq!(d.usages.len(), 1);
    match &d.usages[0] {
        Pattern::Sequence(items) => {
            assert_eq!(items.len(), 3);
            assert!(matches!(items[0], Pattern::Command(0)));
            match &items[1] {
                Pattern::Optional(inner) => match &**inner {
                    Pattern::Sequence(group) => {
                        assert_eq!(group.len(), 2);
                        match &group[0] {
                            Pattern::Optional(x) => assert!(matches!(**x, Pattern::OptionRef(1))),
                            other => panic!("{:?}", other),
                        }
                        assert!(matches!(group[1], Pattern::Positional(2)));
                    },
                    other => panic!("{:?}", other),
                },
                other => panic!("{:?}", other),
            }
            match &items[2] {
                Pattern::OneOrMore(inner) => match &**inner {
                    Pattern::Required(choice) => match &**choice {
                        Pattern::Either(branches) => assert_eq!(branches.len(), 2),
                        other => panic!("{:?}", other),
                    },
                    other => panic!("{:?}", other),
                },
                other => panic!("{:?}", other),
            }
        },
        other => panic!("{:?}", other),
    }
}

#[test]
fn options_between_brackets_stand_for_the_declared_options() {
    let d = Docopt::new("Usage: prog [options] <x>\n\nOptions:\n  -a  A.\n  -b  B.").unwrap();
    match &d.usages[0] {
        Pattern::Sequence(items) => {
            assert!(matches!(items[0], Pattern::AnyOptions(2)));
        },
        other => panic!("{:?}", other),
    }
    let vals = d.argv(&["prog", "-b", "-a", "x"]).parse().unwrap();
    assert_eq!(vals.find("-a"), Some(&Value::Switch(true)));
    assert_eq!(vals.find("-b"), Some(&Value::Switch(true)));
    assert_eq!(vals.find("<x>"), Some(&Value::Plain(Some("x".to_string()))));
}
