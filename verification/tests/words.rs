use docopt::errors::Fault;
use docopt::wordlist::{choices, join_words, run};
use docopt::Error;

fn strings(items: &[&str]) -> Vec<String> {
    items.iter().map(|s| s.to_string()).collect()
}

#[test]
fn choices_are_parted_at_runs_of_blanks() {
    assert_eq!(choices("a b c"), strings(&["a", "b", "c"]));
    assert_eq!(choices("a  \t b"), strings(&["a", "b"]));
    assert_eq!(choices("one"), strings(&["one"]));
    assert_eq!(choices("a\nb"), strings(&["a\nb"]));
}

#[test]
fn a_run_at_either_end_has_an_empty_part_beside_it() {
    assert_eq!(choices(""), strings(&[""]));
    assert_eq!(choices(" "), strings(&["", ""]));
    assert_eq!(choices("  a"), strings(&["", "a"]));
    assert_eq!(choices("a\t"), strings(&["a", ""]));
    assert_eq!(choices(" a b "), strings(&["", "a", "b", ""]));
}

#[test]
fn words_are_joined_by_one_space() {
    assert_eq!(join_words(&strings(&[])), "");
    assert_eq!(join_words(&strings(&["a"])), "a");
    assert_eq!(join_words(&strings(&["a", "", "b c"])), "a  b c");
}

const DOC: &str = "Usage:
  prog [-h] add <name> [--force]
  prog rm FILE...

Options:
  -h, --help   Help.
  -n, --dry    Dry run.
";

#[test]
fn the_word_list_names_flags_and_commands() {
    assert_eq!(run(DOC, &vec![], &vec![]), Ok("--help --dry add --force rm -h -n".to_string()));
}

#[test]
fn a_positional_gives_its_choices() {
    let names = strings(&["name", "FILE", "other"]);
    let possibles = strings(&["x y", "a  b", "no"]);
    assert_eq!(run(DOC, &names, &possibles), Ok("--help --dry add x y --force rm a b -h -n".to_string()));
}

#[test]
fn the_last_choices_for_a_name_count_and_a_name_without_choices_does_not() {
    let names = strings(&["name", "name", "FILE"]);
    let possibles = strings(&["x", "y z"]);
    assert_eq!(run(DOC, &names, &possibles), Ok("--help --dry add y z --force rm -h -n".to_string()));
}

#[test]
fn a_document_without_usage_has_no_word_list() {
    assert_eq!(run("nothing", &vec![], &vec![]), Err(Error::Grammar(Fault::MissingUsage)));
}

#[test]
fn names_and_choices_come_in_pairs() {
    let usage = "
Usage: wordlist [(<name> <possibles>)] ...

Prints the words of the usage given on standard input.
";
    let vals = docopt::Docopt::new(usage)
        .unwrap()
        .argv(&["wordlist", "arg", "a b c", "other", "x"])
        .parse()
        .unwrap();
    assert_eq!(vals.get_vec("<name>"), strings(&["arg", "other"]));
    assert_eq!(vals.get_vec("<possibles>"), strings(&["a b c", "x"]));
    let vals = docopt::Docopt::new(usage).unwrap().argv(&["wordlist"]).parse().unwrap();
    assert_eq!(vals.get_vec("<name>"), strings(&[]));
    assert!(docopt::Docopt::new(usage).unwrap().argv(&["wordlist", "arg"]).parse().is_err());
}

#[test]
fn an_option_declared_twice_gives_each_spelling_once() {
    let doc = "usage: p\noptions:\n -a --b\n -a --b";
    assert_eq!(run(doc, &vec![], &vec![]), Ok("--b -a".to_string()));
}
