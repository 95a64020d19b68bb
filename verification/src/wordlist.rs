//! The word list of a usage document: every flag and command that it names,
//! and, for the positionals that the caller has choices for, those choices.

use vstd::prelude::*;
use crate::dopt::{compiled, Docopt};
use crate::errors::{Error, ErrorView};
use crate::leaf::{spelled, table_wf, Leaf, LeafKind, LeafView};
use crate::text::{is_blank, joined, lemma_views_push, skip_blanks, to_chars, views, whole_text};
use crate::value::copy_texts;

verus! {

/// The pattern that parts the choices of a positional: a run of blanks.
pub open spec fn blank_run() -> Seq<char> {
    seq!['[', ' ', '\t', ']', '+']
}

/// Skipping blanks never goes back, and goes on where a blank stands.
pub proof fn lemma_skip_blanks_grows(s: Seq<char>, i: int)
    ensures
        skip_blanks(s, i) >= i,
        i <= s.len() ==> skip_blanks(s, i) <= s.len(),
        0 <= i < s.len() && is_blank(s[i]) ==> skip_blanks(s, i) > i,
    decreases s.len() - i,
{
    if 0 <= i < s.len() && is_blank(s[i]) {
        lemma_skip_blanks_grows(s, i + 1);
    }
}

/// The parts of `s` between its runs of blanks, pushed onto `done`. A run
/// at either end of `s` has an empty part beside it, and an empty `s` is
/// one empty part. `start` is where the current part began, `i` the
/// position of the scan.
pub open spec fn parted_from(s: Seq<char>, start: int, i: int, done: Seq<Seq<char>>) -> Seq<Seq<char>>
    recommends
        0 <= start <= i <= s.len(),
    decreases s.len() - i,
{
    if 0 <= start <= i < s.len() {
        if is_blank(s[i]) {
            let next = skip_blanks(s, i);
            proof {
                lemma_skip_blanks_grows(s, i);
            }
            parted_from(s, next, next, done.push(s.subrange(start, i)))
        } else {
            parted_from(s, start, i + 1, done)
        }
    } else {
        done.push(s.subrange(start, s.len() as int))
    }
}

/// The parts of `s` between its runs of blanks.
pub open spec fn parted(s: Seq<char>) -> Seq<Seq<char>> {
    parted_from(s, 0, 0, seq![])
}

/// Calls `regex::Regex::new` on the pattern and `regex::Regex::split` of the
/// result on the text. Claims, for the pattern `[ \t]+` alone, that it
/// compiles and that the split yields the parts of the text between its
/// maximal runs of spaces and tabs, in order, the empty ones included.
#[verifier::external_body]
fn split_by(pattern: &str, text: &str) -> (parts: Option<Vec<String>>)
    ensures
        pattern@ == blank_run() ==> parts is Some && views(parts->0@) == parted(text@),
{
    match regex::Regex::new(pattern) {
        Ok(re) => Some(re.split(text).map(|s| s.to_string()).collect()),
        Err(_) => None,
    }
}

/// The choices written in `text`, parted at runs of blanks.
pub fn choices(text: &str) -> (parts: Vec<String>)
    ensures
        views(parts@) == parted(text@),
{
    let pattern = "[ \t]+";
    proof {
        reveal_strlit("[ \t]+");
        assert(pattern@ =~= blank_run());
    }
    match split_by(pattern, text) {
        Some(parts) => parts,
        None => Vec::new(),
    }
}

/// A positional's name as the caller writes it: without angle brackets.
pub open spec fn bare(name: Seq<char>) -> Seq<char> {
    if name.len() >= 2 && name[0] == '<' && name[name.len() - 1] == '>' {
        name.subrange(1, name.len() - 1)
    } else {
        name
    }
}

/// How many names have choices: a name without, or choices without a name,
/// count for nothing.
pub open spec fn paired(names: Seq<Seq<char>>, possibles: Seq<Seq<char>>) -> int {
    if names.len() <= possibles.len() {
        names.len() as int
    } else {
        possibles.len() as int
    }
}

/// The choices given for the positional `arg` among the first `n` pairs:
/// those of the last pair that names it.
pub open spec fn choices_for(
    names: Seq<Seq<char>>,
    possibles: Seq<Seq<char>>,
    arg: Seq<char>,
    n: int,
) -> Option<Seq<Seq<char>>>
    decreases n,
{
    if 0 < n <= paired(names, possibles) {
        if names[n - 1] == arg {
            Some(parted(possibles[n - 1]))
        } else {
            choices_for(names, possibles, arg, n - 1)
        }
    } else {
        None
    }
}

/// The words of the leaves from `l` on, pushed onto `done`: for a
/// positional its choices, if it has any; for a flag or a command its name.
pub open spec fn names_from(
    t: Seq<LeafView>,
    names: Seq<Seq<char>>,
    possibles: Seq<Seq<char>>,
    l: int,
    done: Seq<Seq<char>>,
) -> Seq<Seq<char>>
    decreases t.len() - l,
{
    if 0 <= l < t.len() {
        if t[l].kind == LeafKind::Positional {
            match choices_for(names, possibles, bare(t[l].name), paired(names, possibles)) {
                Some(cs) => names_from(t, names, possibles, l + 1, done + cs),
                None => names_from(t, names, possibles, l + 1, done),
            }
        } else {
            names_from(t, names, possibles, l + 1, done.push(t[l].name))
        }
    } else {
        done
    }
}

/// The second spellings of the leaves from `l` on, pushed onto `done`.
pub open spec fn aliases_from(t: Seq<LeafView>, l: int, done: Seq<Seq<char>>) -> Seq<Seq<char>>
    decreases t.len() - l,
{
    if 0 <= l < t.len() {
        match t[l].alias {
            Some(a) => aliases_from(t, l + 1, done.push(a)),
            None => aliases_from(t, l + 1, done),
        }
    } else {
        done
    }
}

/// The word list of a table: the words of its leaves in the table's order,
/// then the second spellings.
pub open spec fn word_list(t: Seq<LeafView>, names: Seq<Seq<char>>, possibles: Seq<Seq<char>>) -> Seq<
    Seq<char>,
> {
    aliases_from(t, 0, names_from(t, names, possibles, 0, seq![]))
}

/// Whether no word stands twice.
pub open spec fn each_once(ws: Seq<Seq<char>>) -> bool {
    forall|a: int, b: int| 0 <= a < b < ws.len() ==> ws[a] != ws[b]
}

/// Whether `w` is the name of a leaf below `l`.
pub open spec fn names_below(t: Seq<LeafView>, w: Seq<char>, l: int) -> bool {
    exists|k: int| 0 <= k < l && k < t.len() && (#[trigger] t[k]).name == w
}

/// Whether `w` is the second spelling of a leaf below `l`.
pub open spec fn alias_below(t: Seq<LeafView>, w: Seq<char>, l: int) -> bool {
    exists|k: int| 0 <= k < l && k < t.len() && (#[trigger] t[k]).alias == Some(w)
}

proof fn lemma_names_once(t: Seq<LeafView>, l: int, done: Seq<Seq<char>>)
    requires
        table_wf(t),
        0 <= l,
        each_once(done),
        forall|a: int| 0 <= a < done.len() ==> names_below(t, #[trigger] done[a], l),
    ensures
        each_once(names_from(t, seq![], seq![], l, done)),
        forall|a: int|
            0 <= a < names_from(t, seq![], seq![], l, done).len() ==> names_below(
                t,
                #[trigger] names_from(t, seq![], seq![], l, done)[a],
                t.len() as int,
            ),
    decreases t.len() - l,
{
    if l < t.len() {
        if t[l].kind == LeafKind::Positional {
            assert forall|a: int| 0 <= a < done.len() implies names_below(t, #[trigger] done[a], l + 1) by {
                let k = choose|k: int| 0 <= k < l && k < t.len() && (#[trigger] t[k]).name == done[a];
                assert(0 <= k < l + 1 && t[k].name == done[a]);
            }
            lemma_names_once(t, l + 1, done);
        } else {
            let more = done.push(t[l].name);
            assert forall|a: int, b: int| 0 <= a < b < more.len() implies more[a] != more[b] by {
                if b == done.len() {
                    let k = choose|k: int| 0 <= k < l && k < t.len() && (#[trigger] t[k]).name == done[a];
                    assert(spelled(t[k], done[a]));
                    if done[a] == t[l].name {
                        assert(spelled(t[l], done[a]));
                    }
                }
            }
            assert forall|a: int| 0 <= a < more.len() implies names_below(t, #[trigger] more[a], l + 1) by {
                if a < done.len() {
                    let k = choose|k: int| 0 <= k < l && k < t.len() && (#[trigger] t[k]).name == done[a];
                    assert(0 <= k < l + 1 && t[k].name == more[a]);
                } else {
                    assert(0 <= l < l + 1 && t[l].name == more[a]);
                }
            }
            lemma_names_once(t, l + 1, more);
        }
    } else {
        assert forall|a: int| 0 <= a < done.len() implies names_below(t, #[trigger] done[a], t.len() as int) by {
            let k = choose|k: int| 0 <= k < l && k < t.len() && (#[trigger] t[k]).name == done[a];
            assert(0 <= k < t.len() && t[k].name == done[a]);
        }
    }
}

proof fn lemma_aliases_once(t: Seq<LeafView>, l: int, done: Seq<Seq<char>>)
    requires
        table_wf(t),
        0 <= l,
        each_once(done),
        forall|a: int|
            0 <= a < done.len() ==> names_below(t, #[trigger] done[a], t.len() as int) || alias_below(
                t,
                done[a],
                l,
            ),
    ensures
        each_once(aliases_from(t, l, done)),
    decreases t.len() - l,
{
    if l < t.len() {
        match t[l].alias {
            Some(w) => {
                let more = done.push(w);
                assert(spelled(t[l], w));
                assert forall|a: int, b: int| 0 <= a < b < more.len() implies more[a] != more[b] by {
                    if b == done.len() && more[a] == w {
                        if names_below(t, done[a], t.len() as int) {
                            let k = choose|k: int|
                                0 <= k < t.len() && k < t.len() && (#[trigger] t[k]).name == done[a];
                            assert(spelled(t[k], w));
                            assert(k == l);
                            assert(t[l].alias->0 != t[l].name);
                        } else {
                            let k = choose|k: int|
                                0 <= k < l && k < t.len() && (#[trigger] t[k]).alias == Some(done[a]);
                            assert(spelled(t[k], w));
                        }
                    }
                }
                assert forall|a: int| 0 <= a < more.len() implies names_below(
                    t,
                    #[trigger] more[a],
                    t.len() as int,
                ) || alias_below(t, more[a], l + 1) by {
                    if a < done.len() {
                        if !names_below(t, done[a], t.len() as int) {
                            let k = choose|k: int|
                                0 <= k < l && k < t.len() && (#[trigger] t[k]).alias == Some(done[a]);
                            assert(0 <= k < l + 1 && t[k].alias == Some(more[a]));
                        }
                    } else {
                        assert(0 <= l < l + 1 && t[l].alias == Some(more[a]));
                    }
                }
                lemma_aliases_once(t, l + 1, more);
            },
            None => {
                assert forall|a: int| 0 <= a < done.len() implies names_below(
                    t,
                    #[trigger] done[a],
                    t.len() as int,
                ) || alias_below(t, done[a], l + 1) by {
                    if !names_below(t, done[a], t.len() as int) {
                        let k = choose|k: int|
                            0 <= k < l && k < t.len() && (#[trigger] t[k]).alias == Some(done[a]);
                        assert(0 <= k < l + 1 && t[k].alias == Some(done[a]));
                    }
                }
                lemma_aliases_once(t, l + 1, done);
            },
        }
    }
}

/// Where no choices are given, every word of the list stands in it once:
/// each spelling of each flag and each command, over a well-formed table.
pub proof fn lemma_each_word_once(t: Seq<LeafView>)
    requires
        table_wf(t),
    ensures
        each_once(word_list(t, seq![], seq![])),
{
    lemma_names_once(t, 0, seq![]);
    lemma_aliases_once(t, 0, names_from(t, seq![], seq![], 0, seq![]));
}

fn bare_name(name: &Vec<char>) -> (r: String)
    ensures
        r@ == bare(name@),
{
    if name.len() >= 2 && name[0] == '<' && name[name.len() - 1] == '>' {
        crate::text::to_text(name, 1, name.len() - 1)
    } else {
        whole_text(name)
    }
}

fn find_choices(names: &Vec<String>, possibles: &Vec<String>, arg: &String) -> (r: Option<Vec<String>>)
    ensures
        match choices_for(views(names@), views(possibles@), arg@, paired(views(names@), views(possibles@))) {
            Some(cs) => r is Some && views(r->0@) == cs,
            None => r is None,
        },
{
    let n = if names.len() <= possibles.len() {
        names.len()
    } else {
        possibles.len()
    };
    let mut found: Option<Vec<String>> = None;
    let mut i: usize = 0;
    while i < n
        invariant
            i <= n,
            n == paired(views(names@), views(possibles@)),
            match choices_for(views(names@), views(possibles@), arg@, i as int) {
                Some(cs) => found is Some && views(found->0@) == cs,
                None => found is None,
            },
        decreases n - i,
    {
        if names[i] == *arg {
            found = Some(choices(possibles[i].as_str()));
        }
        i += 1;
    }
    found
}

fn push_all(out: &mut Vec<String>, more: &Vec<String>)
    ensures
        views(final(out)@) == views(old(out)@) + views(more@),
{
    let mut copy = copy_texts(more);
    let ghost items = copy@;
    out.append(&mut copy);
    assert(views(out@) =~= views(old(out)@) + views(items));
}

/// The words of a leaf table, in order.
pub fn list_words(table: &Vec<Leaf>, names: &Vec<String>, possibles: &Vec<String>) -> (out: Vec<String>)
    ensures
        views(out@) == word_list(views(table@), views(names@), views(possibles@)),
{
    let mut out: Vec<String> = Vec::new();
    let mut l: usize = 0;
    assert(views(out@) =~= Seq::<Seq<char>>::empty());
    while l < table.len()
        invariant
            l <= table.len(),
            names_from(views(table@), views(names@), views(possibles@), 0, seq![]) == names_from(
                views(table@),
                views(names@),
                views(possibles@),
                l as int,
                views(out@),
            ),
        decreases table.len() - l,
    {
        let leaf = &table[l];
        match leaf.kind {
            LeafKind::Positional => {
                let arg = bare_name(&leaf.name);
                match find_choices(names, possibles, &arg) {
                    Some(cs) => {
                        push_all(&mut out, &cs);
                    },
                    None => {},
                }
            },
            _ => {
                let word = whole_text(&leaf.name);
                proof {
                    lemma_views_push(out@, word);
                }
                out.push(word);
            },
        }
        l += 1;
    }
    let ghost first = views(out@);
    let mut l: usize = 0;
    while l < table.len()
        invariant
            l <= table.len(),
            aliases_from(views(table@), 0, first) == aliases_from(views(table@), l as int, views(out@)),
        decreases table.len() - l,
    {
        match &table[l].alias {
            Some(a) => {
                let word = whole_text(a);
                proof {
                    lemma_views_push(out@, word);
                }
                out.push(word);
            },
            None => {},
        }
        l += 1;
    }
    out
}

/// Writes words on one line, with one space between neighbours.
pub fn join_words(ws: &Vec<String>) -> (line: String)
    ensures
        line@ == joined(views(ws@), ' ', ws.len() as int),
{
    let mut line: Vec<char> = Vec::new();
    let mut n: usize = 0;
    while n < ws.len()
        invariant
            n <= ws.len(),
            line@ == joined(views(ws@), ' ', n as int),
        decreases ws.len() - n,
    {
        if n > 0 {
            line.push(' ');
        }
        let mut word = to_chars(ws[n].as_str());
        let ghost before = line@;
        let ghost w = word@;
        line.append(&mut word);
        assert(line@ =~= before + w);
        assert(n > 0 ==> before =~= joined(views(ws@), ' ', n as int) + seq![' ']);
        n += 1;
    }
    whole_text(&line)
}

/// The word list of a usage document, on one line. `names[i]` names a
/// positional, without angle brackets, and `possibles[i]` holds its
/// choices, parted by blanks.
pub fn run(usage: &str, names: &Vec<String>, possibles: &Vec<String>) -> (r: Result<String, Error>)
    ensures
        match compiled(usage@) {
            Ok(g) => r is Ok && r->Ok_0@ == joined(
                word_list(g.table, views(names@), views(possibles@)),
                ' ',
                word_list(g.table, views(names@), views(possibles@)).len() as int,
            ),
            Err(f) => r is Err && r->Err_0@ == ErrorView::Grammar(f),
        },
        compiled(usage@) is Ok ==> each_once(word_list(compiled(usage@)->Ok_0.table, seq![], seq![])),
{
    match Docopt::new(usage) {
        Ok(d) => {
            proof {
                lemma_each_word_once(d@.table);
            }
            let ws = list_words(&d.table, names, possibles);
            Ok(join_words(&ws))
        },
        Err(e) => Err(e),
    }
}

} // verus!
