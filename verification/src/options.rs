//! The option registry: what the lines under `Options:` declare.

use vstd::prelude::*;
use vstd::pervasive::VecAdditionalExecFns;
use crate::leaf::{
    find_leaf, is_flag_spelling, is_placeholder, lemma_find_leaf, lemma_push_keeps_wf,
    lemma_update_keeps_wf, lookup, placeholder, table_wf, well_named, Leaf, LeafKind, LeafView,
};
use crate::text::{
    after_blanks, blank_line, copy, find_char, find_word, index_of, is_blank_line, lemma_views_push,
    pieces, search, skip_blanks, slice, split, trim, trimmed, views, Breaks,
};

verus! {

/// The word that opens an options section.
pub open spec fn options_word() -> Seq<char> {
    seq!['o', 'p', 't', 'i', 'o', 'n', 's', ':']
}

/// The word that opens a default value in a description.
pub open spec fn default_word() -> Seq<char> {
    seq!['[', 'd', 'e', 'f', 'a', 'u', 'l', 't', ':']
}

fn the_options_word() -> (w: Vec<char>)
    ensures
        w@ == options_word(),
{
    let w = vec!['o', 'p', 't', 'i', 'o', 'n', 's', ':'];
    assert(w@ =~= options_word());
    w
}

fn the_default_word() -> (w: Vec<char>)
    ensures
        w@ == default_word(),
{
    let w = vec!['[', 'd', 'e', 'f', 'a', 'u', 'l', 't', ':'];
    assert(w@ =~= default_word());
    w
}

/// Where a description starts: at a tab, or at two spaces in a row.
pub open spec fn gap_at(s: Seq<char>, i: int) -> bool {
    0 <= i < s.len() && (s[i] == '\t' || (s[i] == ' ' && i + 1 < s.len() && s[i + 1] == ' '))
}

/// The first gap at or after `i`, or the length.
pub open spec fn find_gap(s: Seq<char>, i: int) -> int
    decreases s.len() - i,
{
    if 0 <= i < s.len() && !gap_at(s, i) {
        find_gap(s, i + 1)
    } else {
        i
    }
}

/// What the words of a declaration say: the spellings and whether a
/// placeholder for a value stands among them.
pub struct Spelling {
    pub long: Option<Seq<char>>,
    pub short: Option<Seq<char>>,
    pub takes_value: bool,
}

/// A word that begins with two dashes: a long spelling.
pub open spec fn starts_long(w: Seq<char>) -> bool {
    w.len() >= 2 && w[0] == '-' && w[1] == '-'
}

/// What the first `n` words of a declaration say. The first long and the
/// first short spelling count, and a placeholder says that the option takes
/// a value. Any other word says nothing.
pub open spec fn read_words(ws: Seq<Seq<char>>, n: int) -> Spelling
    decreases n,
{
    if 0 < n <= ws.len() {
        let before = read_words(ws, n - 1);
        let w = ws[n - 1];
        if starts_long(w) {
            if before.long is None {
                Spelling { long: Some(w), ..before }
            } else {
                before
            }
        } else if is_flag_spelling(w) {
            if before.short is None {
                Spelling { short: Some(w), ..before }
            } else {
                before
            }
        } else if is_placeholder(w) {
            Spelling { takes_value: true, ..before }
        } else {
            before
        }
    } else {
        Spelling { long: None, short: None, takes_value: false }
    }
}

/// The spellings that words give are spellings of an option.
pub proof fn lemma_read_words(ws: Seq<Seq<char>>, n: int)
    ensures
        read_words(ws, n).long is Some ==> starts_long(read_words(ws, n).long->0),
        read_words(ws, n).short is Some ==> is_flag_spelling(read_words(ws, n).short->0) && !starts_long(
            read_words(ws, n).short->0,
        ),
    decreases n,
{
    if 0 < n <= ws.len() {
        lemma_read_words(ws, n - 1);
    }
}

/// The default that a description declares from index `from` on: what
/// stands between `[default:` and the next `]`, without the blanks around it.
pub open spec fn declared_default(s: Seq<char>, from: int) -> Option<Seq<char>> {
    match find_word(s, default_word(), from) {
        Some(d) => {
            let close = find_char(s, ']', d + 9);
            if d + 9 <= close < s.len() {
                Some(trim(s.subrange(d + 9, close)))
            } else {
                None
            }
        },
        None => None,
    }
}

/// What the words of the declaration part of a line say.
pub open spec fn said_by(line: Seq<char>) -> Spelling {
    let start = skip_blanks(line, 0);
    let gap = find_gap(line, start);
    if 0 <= start <= gap <= line.len() {
        let ws = pieces(line.subrange(start, gap), Breaks::Listing);
        read_words(ws, ws.len() as int)
    } else {
        read_words(seq![], 0)
    }
}

/// The option that a declaration line declares, if its words hold a
/// spelling. The long spelling is the name where there is one. A
/// placeholder or a default makes the option take a value.
pub open spec fn declared(line: Seq<char>) -> Option<LeafView> {
    let said = said_by(line);
    let default = declared_default(line, find_gap(line, skip_blanks(line, 0)));
    if said.long is Some {
        Some(
            LeafView {
                kind: LeafKind::Flag,
                name: said.long->0,
                alias: said.short,
                takes_value: said.takes_value || default is Some,
                default,
                repeats: false,
            },
        )
    } else if said.short is Some {
        Some(
            LeafView {
                kind: LeafKind::Flag,
                name: said.short->0,
                alias: None,
                takes_value: said.takes_value || default is Some,
                default,
                repeats: false,
            },
        )
    } else {
        None
    }
}

/// A declared option is well named.
pub proof fn lemma_declared(line: Seq<char>)
    ensures
        declared(line) is Some ==> well_named(declared(line)->0) && declared(line)->0.kind == LeafKind::Flag,
{
    let start = skip_blanks(line, 0);
    let gap = find_gap(line, start);
    if 0 <= start <= gap <= line.len() {
        let ws = pieces(line.subrange(start, gap), Breaks::Listing);
        lemma_read_words(ws, ws.len() as int);
    }
}

/// The leaf of the table that already has one of the spellings of `leaf`:
/// the one that has its name, or else the one that has its second spelling.
pub open spec fn clash(t: Seq<LeafView>, leaf: LeafView) -> Option<int> {
    match find_leaf(t, LeafKind::Flag, leaf.name, 0) {
        Some(i) => Some(i),
        None => match leaf.alias {
            Some(a) => find_leaf(t, LeafKind::Flag, a, 0),
            None => None,
        },
    }
}

/// A leaf with what a repeated declaration adds to it: the option takes a
/// value if either says so, and has the later default if it had none. Its
/// spellings stay as they were first declared.
pub open spec fn merged(old: LeafView, new: LeafView) -> LeafView {
    LeafView {
        takes_value: old.takes_value || new.takes_value,
        default: if old.default is Some {
            old.default
        } else {
            new.default
        },
        ..old
    }
}

/// The table with a declaration: merged into the leaf that already has one
/// of its spellings, or else as a new leaf at the end.
pub open spec fn with_declared(t: Seq<LeafView>, leaf: LeafView) -> Seq<LeafView> {
    match clash(t, leaf) {
        Some(i) => if 0 <= i < t.len() {
            t.update(i, merged(t[i], leaf))
        } else {
            t
        },
        None => t.push(leaf),
    }
}

/// A well-formed table of options stays one with a well-named declaration.
pub proof fn lemma_with_declared(t: Seq<LeafView>, leaf: LeafView)
    requires
        table_wf(t),
        well_named(leaf),
        leaf.kind == LeafKind::Flag,
        forall|k: int| 0 <= k < t.len() ==> (#[trigger] t[k]).kind == LeafKind::Flag,
    ensures
        table_wf(with_declared(t, leaf)),
        forall|k: int|
            0 <= k < with_declared(t, leaf).len() ==> (#[trigger] with_declared(t, leaf)[k]).kind
                == LeafKind::Flag,
{
    lemma_find_leaf(t, LeafKind::Flag, leaf.name, 0);
    if leaf.alias is Some {
        lemma_find_leaf(t, LeafKind::Flag, leaf.alias->0, 0);
    }
    match clash(t, leaf) {
        Some(i) => {
            lemma_update_keeps_wf(t, i, merged(t[i], leaf));
        },
        None => {
            lemma_push_keeps_wf(t, leaf);
        },
    }
}

/// An indented line whose first character after the indentation is a dash.
pub open spec fn declares(line: Seq<char>) -> bool {
    let start = skip_blanks(line, 0);
    0 < start < line.len() && line[start] == '-'
}

/// The table with the options that the lines from `i` on declare. A line
/// that holds `options:` opens a section; a line that is not indented, and
/// not blank, closes it. `inside` says whether one is open. An option is
/// one leaf however often it is declared.
pub open spec fn options_from(ls: Seq<Seq<char>>, i: int, inside: bool, table: Seq<LeafView>) -> Seq<
    LeafView,
>
    decreases ls.len() - i,
{
    if 0 <= i < ls.len() {
        let l = ls[i];
        if inside && declares(l) {
            match declared(l) {
                Some(leaf) => options_from(ls, i + 1, true, with_declared(table, leaf)),
                None => options_from(ls, i + 1, true, table),
            }
        } else if find_word(l, options_word(), 0) is Some {
            options_from(ls, i + 1, true, table)
        } else if is_blank_line(l) {
            options_from(ls, i + 1, inside, table)
        } else if skip_blanks(l, 0) == 0 {
            options_from(ls, i + 1, false, table)
        } else {
            options_from(ls, i + 1, inside, table)
        }
    } else {
        table
    }
}

/// The options that a document declares, in the order of their lines.
pub open spec fn declared_options(ls: Seq<Seq<char>>) -> Seq<LeafView> {
    options_from(ls, 0, false, seq![])
}

fn gap_from(v: &Vec<char>, from: usize) -> (g: usize)
    requires
        from <= v.len(),
    ensures
        g == find_gap(v@, from as int),
        from <= g <= v.len(),
{
    let mut g: usize = from;
    while g < v.len() && !(v[g] == '\t' || (v[g] == ' ' && g + 1 < v.len() && v[g + 1] == ' '))
        invariant
            from <= g <= v.len(),
            find_gap(v@, from as int) == find_gap(v@, g as int),
        decreases v.len() - g,
    {
        g += 1;
    }
    g
}

fn default_in(line: &Vec<char>, from: usize) -> (r: Option<Vec<char>>)
    ensures
        match declared_default(line@, from as int) {
            Some(d) => r is Some && r->0@ == d,
            None => r is None,
        },
{
    let word = the_default_word();
    match search(line, &word, from) {
        Some(d) => {
            let close = index_of(line, ']', d + 9);
            if close < line.len() {
                Some(trimmed(line, d + 9, close))
            } else {
                None
            }
        },
        None => None,
    }
}

/// Reads one declaration line.
pub fn declare(line: &Vec<char>) -> (leaf: Option<Leaf>)
    ensures
        match declared(line@) {
            Some(l) => leaf is Some && leaf->0@ == l,
            None => leaf is None,
        },
{
    let start = after_blanks(line, 0);
    let gap = gap_from(line, start);
    let part = slice(line, start, gap);
    let ws = split(&part, Breaks::Listing);
    let mut long: Option<Vec<char>> = None;
    let mut short: Option<Vec<char>> = None;
    let mut takes_value = false;
    let mut n: usize = 0;
    while n < ws.len()
        invariant
            n <= ws.len(),
            read_words(views(ws@), n as int) == (Spelling {
                long: match long {
                    Some(w) => Some(w@),
                    None => None,
                },
                short: match short {
                    Some(w) => Some(w@),
                    None => None,
                },
                takes_value,
            }),
        decreases ws.len() - n,
    {
        let w = &ws[n];
        if w.len() >= 2 && w[0] == '-' && w[1] == '-' {
            if long.is_none() {
                long = Some(copy(w));
            }
        } else if w.len() >= 2 && w[0] == '-' {
            if short.is_none() {
                short = Some(copy(w));
            }
        } else if placeholder(w) {
            takes_value = true;
        }
        n += 1;
    }
    let default = default_in(line, gap);
    let takes_value = takes_value || default.is_some();
    match long {
        Some(name) => Some(
            Leaf { kind: LeafKind::Flag, name, alias: short, takes_value, default, repeats: false },
        ),
        None => match short {
            Some(name) => Some(
                Leaf { kind: LeafKind::Flag, name, alias: None, takes_value, default, repeats: false },
            ),
            None => None,
        },
    }
}

fn copy_opt(v: &Option<Vec<char>>) -> (r: Option<Vec<char>>)
    ensures
        r is Some == v is Some,
        v is Some ==> r->0@ == v->0@,
{
    match v {
        Some(x) => Some(copy(x)),
        None => None,
    }
}

/// Puts a declaration into the table.
pub fn put_declared(table: &mut Vec<Leaf>, leaf: Leaf)
    ensures
        views(final(table)@) == with_declared(views(old(table)@), leaf@),
{
    let found = match lookup(table, LeafKind::Flag, &leaf.name) {
        Some(i) => Some(i),
        None => match &leaf.alias {
            Some(a) => lookup(table, LeafKind::Flag, a),
            None => None,
        },
    };
    match found {
        Some(i) => {
            let old = &table[i];
            let both = Leaf {
                kind: old.kind,
                name: copy(&old.name),
                alias: copy_opt(&old.alias),
                takes_value: old.takes_value || leaf.takes_value,
                default: if old.default.is_some() {
                    copy_opt(&old.default)
                } else {
                    leaf.default
                },
                repeats: old.repeats,
            };
            proof {
                assert(both@ == merged(views(table@)[i as int], leaf@));
                assert(views(table@.update(i as int, both)) =~= views(table@).update(i as int, both@));
            }
            table.set(i, both);
        },
        None => {
            proof {
                lemma_views_push(table@, leaf);
            }
            table.push(leaf);
        },
    }
}

/// Reads every options section of a document, given as lines.
pub fn read_options(ls: &Vec<Vec<char>>) -> (table: Vec<Leaf>)
    ensures
        views(table@) == declared_options(views(ls@)),
        table_wf(views(table@)),
        forall|k: int| 0 <= k < table.len() ==> (#[trigger] views(table@)[k]).kind == LeafKind::Flag,
{
    let word = the_options_word();
    let mut table: Vec<Leaf> = Vec::new();
    let mut inside = false;
    let mut i: usize = 0;
    assert(views(table@) =~= Seq::<LeafView>::empty());
    while i < ls.len()
        invariant
            i <= ls.len(),
            word@ == options_word(),
            table_wf(views(table@)),
            forall|k: int| 0 <= k < table.len() ==> (#[trigger] views(table@)[k]).kind == LeafKind::Flag,
            declared_options(views(ls@)) == options_from(views(ls@), i as int, inside, views(table@)),
        decreases ls.len() - i,
    {
        let l = &ls[i];
        let start = after_blanks(l, 0);
        if inside && 0 < start && start < l.len() && l[start] == '-' {
            match declare(l) {
                Some(leaf) => {
                    proof {
                        lemma_declared(l@);
                        lemma_with_declared(views(table@), leaf@);
                    }
                    put_declared(&mut table, leaf);
                },
                None => {},
            }
        } else if search(l, &word, 0).is_some() {
            inside = true;
        } else if blank_line(l) {
        } else if start == 0 {
            inside = false;
        }
        i += 1;
    }
    table
}

} // verus!
