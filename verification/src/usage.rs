//! The usage section of a document: its lines, their tokens, and the
//! elements that the tokens stand for once every leaf has its place in the
//! table.

use vstd::prelude::*;
use crate::errors::Fault;
use crate::leaf::{
    find_leaf, is_flag_spelling, is_placeholder, lemma_find_leaf, lemma_push_keeps_wf, lookup, names_kind,
    placeholder, table_wf, Leaf, LeafKind, LeafView,
};
use crate::pattern::keeps_kinds;
use crate::text::{
    after_blanks, blank_line, find_char, find_word, flush, index_of, is_blank_line, is_space, keep,
    lemma_views_push, search, skip_blanks, slice, space, views,
};
use crate::token::{is_long, is_separator, is_short, long, long_name, separator, short, short_name};

verus! {

/// The word that opens the usage section.
pub open spec fn usage_word() -> Seq<char> {
    seq!['u', 's', 'a', 'g', 'e', ':']
}

fn the_usage_word() -> (w: Vec<char>)
    ensures
        w@ == usage_word(),
{
    let w = vec!['u', 's', 'a', 'g', 'e', ':'];
    assert(w@ =~= usage_word());
    w
}

/// The index of the first line, from `i` on, that holds `usage:`.
pub open spec fn header_from(ls: Seq<Seq<char>>, i: int) -> Option<int>
    decreases ls.len() - i,
{
    if 0 <= i < ls.len() {
        if find_word(ls[i], usage_word(), 0) is Some {
            Some(i)
        } else {
            header_from(ls, i + 1)
        }
    } else {
        None
    }
}

/// The lines from `i` on that go on with the section, pushed onto `done`:
/// each is not blank and is indented by `indent` at least.
pub open spec fn more_lines(ls: Seq<Seq<char>>, i: int, indent: int, done: Seq<Seq<char>>) -> Seq<
    Seq<char>,
>
    decreases ls.len() - i,
{
    if 0 <= i < ls.len() && !is_blank_line(ls[i]) && skip_blanks(ls[i], 0) >= indent {
        more_lines(ls, i + 1, indent, done.push(ls[i]))
    } else {
        done
    }
}

/// The indentation that a line after the header needs to belong to the
/// section: that of the header, and one blank at least.
pub open spec fn needed_indent(header: Seq<char>) -> int {
    if skip_blanks(header, 0) > 1 {
        skip_blanks(header, 0)
    } else {
        1
    }
}

/// The pattern lines of the usage section. The section starts on the first
/// line that holds `usage:`, right after that word, and ends before the
/// first line that is blank, or not indented, or indented less than the
/// header.
pub open spec fn usage_lines(ls: Seq<Seq<char>>) -> Result<Seq<Seq<char>>, Fault> {
    match header_from(ls, 0) {
        None => Err(Fault::MissingUsage),
        Some(h) => {
            let at = find_word(ls[h], usage_word(), 0)->0;
            let rest = ls[h].subrange(at + 6, ls[h].len() as int);
            let first = if is_blank_line(rest) {
                seq![]
            } else {
                seq![rest]
            };
            let all = more_lines(ls, h + 1, needed_indent(ls[h]), first);
            if all.len() == 0 {
                Err(Fault::EmptyUsage)
            } else {
                Ok(all)
            }
        },
    }
}

/// Finds the usage section and gives its pattern lines.
pub fn usage_section(ls: &Vec<Vec<char>>) -> (r: Result<Vec<Vec<char>>, Fault>)
    ensures
        match usage_lines(views(ls@)) {
            Ok(us) => r is Ok && views(r->Ok_0@) == us,
            Err(f) => r is Err && r->Err_0 == f,
        },
{
    let word = the_usage_word();
    let mut h: usize = 0;
    let mut at: usize = 0;
    let mut found = false;
    while h < ls.len()
        invariant_except_break
            !found,
            header_from(views(ls@), 0) == header_from(views(ls@), h as int),
        invariant
            h <= ls.len(),
            word@ == usage_word(),
        ensures
            found ==> h < ls.len() && header_from(views(ls@), 0) == Some(h as int) && find_word(
                ls@[h as int]@,
                usage_word(),
                0,
            ) == Some(at as int) && at + 6 <= ls@[h as int].len(),
            !found ==> header_from(views(ls@), 0) is None,
        decreases ls.len() - h,
    {
        match search(&ls[h], &word, 0) {
            Some(k) => {
                at = k;
                found = true;
                break ;
            },
            None => {},
        }
        h += 1;
    }
    if !found {
        return Err(Fault::MissingUsage);
    }
    let header = &ls[h];
    let rest = slice(header, at + 6, header.len());
    let mut out: Vec<Vec<char>> = Vec::new();
    assert(views(out@) =~= Seq::<Seq<char>>::empty());
    if !blank_line(&rest) {
        proof {
            lemma_views_push(out@, rest);
        }
        out.push(rest);
    }
    let own = after_blanks(header, 0);
    let indent: usize = if own > 1 {
        own
    } else {
        1
    };
    let ghost first = views(out@);
    let mut i: usize = h + 1;
    while i < ls.len() && !blank_line(&ls[i]) && after_blanks(&ls[i], 0) >= indent
        invariant
            h < i <= ls.len(),
            more_lines(views(ls@), h + 1, indent as int, first) == more_lines(
                views(ls@),
                i as int,
                indent as int,
                views(out@),
            ),
        decreases ls.len() - i,
    {
        let line = crate::text::copy(&ls[i]);
        proof {
            lemma_views_push(out@, line);
        }
        out.push(line);
        i += 1;
    }
    if out.len() == 0 {
        Err(Fault::EmptyUsage)
    } else {
        Ok(out)
    }
}

/// A bracket or a bar: a token of one character, wherever it stands.
pub open spec fn is_bracket(c: char) -> bool {
    c == '[' || c == ']' || c == '(' || c == ')' || c == '|'
}

/// Three dots from index `i` on.
pub open spec fn dots_at(s: Seq<char>, i: int) -> bool {
    0 <= i && i + 3 <= s.len() && s[i] == '.' && s[i + 1] == '.' && s[i + 2] == '.'
}

/// The tokens of a pattern line. White space parts tokens; a bracket, a bar
/// and an ellipsis are tokens of their own even inside a word.
pub open spec fn cut_from(s: Seq<char>, start: int, i: int, done: Seq<Seq<char>>) -> Seq<Seq<char>>
    decreases s.len() - i,
{
    if 0 <= start <= i < s.len() {
        if is_space(s[i]) {
            cut_from(s, i + 1, i + 1, flush(s, start, i, done))
        } else if is_bracket(s[i]) {
            cut_from(s, i + 1, i + 1, flush(s, start, i, done).push(s.subrange(i, i + 1)))
        } else if dots_at(s, i) {
            cut_from(s, i + 3, i + 3, flush(s, start, i, done).push(s.subrange(i, i + 3)))
        } else {
            cut_from(s, start, i + 1, done)
        }
    } else {
        flush(s, start, s.len() as int, done)
    }
}

/// The tokens of a pattern line.
pub open spec fn usage_tokens(s: Seq<char>) -> Seq<Seq<char>> {
    cut_from(s, 0, 0, seq![])
}

/// Cuts a pattern line into tokens.
pub fn cut(v: &Vec<char>) -> (out: Vec<Vec<char>>)
    ensures
        views(out@) == usage_tokens(v@),
{
    let mut out: Vec<Vec<char>> = Vec::new();
    let mut start: usize = 0;
    let mut i: usize = 0;
    assert(views(out@) =~= Seq::<Seq<char>>::empty());
    while i < v.len()
        invariant
            start <= i <= v.len(),
            usage_tokens(v@) == cut_from(v@, start as int, i as int, views(out@)),
        decreases v.len() - i,
    {
        let c = v[i];
        if space(c) {
            keep(v, start, i, &mut out);
            i += 1;
            start = i;
        } else if c == '[' || c == ']' || c == '(' || c == ')' || c == '|' {
            keep(v, start, i, &mut out);
            let piece = slice(v, i, i + 1);
            proof {
                lemma_views_push(out@, piece);
            }
            out.push(piece);
            i += 1;
            start = i;
        } else if c == '.' && v.len() - i >= 3 && v[i + 1] == '.' && v[i + 2] == '.' {
            keep(v, start, i, &mut out);
            let piece = slice(v, i, i + 3);
            proof {
                lemma_views_push(out@, piece);
            }
            out.push(piece);
            i += 3;
            start = i;
        } else {
            i += 1;
        }
    }
    keep(v, start, v.len(), &mut out);
    out
}

/// What a token of a pattern line stands for.
#[derive(Clone, Copy, Debug, PartialEq, Eq, Structural)]
pub enum Elem {
    /// `[`
    Open,
    /// `]`
    Close,
    /// `(`
    GroupOpen,
    /// `)`
    GroupClose,
    /// `|`
    Bar,
    /// `...`
    Dots,
    /// `[options]`: any of the declared options.
    AnyOptions,
    /// `--`
    Separator,
    Command(usize),
    Positional(usize),
    OptionRef(usize),
}

/// Whether an element that names a leaf names one of the table, of its kind.
pub open spec fn elem_fits(t: Seq<LeafView>, e: Elem) -> bool {
    match e {
        Elem::Command(id) => id < t.len() && t[id as int].kind == LeafKind::Command,
        Elem::Positional(id) => id < t.len() && t[id as int].kind == LeafKind::Positional,
        Elem::OptionRef(id) => id < t.len() && t[id as int].kind == LeafKind::Flag,
        _ => true,
    }
}

/// Whether every element fits the table.
pub open spec fn elems_fit(t: Seq<LeafView>, es: Seq<Elem>) -> bool {
    forall|k: int| 0 <= k < es.len() ==> elem_fits(t, #[trigger] es[k])
}

/// Elements that fit a table fit every table that keeps its kinds.
pub proof fn lemma_elems_kept(t: Seq<LeafView>, u: Seq<LeafView>, es: Seq<Elem>)
    requires
        elems_fit(t, es),
        keeps_kinds(t, u),
    ensures
        elems_fit(u, es),
{
    assert forall|k: int| 0 <= k < es.len() implies elem_fits(u, #[trigger] es[k]) by {
        assert(elem_fits(t, es[k]));
    }
}

/// A token that is the one character `c`.
pub open spec fn is_char(w: Seq<char>, c: char) -> bool {
    w.len() == 1 && w[0] == c
}

/// The token `...`.
pub open spec fn is_dots(w: Seq<char>) -> bool {
    w.len() == 3 && w[0] == '.' && w[1] == '.' && w[2] == '.'
}

/// The word `options`, which between square brackets stands for every
/// declared option.
pub open spec fn is_options_word(w: Seq<char>) -> bool {
    w == seq!['o', 'p', 't', 'i', 'o', 'n', 's']
}

/// A table with a leaf in it, and where the leaf stands.
pub struct Interned {
    pub table: Seq<LeafView>,
    pub id: int,
}

/// The table with a leaf of this kind and name: as it is where it holds
/// one, or else with a new leaf at its end, without alias or default.
pub open spec fn interned(t: Seq<LeafView>, kind: LeafKind, name: Seq<char>, takes_value: bool) -> Interned {
    match find_leaf(t, kind, name, 0) {
        Some(id) => Interned { table: t, id },
        None => Interned {
            table: t.push(
                LeafView { kind, name, alias: None, takes_value, default: None, repeats: false },
            ),
            id: t.len() as int,
        },
    }
}

/// What reading a bundle of short flags gives: the table, the elements,
/// and whether the last flag read still waits for its placeholder.
pub struct Bundle {
    pub table: Seq<LeafView>,
    pub elems: Seq<Elem>,
    pub pending: bool,
}

/// The flags bundled in the token `w`, from its letter at `k` on. A letter
/// that the table does not know becomes an option without a value. After a
/// letter whose option takes a value the rest of the token is its
/// placeholder; where there is no rest, the placeholder is still to come.
pub open spec fn bundle_from(t: Seq<LeafView>, w: Seq<char>, k: int, out: Seq<Elem>) -> Bundle
    decreases w.len() - k,
{
    if 1 <= k < w.len() {
        let got = interned(t, LeafKind::Flag, short_name(w[k]), false);
        let out2 = out.push(Elem::OptionRef(got.id as usize));
        if 0 <= got.id < got.table.len() && got.table[got.id].takes_value {
            Bundle { table: got.table, elems: out2, pending: k + 1 == w.len() }
        } else {
            bundle_from(got.table, w, k + 1, out2)
        }
    } else {
        Bundle { table: t, elems: out, pending: false }
    }
}

/// A table and the elements read so far.
pub struct Lexed {
    pub table: Seq<LeafView>,
    pub elems: Seq<Elem>,
}

/// The elements of the tokens `ws` from index `i` on, pushed onto `out`,
/// and the table with every leaf they name.
///
/// An option that takes a value, and has none written with `=`, takes the
/// placeholder that follows it as its own. A long option written with `=`
/// and not yet in the table takes a value.
pub open spec fn lex_from(ws: Seq<Seq<char>>, i: int, t: Seq<LeafView>, out: Seq<Elem>) -> Lexed
    decreases ws.len() - i,
{
    if 0 <= i < ws.len() {
        let w = ws[i];
        let follows = i + 1 < ws.len() && is_placeholder(ws[i + 1]);
        if is_char(w, '[') {
            if i + 2 < ws.len() && is_options_word(ws[i + 1]) && is_char(ws[i + 2], ']') {
                lex_from(ws, i + 3, t, out.push(Elem::AnyOptions))
            } else {
                lex_from(ws, i + 1, t, out.push(Elem::Open))
            }
        } else if is_char(w, ']') {
            lex_from(ws, i + 1, t, out.push(Elem::Close))
        } else if is_char(w, '(') {
            lex_from(ws, i + 1, t, out.push(Elem::GroupOpen))
        } else if is_char(w, ')') {
            lex_from(ws, i + 1, t, out.push(Elem::GroupClose))
        } else if is_char(w, '|') {
            lex_from(ws, i + 1, t, out.push(Elem::Bar))
        } else if is_dots(w) {
            lex_from(ws, i + 1, t, out.push(Elem::Dots))
        } else if is_separator(w) {
            lex_from(ws, i + 1, t, out.push(Elem::Separator))
        } else if is_long(w) {
            let inline = find_char(w, '=', 2) < w.len();
            let got = interned(t, LeafKind::Flag, long_name(w), inline);
            let takes = 0 <= got.id < got.table.len() && got.table[got.id].takes_value;
            lex_from(
                ws,
                if !inline && takes && follows {
                    i + 2
                } else {
                    i + 1
                },
                got.table,
                out.push(Elem::OptionRef(got.id as usize)),
            )
        } else if is_short(w) {
            let b = bundle_from(t, w, 1, out);
            lex_from(
                ws,
                if b.pending && follows {
                    i + 2
                } else {
                    i + 1
                },
                b.table,
                b.elems,
            )
        } else if is_placeholder(w) {
            let got = interned(t, LeafKind::Positional, w, false);
            lex_from(ws, i + 1, got.table, out.push(Elem::Positional(got.id as usize)))
        } else {
            let got = interned(t, LeafKind::Command, w, false);
            lex_from(ws, i + 1, got.table, out.push(Elem::Command(got.id as usize)))
        }
    } else {
        Lexed { table: t, elems: out }
    }
}

/// The elements of one pattern line, whose first token is the program's
/// name and stands for nothing.
pub open spec fn lexed(line: Seq<char>, t: Seq<LeafView>) -> Lexed {
    lex_from(usage_tokens(line), 1, t, seq![])
}

fn one_char(w: &Vec<char>, c: char) -> (b: bool)
    ensures
        b == is_char(w@, c),
{
    w.len() == 1 && w[0] == c
}

fn options_word(w: &Vec<char>) -> (b: bool)
    ensures
        b == is_options_word(w@),
{
    let b = w.len() == 7 && w[0] == 'o' && w[1] == 'p' && w[2] == 't' && w[3] == 'i' && w[4] == 'o'
        && w[5] == 'n' && w[6] == 's';
    assert(b ==> w@ =~= seq!['o', 'p', 't', 'i', 'o', 'n', 's']);
    b
}

/// Finds the leaf of this kind and name, or adds it to the table.
pub fn intern(table: &mut Vec<Leaf>, kind: LeafKind, name: Vec<char>, takes_value: bool) -> (id: usize)
    requires
        table_wf(views(old(table)@)),
        names_kind(kind, name@),
    ensures
        table_wf(views(final(table)@)),
        views(final(table)@) == interned(views(old(table)@), kind, name@, takes_value).table,
        id == interned(views(old(table)@), kind, name@, takes_value).id,
        id < final(table).len(),
        keeps_kinds(views(old(table)@), views(final(table)@)),
        views(final(table)@)[id as int].kind == kind,
{
    proof {
        lemma_find_leaf(views(table@), kind, name@, 0);
    }
    match lookup(table, kind, &name) {
        Some(id) => id,
        None => {
            let id = table.len();
            let leaf = Leaf { kind, name, alias: None, takes_value, default: None, repeats: false };
            proof {
                lemma_views_push(table@, leaf);
                lemma_push_keeps_wf(views(table@), leaf@);
            }
            table.push(leaf);
            id
        },
    }
}

fn short_spelling(c: char) -> (name: Vec<char>)
    ensures
        name@ == short_name(c),
{
    let name = vec!['-', c];
    assert(name@ =~= short_name(c));
    name
}

fn lex_bundle(table: &mut Vec<Leaf>, w: &Vec<char>, out: &mut Vec<Elem>) -> (pending: bool)
    requires
        elems_fit(views(old(table)@), old(out)@),
        table_wf(views(old(table)@)),
    ensures
        table_wf(views(final(table)@)),
        keeps_kinds(views(old(table)@), views(final(table)@)),
        elems_fit(views(final(table)@), final(out)@),
        views(final(table)@) == bundle_from(views(old(table)@), w@, 1, old(out)@).table,
        final(out)@ == bundle_from(views(old(table)@), w@, 1, old(out)@).elems,
        pending == bundle_from(views(old(table)@), w@, 1, old(out)@).pending,
{
    let mut k: usize = 1;
    while k < w.len()
        invariant
            1 <= k,
            table_wf(views(table@)),
            keeps_kinds(views(old(table)@), views(table@)),
            elems_fit(views(table@), out@),
            bundle_from(views(old(table)@), w@, 1, old(out)@) == bundle_from(
                views(table@),
                w@,
                k as int,
                out@,
            ),
        decreases w.len() - k,
    {
        let ghost before = views(table@);
        let id = intern(table, LeafKind::Flag, short_spelling(w[k]), false);
        proof {
            lemma_elems_kept(before, views(table@), out@);
        }
        out.push(Elem::OptionRef(id));
        if table[id].takes_value {
            return k + 1 == w.len();
        }
        k += 1;
    }
    false
}

/// Reads the tokens of one pattern line into elements, adding to the table
/// every leaf that it does not hold yet.
pub fn lex(ws: &Vec<Vec<char>>, table: &mut Vec<Leaf>) -> (out: Vec<Elem>)
    requires
        table_wf(views(old(table)@)),
    ensures
        table_wf(views(final(table)@)),
        keeps_kinds(views(old(table)@), views(final(table)@)),
        elems_fit(views(final(table)@), out@),
        views(final(table)@) == lex_from(views(ws@), 1, views(old(table)@), seq![]).table,
        out@ == lex_from(views(ws@), 1, views(old(table)@), seq![]).elems,
{
    let mut out: Vec<Elem> = Vec::new();
    let mut i: usize = 1;
    while i < ws.len()
        invariant
            1 <= i,
            table_wf(views(table@)),
            keeps_kinds(views(old(table)@), views(table@)),
            elems_fit(views(table@), out@),
            lex_from(views(ws@), 1, views(old(table)@), seq![]) == lex_from(
                views(ws@),
                i as int,
                views(table@),
                out@,
            ),
        decreases ws.len() - i,
    {
        let w = &ws[i];
        let ghost before = views(table@);
        let follows = i + 1 < ws.len() && placeholder(&ws[i + 1]);
        if one_char(w, '[') {
            if ws.len() - i > 2 && options_word(&ws[i + 1]) && one_char(&ws[i + 2], ']') {
                out.push(Elem::AnyOptions);
                i += 3;
            } else {
                out.push(Elem::Open);
                i += 1;
            }
        } else if one_char(w, ']') {
            out.push(Elem::Close);
            i += 1;
        } else if one_char(w, '(') {
            out.push(Elem::GroupOpen);
            i += 1;
        } else if one_char(w, ')') {
            out.push(Elem::GroupClose);
            i += 1;
        } else if one_char(w, '|') {
            out.push(Elem::Bar);
            i += 1;
        } else if w.len() == 3 && w[0] == '.' && w[1] == '.' && w[2] == '.' {
            out.push(Elem::Dots);
            i += 1;
        } else if separator(w) {
            out.push(Elem::Separator);
            i += 1;
        } else if long(w) {
            let e = index_of(w, '=', 2);
            let inline = e < w.len();
            let id = intern(table, LeafKind::Flag, slice(w, 0, e), inline);
            proof {
                lemma_elems_kept(before, views(table@), out@);
            }
            out.push(Elem::OptionRef(id));
            if !inline && table[id].takes_value && follows {
                i += 2;
            } else {
                i += 1;
            }
        } else if short(w) {
            let pending = lex_bundle(table, w, &mut out);
            if pending && follows {
                i += 2;
            } else {
                i += 1;
            }
        } else if placeholder(w) {
            let id = intern(table, LeafKind::Positional, crate::text::copy(w), false);
            proof {
                lemma_elems_kept(before, views(table@), out@);
            }
            out.push(Elem::Positional(id));
            i += 1;
        } else {
            proof {
                if is_flag_spelling(w@) {
                    if w.len() == 2 {
                        assert(w@ =~= seq!['-', '-']);
                    }
                    assert(false);
                }
            }
            let id = intern(table, LeafKind::Command, crate::text::copy(w), false);
            proof {
                lemma_elems_kept(before, views(table@), out@);
            }
            out.push(Elem::Command(id));
            i += 1;
        }
    }
    out
}

} // verus!
