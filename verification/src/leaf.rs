//! The leaf table: every command, positional and option of a grammar, each
//! once, whatever the number of places or spellings it is used under.

use vstd::prelude::*;
use crate::text::{is_upper, same, same_opt, upper, views};

verus! {

/// What a leaf stands for in an argument vector.
#[derive(Clone, Copy, Debug, PartialEq, Eq, Structural)]
pub enum LeafKind {
    /// A fixed word.
    Command,
    /// A named placeholder that takes any word.
    Positional,
    /// A declared option, with or without a value.
    Flag,
}

/// One entry of the leaf table. An option with two spellings is one leaf:
/// `name` is the long spelling where there is one, `alias` the other.
#[derive(Debug)]
pub struct Leaf {
    pub kind: LeafKind,
    pub name: Vec<char>,
    pub alias: Option<Vec<char>>,
    pub takes_value: bool,
    pub default: Option<Vec<char>>,
    pub repeats: bool,
}

/// A leaf as the specification sees it.
pub struct LeafView {
    pub kind: LeafKind,
    pub name: Seq<char>,
    pub alias: Option<Seq<char>>,
    pub takes_value: bool,
    pub default: Option<Seq<char>>,
    pub repeats: bool,
}

impl View for Leaf {
    type V = LeafView;

    open spec fn view(&self) -> LeafView {
        LeafView {
            kind: self.kind,
            name: self.name@,
            alias: match self.alias {
                Some(a) => Some(a@),
                None => None,
            },
            takes_value: self.takes_value,
            default: match self.default {
                Some(d) => Some(d@),
                None => None,
            },
            repeats: self.repeats,
        }
    }
}

/// Whether `name` is one of the spellings of `leaf`.
pub open spec fn spelled(leaf: LeafView, name: Seq<char>) -> bool {
    leaf.name == name || leaf.alias == Some(name)
}

/// The index of the first leaf, from `i` on, of kind `kind` that is spelled `name`.
pub open spec fn find_leaf(t: Seq<LeafView>, kind: LeafKind, name: Seq<char>, i: int) -> Option<int>
    decreases t.len() - i,
{
    if 0 <= i < t.len() {
        if t[i].kind == kind && spelled(t[i], name) {
            Some(i)
        } else {
            find_leaf(t, kind, name, i + 1)
        }
    } else {
        None
    }
}

/// Whether the option spelled `name` is declared to take a value. An option
/// that the table does not hold takes none.
pub open spec fn takes_value(t: Seq<LeafView>, name: Seq<char>) -> bool {
    match find_leaf(t, LeafKind::Flag, name, 0) {
        Some(i) => t[i].takes_value,
        None => false,
    }
}

/// What `find_leaf` gives is in range, is a leaf of that kind and spelling,
/// and no earlier leaf from `i` on is one.
pub proof fn lemma_find_leaf(t: Seq<LeafView>, kind: LeafKind, name: Seq<char>, i: int)
    requires
        0 <= i,
    ensures
        match find_leaf(t, kind, name, i) {
            Some(k) => i <= k < t.len() && t[k].kind == kind && spelled(t[k], name) && forall|j: int|
                i <= j < k ==> !(t[j].kind == kind && spelled(#[trigger] t[j], name)),
            None => forall|j: int|
                i <= j < t.len() ==> !(t[j].kind == kind && spelled(#[trigger] t[j], name)),
        },
    decreases t.len() - i,
{
    if i < t.len() && !(t[i].kind == kind && spelled(t[i], name)) {
        lemma_find_leaf(t, kind, name, i + 1);
    }
}

/// Whether every character is an upper-case letter.
pub open spec fn all_upper(w: Seq<char>) -> bool {
    forall|i: int| 0 <= i < w.len() ==> is_upper(#[trigger] w[i])
}

/// A name in angle brackets, or a word in upper-case letters: what stands
/// for a value.
pub open spec fn is_placeholder(w: Seq<char>) -> bool {
    (w.len() >= 2 && w[0] == '<' && w[w.len() - 1] == '>') || (w.len() > 0 && all_upper(w))
}

/// A spelling of an option: a dash and one more character at least.
pub open spec fn is_flag_spelling(w: Seq<char>) -> bool {
    w.len() >= 2 && w[0] == '-'
}

/// Whether `name` can name a leaf of this kind. An option is spelled with
/// a dash, a positional is a placeholder, and a command is neither: so no
/// name serves two kinds.
pub open spec fn names_kind(kind: LeafKind, name: Seq<char>) -> bool {
    match kind {
        LeafKind::Flag => is_flag_spelling(name),
        LeafKind::Positional => is_placeholder(name),
        LeafKind::Command => !is_flag_spelling(name) && !is_placeholder(name),
    }
}

/// Whether the spellings of a leaf are of its kind. Only an option has a
/// second spelling, and it is another than the first.
pub open spec fn well_named(leaf: LeafView) -> bool {
    &&& names_kind(leaf.kind, leaf.name)
    &&& leaf.alias is Some ==> leaf.kind == LeafKind::Flag && is_flag_spelling(leaf.alias->0)
        && leaf.alias->0 != leaf.name
}

/// Whether no spelling belongs to two leaves.
pub open spec fn distinct(t: Seq<LeafView>) -> bool {
    forall|i: int, j: int, name: Seq<char>|
        0 <= i < t.len() && 0 <= j < t.len() && #[trigger] spelled(t[i], name) && #[trigger] spelled(
            t[j],
            name,
        ) ==> i == j
}

/// A well-formed table: every leaf is named as its kind asks, and no
/// spelling belongs to two leaves.
pub open spec fn table_wf(t: Seq<LeafView>) -> bool {
    &&& distinct(t)
    &&& forall|i: int| 0 <= i < t.len() ==> well_named(#[trigger] t[i])
}

/// A placeholder is no spelling of an option.
pub proof fn lemma_placeholder_is_no_flag(w: Seq<char>)
    requires
        is_placeholder(w),
    ensures
        !is_flag_spelling(w),
{
    if w.len() > 0 && all_upper(w) {
        assert(is_upper(w[0]));
    }
}

/// A spelling of a well-named leaf names the leaf's kind.
pub proof fn lemma_spelling_names_kind(leaf: LeafView, name: Seq<char>)
    requires
        well_named(leaf),
        spelled(leaf, name),
    ensures
        names_kind(leaf.kind, name),
{
}

/// A well-formed table stays so with a new leaf that is well named and
/// none of whose spellings the table holds for its kind.
pub proof fn lemma_push_keeps_wf(t: Seq<LeafView>, leaf: LeafView)
    requires
        table_wf(t),
        well_named(leaf),
        find_leaf(t, leaf.kind, leaf.name, 0) is None,
        leaf.alias is Some ==> find_leaf(t, leaf.kind, leaf.alias->0, 0) is None,
    ensures
        table_wf(t.push(leaf)),
{
    let u = t.push(leaf);
    lemma_find_leaf(t, leaf.kind, leaf.name, 0);
    if leaf.alias is Some {
        lemma_find_leaf(t, leaf.kind, leaf.alias->0, 0);
    }
    assert forall|i: int, j: int, name: Seq<char>|
        0 <= i < u.len() && 0 <= j < u.len() && #[trigger] spelled(u[i], name) && #[trigger] spelled(
            u[j],
            name,
        ) implies i == j by {
        if i < t.len() && j < t.len() {
            assert(spelled(t[i], name) && spelled(t[j], name));
        } else if i < t.len() || j < t.len() {
            let k = if i < t.len() {
                i
            } else {
                j
            };
            assert(u[k] == t[k]);
            assert(well_named(t[k]));
            lemma_spelling_names_kind(t[k], name);
            lemma_spelling_names_kind(leaf, name);
            if is_placeholder(name) {
                lemma_placeholder_is_no_flag(name);
            }
            assert(t[k].kind == leaf.kind);
            assert(spelled(t[k], name));
            assert(false);
        }
    }
    assert forall|i: int| 0 <= i < u.len() implies well_named(#[trigger] u[i]) by {
        if i < t.len() {
            assert(u[i] == t[i]);
        }
    }
}

/// A well-formed table stays so where a leaf is replaced by one of the
/// same kind and spellings.
pub proof fn lemma_update_keeps_wf(t: Seq<LeafView>, i: int, leaf: LeafView)
    requires
        table_wf(t),
        0 <= i < t.len(),
        leaf.kind == t[i].kind,
        leaf.name == t[i].name,
        leaf.alias == t[i].alias,
    ensures
        table_wf(t.update(i, leaf)),
{
    let u = t.update(i, leaf);
    assert forall|a: int, b: int, name: Seq<char>|
        0 <= a < u.len() && 0 <= b < u.len() && #[trigger] spelled(u[a], name) && #[trigger] spelled(
            u[b],
            name,
        ) implies a == b by {
        assert(spelled(t[a], name) && spelled(t[b], name));
    }
    assert forall|k: int| 0 <= k < u.len() implies well_named(#[trigger] u[k]) by {
        assert(well_named(t[k]));
    }
}

/// Whether `w` is a placeholder.
pub fn placeholder(w: &Vec<char>) -> (b: bool)
    ensures
        b == is_placeholder(w@),
{
    if w.len() >= 2 && w[0] == '<' && w[w.len() - 1] == '>' {
        return true;
    }
    if w.len() == 0 {
        return false;
    }
    let mut i: usize = 0;
    while i < w.len()
        invariant
            i <= w.len(),
            w.len() > 0,
            !(w.len() >= 2 && w@[0] == '<' && w@[w.len() - 1] == '>'),
            forall|k: int| 0 <= k < i ==> is_upper(#[trigger] w@[k]),
        decreases w.len() - i,
    {
        if !upper(w[i]) {
            assert(!is_upper(w@[i as int]));
            return false;
        }
        i += 1;
    }
    true
}

/// An optional index as the specification writes it.
pub open spec fn as_index(r: Option<usize>) -> Option<int> {
    match r {
        Some(k) => Some(k as int),
        None => None,
    }
}

/// Finds a leaf by kind and spelling.
pub fn lookup(table: &Vec<Leaf>, kind: LeafKind, name: &Vec<char>) -> (r: Option<usize>)
    ensures
        as_index(r) == find_leaf(views(table@), kind, name@, 0),
        r matches Some(k) ==> k < table.len(),
{
    let mut i: usize = 0;
    while i < table.len()
        invariant
            i <= table.len(),
            find_leaf(views(table@), kind, name@, 0) == find_leaf(views(table@), kind, name@, i as int),
        decreases table.len() - i,
    {
        let leaf = &table[i];
        if leaf.kind == kind && (same(&leaf.name, name) || same_opt(&leaf.alias, name)) {
            return Some(i);
        }
        i += 1;
    }
    None
}

/// Whether the option spelled `name` is declared to take a value.
pub fn wants_value(table: &Vec<Leaf>, name: &Vec<char>) -> (b: bool)
    ensures
        b == takes_value(views(table@), name@),
{
    match lookup(table, LeafKind::Flag, name) {
        Some(i) => table[i].takes_value,
        None => false,
    }
}

} // verus!
