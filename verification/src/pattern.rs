//! The pattern tree, and the captures that a match of it makes.

use vstd::prelude::*;
use crate::leaf::{LeafKind, LeafView};
use crate::text::views;

verus! {

/// A node of the pattern tree. Leaves name an entry of the leaf table.
#[derive(Debug)]
pub enum Pattern {
    Command(usize),
    Positional(usize),
    OptionRef(usize),
    /// The literal `--`.
    Separator,
    /// Any of the first so many leaves of the table, which are the declared
    /// options, in any order and any number of times.
    AnyOptions(usize),
    Sequence(Vec<Pattern>),
    Either(Vec<Pattern>),
    Optional(Box<Pattern>),
    OneOrMore(Box<Pattern>),
    Required(Box<Pattern>),
}

/// A pattern tree as the specification sees it.
pub enum PatternView {
    Command(usize),
    Positional(usize),
    OptionRef(usize),
    Separator,
    AnyOptions(usize),
    Sequence(Seq<PatternView>),
    Either(Seq<PatternView>),
    Optional(Box<PatternView>),
    OneOrMore(Box<PatternView>),
    Required(Box<PatternView>),
}

/// The tree as a value of the specification: vectors become sequences.
pub open spec fn tree(p: Pattern) -> PatternView
    decreases p,
{
    match p {
        Pattern::Command(id) => PatternView::Command(id),
        Pattern::Positional(id) => PatternView::Positional(id),
        Pattern::OptionRef(id) => PatternView::OptionRef(id),
        Pattern::Separator => PatternView::Separator,
        Pattern::AnyOptions(n) => PatternView::AnyOptions(n),
        Pattern::Sequence(v) => PatternView::Sequence(
            Seq::new(
                v.len() as nat,
                |i: int|
                    if 0 <= i < v.len() {
                        tree(v[i])
                    } else {
                        PatternView::Separator
                    },
            ),
        ),
        Pattern::Either(v) => PatternView::Either(
            Seq::new(
                v.len() as nat,
                |i: int|
                    if 0 <= i < v.len() {
                        tree(v[i])
                    } else {
                        PatternView::Separator
                    },
            ),
        ),
        Pattern::Optional(b) => PatternView::Optional(Box::new(tree(*b))),
        Pattern::OneOrMore(b) => PatternView::OneOrMore(Box::new(tree(*b))),
        Pattern::Required(b) => PatternView::Required(Box::new(tree(*b))),
    }
}

impl View for Pattern {
    type V = PatternView;

    open spec fn view(&self) -> PatternView {
        tree(*self)
    }
}

/// A sequence node shows the trees of its children, in order.
pub proof fn lemma_sequence_tree(v: Vec<Pattern>)
    ensures
        Pattern::Sequence(v)@ == PatternView::Sequence(views(v@)),
{
    assert(Pattern::Sequence(v)@->Sequence_0 =~= views(v@));
}

/// An alternation node shows the trees of its children, in order.
pub proof fn lemma_either_tree(v: Vec<Pattern>)
    ensures
        Pattern::Either(v)@ == PatternView::Either(views(v@)),
{
    assert(Pattern::Either(v)@->Either_0 =~= views(v@));
}

/// Whether every leaf of `p` names a leaf of the table of its own kind, and
/// `[options]` stands for options only.
pub open spec fn fits(t: Seq<LeafView>, p: PatternView) -> bool
    decreases p,
{
    match p {
        PatternView::Command(id) => id < t.len() && t[id as int].kind == LeafKind::Command,
        PatternView::Positional(id) => id < t.len() && t[id as int].kind == LeafKind::Positional,
        PatternView::OptionRef(id) => id < t.len() && t[id as int].kind == LeafKind::Flag,
        PatternView::Separator => true,
        PatternView::AnyOptions(n) => n <= t.len() && forall|k: int|
            0 <= k < n ==> (#[trigger] t[k]).kind == LeafKind::Flag,
        PatternView::Sequence(ps) => forall|i: int| 0 <= i < ps.len() ==> fits(t, #[trigger] ps[i]),
        PatternView::Either(ps) => forall|i: int| 0 <= i < ps.len() ==> fits(t, #[trigger] ps[i]),
        PatternView::Optional(q) => fits(t, *q),
        PatternView::Required(q) => fits(t, *q),
        PatternView::OneOrMore(q) => fits(t, *q),
    }
}

/// Whether `u` holds every leaf of `t` at its place and with its kind.
pub open spec fn keeps_kinds(t: Seq<LeafView>, u: Seq<LeafView>) -> bool {
    t.len() <= u.len() && forall|j: int| 0 <= j < t.len() ==> (#[trigger] u[j]).kind == t[j].kind
}

/// A pattern that fits a table fits every table that keeps its kinds.
pub proof fn lemma_fits_kept(t: Seq<LeafView>, u: Seq<LeafView>, p: PatternView)
    requires
        fits(t, p),
        keeps_kinds(t, u),
    ensures
        fits(u, p),
    decreases p,
{
    match p {
        PatternView::Sequence(ps) => {
            assert forall|i: int| 0 <= i < ps.len() implies fits(u, #[trigger] ps[i]) by {
                lemma_fits_kept(t, u, ps[i]);
            }
        },
        PatternView::Either(ps) => {
            assert forall|i: int| 0 <= i < ps.len() implies fits(u, #[trigger] ps[i]) by {
                lemma_fits_kept(t, u, ps[i]);
            }
        },
        PatternView::Optional(q) => lemma_fits_kept(t, u, *q),
        PatternView::Required(q) => lemma_fits_kept(t, u, *q),
        PatternView::OneOrMore(q) => lemma_fits_kept(t, u, *q),
        _ => {},
    }
}

/// One binding made by a match: the leaf and the text it took.
#[derive(Debug)]
pub struct Capture {
    pub leaf: usize,
    pub text: Vec<char>,
}

/// A capture as the specification sees it.
pub struct CaptureView {
    pub leaf: usize,
    pub text: Seq<char>,
}

impl View for Capture {
    type V = CaptureView;

    open spec fn view(&self) -> CaptureView {
        CaptureView { leaf: self.leaf, text: self.text@ }
    }
}

} // verus!
