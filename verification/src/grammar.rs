//! From the elements of a pattern line to a pattern tree.
//!
//! A line is alternatives parted by bars; an alternative is a sequence of
//! items; an item is an atom, repeatable where an ellipsis follows it; an
//! atom is a leaf or a bracketed line.

use vstd::prelude::*;
use vstd::pervasive::VecAdditionalExecFns;
use crate::errors::Fault;
use crate::leaf::{LeafKind, LeafView};
use crate::pattern::{fits, lemma_either_tree, lemma_sequence_tree, Pattern, PatternView};
use crate::text::{lemma_views_push, views};
use crate::usage::{elem_fits, elems_fit, Elem};

verus! {

/// A pattern read from the elements, and the index after it.
pub type Parsed = Result<(PatternView, int), Fault>;

/// A sequence read from the elements, and the index after it.
pub type ParsedItems = Result<(Seq<PatternView>, int), Fault>;

/// An option becomes optional on its own; anything else stays.
pub open spec fn loosen(p: PatternView) -> PatternView {
    if p is OptionRef {
        PatternView::Optional(Box::new(p))
    } else {
        p
    }
}

/// What square brackets make of what stands between them. The whole is
/// optional. Where it is one sequence, without a bar, each option that
/// stands directly in it is also optional on its own, so that the other
/// items can be given without it.
pub open spec fn optional_of(p: PatternView) -> PatternView {
    match p {
        PatternView::Sequence(items) => PatternView::Optional(
            Box::new(PatternView::Sequence(Seq::new(items.len(), |i: int| loosen(items[i])))),
        ),
        _ => PatternView::Optional(Box::new(p)),
    }
}

/// The first index at or after `i` that holds no ellipsis.
pub open spec fn skip_dots(es: Seq<Elem>, i: int) -> int
    decreases es.len() - i,
{
    if 0 <= i < es.len() && es[i] == Elem::Dots {
        skip_dots(es, i + 1)
    } else {
        i
    }
}

/// An element that ends a sequence.
pub open spec fn ends_sequence(e: Elem) -> bool {
    e == Elem::Close || e == Elem::GroupClose || e == Elem::Bar
}

/// The atom at `pos`. `n` is the number of declared options.
pub open spec fn atom_at(es: Seq<Elem>, pos: int, n: usize) -> Parsed
    decreases es.len() - pos, 0nat,
{
    if 0 <= pos < es.len() {
        match es[pos] {
            Elem::Command(id) => Ok((PatternView::Command(id), pos + 1)),
            Elem::Positional(id) => Ok((PatternView::Positional(id), pos + 1)),
            Elem::OptionRef(id) => Ok((PatternView::OptionRef(id), pos + 1)),
            Elem::Separator => Ok((PatternView::Separator, pos + 1)),
            Elem::AnyOptions => Ok((PatternView::AnyOptions(n), pos + 1)),
            Elem::Open => match alt_from(es, pos + 1, n, seq![]) {
                Ok((p, next)) => if 0 <= next < es.len() && es[next] == Elem::Close {
                    Ok((optional_of(p), next + 1))
                } else {
                    Err(Fault::Unclosed)
                },
                Err(f) => Err(f),
            },
            Elem::GroupOpen => match alt_from(es, pos + 1, n, seq![]) {
                Ok((p, next)) => if 0 <= next < es.len() && es[next] == Elem::GroupClose {
                    Ok((PatternView::Required(Box::new(p)), next + 1))
                } else {
                    Err(Fault::Unclosed)
                },
                Err(f) => Err(f),
            },
            Elem::Dots => Err(Fault::DanglingDots),
            Elem::Close => Err(Fault::Unopened),
            Elem::GroupClose => Err(Fault::Unopened),
            Elem::Bar => Err(Fault::Unopened),
        }
    } else {
        Err(Fault::Unclosed)
    }
}

/// The item at `pos`: an atom, one or more times where an ellipsis follows.
pub open spec fn item_at(es: Seq<Elem>, pos: int, n: usize) -> Parsed
    decreases es.len() - pos, 1nat,
{
    match atom_at(es, pos, n) {
        Ok((p, next)) => {
            let after = skip_dots(es, next);
            if after > next {
                Ok((PatternView::OneOrMore(Box::new(p)), after))
            } else {
                Ok((p, next))
            }
        },
        Err(f) => Err(f),
    }
}

/// The items from `pos` up to the end of their sequence, pushed onto `items`.
pub open spec fn seq_from(es: Seq<Elem>, pos: int, n: usize, items: Seq<PatternView>) -> ParsedItems
    decreases es.len() - pos, 2nat,
{
    if 0 <= pos < es.len() && !ends_sequence(es[pos]) {
        match item_at(es, pos, n) {
            Ok((p, next)) => if pos < next <= es.len() {
                seq_from(es, next, n, items.push(p))
            } else {
                Err(Fault::Unclosed)
            },
            Err(f) => Err(f),
        }
    } else {
        Ok((items, pos))
    }
}

/// One alternative, or the choice between several.
pub open spec fn choice(branches: Seq<PatternView>) -> PatternView {
    if branches.len() == 1 {
        branches[0]
    } else {
        PatternView::Either(branches)
    }
}

/// The alternatives from `pos` on, after those of `branches`.
pub open spec fn alt_from(es: Seq<Elem>, pos: int, n: usize, branches: Seq<PatternView>) -> Parsed
    decreases es.len() - pos, 3nat,
{
    match seq_from(es, pos, n, seq![]) {
        Ok((items, next)) => {
            let all = branches.push(PatternView::Sequence(items));
            if pos <= next < es.len() && es[next] == Elem::Bar {
                alt_from(es, next + 1, n, all)
            } else {
                Ok((choice(all), next))
            }
        },
        Err(f) => Err(f),
    }
}

/// The pattern of a whole line of elements.
pub open spec fn parsed_line(es: Seq<Elem>, n: usize) -> Result<PatternView, Fault> {
    match alt_from(es, 0, n, seq![]) {
        Ok((p, next)) => if next == es.len() {
            Ok(p)
        } else {
            Err(Fault::Unopened)
        },
        Err(f) => Err(f),
    }
}

/// Whether the first `n` leaves of the table are options.
pub open spec fn options_first(t: Seq<LeafView>, n: usize) -> bool {
    n <= t.len() && forall|k: int| 0 <= k < n ==> (#[trigger] t[k]).kind == LeafKind::Flag
}

/// Whether a parse, if it gave a pattern, gave one that fits the table.
pub open spec fn parsed_fits(t: Seq<LeafView>, r: Parsed) -> bool {
    match r {
        Ok((p, _)) => fits(t, p),
        Err(_) => true,
    }
}

/// Whether a parse, if it gave a sequence, gave one whose items fit the table.
pub open spec fn items_fit(t: Seq<LeafView>, r: ParsedItems) -> bool {
    match r {
        Ok((ps, _)) => forall|i: int| 0 <= i < ps.len() ==> fits(t, #[trigger] ps[i]),
        Err(_) => true,
    }
}

proof fn lemma_atom_fits(t: Seq<LeafView>, es: Seq<Elem>, pos: int, n: usize)
    requires
        elems_fit(t, es),
        options_first(t, n),
    ensures
        parsed_fits(t, atom_at(es, pos, n)),
    decreases es.len() - pos, 0nat,
{
    if 0 <= pos < es.len() {
        assert(elem_fits(t, es[pos]));
        match es[pos] {
            Elem::Open => {
                lemma_alt_fits(t, es, pos + 1, n, seq![]);
                match alt_from(es, pos + 1, n, seq![]) {
                    Ok((p, _)) => {
                        match p {
                            PatternView::Sequence(items) => {
                                let loose = Seq::new(items.len(), |i: int| loosen(items[i]));
                                assert forall|i: int| 0 <= i < loose.len() implies fits(
                                    t,
                                    #[trigger] loose[i],
                                ) by {
                                    assert(fits(t, items[i]));
                                    assert(loose[i] == loosen(items[i]));
                                    if items[i] is OptionRef {
                                        assert(fits(t, PatternView::Optional(Box::new(items[i]))));
                                    }
                                }
                                assert(fits(t, PatternView::Sequence(loose)));
                                assert(fits(t, PatternView::Optional(Box::new(PatternView::Sequence(loose)))));
                                assert(optional_of(p) == PatternView::Optional(
                                    Box::new(PatternView::Sequence(loose)),
                                ));
                            },
                            _ => {
                                assert(fits(t, PatternView::Optional(Box::new(p))));
                            },
                        }
                    },
                    Err(_) => {},
                }
            },
            Elem::GroupOpen => {
                lemma_alt_fits(t, es, pos + 1, n, seq![]);
                match alt_from(es, pos + 1, n, seq![]) {
                    Ok((p, _)) => {
                        assert(fits(t, PatternView::Required(Box::new(p))));
                    },
                    Err(_) => {},
                }
            },
            _ => {},
        }
    }
}

proof fn lemma_item_fits(t: Seq<LeafView>, es: Seq<Elem>, pos: int, n: usize)
    requires
        elems_fit(t, es),
        options_first(t, n),
    ensures
        parsed_fits(t, item_at(es, pos, n)),
    decreases es.len() - pos, 1nat,
{
    lemma_atom_fits(t, es, pos, n);
}

proof fn lemma_seq_fits(t: Seq<LeafView>, es: Seq<Elem>, pos: int, n: usize, items: Seq<PatternView>)
    requires
        elems_fit(t, es),
        options_first(t, n),
        forall|i: int| 0 <= i < items.len() ==> fits(t, #[trigger] items[i]),
    ensures
        items_fit(t, seq_from(es, pos, n, items)),
    decreases es.len() - pos, 2nat,
{
    if 0 <= pos < es.len() && !ends_sequence(es[pos]) {
        lemma_item_fits(t, es, pos, n);
        match item_at(es, pos, n) {
            Ok((p, next)) => {
                if pos < next <= es.len() {
                    lemma_seq_fits(t, es, next, n, items.push(p));
                }
            },
            Err(_) => {},
        }
    }
}

proof fn lemma_alt_fits(t: Seq<LeafView>, es: Seq<Elem>, pos: int, n: usize, branches: Seq<PatternView>)
    requires
        elems_fit(t, es),
        options_first(t, n),
        forall|i: int| 0 <= i < branches.len() ==> fits(t, #[trigger] branches[i]),
    ensures
        parsed_fits(t, alt_from(es, pos, n, branches)),
    decreases es.len() - pos, 3nat,
{
    lemma_seq_fits(t, es, pos, n, seq![]);
    match seq_from(es, pos, n, seq![]) {
        Ok((items, next)) => {
            let all = branches.push(PatternView::Sequence(items));
            assert forall|i: int| 0 <= i < all.len() implies fits(t, #[trigger] all[i]) by {
                if i < branches.len() {
                    assert(all[i] == branches[i]);
                }
            }
            if pos <= next < es.len() && es[next] == Elem::Bar {
                lemma_alt_fits(t, es, next + 1, n, all);
            }
        },
        Err(_) => {},
    }
}

/// The pattern of a line fits the table that its elements fit: each of its
/// leaves names a leaf of the table of its own kind.
pub proof fn lemma_line_fits(t: Seq<LeafView>, es: Seq<Elem>, n: usize)
    requires
        elems_fit(t, es),
        options_first(t, n),
    ensures
        parsed_line(es, n) is Ok ==> fits(t, parsed_line(es, n)->Ok_0),
{
    lemma_alt_fits(t, es, 0, n, seq![]);
}

/// Whether an executable parse returned exactly `s`.
pub open spec fn parse_agrees(r: Result<(Pattern, usize), Fault>, s: Parsed) -> bool {
    match s {
        Ok((p, next)) => match r {
            Ok((q, end)) => q@ == p && end == next,
            Err(_) => false,
        },
        Err(f) => match r {
            Ok(_) => false,
            Err(g) => g == f,
        },
    }
}

/// Whether an executable parse of a sequence returned exactly `s`.
pub open spec fn items_agree(r: Result<(Vec<Pattern>, usize), Fault>, s: ParsedItems) -> bool {
    match s {
        Ok((ps, next)) => match r {
            Ok((qs, end)) => views(qs@) == ps && end == next,
            Err(_) => false,
        },
        Err(f) => match r {
            Ok(_) => false,
            Err(g) => g == f,
        },
    }
}

/// Where an executable parse ended.
pub open spec fn parse_end<T>(r: Result<(T, usize), Fault>) -> int {
    match r {
        Ok((_, end)) => end as int,
        Err(_) => 0,
    }
}

fn after_dots(es: &Vec<Elem>, from: usize) -> (i: usize)
    requires
        from <= es.len(),
    ensures
        i == skip_dots(es@, from as int),
        from <= i <= es.len(),
{
    let mut i: usize = from;
    while i < es.len() && es[i] == Elem::Dots
        invariant
            from <= i <= es.len(),
            skip_dots(es@, from as int) == skip_dots(es@, i as int),
        decreases es.len() - i,
    {
        i += 1;
    }
    i
}

fn loosen_all(items: Vec<Pattern>) -> (out: Vec<Pattern>)
    ensures
        views(out@) == Seq::new(items.len() as nat, |i: int| loosen(views(items@)[i])),
{
    let mut out = items;
    let mut i: usize = 0;
    while i < out.len()
        invariant
            i <= out.len(),
            out.len() == items.len(),
            forall|k: int| 0 <= k < i ==> (#[trigger] out@[k])@ == loosen(items@[k]@),
            forall|k: int| i <= k < out.len() ==> #[trigger] out@[k] == items@[k],
        decreases out.len() - i,
    {
        let mut hole = Pattern::Separator;
        out.set_and_swap(i, &mut hole);
        let mut item = match hole {
            Pattern::OptionRef(id) => Pattern::Optional(Box::new(Pattern::OptionRef(id))),
            other => other,
        };
        assert(item@ == loosen(items@[i as int]@));
        out.set_and_swap(i, &mut item);
        i += 1;
    }
    assert(views(out@) =~= Seq::new(items.len() as nat, |i: int| loosen(views(items@)[i])));
    out
}

fn make_optional(p: Pattern) -> (r: Pattern)
    ensures
        r@ == optional_of(p@),
{
    match p {
        Pattern::Sequence(items) => {
            proof {
                lemma_sequence_tree(items);
            }
            let loose = loosen_all(items);
            proof {
                lemma_sequence_tree(loose);
            }
            Pattern::Optional(Box::new(Pattern::Sequence(loose)))
        },
        other => Pattern::Optional(Box::new(other)),
    }
}

fn make_choice(branches: Vec<Pattern>) -> (r: Pattern)
    requires
        branches.len() > 0,
    ensures
        r@ == choice(views(branches@)),
{
    let mut branches = branches;
    if branches.len() == 1 {
        let ghost all = branches@;
        let only = branches.pop().unwrap();
        assert(only == all[0]);
        only
    } else {
        proof {
            lemma_either_tree(branches);
        }
        Pattern::Either(branches)
    }
}

fn parse_atom(es: &Vec<Elem>, pos: usize, n: usize) -> (r: Result<(Pattern, usize), Fault>)
    requires
        pos < es.len(),
    ensures
        parse_agrees(r, atom_at(es@, pos as int, n)),
        r is Ok ==> pos < parse_end(r) <= es.len(),
    decreases es.len() - pos, 0nat,
{
    match es[pos] {
        Elem::Command(id) => Ok((Pattern::Command(id), pos + 1)),
        Elem::Positional(id) => Ok((Pattern::Positional(id), pos + 1)),
        Elem::OptionRef(id) => Ok((Pattern::OptionRef(id), pos + 1)),
        Elem::Separator => Ok((Pattern::Separator, pos + 1)),
        Elem::AnyOptions => Ok((Pattern::AnyOptions(n), pos + 1)),
        Elem::Open => match parse_alt(es, pos + 1, n) {
            Ok((p, next)) => {
                if next < es.len() && es[next] == Elem::Close {
                    Ok((make_optional(p), next + 1))
                } else {
                    Err(Fault::Unclosed)
                }
            },
            Err(f) => Err(f),
        },
        Elem::GroupOpen => match parse_alt(es, pos + 1, n) {
            Ok((p, next)) => {
                if next < es.len() && es[next] == Elem::GroupClose {
                    Ok((Pattern::Required(Box::new(p)), next + 1))
                } else {
                    Err(Fault::Unclosed)
                }
            },
            Err(f) => Err(f),
        },
        Elem::Dots => Err(Fault::DanglingDots),
        Elem::Close => Err(Fault::Unopened),
        Elem::GroupClose => Err(Fault::Unopened),
        Elem::Bar => Err(Fault::Unopened),
    }
}

fn parse_item(es: &Vec<Elem>, pos: usize, n: usize) -> (r: Result<(Pattern, usize), Fault>)
    requires
        pos < es.len(),
    ensures
        parse_agrees(r, item_at(es@, pos as int, n)),
        r is Ok ==> pos < parse_end(r) <= es.len(),
    decreases es.len() - pos, 1nat,
{
    match parse_atom(es, pos, n) {
        Ok((p, next)) => {
            let after = after_dots(es, next);
            if after > next {
                Ok((Pattern::OneOrMore(Box::new(p)), after))
            } else {
                Ok((p, next))
            }
        },
        Err(f) => Err(f),
    }
}

fn parse_seq(es: &Vec<Elem>, pos: usize, n: usize) -> (r: Result<(Vec<Pattern>, usize), Fault>)
    requires
        pos <= es.len(),
    ensures
        items_agree(r, seq_from(es@, pos as int, n, seq![])),
        r is Ok ==> pos <= parse_end(r) <= es.len(),
    decreases es.len() - pos, 2nat,
{
    let mut items: Vec<Pattern> = Vec::new();
    let mut at: usize = pos;
    assert(views(items@) =~= Seq::<PatternView>::empty());
    while at < es.len() && !(es[at] == Elem::Close || es[at] == Elem::GroupClose || es[at] == Elem::Bar)
        invariant
            pos <= at <= es.len(),
            seq_from(es@, pos as int, n, seq![]) == seq_from(es@, at as int, n, views(items@)),
        decreases es.len() - at,
    {
        match parse_item(es, at, n) {
            Ok((p, next)) => {
                proof {
                    lemma_views_push(items@, p);
                }
                items.push(p);
                at = next;
            },
            Err(f) => {
                return Err(f);
            },
        }
    }
    Ok((items, at))
}

fn parse_alt(es: &Vec<Elem>, pos: usize, n: usize) -> (r: Result<(Pattern, usize), Fault>)
    requires
        pos <= es.len(),
    ensures
        parse_agrees(r, alt_from(es@, pos as int, n, seq![])),
        r is Ok ==> pos <= parse_end(r) <= es.len(),
    decreases es.len() - pos, 3nat,
{
    let mut branches: Vec<Pattern> = Vec::new();
    let mut at: usize = pos;
    assert(views(branches@) =~= Seq::<PatternView>::empty());
    loop
        invariant
            pos <= at <= es.len(),
            alt_from(es@, pos as int, n, seq![]) == alt_from(es@, at as int, n, views(branches@)),
        decreases es.len() - at,
    {
        match parse_seq(es, at, n) {
            Ok((items, next)) => {
                proof {
                    lemma_sequence_tree(items);
                    lemma_views_push(branches@, Pattern::Sequence(items));
                }
                branches.push(Pattern::Sequence(items));
                if next < es.len() && es[next] == Elem::Bar {
                    at = next + 1;
                } else {
                    return Ok((make_choice(branches), next));
                }
            },
            Err(f) => {
                return Err(f);
            },
        }
    }
}

/// Reads the elements of one pattern line into a pattern. `n` is the
/// number of declared options, for which `[options]` stands.
pub fn parse_line(es: &Vec<Elem>, n: usize) -> (r: Result<Pattern, Fault>)
    ensures
        match parsed_line(es@, n) {
            Ok(p) => r is Ok && r->Ok_0@ == p,
            Err(f) => r is Err && r->Err_0 == f,
        },
{
    match parse_alt(es, 0, n) {
        Ok((p, next)) => {
            if next == es.len() {
                Ok(p)
            } else {
                Err(Fault::Unopened)
            }
        },
        Err(f) => Err(f),
    }
}

/// The flags of the leaves that can repeat, after reading `p`: every leaf
/// that stands in `p` under a repetition, or anywhere in `p` if `under` says
/// that `p` itself stands under one, is flagged in addition to those of
/// `flags`.
pub open spec fn marked(p: PatternView, under: bool, flags: Seq<bool>) -> Seq<bool>
    decreases p, 1nat, 0nat,
{
    match p {
        PatternView::Command(id) => mark_leaf(id, under, flags),
        PatternView::Positional(id) => mark_leaf(id, under, flags),
        PatternView::OptionRef(id) => mark_leaf(id, under, flags),
        PatternView::Separator => flags,
        PatternView::AnyOptions(_) => flags,
        PatternView::Sequence(ps) => marked_all(ps, 0, under, flags),
        PatternView::Either(ps) => marked_all(ps, 0, under, flags),
        PatternView::Optional(q) => marked(*q, under, flags),
        PatternView::Required(q) => marked(*q, under, flags),
        PatternView::OneOrMore(q) => marked(*q, true, flags),
    }
}

/// The flags with leaf `id` flagged, if it stands under a repetition.
pub open spec fn mark_leaf(id: usize, under: bool, flags: Seq<bool>) -> Seq<bool> {
    if under && id < flags.len() {
        flags.update(id as int, true)
    } else {
        flags
    }
}

/// The flags after reading the patterns of `ps` from index `i` on, in order.
pub open spec fn marked_all(ps: Seq<PatternView>, i: int, under: bool, flags: Seq<bool>) -> Seq<bool>
    decreases ps, 0nat, ps.len() - i,
{
    if 0 <= i < ps.len() {
        marked_all(ps, i + 1, under, marked(ps[i], under, flags))
    } else {
        flags
    }
}

/// Whether leaf `l` stands in `p` under a repetition, or anywhere in `p`
/// if `under` says that `p` itself stands under one.
pub open spec fn repeats_in(p: PatternView, l: int, under: bool) -> bool
    decreases p,
{
    match p {
        PatternView::Command(id) => under && id == l,
        PatternView::Positional(id) => under && id == l,
        PatternView::OptionRef(id) => under && id == l,
        PatternView::Separator => false,
        PatternView::AnyOptions(_) => false,
        PatternView::Sequence(ps) => exists|i: int| 0 <= i < ps.len() && repeats_in(#[trigger] ps[i], l, under),
        PatternView::Either(ps) => exists|i: int| 0 <= i < ps.len() && repeats_in(#[trigger] ps[i], l, under),
        PatternView::Optional(q) => repeats_in(*q, l, under),
        PatternView::Required(q) => repeats_in(*q, l, under),
        PatternView::OneOrMore(q) => repeats_in(*q, l, true),
    }
}

/// Whether leaf `l` repeats in one of the patterns `ps[i..]`.
pub open spec fn repeats_among(ps: Seq<PatternView>, i: int, l: int, under: bool) -> bool {
    exists|k: int| i <= k < ps.len() && repeats_in(#[trigger] ps[k], l, under)
}

/// Reading a pattern flags the leaves that repeat in it, and no other: a
/// leaf is flagged afterwards if it was before or if it stands in the
/// pattern under an ellipsis.
pub proof fn lemma_marked(p: PatternView, under: bool, flags: Seq<bool>)
    ensures
        marked(p, under, flags).len() == flags.len(),
        forall|l: int|
            0 <= l < flags.len() ==> #[trigger] marked(p, under, flags)[l] == (flags[l] || repeats_in(
                p,
                l,
                under,
            )),
    decreases p, 1nat, 0nat,
{
    match p {
        PatternView::Sequence(ps) => {
            lemma_marked_all(ps, 0, under, flags);
            assert forall|l: int| 0 <= l < flags.len() implies repeats_among(ps, 0, l, under)
                == repeats_in(p, l, under) by {}
        },
        PatternView::Either(ps) => {
            lemma_marked_all(ps, 0, under, flags);
            assert forall|l: int| 0 <= l < flags.len() implies repeats_among(ps, 0, l, under)
                == repeats_in(p, l, under) by {}
        },
        PatternView::Optional(q) => lemma_marked(*q, under, flags),
        PatternView::Required(q) => lemma_marked(*q, under, flags),
        PatternView::OneOrMore(q) => lemma_marked(*q, true, flags),
        _ => {},
    }
}

/// Reading patterns in a row flags the leaves that repeat in one of them.
pub proof fn lemma_marked_all(ps: Seq<PatternView>, i: int, under: bool, flags: Seq<bool>)
    requires
        0 <= i,
    ensures
        marked_all(ps, i, under, flags).len() == flags.len(),
        forall|l: int|
            0 <= l < flags.len() ==> #[trigger] marked_all(ps, i, under, flags)[l] == (flags[l]
                || repeats_among(ps, i, l, under)),
    decreases ps, 0nat, ps.len() - i,
{
    if i < ps.len() {
        let next = marked(ps[i], under, flags);
        lemma_marked(ps[i], under, flags);
        lemma_marked_all(ps, i + 1, under, next);
        assert forall|l: int| 0 <= l < flags.len() implies #[trigger] marked_all(ps, i, under, flags)[l] == (
        flags[l] || repeats_among(ps, i, l, under)) by {
            assert(marked_all(ps, i, under, flags)[l] == (next[l] || repeats_among(ps, i + 1, l, under)));
            if repeats_among(ps, i + 1, l, under) {
                let k = choose|k: int| i + 1 <= k < ps.len() && repeats_in(#[trigger] ps[k], l, under);
                assert(i <= k < ps.len() && repeats_in(ps[k], l, under));
            }
            if repeats_in(ps[i], l, under) {
                assert(i <= i < ps.len() && repeats_in(ps[i], l, under));
            }
            if repeats_among(ps, i, l, under) {
                let k = choose|k: int| i <= k < ps.len() && repeats_in(#[trigger] ps[k], l, under);
                if k != i {
                    assert(i + 1 <= k < ps.len() && repeats_in(ps[k], l, under));
                }
            }
        }
    } else {
        assert forall|l: int| 0 <= l < flags.len() implies !repeats_among(ps, i, l, under) by {}
    }
}

fn mark_one(id: usize, under: bool, flags: &mut Vec<bool>)
    ensures
        final(flags)@ == mark_leaf(id, under, old(flags)@),
{
    if under && id < flags.len() {
        flags.set(id, true);
    }
}

/// Flags every leaf of `p` that can repeat.
pub fn mark(p: &Pattern, under: bool, flags: &mut Vec<bool>)
    ensures
        final(flags)@ == marked(p@, under, old(flags)@),
    decreases *p,
{
    match p {
        Pattern::Command(id) => mark_one(*id, under, flags),
        Pattern::Positional(id) => mark_one(*id, under, flags),
        Pattern::OptionRef(id) => mark_one(*id, under, flags),
        Pattern::Separator => {},
        Pattern::AnyOptions(_) => {},
        Pattern::Sequence(v) => {
            proof {
                lemma_sequence_tree(*v);
            }
            mark_each(v, under, flags);
        },
        Pattern::Either(v) => {
            proof {
                lemma_either_tree(*v);
            }
            mark_each(v, under, flags);
        },
        Pattern::Optional(q) => mark(q, under, flags),
        Pattern::Required(q) => mark(q, under, flags),
        Pattern::OneOrMore(q) => mark(q, true, flags),
    }
}

/// Flags every leaf of the patterns of `v` that can repeat.
pub fn mark_each(v: &Vec<Pattern>, under: bool, flags: &mut Vec<bool>)
    ensures
        final(flags)@ == marked_all(views(v@), 0, under, old(flags)@),
    decreases *v,
{
    let mut i: usize = 0;
    while i < v.len()
        invariant
            i <= v.len(),
            marked_all(views(v@), 0, under, old(flags)@) == marked_all(views(v@), i as int, under, flags@),
        decreases v.len() - i,
    {
        mark(&v[i], under, flags);
        i += 1;
    }
}

} // verus!
