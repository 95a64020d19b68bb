//! Matching a token stream against a pattern tree.
//!
//! A match is a function of the tree, the tokens and a start position. It
//! either fails, or gives the position after the tokens it consumed together
//! with the captures it made, in order. A failed match has consumed nothing.

use vstd::prelude::*;
use crate::leaf::{spelled, Leaf, LeafView};
use crate::pattern::{lemma_either_tree, lemma_sequence_tree, Capture, CaptureView, Pattern, PatternView};
use crate::text::{copy, same, same_opt, views};
use crate::token::{Token, TokenView};

verus! {

/// The position after a successful match, and its captures.
pub type Outcome = Option<(int, Seq<CaptureView>)>;

/// A command takes one word equal to its name.
pub open spec fn match_command(t: Seq<LeafView>, id: usize, toks: Seq<TokenView>, pos: int) -> Outcome {
    if id < t.len() && 0 <= pos < toks.len() && toks[pos] == TokenView::Word(t[id as int].name) {
        Some((pos + 1, seq![CaptureView { leaf: id, text: t[id as int].name }]))
    } else {
        None
    }
}

/// A positional takes any one word.
pub open spec fn match_positional(t: Seq<LeafView>, id: usize, toks: Seq<TokenView>, pos: int) -> Outcome {
    if id < t.len() && 0 <= pos < toks.len() && toks[pos] is Word {
        Some((pos + 1, seq![CaptureView { leaf: id, text: toks[pos]->Word_0 }]))
    } else {
        None
    }
}

/// An option takes one flag token that spells it. Without a value it takes
/// the bare flag only. With a value it takes the value written in the flag's
/// own argument, or else the word that follows.
pub open spec fn match_option(t: Seq<LeafView>, id: usize, toks: Seq<TokenView>, pos: int) -> Outcome {
    if id < t.len() && 0 <= pos < toks.len() && toks[pos] is Flag && spelled(
        t[id as int],
        toks[pos]->name,
    ) {
        if !t[id as int].takes_value {
            if toks[pos]->value is None {
                Some((pos + 1, seq![CaptureView { leaf: id, text: seq![] }]))
            } else {
                None
            }
        } else if toks[pos]->value is Some {
            Some((pos + 1, seq![CaptureView { leaf: id, text: toks[pos]->value->0 }]))
        } else if pos + 1 < toks.len() && toks[pos + 1] is Word {
            Some((pos + 2, seq![CaptureView { leaf: id, text: toks[pos + 1]->Word_0 }]))
        } else {
            None
        }
    } else {
        None
    }
}

/// The separator leaf takes the separator token and binds nothing.
pub open spec fn match_separator(toks: Seq<TokenView>, pos: int) -> Outcome {
    if 0 <= pos < toks.len() && toks[pos] is Separator {
        Some((pos + 1, seq![]))
    } else {
        None
    }
}

/// The first of the options `k..count` that matches at `pos`.
pub open spec fn first_option(t: Seq<LeafView>, count: usize, k: int, toks: Seq<TokenView>, pos: int) -> Outcome
    decreases count - k,
{
    if 0 <= k < count {
        match match_option(t, k as usize, toks, pos) {
            Some(r) => Some(r),
            None => first_option(t, count, k + 1, toks, pos),
        }
    } else {
        None
    }
}

/// As many of the options `0..count` as stand at `pos`, one after another,
/// in whatever order they come. Never fails.
pub open spec fn match_any(
    t: Seq<LeafView>,
    count: usize,
    toks: Seq<TokenView>,
    pos: int,
    got: Seq<CaptureView>,
) -> Outcome
    decreases toks.len() - pos,
{
    match first_option(t, count, 0, toks, pos) {
        Some((next, more)) => if pos < next <= toks.len() {
            match_any(t, count, toks, next, got + more)
        } else {
            Some((pos, got))
        },
        None => Some((pos, got)),
    }
}

/// The match of pattern `p` against `toks` from `pos`.
pub open spec fn matched(t: Seq<LeafView>, p: PatternView, toks: Seq<TokenView>, pos: int) -> Outcome
    decreases p, 1nat, 0nat,
{
    match p {
        PatternView::Command(id) => match_command(t, id, toks, pos),
        PatternView::Positional(id) => match_positional(t, id, toks, pos),
        PatternView::OptionRef(id) => match_option(t, id, toks, pos),
        PatternView::Separator => match_separator(toks, pos),
        PatternView::AnyOptions(count) => match_any(t, count, toks, pos, seq![]),
        PatternView::Sequence(ps) => match_all(t, ps, 0, toks, pos, seq![]),
        PatternView::Either(ps) => match_first(t, ps, 0, toks, pos),
        PatternView::Optional(q) => match matched(t, *q, toks, pos) {
            Some(r) => Some(r),
            None => Some((pos, seq![])),
        },
        PatternView::Required(q) => matched(t, *q, toks, pos),
        PatternView::OneOrMore(q) => match matched(t, *q, toks, pos) {
            Some((next, got)) => if pos < next <= toks.len() {
                match_more(t, *q, toks, next, got)
            } else {
                Some((next, got))
            },
            None => None,
        },
    }
}

/// Every pattern of `ps` from index `i` on, one after another: each starts
/// where the one before it ended. `got` holds the captures made so far.
pub open spec fn match_all(
    t: Seq<LeafView>,
    ps: Seq<PatternView>,
    i: int,
    toks: Seq<TokenView>,
    pos: int,
    got: Seq<CaptureView>,
) -> Outcome
    decreases ps, 0nat, ps.len() - i,
{
    if 0 <= i < ps.len() {
        match matched(t, ps[i], toks, pos) {
            Some((next, more)) => match_all(t, ps, i + 1, toks, next, got + more),
            None => None,
        }
    } else {
        Some((pos, got))
    }
}

/// The first pattern of `ps`, from index `i` on, that matches at `pos`.
pub open spec fn match_first(
    t: Seq<LeafView>,
    ps: Seq<PatternView>,
    i: int,
    toks: Seq<TokenView>,
    pos: int,
) -> Outcome
    decreases ps, 0nat, ps.len() - i,
{
    if 0 <= i < ps.len() {
        match matched(t, ps[i], toks, pos) {
            Some(r) => Some(r),
            None => match_first(t, ps, i + 1, toks, pos),
        }
    } else {
        None
    }
}

/// Further rounds of a repeated pattern `q` after a first one. A round that
/// fails or consumes nothing ends the repetition and counts for nothing.
pub open spec fn match_more(
    t: Seq<LeafView>,
    q: PatternView,
    toks: Seq<TokenView>,
    pos: int,
    got: Seq<CaptureView>,
) -> Outcome
    decreases q, 2nat, toks.len() - pos,
{
    match matched(t, q, toks, pos) {
        Some((next, more)) => if pos < next <= toks.len() {
            match_more(t, q, toks, next, got + more)
        } else {
            Some((pos, got))
        },
        None => Some((pos, got)),
    }
}

/// The captures of the first branch, from index `i` on, whose match from the
/// start consumes every token.
pub open spec fn full_match(
    t: Seq<LeafView>,
    branches: Seq<PatternView>,
    i: int,
    toks: Seq<TokenView>,
) -> Option<Seq<CaptureView>>
    decreases branches.len() - i,
{
    if 0 <= i < branches.len() {
        match matched(t, branches[i], toks, 0) {
            Some((end, got)) => if end == toks.len() {
                Some(got)
            } else {
                full_match(t, branches, i + 1, toks)
            },
            None => full_match(t, branches, i + 1, toks),
        }
    } else {
        None
    }
}

/// What an executable match returned, as an outcome of the specification.
pub open spec fn outcome(r: Option<(usize, Vec<Capture>)>) -> Outcome {
    match r {
        Some((next, got)) => Some((next as int, views(got@))),
        None => None,
    }
}

/// Whether an executable match returned exactly the outcome `o`.
pub open spec fn agrees(r: Option<(usize, Vec<Capture>)>, o: Outcome) -> bool {
    match o {
        Some((next, got)) => r is Some && reached(r) == next && taken(r) == got,
        None => r is None,
    }
}

/// Where an executable match ended.
pub open spec fn reached(r: Option<(usize, Vec<Capture>)>) -> int {
    match r {
        Some((next, _)) => next as int,
        None => 0,
    }
}

/// The captures an executable match made.
pub open spec fn taken(r: Option<(usize, Vec<Capture>)>) -> Seq<CaptureView> {
    match r {
        Some((_, got)) => views(got@),
        None => seq![],
    }
}

fn one_capture(leaf: usize, text: Vec<char>) -> (got: Vec<Capture>)
    ensures
        views(got@) == seq![CaptureView { leaf, text: text@ }],
{
    let mut got: Vec<Capture> = Vec::new();
    got.push(Capture { leaf, text });
    assert(views(got@) =~= seq![CaptureView { leaf, text: text@ }]);
    got
}

fn join(a: &mut Vec<Capture>, b: Vec<Capture>)
    ensures
        views(final(a)@) == views(old(a)@) + views(b@),
{
    let mut rest = b;
    a.append(&mut rest);
    assert(views(a@) =~= views(old(a)@) + views(b@));
}

/// Matches a command at `pos`.
pub fn take_command(table: &Vec<Leaf>, id: usize, toks: &Vec<Token>, pos: usize) -> (r: Option<(usize, Vec<Capture>)>)
    requires
        pos <= toks.len(),
    ensures
        agrees(r, match_command(views(table@), id, views(toks@), pos as int)),
        r is Some ==> pos < reached(r) <= toks.len(),
{
    if id < table.len() && pos < toks.len() {
        if let Token::Word(w) = &toks[pos] {
            if same(w, &table[id].name) {
                return Some((pos + 1, one_capture(id, copy(&table[id].name))));
            }
        }
    }
    None
}

/// Matches a positional at `pos`.
pub fn take_positional(table: &Vec<Leaf>, id: usize, toks: &Vec<Token>, pos: usize) -> (r: Option<(usize, Vec<Capture>)>)
    requires
        pos <= toks.len(),
    ensures
        agrees(r, match_positional(views(table@), id, views(toks@), pos as int)),
        r is Some ==> pos < reached(r) <= toks.len(),
{
    if id < table.len() && pos < toks.len() {
        if let Token::Word(w) = &toks[pos] {
            return Some((pos + 1, one_capture(id, copy(w))));
        }
    }
    None
}

/// Matches an option at `pos`.
pub fn take_option(table: &Vec<Leaf>, id: usize, toks: &Vec<Token>, pos: usize) -> (r: Option<(usize, Vec<Capture>)>)
    requires
        pos <= toks.len(),
    ensures
        agrees(r, match_option(views(table@), id, views(toks@), pos as int)),
        r is Some ==> pos < reached(r) <= toks.len(),
{
    if id < table.len() && pos < toks.len() {
        if let Token::Flag { name, value } = &toks[pos] {
            let leaf = &table[id];
            if same(&leaf.name, name) || same_opt(&leaf.alias, name) {
                if !leaf.takes_value {
                    if value.is_none() {
                        return Some((pos + 1, one_capture(id, Vec::new())));
                    }
                } else {
                    match value {
                        Some(v) => {
                            return Some((pos + 1, one_capture(id, copy(v))));
                        },
                        None => {
                            if pos + 1 < toks.len() {
                                if let Token::Word(w) = &toks[pos + 1] {
                                    return Some((pos + 2, one_capture(id, copy(w))));
                                }
                            }
                        },
                    }
                }
            }
        }
    }
    None
}

fn take_first_option(table: &Vec<Leaf>, count: usize, toks: &Vec<Token>, pos: usize) -> (r: Option<
    (usize, Vec<Capture>),
>)
    requires
        pos <= toks.len(),
    ensures
        agrees(r, first_option(views(table@), count, 0, views(toks@), pos as int)),
        r is Some ==> pos < reached(r) <= toks.len(),
{
    let mut k: usize = 0;
    while k < count
        invariant
            k <= count,
            pos <= toks.len(),
            first_option(views(table@), count, 0, views(toks@), pos as int) == first_option(
                views(table@),
                count,
                k as int,
                views(toks@),
                pos as int,
            ),
        decreases count - k,
    {
        match take_option(table, k, toks, pos) {
            Some(r) => {
                return Some(r);
            },
            None => {},
        }
        k += 1;
    }
    None
}

/// Takes declared options for as long as one stands at the position.
pub fn take_any(table: &Vec<Leaf>, count: usize, toks: &Vec<Token>, pos: usize) -> (r: Option<
    (usize, Vec<Capture>),
>)
    requires
        pos <= toks.len(),
    ensures
        agrees(r, match_any(views(table@), count, views(toks@), pos as int, seq![])),
        r is Some ==> pos <= reached(r) <= toks.len(),
{
    let mut got: Vec<Capture> = Vec::new();
    let mut at: usize = pos;
    assert(views(got@) =~= Seq::<CaptureView>::empty());
    loop
        invariant
            pos <= at <= toks.len(),
            match_any(views(table@), count, views(toks@), pos as int, seq![]) == match_any(
                views(table@),
                count,
                views(toks@),
                at as int,
                views(got@),
            ),
        decreases toks.len() - at,
    {
        match take_first_option(table, count, toks, at) {
            Some((next, more)) => {
                join(&mut got, more);
                at = next;
            },
            None => {
                return Some((at, got));
            },
        }
    }
}

/// Matches `p` against `toks` from `pos`.
pub fn match_pattern(table: &Vec<Leaf>, p: &Pattern, toks: &Vec<Token>, pos: usize) -> (r: Option<(usize, Vec<Capture>)>)
    requires
        pos <= toks.len(),
    ensures
        agrees(r, matched(views(table@), p@, views(toks@), pos as int)),
        r is Some ==> pos <= reached(r) <= toks.len(),
    decreases *p,
{
    match p {
        Pattern::Command(id) => take_command(table, *id, toks, pos),
        Pattern::Positional(id) => take_positional(table, *id, toks, pos),
        Pattern::OptionRef(id) => take_option(table, *id, toks, pos),
        Pattern::AnyOptions(count) => take_any(table, *count, toks, pos),
        Pattern::Separator => {
            if pos < toks.len() {
                if let Token::Separator = &toks[pos] {
                    let got: Vec<Capture> = Vec::new();
                    assert(views(got@) =~= Seq::<CaptureView>::empty());
                    return Some((pos + 1, got));
                }
            }
            None
        },
        Pattern::Sequence(v) => {
            proof {
                lemma_sequence_tree(*v);
            }
            let mut got: Vec<Capture> = Vec::new();
            let mut at: usize = pos;
            let mut i: usize = 0;
            assert(views(got@) =~= Seq::<CaptureView>::empty());
            while i < v.len()
                invariant
                    i <= v.len(),
                    pos <= at <= toks.len(),
                    *p == Pattern::Sequence(*v),
                    matched(views(table@), p@, views(toks@), pos as int) == match_all(
                        views(table@),
                        views(v@),
                        i as int,
                        views(toks@),
                        at as int,
                        views(got@),
                    ),
                decreases v.len() - i,
            {
                match match_pattern(table, &v[i], toks, at) {
                    Some((next, more)) => {
                        join(&mut got, more);
                        at = next;
                    },
                    None => {
                        return None;
                    },
                }
                i += 1;
            }
            Some((at, got))
        },
        Pattern::Either(v) => {
            proof {
                lemma_either_tree(*v);
            }
            let mut i: usize = 0;
            while i < v.len()
                invariant
                    i <= v.len(),
                    pos <= toks.len(),
                    *p == Pattern::Either(*v),
                    matched(views(table@), p@, views(toks@), pos as int) == match_first(
                        views(table@),
                        views(v@),
                        i as int,
                        views(toks@),
                        pos as int,
                    ),
                decreases v.len() - i,
            {
                match match_pattern(table, &v[i], toks, pos) {
                    Some(r) => {
                        return Some(r);
                    },
                    None => {},
                }
                i += 1;
            }
            None
        },
        Pattern::Optional(q) => {
            match match_pattern(table, q, toks, pos) {
                Some(r) => Some(r),
                None => {
                    let got: Vec<Capture> = Vec::new();
                    assert(views(got@) =~= Seq::<CaptureView>::empty());
                    Some((pos, got))
                },
            }
        },
        Pattern::Required(q) => match_pattern(table, q, toks, pos),
        Pattern::OneOrMore(q) => {
            match match_pattern(table, q, toks, pos) {
                Some((first, first_got)) => {
                    if first <= pos {
                        return Some((first, first_got));
                    }
                    let mut got = first_got;
                    let mut at: usize = first;
                    loop
                        invariant
                            pos < at <= toks.len(),
                            *p == Pattern::OneOrMore(*q),
                            matched(views(table@), p@, views(toks@), pos as int) == match_more(
                                views(table@),
                                q@,
                                views(toks@),
                                at as int,
                                views(got@),
                            ),
                        decreases toks.len() - at,
                    {
                        match match_pattern(table, q, toks, at) {
                            Some((next, more)) => {
                                if next <= at {
                                    return Some((at, got));
                                }
                                join(&mut got, more);
                                at = next;
                            },
                            None => {
                                return Some((at, got));
                            },
                        }
                    }
                },
                None => None,
            }
        },
    }
}

/// Tries each branch in turn against the whole token stream and gives the
/// captures of the first that consumes all of it.
pub fn match_branches(table: &Vec<Leaf>, branches: &Vec<Pattern>, toks: &Vec<Token>) -> (r: Option<Vec<Capture>>)
    ensures
        match full_match(views(table@), views(branches@), 0, views(toks@)) {
            Some(got) => r is Some && views(r->0@) == got,
            None => r is None,
        },
{
    let mut i: usize = 0;
    while i < branches.len()
        invariant
            i <= branches.len(),
            full_match(views(table@), views(branches@), 0, views(toks@)) == full_match(
                views(table@),
                views(branches@),
                i as int,
                views(toks@),
            ),
        decreases branches.len() - i,
    {
        match match_pattern(table, &branches[i], toks, 0) {
            Some((end, got)) => {
                if end == toks.len() {
                    return Some(got);
                }
            },
            None => {},
        }
        i += 1;
    }
    None
}

} // verus!

verus! {

/// Whether an outcome, if it is a match, ends between `pos` and `len`.
pub open spec fn ends_within(o: Outcome, pos: int, len: int) -> bool {
    match o {
        Some((next, _)) => pos <= next <= len,
        None => true,
    }
}

/// A match never moves backwards and never reads past the last token.
pub proof fn lemma_match_bounds(t: Seq<LeafView>, p: PatternView, toks: Seq<TokenView>, pos: int)
    requires
        0 <= pos <= toks.len(),
    ensures
        ends_within(matched(t, p, toks, pos), pos, toks.len() as int),
    decreases p, 1nat, 0nat,
{
    match p {
        PatternView::Sequence(ps) => lemma_all_bounds(t, ps, 0, toks, pos, seq![]),
        PatternView::Either(ps) => lemma_first_bounds(t, ps, 0, toks, pos),
        PatternView::Optional(q) => lemma_match_bounds(t, *q, toks, pos),
        PatternView::Required(q) => lemma_match_bounds(t, *q, toks, pos),
        PatternView::OneOrMore(q) => {
            lemma_match_bounds(t, *q, toks, pos);
            match matched(t, *q, toks, pos) {
                Some((next, got)) => {
                    if pos < next <= toks.len() {
                        lemma_more_bounds(t, *q, toks, next, got);
                    }
                },
                None => {},
            }
        },
        PatternView::AnyOptions(count) => lemma_any_bounds(t, count, toks, pos, seq![]),
        _ => {},
    }
}

proof fn lemma_all_bounds(
    t: Seq<LeafView>,
    ps: Seq<PatternView>,
    i: int,
    toks: Seq<TokenView>,
    pos: int,
    got: Seq<CaptureView>,
)
    requires
        0 <= pos <= toks.len(),
    ensures
        ends_within(match_all(t, ps, i, toks, pos, got), pos, toks.len() as int),
    decreases ps, 0nat, ps.len() - i,
{
    if 0 <= i < ps.len() {
        lemma_match_bounds(t, ps[i], toks, pos);
        match matched(t, ps[i], toks, pos) {
            Some((next, more)) => lemma_all_bounds(t, ps, i + 1, toks, next, got + more),
            None => {},
        }
    }
}

proof fn lemma_first_bounds(t: Seq<LeafView>, ps: Seq<PatternView>, i: int, toks: Seq<TokenView>, pos: int)
    requires
        0 <= pos <= toks.len(),
    ensures
        ends_within(match_first(t, ps, i, toks, pos), pos, toks.len() as int),
    decreases ps, 0nat, ps.len() - i,
{
    if 0 <= i < ps.len() {
        lemma_match_bounds(t, ps[i], toks, pos);
        if matched(t, ps[i], toks, pos) is None {
            lemma_first_bounds(t, ps, i + 1, toks, pos);
        }
    }
}

proof fn lemma_more_bounds(
    t: Seq<LeafView>,
    q: PatternView,
    toks: Seq<TokenView>,
    pos: int,
    got: Seq<CaptureView>,
)
    requires
        0 <= pos <= toks.len(),
    ensures
        ends_within(match_more(t, q, toks, pos, got), pos, toks.len() as int),
    decreases q, 2nat, toks.len() - pos,
{
    match matched(t, q, toks, pos) {
        Some((next, more)) => {
            if pos < next <= toks.len() {
                lemma_more_bounds(t, q, toks, next, got + more);
            }
        },
        None => {},
    }
}

proof fn lemma_any_bounds(t: Seq<LeafView>, count: usize, toks: Seq<TokenView>, pos: int, got: Seq<CaptureView>)
    requires
        0 <= pos <= toks.len(),
    ensures
        ends_within(match_any(t, count, toks, pos, got), pos, toks.len() as int),
    decreases toks.len() - pos,
{
    match first_option(t, count, 0, toks, pos) {
        Some((next, more)) => {
            if pos < next <= toks.len() {
                lemma_any_bounds(t, count, toks, next, got + more);
            }
        },
        None => {},
    }
}

/// What stands in square brackets never fails: where its pattern does not
/// match, it matches without a token and without a capture.
pub proof fn lemma_optional_never_fails(t: Seq<LeafView>, q: PatternView, toks: Seq<TokenView>, pos: int)
    ensures
        matched(t, PatternView::Optional(Box::new(q)), toks, pos) is Some,
        matched(t, q, toks, pos) is None ==> matched(t, PatternView::Optional(Box::new(q)), toks, pos)
            == Some((pos, Seq::<CaptureView>::empty())),
{
}

/// A word is never read as a flag: no option matches where a word stands,
/// and the declared options as a whole take nothing there.
pub proof fn lemma_word_is_no_flag(t: Seq<LeafView>, toks: Seq<TokenView>, pos: int, id: usize, count: usize)
    requires
        0 <= pos < toks.len(),
        toks[pos] is Word,
    ensures
        match_option(t, id, toks, pos) is None,
        matched(t, PatternView::AnyOptions(count), toks, pos) == Some((pos, Seq::<CaptureView>::empty())),
{
    lemma_no_option_at_word(t, count, 0, toks, pos);
}

proof fn lemma_no_option_at_word(t: Seq<LeafView>, count: usize, k: int, toks: Seq<TokenView>, pos: int)
    requires
        0 <= pos < toks.len(),
        toks[pos] is Word,
    ensures
        first_option(t, count, k, toks, pos) is None,
    decreases count - k,
{
    if 0 <= k < count {
        lemma_no_option_at_word(t, count, k + 1, toks, pos);
    }
}

} // verus!
