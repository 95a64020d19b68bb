//! Rendering captures back into tokens, and matching them again.

use vstd::prelude::*;
use crate::leaf::{distinct, find_leaf, lemma_find_leaf, spelled, LeafKind, LeafView};
use crate::matcher::{
    first_option, full_match, lemma_match_bounds, match_all, match_any, match_first, match_more,
    match_option, matched, Outcome,
};
use crate::pattern::{fits, CaptureView, PatternView};
use crate::token::TokenView;

verus! {

/// The token that writes a capture: a flag under the option's name, with
/// the captured text as its value where the option takes one; the captured
/// text as a word for a command or a positional.
pub open spec fn token_of(t: Seq<LeafView>, c: CaptureView) -> TokenView {
    if c.leaf < t.len() && t[c.leaf as int].kind == LeafKind::Flag {
        TokenView::Flag {
            name: t[c.leaf as int].name,
            value: if t[c.leaf as int].takes_value {
                Some(c.text)
            } else {
                None
            },
        }
    } else {
        TokenView::Word(c.text)
    }
}

/// The tokens that write a run of captures, one for each.
pub open spec fn rendered(t: Seq<LeafView>, caps: Seq<CaptureView>) -> Seq<TokenView> {
    Seq::new(caps.len(), |i: int| token_of(t, caps[i]))
}

/// The captures of an outcome.
pub open spec fn made(o: Outcome) -> Seq<CaptureView> {
    match o {
        Some((_, got)) => got,
        None => seq![],
    }
}

/// Where an outcome ends.
pub open spec fn ended(o: Outcome) -> int {
    match o {
        Some((next, _)) => next,
        None => 0,
    }
}

proof fn lemma_rendered_concat(t: Seq<LeafView>, a: Seq<CaptureView>, b: Seq<CaptureView>)
    ensures
        rendered(t, a + b) == rendered(t, a) + rendered(t, b),
{
    assert(rendered(t, a + b) =~= rendered(t, a) + rendered(t, b));
}

/// Whether the tokens are in normal form: a flag that spells an option has
/// the option's name, and where the option takes a value and the flag has
/// none, no word follows it that could be that value.
pub open spec fn canonical(t: Seq<LeafView>, toks: Seq<TokenView>) -> bool {
    forall|k: int, id: int|
        0 <= k < toks.len() && 0 <= id < t.len() && toks[k] is Flag && t[id].kind == LeafKind::Flag
            && #[trigger] spelled(t[id], toks[k]->name) ==> toks[k]->name == t[id].name && (
        t[id].takes_value && toks[k]->value is None ==> !(k + 1 < toks.len() && toks[k + 1] is Word))
}

/// A pattern in which no `--` stands.
pub open spec fn has_no_separator(p: PatternView) -> bool
    decreases p,
{
    match p {
        PatternView::Separator => false,
        PatternView::Sequence(ps) => forall|i: int| 0 <= i < ps.len() ==> has_no_separator(#[trigger] ps[i]),
        PatternView::Either(ps) => forall|i: int| 0 <= i < ps.len() ==> has_no_separator(#[trigger] ps[i]),
        PatternView::Optional(q) => has_no_separator(*q),
        PatternView::Required(q) => has_no_separator(*q),
        PatternView::OneOrMore(q) => has_no_separator(*q),
        _ => true,
    }
}

/// What rendering writes is in normal form, where no spelling belongs to
/// two leaves.
pub proof fn lemma_rendered_is_canonical(t: Seq<LeafView>, caps: Seq<CaptureView>)
    requires
        distinct(t),
    ensures
        canonical(t, rendered(t, caps)),
{
    let toks = rendered(t, caps);
    assert forall|k: int, id: int|
        0 <= k < toks.len() && 0 <= id < t.len() && toks[k] is Flag && t[id].kind == LeafKind::Flag
            && #[trigger] spelled(t[id], toks[k]->name) implies toks[k]->name == t[id].name && (
    t[id].takes_value && toks[k]->value is None ==> !(k + 1 < toks.len() && toks[k + 1] is Word)) by {
        let l = caps[k].leaf as int;
        assert(toks[k] == token_of(t, caps[k]));
        assert(spelled(t[l], toks[k]->name));
    }
}

/// Whether an outcome, if it is a match from `pos` with the captures `got`
/// already made, added captures that render to exactly the tokens it took.
pub open spec fn took_what_it_renders(
    t: Seq<LeafView>,
    o: Outcome,
    toks: Seq<TokenView>,
    pos: int,
    got: Seq<CaptureView>,
) -> bool {
    match o {
        Some((next, all)) => {
            &&& pos <= next <= toks.len()
            &&& got.len() <= all.len()
            &&& all.subrange(0, got.len() as int) == got
            &&& rendered(t, all.subrange(got.len() as int, all.len() as int)) == toks.subrange(pos, next)
        },
        None => true,
    }
}

proof fn lemma_took_more(
    t: Seq<LeafView>,
    toks: Seq<TokenView>,
    pos: int,
    mid: int,
    got: Seq<CaptureView>,
    c1: Seq<CaptureView>,
    o: Outcome,
)
    requires
        0 <= pos <= mid <= toks.len(),
        rendered(t, c1) == toks.subrange(pos, mid),
        took_what_it_renders(t, o, toks, mid, got + c1),
    ensures
        took_what_it_renders(t, o, toks, pos, got),
{
    match o {
        Some((next, all)) => {
            let n = got.len() as int;
            let m = (got + c1).len() as int;
            let rest = all.subrange(m, all.len() as int);
            assert(all.subrange(0, n) =~= (got + c1).subrange(0, n)) by {
                assert(all.subrange(0, m) == got + c1);
                assert forall|k: int| 0 <= k < n implies all.subrange(0, n)[k] == (got + c1)[k] by {
                    assert(all.subrange(0, m)[k] == (got + c1)[k]);
                }
            }
            assert((got + c1).subrange(0, n) =~= got);
            assert(all.subrange(n, all.len() as int) =~= c1 + rest) by {
                assert forall|k: int| 0 <= k < c1.len() implies all.subrange(n, all.len() as int)[k]
                    == c1[k] by {
                    assert(all.subrange(0, m)[n + k] == (got + c1)[n + k]);
                }
            }
            lemma_rendered_concat(t, c1, rest);
            assert(toks.subrange(pos, mid) + toks.subrange(mid, next) =~= toks.subrange(pos, next));
        },
        None => {},
    }
}

proof fn lemma_took_leaf(t: Seq<LeafView>, p: PatternView, toks: Seq<TokenView>, pos: int)
    requires
        fits(t, p),
        canonical(t, toks),
        0 <= pos <= toks.len(),
        p is Command || p is Positional || p is OptionRef,
    ensures
        took_what_it_renders(t, matched(t, p, toks, pos), toks, pos, seq![]),
{
    match matched(t, p, toks, pos) {
        Some((next, all)) => {
            assert(all.len() == 1);
            match p {
                PatternView::OptionRef(id) => {
                    assert(spelled(t[id as int], toks[pos]->name));
                },
                _ => {},
            }
            assert(next == pos + 1);
            assert(token_of(t, all[0]) == toks[pos]);
            assert(all.subrange(0, 1) =~= all);
            assert(rendered(t, all) =~= toks.subrange(pos, pos + 1));
            assert(all.subrange(0, 0) =~= Seq::<CaptureView>::empty());
        },
        None => {},
    }
}

proof fn lemma_took_nothing(t: Seq<LeafView>, toks: Seq<TokenView>, pos: int, got: Seq<CaptureView>)
    requires
        0 <= pos <= toks.len(),
    ensures
        took_what_it_renders(t, Some((pos, got)), toks, pos, got),
{
    assert(got.subrange(0, got.len() as int) =~= got);
    assert(rendered(t, got.subrange(got.len() as int, got.len() as int)) =~= toks.subrange(pos, pos));
}

proof fn lemma_took(t: Seq<LeafView>, p: PatternView, toks: Seq<TokenView>, pos: int)
    requires
        fits(t, p),
        has_no_separator(p),
        canonical(t, toks),
        0 <= pos <= toks.len(),
    ensures
        took_what_it_renders(t, matched(t, p, toks, pos), toks, pos, seq![]),
    decreases p, 1nat, 0nat,
{
    match p {
        PatternView::Command(_) => lemma_took_leaf(t, p, toks, pos),
        PatternView::Positional(_) => lemma_took_leaf(t, p, toks, pos),
        PatternView::OptionRef(_) => lemma_took_leaf(t, p, toks, pos),
        PatternView::Separator => {},
        PatternView::AnyOptions(count) => lemma_took_any(t, count, toks, pos, seq![]),
        PatternView::Sequence(ps) => lemma_took_all(t, ps, 0, toks, pos, seq![]),
        PatternView::Either(ps) => lemma_took_first(t, ps, 0, toks, pos),
        PatternView::Optional(q) => {
            lemma_took(t, *q, toks, pos);
            if matched(t, *q, toks, pos) is None {
                lemma_took_nothing(t, toks, pos, seq![]);
            }
        },
        PatternView::Required(q) => lemma_took(t, *q, toks, pos),
        PatternView::OneOrMore(q) => {
            lemma_took(t, *q, toks, pos);
            match matched(t, *q, toks, pos) {
                Some((next, c1)) => {
                    if pos < next <= toks.len() {
                        assert(c1.subrange(0, c1.len() as int) =~= c1);
                        assert(Seq::<CaptureView>::empty() + c1 =~= c1);
                        lemma_took_again(t, *q, toks, next, c1);
                        lemma_took_more(t, toks, pos, next, seq![], c1, match_more(t, *q, toks, next, c1));
                    }
                },
                None => {},
            }
        },
    }
}

proof fn lemma_took_all(
    t: Seq<LeafView>,
    ps: Seq<PatternView>,
    i: int,
    toks: Seq<TokenView>,
    pos: int,
    got: Seq<CaptureView>,
)
    requires
        0 <= i,
        forall|k: int| 0 <= k < ps.len() ==> fits(t, #[trigger] ps[k]),
        forall|k: int| 0 <= k < ps.len() ==> has_no_separator(#[trigger] ps[k]),
        canonical(t, toks),
        0 <= pos <= toks.len(),
    ensures
        took_what_it_renders(t, match_all(t, ps, i, toks, pos, got), toks, pos, got),
    decreases ps, 0nat, ps.len() - i,
{
    if i < ps.len() {
        lemma_took(t, ps[i], toks, pos);
        match matched(t, ps[i], toks, pos) {
            Some((next, c1)) => {
                assert(c1.subrange(0, c1.len() as int) =~= c1);
                lemma_took_all(t, ps, i + 1, toks, next, got + c1);
                lemma_took_more(t, toks, pos, next, got, c1, match_all(t, ps, i + 1, toks, next, got + c1));
            },
            None => {},
        }
    } else {
        lemma_took_nothing(t, toks, pos, got);
    }
}

proof fn lemma_took_first(t: Seq<LeafView>, ps: Seq<PatternView>, i: int, toks: Seq<TokenView>, pos: int)
    requires
        0 <= i,
        forall|k: int| 0 <= k < ps.len() ==> fits(t, #[trigger] ps[k]),
        forall|k: int| 0 <= k < ps.len() ==> has_no_separator(#[trigger] ps[k]),
        canonical(t, toks),
        0 <= pos <= toks.len(),
    ensures
        took_what_it_renders(t, match_first(t, ps, i, toks, pos), toks, pos, seq![]),
    decreases ps, 0nat, ps.len() - i,
{
    if i < ps.len() {
        lemma_took(t, ps[i], toks, pos);
        if matched(t, ps[i], toks, pos) is None {
            lemma_took_first(t, ps, i + 1, toks, pos);
        }
    }
}

proof fn lemma_took_again(
    t: Seq<LeafView>,
    q: PatternView,
    toks: Seq<TokenView>,
    pos: int,
    got: Seq<CaptureView>,
)
    requires
        fits(t, q),
        has_no_separator(q),
        canonical(t, toks),
        0 <= pos <= toks.len(),
    ensures
        took_what_it_renders(t, match_more(t, q, toks, pos, got), toks, pos, got),
    decreases q, 2nat, toks.len() - pos,
{
    lemma_took(t, q, toks, pos);
    match matched(t, q, toks, pos) {
        Some((next, c1)) => {
            if pos < next <= toks.len() {
                assert(c1.subrange(0, c1.len() as int) =~= c1);
                lemma_took_again(t, q, toks, next, got + c1);
                lemma_took_more(t, toks, pos, next, got, c1, match_more(t, q, toks, next, got + c1));
            } else {
                lemma_took_nothing(t, toks, pos, got);
            }
        },
        None => {
            lemma_took_nothing(t, toks, pos, got);
        },
    }
}

proof fn lemma_took_option(t: Seq<LeafView>, count: usize, k: int, toks: Seq<TokenView>, pos: int)
    requires
        0 <= k,
        fits(t, PatternView::AnyOptions(count)),
        canonical(t, toks),
        0 <= pos <= toks.len(),
    ensures
        took_what_it_renders(t, first_option(t, count, k, toks, pos), toks, pos, seq![]),
    decreases count - k,
{
    if k < count {
        assert(t[k].kind == LeafKind::Flag);
        lemma_took_leaf(t, PatternView::OptionRef(k as usize), toks, pos);
        if match_option(t, k as usize, toks, pos) is None {
            lemma_took_option(t, count, k + 1, toks, pos);
        }
    }
}

proof fn lemma_took_any(
    t: Seq<LeafView>,
    count: usize,
    toks: Seq<TokenView>,
    pos: int,
    got: Seq<CaptureView>,
)
    requires
        fits(t, PatternView::AnyOptions(count)),
        canonical(t, toks),
        0 <= pos <= toks.len(),
    ensures
        took_what_it_renders(t, match_any(t, count, toks, pos, got), toks, pos, got),
    decreases toks.len() - pos,
{
    lemma_took_option(t, count, 0, toks, pos);
    match first_option(t, count, 0, toks, pos) {
        Some((next, c1)) => {
            if pos < next <= toks.len() {
                assert(c1.subrange(0, c1.len() as int) =~= c1);
                lemma_took_any(t, count, toks, next, got + c1);
                lemma_took_more(t, toks, pos, next, got, c1, match_any(t, count, toks, next, got + c1));
            } else {
                lemma_took_nothing(t, toks, pos, got);
            }
        },
        None => {
            lemma_took_nothing(t, toks, pos, got);
        },
    }
}

/// On tokens in normal form a pattern without `--` takes exactly what its
/// captures render. If such a pattern matches all of such tokens, then its
/// captures render to those very tokens: so matching what is rendered
/// gives the same captures.
pub proof fn lemma_round_trip_rendered(t: Seq<LeafView>, p: PatternView, toks: Seq<TokenView>)
    requires
        fits(t, p),
        has_no_separator(p),
        canonical(t, toks),
        matched(t, p, toks, 0) is Some,
        ended(matched(t, p, toks, 0)) == toks.len(),
    ensures
        rendered(t, made(matched(t, p, toks, 0))) == toks,
        matched(t, p, rendered(t, made(matched(t, p, toks, 0))), 0) == matched(t, p, toks, 0),
        full_match(t, seq![p], 0, rendered(t, made(matched(t, p, toks, 0)))) == Some(
            made(matched(t, p, toks, 0)),
        ),
{
    let caps = made(matched(t, p, toks, 0));
    lemma_took(t, p, toks, 0);
    assert(caps.subrange(0, caps.len() as int) =~= caps);
    assert(toks.subrange(0, toks.len() as int) =~= toks);
    assert(full_match(t, seq![p], 1, toks) is None);
}

/// The leaf that a flag token spells.
pub open spec fn leaf_of(t: Seq<LeafView>, tok: TokenView) -> Option<int> {
    if tok is Flag {
        find_leaf(t, LeafKind::Flag, tok->name, 0)
    } else {
        None
    }
}

/// Whether the token at `i` is a flag without a value, for an option that
/// takes one, and a word follows: the two are one option with its value.
pub open spec fn pairs_at(t: Seq<LeafView>, a: Seq<TokenView>, i: int) -> bool {
    &&& 0 <= i && i + 1 < a.len()
    &&& a[i] is Flag
    &&& a[i]->value is None
    &&& leaf_of(t, a[i]) is Some
    &&& 0 <= leaf_of(t, a[i])->0 < t.len()
    &&& t[leaf_of(t, a[i])->0].takes_value
    &&& a[i + 1] is Word
}

/// The token at `i` in normal form: a flag of a known option under the
/// option's name, with the word that follows as its value where the two
/// pair; any other token as it stands.
pub open spec fn unit(t: Seq<LeafView>, a: Seq<TokenView>, i: int) -> TokenView {
    match leaf_of(t, a[i]) {
        Some(l) => TokenView::Flag {
            name: t[l].name,
            value: if pairs_at(t, a, i) {
                Some(a[i + 1]->Word_0)
            } else {
                a[i]->value
            },
        },
        None => a[i],
    }
}

/// Where the token after the one at `i` begins.
pub open spec fn after(t: Seq<LeafView>, a: Seq<TokenView>, i: int) -> int {
    if pairs_at(t, a, i) {
        i + 2
    } else {
        i + 1
    }
}

/// The tokens from `i` on in normal form.
pub open spec fn norm(t: Seq<LeafView>, a: Seq<TokenView>, i: int) -> Seq<TokenView>
    decreases a.len() - i,
{
    if 0 <= i < a.len() {
        seq![unit(t, a, i)] + norm(t, a, after(t, a, i))
    } else {
        seq![]
    }
}

/// Whether `b` from `j` on is the normal form of `a` from `i` on.
pub open spec fn mirrors(t: Seq<LeafView>, a: Seq<TokenView>, i: int, b: Seq<TokenView>, j: int) -> bool {
    &&& 0 <= i <= a.len()
    &&& 0 <= j <= b.len()
    &&& b.subrange(j, b.len() as int) == norm(t, a, i)
}

proof fn lemma_norm_step(t: Seq<LeafView>, a: Seq<TokenView>, i: int, b: Seq<TokenView>, j: int)
    requires
        mirrors(t, a, i, b, j),
    ensures
        i == a.len() ==> j == b.len(),
        i < a.len() ==> j < b.len() && b[j] == unit(t, a, i) && mirrors(t, a, after(t, a, i), b, j + 1),
{
    let tail = b.subrange(j, b.len() as int);
    if i < a.len() {
        let rest = norm(t, a, after(t, a, i));
        assert(tail == seq![unit(t, a, i)] + rest);
        assert(tail.len() == rest.len() + 1);
        assert(tail[0] == b[j]);
        assert(b.subrange(j + 1, b.len() as int) =~= rest) by {
            assert forall|k: int| 0 <= k < rest.len() implies b.subrange(j + 1, b.len() as int)[k]
                == rest[k] by {
                assert(tail[k + 1] == rest[k]);
            }
        }
    } else {
        assert(tail.len() == 0);
    }
}

/// The first token of a normal form is a word exactly where the first
/// token is one.
proof fn lemma_unit_word(t: Seq<LeafView>, a: Seq<TokenView>, i: int)
    requires
        0 <= i < a.len(),
    ensures
        unit(t, a, i) is Word <==> a[i] is Word,
        unit(t, a, i) is Flag <==> a[i] is Flag,
{
}

/// The normal form is in normal form.
pub proof fn lemma_norm_canonical(t: Seq<LeafView>, a: Seq<TokenView>, i: int)
    requires
        distinct(t),
        0 <= i,
    ensures
        canonical(t, norm(t, a, i)),
    decreases a.len() - i,
{
    let n = norm(t, a, i);
    if i < a.len() {
        let rest = norm(t, a, after(t, a, i));
        lemma_norm_canonical(t, a, after(t, a, i));
        let u = unit(t, a, i);
        if a[i] is Flag {
            lemma_find_leaf(t, LeafKind::Flag, a[i]->name, 0);
        }
        if after(t, a, i) < a.len() {
            lemma_unit_word(t, a, after(t, a, i));
        }
        assert forall|k: int, id: int|
            0 <= k < n.len() && 0 <= id < t.len() && n[k] is Flag && t[id].kind == LeafKind::Flag
                && #[trigger] spelled(t[id], n[k]->name) implies n[k]->name == t[id].name && (
        t[id].takes_value && n[k]->value is None ==> !(k + 1 < n.len() && n[k + 1] is Word)) by {
            if k == 0 {
                assert(n[0] == u);
                match leaf_of(t, a[i]) {
                    Some(l) => {
                        assert(spelled(t[l], t[l].name));
                        assert(id == l);
                        if 1 < n.len() {
                            assert(n[1] == rest[0]);
                            assert(rest[0] == unit(t, a, after(t, a, i)));
                        }
                    },
                    None => {},
                }
            } else {
                assert(n[k] == rest[k - 1]);
                assert(spelled(t[id], rest[k - 1]->name));
                if k + 1 < n.len() {
                    assert(n[k + 1] == rest[k]);
                }
            }
        }
    }
}

/// Whether an outcome, if it is a match from `pos` with the captures `got`
/// already made, moved on exactly if it made a capture.
pub open spec fn moved_if_captured(o: Outcome, pos: int, got: Seq<CaptureView>) -> bool {
    match o {
        Some((next, all)) => pos <= next && got.len() <= all.len() && (pos < next <==> got.len() < all.len()),
        None => true,
    }
}

proof fn lemma_moved(t: Seq<LeafView>, p: PatternView, toks: Seq<TokenView>, pos: int)
    requires
        has_no_separator(p),
    ensures
        moved_if_captured(matched(t, p, toks, pos), pos, seq![]),
    decreases p, 1nat, 0nat,
{
    match p {
        PatternView::AnyOptions(count) => lemma_moved_any(t, count, toks, pos, seq![]),
        PatternView::Sequence(ps) => lemma_moved_all(t, ps, 0, toks, pos, seq![]),
        PatternView::Either(ps) => lemma_moved_first(t, ps, 0, toks, pos),
        PatternView::Optional(q) => lemma_moved(t, *q, toks, pos),
        PatternView::Required(q) => lemma_moved(t, *q, toks, pos),
        PatternView::OneOrMore(q) => {
            lemma_moved(t, *q, toks, pos);
            match matched(t, *q, toks, pos) {
                Some((next, c1)) => {
                    if pos < next <= toks.len() {
                        lemma_moved_again(t, *q, toks, next, c1);
                    }
                },
                None => {},
            }
        },
        _ => {},
    }
}

proof fn lemma_moved_all(
    t: Seq<LeafView>,
    ps: Seq<PatternView>,
    i: int,
    toks: Seq<TokenView>,
    pos: int,
    got: Seq<CaptureView>,
)
    requires
        0 <= i,
        forall|k: int| 0 <= k < ps.len() ==> has_no_separator(#[trigger] ps[k]),
    ensures
        moved_if_captured(match_all(t, ps, i, toks, pos, got), pos, got),
    decreases ps, 0nat, ps.len() - i,
{
    if i < ps.len() {
        lemma_moved(t, ps[i], toks, pos);
        match matched(t, ps[i], toks, pos) {
            Some((next, c1)) => lemma_moved_all(t, ps, i + 1, toks, next, got + c1),
            None => {},
        }
    }
}

proof fn lemma_moved_first(t: Seq<LeafView>, ps: Seq<PatternView>, i: int, toks: Seq<TokenView>, pos: int)
    requires
        0 <= i,
        forall|k: int| 0 <= k < ps.len() ==> has_no_separator(#[trigger] ps[k]),
    ensures
        moved_if_captured(match_first(t, ps, i, toks, pos), pos, seq![]),
    decreases ps, 0nat, ps.len() - i,
{
    if i < ps.len() {
        lemma_moved(t, ps[i], toks, pos);
        if matched(t, ps[i], toks, pos) is None {
            lemma_moved_first(t, ps, i + 1, toks, pos);
        }
    }
}

proof fn lemma_moved_again(
    t: Seq<LeafView>,
    q: PatternView,
    toks: Seq<TokenView>,
    pos: int,
    got: Seq<CaptureView>,
)
    requires
        has_no_separator(q),
    ensures
        moved_if_captured(match_more(t, q, toks, pos, got), pos, got),
    decreases q, 2nat, toks.len() - pos,
{
    lemma_moved(t, q, toks, pos);
    match matched(t, q, toks, pos) {
        Some((next, c1)) => {
            if pos < next <= toks.len() {
                lemma_moved_again(t, q, toks, next, got + c1);
            }
        },
        None => {},
    }
}

proof fn lemma_moved_option(t: Seq<LeafView>, count: usize, k: int, toks: Seq<TokenView>, pos: int)
    ensures
        moved_if_captured(first_option(t, count, k, toks, pos), pos, seq![]),
        first_option(t, count, k, toks, pos) is Some ==> pos < ended(first_option(t, count, k, toks, pos)),
    decreases count - k,
{
    if 0 <= k < count {
        if match_option(t, k as usize, toks, pos) is None {
            lemma_moved_option(t, count, k + 1, toks, pos);
        }
    }
}

proof fn lemma_moved_any(
    t: Seq<LeafView>,
    count: usize,
    toks: Seq<TokenView>,
    pos: int,
    got: Seq<CaptureView>,
)
    ensures
        moved_if_captured(match_any(t, count, toks, pos, got), pos, got),
    decreases toks.len() - pos,
{
    lemma_moved_option(t, count, 0, toks, pos);
    match first_option(t, count, 0, toks, pos) {
        Some((next, c1)) => {
            if pos < next <= toks.len() {
                lemma_moved_any(t, count, toks, next, got + c1);
            }
        },
        None => {},
    }
}

/// Whether two outcomes, one on tokens and one on their normal form, are
/// the same match: both fail, or both make the same captures and end at
/// places that mirror each other.
pub open spec fn same_outcome(
    t: Seq<LeafView>,
    a: Seq<TokenView>,
    oa: Outcome,
    b: Seq<TokenView>,
    ob: Outcome,
) -> bool {
    match oa {
        Some((next, caps)) => ob is Some && made(ob) == caps && mirrors(t, a, next, b, ended(ob)),
        None => ob is None,
    }
}

proof fn lemma_same_leaf(
    t: Seq<LeafView>,
    p: PatternView,
    a: Seq<TokenView>,
    i: int,
    b: Seq<TokenView>,
    j: int,
)
    requires
        distinct(t),
        fits(t, p),
        p is Command || p is Positional || p is OptionRef,
        mirrors(t, a, i, b, j),
    ensures
        same_outcome(t, a, matched(t, p, a, i), b, matched(t, p, b, j)),
        matched(t, p, a, i) is Some ==> i < ended(matched(t, p, a, i)) && j < ended(matched(t, p, b, j)),
{
    lemma_norm_step(t, a, i, b, j);
    if i < a.len() {
        if a[i] is Flag {
            lemma_find_leaf(t, LeafKind::Flag, a[i]->name, 0);
        }
        lemma_norm_step(t, a, after(t, a, i), b, j + 1);
        if i + 1 < a.len() {
            lemma_unit_word(t, a, i + 1);
        }
        match p {
            PatternView::OptionRef(id) => {
                if a[i] is Flag {
                    match leaf_of(t, a[i]) {
                        Some(l) => {
                            assert(spelled(t[l], a[i]->name));
                            assert(spelled(t[l], t[l].name));
                            assert(spelled(t[id as int], a[i]->name) ==> id == l);
                            assert(spelled(t[id as int], t[l].name) ==> id == l);
                            assert(b[j]->name == t[l].name);
                        },
                        None => {
                            assert(!spelled(t[id as int], a[i]->name));
                        },
                    }
                }
            },
            _ => {},
        }
    }
}

proof fn lemma_same(
    t: Seq<LeafView>,
    p: PatternView,
    a: Seq<TokenView>,
    i: int,
    b: Seq<TokenView>,
    j: int,
)
    requires
        distinct(t),
        fits(t, p),
        has_no_separator(p),
        canonical(t, b),
        mirrors(t, a, i, b, j),
    ensures
        same_outcome(t, a, matched(t, p, a, i), b, matched(t, p, b, j)),
    decreases p, 1nat, 0nat,
{
    match p {
        PatternView::Command(_) => lemma_same_leaf(t, p, a, i, b, j),
        PatternView::Positional(_) => lemma_same_leaf(t, p, a, i, b, j),
        PatternView::OptionRef(_) => lemma_same_leaf(t, p, a, i, b, j),
        PatternView::Separator => {},
        PatternView::AnyOptions(count) => lemma_same_any(t, count, a, i, b, j, seq![]),
        PatternView::Sequence(ps) => lemma_same_all(t, ps, 0, a, i, b, j, seq![]),
        PatternView::Either(ps) => lemma_same_first(t, ps, 0, a, i, b, j),
        PatternView::Optional(q) => lemma_same(t, *q, a, i, b, j),
        PatternView::Required(q) => lemma_same(t, *q, a, i, b, j),
        PatternView::OneOrMore(q) => {
            lemma_same(t, *q, a, i, b, j);
            match matched(t, *q, a, i) {
                Some((next, c1)) => {
                    let other = ended(matched(t, *q, b, j));
                    lemma_steps_agree(t, *q, a, i, b, j);
                    if i < next <= a.len() {
                        lemma_same_again(t, *q, a, next, b, other, c1);
                    }
                },
                None => {},
            }
        },
    }
}

/// A match on tokens moves on exactly if the same match on their normal
/// form does, and neither reads past the end.
proof fn lemma_steps_agree(
    t: Seq<LeafView>,
    q: PatternView,
    a: Seq<TokenView>,
    i: int,
    b: Seq<TokenView>,
    j: int,
)
    requires
        fits(t, q),
        has_no_separator(q),
        canonical(t, b),
        mirrors(t, a, i, b, j),
        matched(t, q, a, i) is Some,
        matched(t, q, b, j) is Some,
        made(matched(t, q, a, i)) == made(matched(t, q, b, j)),
    ensures
        i <= ended(matched(t, q, a, i)) <= a.len(),
        j <= ended(matched(t, q, b, j)) <= b.len(),
        i < ended(matched(t, q, a, i)) <==> j < ended(matched(t, q, b, j)),
{
    lemma_match_bounds(t, q, a, i);
    lemma_match_bounds(t, q, b, j);
    lemma_moved(t, q, a, i);
    lemma_moved(t, q, b, j);
}

proof fn lemma_same_all(
    t: Seq<LeafView>,
    ps: Seq<PatternView>,
    k: int,
    a: Seq<TokenView>,
    i: int,
    b: Seq<TokenView>,
    j: int,
    got: Seq<CaptureView>,
)
    requires
        0 <= k,
        distinct(t),
        forall|x: int| 0 <= x < ps.len() ==> fits(t, #[trigger] ps[x]),
        forall|x: int| 0 <= x < ps.len() ==> has_no_separator(#[trigger] ps[x]),
        canonical(t, b),
        mirrors(t, a, i, b, j),
    ensures
        same_outcome(t, a, match_all(t, ps, k, a, i, got), b, match_all(t, ps, k, b, j, got)),
    decreases ps, 0nat, ps.len() - k,
{
    if k < ps.len() {
        lemma_same(t, ps[k], a, i, b, j);
        match matched(t, ps[k], a, i) {
            Some((next, c1)) => {
                lemma_same_all(t, ps, k + 1, a, next, b, ended(matched(t, ps[k], b, j)), got + c1);
            },
            None => {},
        }
    }
}

proof fn lemma_same_first(
    t: Seq<LeafView>,
    ps: Seq<PatternView>,
    k: int,
    a: Seq<TokenView>,
    i: int,
    b: Seq<TokenView>,
    j: int,
)
    requires
        0 <= k,
        distinct(t),
        forall|x: int| 0 <= x < ps.len() ==> fits(t, #[trigger] ps[x]),
        forall|x: int| 0 <= x < ps.len() ==> has_no_separator(#[trigger] ps[x]),
        canonical(t, b),
        mirrors(t, a, i, b, j),
    ensures
        same_outcome(t, a, match_first(t, ps, k, a, i), b, match_first(t, ps, k, b, j)),
    decreases ps, 0nat, ps.len() - k,
{
    if k < ps.len() {
        lemma_same(t, ps[k], a, i, b, j);
        if matched(t, ps[k], a, i) is None {
            lemma_same_first(t, ps, k + 1, a, i, b, j);
        }
    }
}

proof fn lemma_same_again(
    t: Seq<LeafView>,
    q: PatternView,
    a: Seq<TokenView>,
    i: int,
    b: Seq<TokenView>,
    j: int,
    got: Seq<CaptureView>,
)
    requires
        distinct(t),
        fits(t, q),
        has_no_separator(q),
        canonical(t, b),
        mirrors(t, a, i, b, j),
    ensures
        same_outcome(t, a, match_more(t, q, a, i, got), b, match_more(t, q, b, j, got)),
    decreases q, 2nat, a.len() - i,
{
    lemma_same(t, q, a, i, b, j);
    match matched(t, q, a, i) {
        Some((next, c1)) => {
            lemma_steps_agree(t, q, a, i, b, j);
            if i < next <= a.len() {
                lemma_same_again(t, q, a, next, b, ended(matched(t, q, b, j)), got + c1);
            }
        },
        None => {},
    }
}

proof fn lemma_same_option(
    t: Seq<LeafView>,
    count: usize,
    k: int,
    a: Seq<TokenView>,
    i: int,
    b: Seq<TokenView>,
    j: int,
)
    requires
        0 <= k,
        distinct(t),
        fits(t, PatternView::AnyOptions(count)),
        mirrors(t, a, i, b, j),
    ensures
        same_outcome(t, a, first_option(t, count, k, a, i), b, first_option(t, count, k, b, j)),
        first_option(t, count, k, a, i) is Some ==> i < ended(first_option(t, count, k, a, i)) && j < ended(
            first_option(t, count, k, b, j),
        ),
    decreases count - k,
{
    if k < count {
        assert(t[k].kind == LeafKind::Flag);
        lemma_same_leaf(t, PatternView::OptionRef(k as usize), a, i, b, j);
        if match_option(t, k as usize, a, i) is None {
            lemma_same_option(t, count, k + 1, a, i, b, j);
        }
    }
}

proof fn lemma_same_any(
    t: Seq<LeafView>,
    count: usize,
    a: Seq<TokenView>,
    i: int,
    b: Seq<TokenView>,
    j: int,
    got: Seq<CaptureView>,
)
    requires
        distinct(t),
        fits(t, PatternView::AnyOptions(count)),
        mirrors(t, a, i, b, j),
    ensures
        same_outcome(t, a, match_any(t, count, a, i, got), b, match_any(t, count, b, j, got)),
    decreases a.len() - i,
{
    lemma_same_option(t, count, 0, a, i, b, j);
    match first_option(t, count, 0, a, i) {
        Some((next, c1)) => {
            let other = ended(first_option(t, count, 0, b, j));
            if i < next <= a.len() {
                lemma_same_any(t, count, a, next, b, other, got + c1);
            }
        },
        None => {},
    }
}

proof fn lemma_same_branches(
    t: Seq<LeafView>,
    branches: Seq<PatternView>,
    k: int,
    a: Seq<TokenView>,
    b: Seq<TokenView>,
)
    requires
        0 <= k,
        distinct(t),
        forall|x: int| 0 <= x < branches.len() ==> fits(t, #[trigger] branches[x]),
        forall|x: int| 0 <= x < branches.len() ==> has_no_separator(#[trigger] branches[x]),
        canonical(t, b),
        mirrors(t, a, 0, b, 0),
    ensures
        full_match(t, branches, k, b) == full_match(t, branches, k, a),
        full_match(t, branches, k, b) is Some ==> rendered(t, full_match(t, branches, k, b)->0) == b,
    decreases branches.len() - k,
{
    if k < branches.len() {
        lemma_same(t, branches[k], a, 0, b, 0);
        match matched(t, branches[k], a, 0) {
            Some((end, caps)) => {
                lemma_norm_step(t, a, end, b, ended(matched(t, branches[k], b, 0)));
                if end == a.len() {
                    lemma_round_trip_rendered(t, branches[k], b);
                } else {
                    lemma_same_branches(t, branches, k + 1, a, b);
                }
            },
            None => {
                lemma_same_branches(t, branches, k + 1, a, b);
            },
        }
    }
}

/// A match sees tokens through their normal form only: the first usage
/// line that takes all of some tokens, and what it captures, are those of
/// the normal form of the tokens.
pub proof fn lemma_normal_form(t: Seq<LeafView>, branches: Seq<PatternView>, toks: Seq<TokenView>)
    requires
        distinct(t),
        forall|x: int| 0 <= x < branches.len() ==> fits(t, #[trigger] branches[x]),
        forall|x: int| 0 <= x < branches.len() ==> has_no_separator(#[trigger] branches[x]),
    ensures
        full_match(t, branches, 0, norm(t, toks, 0)) == full_match(t, branches, 0, toks),
{
    let b = norm(t, toks, 0);
    lemma_norm_canonical(t, toks, 0);
    assert(b.subrange(0, b.len() as int) =~= b);
    lemma_same_branches(t, branches, 0, toks, b);
}

/// Round trip. Let the usage lines hold no `--`, over a table in which no
/// spelling belongs to two leaves, and let some tokens match: the first
/// line that takes them all makes some captures. Then writing those
/// captures back as tokens and matching again gives the same captures, by
/// the same rule of the first line that takes all: so the same values are
/// bound. Square brackets, bars, `[options]` and repetitions are all
/// allowed, and an option's value comes back the same whether it was first
/// written in the flag's own argument or in the next, and under whichever
/// spelling.
///
/// A `--` in a usage line is left out because it takes a token and makes
/// no capture: nothing that is bound can render it.
pub proof fn lemma_round_trip(t: Seq<LeafView>, branches: Seq<PatternView>, toks: Seq<TokenView>)
    requires
        distinct(t),
        forall|x: int| 0 <= x < branches.len() ==> fits(t, #[trigger] branches[x]),
        forall|x: int| 0 <= x < branches.len() ==> has_no_separator(#[trigger] branches[x]),
        full_match(t, branches, 0, toks) is Some,
    ensures
        full_match(t, branches, 0, rendered(t, full_match(t, branches, 0, toks)->0)) == full_match(
            t,
            branches,
            0,
            toks,
        ),
{
    let b = norm(t, toks, 0);
    lemma_norm_canonical(t, toks, 0);
    assert(b.subrange(0, b.len() as int) =~= b);
    lemma_same_branches(t, branches, 0, toks, b);
}

} // verus!
