//! The rounds of a repetition: what a repeated pattern captures is what
//! its rounds capture, one round after another. So the lists of leaves
//! that each round binds once pair up, round by round.

use vstd::prelude::*;
use crate::leaf::{spelled, LeafView};
use crate::matcher::{
    lemma_match_bounds, match_all, match_more, match_option, match_positional, matched,
};
use crate::pattern::{CaptureView, PatternView};
use crate::replay::{ended, made};
use crate::token::{words, TokenView};
use crate::value::{lemma_texts_in_order, texts_of};

verus! {

/// The captures of each round of the pattern `q` from `pos` on: a round
/// counts as long as it matches and takes a token.
pub open spec fn rounds(t: Seq<LeafView>, q: PatternView, toks: Seq<TokenView>, pos: int) -> Seq<
    Seq<CaptureView>,
>
    decreases toks.len() - pos,
{
    match matched(t, q, toks, pos) {
        Some((next, c)) => if pos < next <= toks.len() {
            seq![c] + rounds(t, q, toks, next)
        } else {
            seq![]
        },
        None => seq![],
    }
}

/// The captures of rounds, one round after another.
pub open spec fn flat(rs: Seq<Seq<CaptureView>>) -> Seq<CaptureView>
    decreases rs.len(),
{
    if rs.len() == 0 {
        seq![]
    } else {
        rs[0] + flat(rs.subrange(1, rs.len() as int))
    }
}

/// Further rounds add their captures in order.
pub proof fn lemma_more_is_rounds(
    t: Seq<LeafView>,
    q: PatternView,
    toks: Seq<TokenView>,
    pos: int,
    got: Seq<CaptureView>,
)
    ensures
        match_more(t, q, toks, pos, got) is Some,
        made(match_more(t, q, toks, pos, got)) == got + flat(rounds(t, q, toks, pos)),
    decreases toks.len() - pos,
{
    match matched(t, q, toks, pos) {
        Some((next, c)) => {
            if pos < next <= toks.len() {
                lemma_more_is_rounds(t, q, toks, next, got + c);
                let rest = rounds(t, q, toks, next);
                assert((seq![c] + rest).subrange(1, (rest.len() + 1) as int) =~= rest);
                assert(flat(seq![c] + rest) == c + flat(rest));
                assert(got + c + flat(rest) =~= got + (c + flat(rest)));
            } else {
                assert(got + Seq::<CaptureView>::empty() =~= got);
            }
        },
        None => {
            assert(got + Seq::<CaptureView>::empty() =~= got);
        },
    }
}

/// A repetition that takes a token captures what its rounds capture, in
/// the order of the rounds.
pub proof fn lemma_repetition_is_rounds(t: Seq<LeafView>, q: PatternView, toks: Seq<TokenView>, pos: int)
    requires
        0 <= pos <= toks.len(),
        matched(t, PatternView::OneOrMore(Box::new(q)), toks, pos) is Some,
        pos < ended(matched(t, PatternView::OneOrMore(Box::new(q)), toks, pos)),
    ensures
        made(matched(t, PatternView::OneOrMore(Box::new(q)), toks, pos)) == flat(rounds(t, q, toks, pos)),
{
    lemma_match_bounds(t, q, toks, pos);
    match matched(t, q, toks, pos) {
        Some((next, c)) => {
            if pos < next <= toks.len() {
                lemma_more_is_rounds(t, q, toks, next, c);
                let rest = rounds(t, q, toks, next);
                assert((seq![c] + rest).subrange(1, (rest.len() + 1) as int) =~= rest);
                assert(flat(seq![c] + rest) == c + flat(rest));
            }
        },
        None => {},
    }
}

/// Whether every round binds the leaf once.
pub open spec fn once_a_round(rs: Seq<Seq<CaptureView>>, leaf: int) -> bool {
    forall|r: int| 0 <= r < rs.len() ==> texts_of(#[trigger] rs[r], leaf, rs[r].len() as int).len() == 1
}

/// A leaf that every round binds once has one text for each round, and its
/// text at each index is the one of the round of that index.
pub proof fn lemma_one_text_a_round(rs: Seq<Seq<CaptureView>>, leaf: int)
    requires
        once_a_round(rs, leaf),
    ensures
        texts_of(flat(rs), leaf, flat(rs).len() as int).len() == rs.len(),
        forall|r: int|
            0 <= r < rs.len() ==> texts_of(flat(rs), leaf, flat(rs).len() as int)[r] == texts_of(
                #[trigger] rs[r],
                leaf,
                rs[r].len() as int,
            )[0],
    decreases rs.len(),
{
    if rs.len() > 0 {
        let rest = rs.subrange(1, rs.len() as int);
        assert forall|r: int| 0 <= r < rest.len() implies texts_of(
            #[trigger] rest[r],
            leaf,
            rest[r].len() as int,
        ).len() == 1 by {
            assert(rest[r] == rs[r + 1]);
        }
        lemma_one_text_a_round(rest, leaf);
        lemma_texts_in_order(rs[0], flat(rest), leaf, flat(rest).len() as int);
        let all = texts_of(flat(rs), leaf, flat(rs).len() as int);
        let first = texts_of(rs[0], leaf, rs[0].len() as int);
        let later = texts_of(flat(rest), leaf, flat(rest).len() as int);
        assert(all == first + later);
        assert forall|r: int| 0 <= r < rs.len() implies all[r] == texts_of(
            #[trigger] rs[r],
            leaf,
            rs[r].len() as int,
        )[0] by {
            if r > 0 {
                assert(all[r] == later[r - 1]);
                assert(rest[r - 1] == rs[r]);
            }
        }
    }
}

/// Pairing. Two leaves that every round of a repetition binds once have
/// lists of one length, and the texts at each index of the two lists were
/// bound in the same round: the pairs are kept, in the order of the rounds.
pub proof fn lemma_lists_pair_up(
    t: Seq<LeafView>,
    q: PatternView,
    toks: Seq<TokenView>,
    pos: int,
    x: int,
    y: int,
)
    requires
        0 <= pos <= toks.len(),
        matched(t, PatternView::OneOrMore(Box::new(q)), toks, pos) is Some,
        pos < ended(matched(t, PatternView::OneOrMore(Box::new(q)), toks, pos)),
        once_a_round(rounds(t, q, toks, pos), x),
        once_a_round(rounds(t, q, toks, pos), y),
    ensures
        ({
            let caps = made(matched(t, PatternView::OneOrMore(Box::new(q)), toks, pos));
            let rs = rounds(t, q, toks, pos);
            let xs = texts_of(caps, x, caps.len() as int);
            let ys = texts_of(caps, y, caps.len() as int);
            &&& xs.len() == rs.len()
            &&& ys.len() == rs.len()
            &&& forall|r: int|
                0 <= r < rs.len() ==> xs[r] == texts_of(#[trigger] rs[r], x, rs[r].len() as int)[0] && ys[r]
                    == texts_of(rs[r], y, rs[r].len() as int)[0]
        }),
{
    lemma_repetition_is_rounds(t, q, toks, pos);
    lemma_one_text_a_round(rounds(t, q, toks, pos), x);
    lemma_one_text_a_round(rounds(t, q, toks, pos), y);
}

/// The group `[-v <x> <y>]`: an option that may stand before a pair of
/// positionals.
pub open spec fn pair_group(v: usize, x: usize, y: usize) -> PatternView {
    PatternView::Optional(
        Box::new(
            PatternView::Sequence(
                seq![
                    PatternView::Optional(Box::new(PatternView::OptionRef(v))),
                    PatternView::Positional(x),
                    PatternView::Positional(y),
                ],
            ),
        ),
    )
}

/// The usage line `[-v <x> <y>]...`.
pub open spec fn pair_line(v: usize, x: usize, y: usize) -> PatternView {
    PatternView::Sequence(seq![PatternView::OneOrMore(Box::new(pair_group(v, x, y)))])
}

/// A round of the group that takes a token binds each of the two
/// positionals once.
pub proof fn lemma_pair_round(
    t: Seq<LeafView>,
    v: usize,
    x: usize,
    y: usize,
    toks: Seq<TokenView>,
    pos: int,
)
    requires
        v != x,
        v != y,
        x != y,
        matched(t, pair_group(v, x, y), toks, pos) is Some,
        pos < ended(matched(t, pair_group(v, x, y), toks, pos)),
    ensures
        ({
            let c = made(matched(t, pair_group(v, x, y), toks, pos));
            &&& texts_of(c, x as int, c.len() as int).len() == 1
            &&& texts_of(c, y as int, c.len() as int).len() == 1
        }),
{
    let items = seq![
        PatternView::Optional(Box::new(PatternView::OptionRef(v))),
        PatternView::Positional(x),
        PatternView::Positional(y),
    ];
    let group = PatternView::Sequence(items);
    let whole = matched(t, group, toks, pos);
    assert(whole is Some);
    let inner = matched(t, PatternView::OptionRef(v), toks, pos);
    assert(inner == match_option(t, v, toks, pos));
    let o0 = matched(t, items[0], toks, pos);
    assert(o0 == match inner {
        Some(r) => Some(r),
        None => Some((pos, Seq::<CaptureView>::empty())),
    });
    assert(o0 is Some);
    let p1 = ended(o0);
    let c0 = made(o0);
    assert(c0.len() <= 1);
    assert(forall|k: int| 0 <= k < c0.len() ==> (#[trigger] c0[k]).leaf == v);
    let empty = Seq::<CaptureView>::empty();
    assert(whole == match_all(t, items, 0, toks, pos, empty));
    assert(match_all(t, items, 0, toks, pos, empty) == match_all(t, items, 1, toks, p1, empty + c0));
    let o1 = matched(t, items[1], toks, p1);
    assert(o1 is Some);
    let p2 = ended(o1);
    let c1 = made(o1);
    assert(c1.len() == 1 && c1[0].leaf == x);
    assert(match_all(t, items, 1, toks, p1, empty + c0) == match_all(t, items, 2, toks, p2, empty + c0 + c1));
    let o2 = matched(t, items[2], toks, p2);
    assert(o2 is Some);
    let p3 = ended(o2);
    let c2 = made(o2);
    assert(c2.len() == 1 && c2[0].leaf == y);
    assert(match_all(t, items, 2, toks, p2, empty + c0 + c1) == match_all(
        t,
        items,
        3,
        toks,
        p3,
        empty + c0 + c1 + c2,
    ));
    let c = empty + c0 + c1 + c2;
    assert(made(whole) == c);
    let head = empty + c0;
    assert(c =~= head + (c1 + c2));
    lemma_texts_in_order(head, c1 + c2, x as int, 2);
    lemma_texts_in_order(head, c1 + c2, y as int, 2);
    lemma_leaf_absent(head, v, x);
    lemma_leaf_absent(head, v, y);
    reveal_with_fuel(texts_of, 3);
    assert((c1 + c2)[0] == c1[0]);
    assert((c1 + c2)[1] == c2[0]);
    assert(texts_of(c1 + c2, x as int, 2).len() == 1);
    assert(texts_of(c1 + c2, y as int, 2).len() == 1);
}

proof fn lemma_leaf_absent(caps: Seq<CaptureView>, v: usize, x: usize)
    requires
        v != x,
        forall|k: int| 0 <= k < caps.len() ==> (#[trigger] caps[k]).leaf == v,
    ensures
        texts_of(caps, x as int, caps.len() as int).len() == 0,
{
    lemma_leaf_absent_from(caps, v, x, caps.len() as int);
}

proof fn lemma_leaf_absent_from(caps: Seq<CaptureView>, v: usize, x: usize, n: int)
    requires
        v != x,
        0 <= n <= caps.len(),
        forall|k: int| 0 <= k < caps.len() ==> (#[trigger] caps[k]).leaf == v,
    ensures
        texts_of(caps, x as int, n).len() == 0,
    decreases n,
{
    if n > 0 {
        lemma_leaf_absent_from(caps, v, x, n - 1);
        assert(caps[n - 1].leaf == v);
    }
}

/// Every round of the group binds each of the two positionals once.
pub proof fn lemma_pair_rounds(
    t: Seq<LeafView>,
    v: usize,
    x: usize,
    y: usize,
    toks: Seq<TokenView>,
    pos: int,
)
    requires
        v != x,
        v != y,
        x != y,
    ensures
        once_a_round(rounds(t, pair_group(v, x, y), toks, pos), x as int),
        once_a_round(rounds(t, pair_group(v, x, y), toks, pos), y as int),
    decreases toks.len() - pos,
{
    let q = pair_group(v, x, y);
    let rs = rounds(t, q, toks, pos);
    match matched(t, q, toks, pos) {
        Some((next, c)) => {
            if pos < next <= toks.len() {
                lemma_pair_round(t, v, x, y, toks, pos);
                lemma_pair_rounds(t, v, x, y, toks, next);
                let rest = rounds(t, q, toks, next);
                assert forall|r: int| 0 <= r < rs.len() implies texts_of(
                    #[trigger] rs[r],
                    x as int,
                    rs[r].len() as int,
                ).len() == 1 && texts_of(rs[r], y as int, rs[r].len() as int).len() == 1 by {
                    if r > 0 {
                        assert(rs[r] == rest[r - 1]);
                    }
                }
            }
        },
        None => {},
    }
}

/// The lists of `[-v <x> <y>]...` pair up. Whatever tokens the line
/// matches, and however many pairs they hold, the two positionals get
/// lists of one length, one text for each round of the group, and the texts
/// at each index of the two were bound in the same round.
pub proof fn lemma_pair_line(t: Seq<LeafView>, v: usize, x: usize, y: usize, toks: Seq<TokenView>)
    requires
        v != x,
        v != y,
        x != y,
        toks.len() > 0,
        matched(t, pair_line(v, x, y), toks, 0) is Some,
        ended(matched(t, pair_line(v, x, y), toks, 0)) == toks.len(),
    ensures
        ({
            let caps = made(matched(t, pair_line(v, x, y), toks, 0));
            let rs = rounds(t, pair_group(v, x, y), toks, 0);
            let xs = texts_of(caps, x as int, caps.len() as int);
            let ys = texts_of(caps, y as int, caps.len() as int);
            &&& xs.len() == rs.len()
            &&& ys.len() == rs.len()
            &&& forall|r: int|
                0 <= r < rs.len() ==> xs[r] == texts_of(#[trigger] rs[r], x as int, rs[r].len() as int)[0]
                    && ys[r] == texts_of(rs[r], y as int, rs[r].len() as int)[0]
        }),
{
    let q = pair_group(v, x, y);
    let rep = PatternView::OneOrMore(Box::new(q));
    let items = seq![rep];
    let empty = Seq::<CaptureView>::empty();
    let o = matched(t, rep, toks, 0);
    assert(matched(t, pair_line(v, x, y), toks, 0) == match_all(t, items, 0, toks, 0, empty));
    assert(o is Some);
    assert(match_all(t, items, 0, toks, 0, empty) == match_all(t, items, 1, toks, ended(o), empty + made(o)));
    assert(empty + made(o) =~= made(o));
    lemma_pair_rounds(t, v, x, y, toks, 0);
    lemma_lists_pair_up(t, q, toks, 0, x as int, y as int);
}

/// The capture of leaf `id` with the word at `pos`.
pub open spec fn word_capture(id: usize, toks: Seq<TokenView>, pos: int) -> CaptureView {
    CaptureView { leaf: id, text: toks[pos]->Word_0 }
}

/// The captures of the pairs of words from `pos` on: for each pair, `x`
/// with the first word and `y` with the second.
pub open spec fn pair_captures(x: usize, y: usize, toks: Seq<TokenView>, pos: int, k: nat) -> Seq<
    CaptureView,
> {
    Seq::new(
        2 * k,
        |i: int|
            word_capture(
                if i % 2 == 0 {
                    x
                } else {
                    y
                },
                toks,
                pos + i,
            ),
    )
}

proof fn lemma_group_unfolds(
    t: Seq<LeafView>,
    v: usize,
    x: usize,
    y: usize,
    toks: Seq<TokenView>,
    pos: int,
)
    ensures
        ({
            let o0 = match_option(t, v, toks, pos);
            let p1 = if o0 is Some {
                ended(o0)
            } else {
                pos
            };
            let c0 = made(o0);
            let o1 = match_positional(t, x, toks, p1);
            let o2 = match_positional(t, y, toks, ended(o1));
            matched(t, pair_group(v, x, y), toks, pos) == if o1 is Some && o2 is Some {
                Some((ended(o2), c0 + made(o1) + made(o2)))
            } else {
                Some((pos, Seq::<CaptureView>::empty()))
            }
        }),
{
    let items = seq![
        PatternView::Optional(Box::new(PatternView::OptionRef(v))),
        PatternView::Positional(x),
        PatternView::Positional(y),
    ];
    let group = PatternView::Sequence(items);
    let empty = Seq::<CaptureView>::empty();
    let inner = matched(t, PatternView::OptionRef(v), toks, pos);
    assert(inner == match_option(t, v, toks, pos));
    let o0 = matched(t, items[0], toks, pos);
    assert(o0 == match inner {
        Some(r) => Some(r),
        None => Some((pos, empty)),
    });
    let p1 = ended(o0);
    let c0 = made(o0);
    assert(matched(t, group, toks, pos) == match_all(t, items, 0, toks, pos, empty));
    assert(match_all(t, items, 0, toks, pos, empty) == match_all(t, items, 1, toks, p1, empty + c0));
    assert(empty + c0 =~= c0);
    let o1 = matched(t, items[1], toks, p1);
    assert(o1 == match_positional(t, x, toks, p1));
    if o1 is Some {
        let p2 = ended(o1);
        let c1 = made(o1);
        assert(match_all(t, items, 1, toks, p1, c0) == match_all(t, items, 2, toks, p2, c0 + c1));
        let o2 = matched(t, items[2], toks, p2);
        assert(o2 == match_positional(t, y, toks, p2));
        if o2 is Some {
            let c2 = made(o2);
            assert(match_all(t, items, 2, toks, p2, c0 + c1) == match_all(
                t,
                items,
                3,
                toks,
                ended(o2),
                c0 + c1 + c2,
            ));
        }
    }
}

proof fn lemma_more_pairs(
    t: Seq<LeafView>,
    v: usize,
    x: usize,
    y: usize,
    toks: Seq<TokenView>,
    pos: int,
    k: nat,
    got: Seq<CaptureView>,
)
    requires
        x < t.len(),
        y < t.len(),
        0 <= pos,
        pos + 2 * k == toks.len(),
        forall|i: int| pos <= i < toks.len() ==> (#[trigger] toks[i]) is Word,
    ensures
        match_more(t, pair_group(v, x, y), toks, pos, got) == Some(
            (toks.len() as int, got + pair_captures(x, y, toks, pos, k)),
        ),
    decreases k,
{
    lemma_group_unfolds(t, v, x, y, toks, pos);
    if k == 0 {
        assert(got + pair_captures(x, y, toks, pos, 0) =~= got);
    } else {
        assert(toks[pos] is Word);
        assert(toks[pos + 1] is Word);
        let c = seq![word_capture(x, toks, pos), word_capture(y, toks, pos + 1)];
        assert(Seq::<CaptureView>::empty() + seq![word_capture(x, toks, pos)] + seq![
            word_capture(y, toks, pos + 1),
        ] =~= c);
        assert(matched(t, pair_group(v, x, y), toks, pos) == Some((pos + 2, c)));
        lemma_more_pairs(t, v, x, y, toks, pos + 2, (k - 1) as nat, got + c);
        assert(got + c + pair_captures(x, y, toks, pos + 2, (k - 1) as nat) =~= got + pair_captures(
            x,
            y,
            toks,
            pos,
            k,
        )) by {
            let left = got + c + pair_captures(x, y, toks, pos + 2, (k - 1) as nat);
            let right = got + pair_captures(x, y, toks, pos, k);
            assert(left.len() == right.len());
            assert forall|i: int| 0 <= i < left.len() implies left[i] == right[i] by {
                if i >= got.len() + 2 {
                    let m = i - got.len() - 2;
                    assert(left[i] == pair_captures(x, y, toks, pos + 2, (k - 1) as nat)[m]);
                    assert(right[i] == pair_captures(x, y, toks, pos, k)[m + 2]);
                    assert((m + 2) % 2 == m % 2);
                } else if i >= got.len() {
                    assert(right[i] == pair_captures(x, y, toks, pos, k)[i - got.len()]);
                }
            }
        }
    }
}

proof fn lemma_pair_texts(
    head: Seq<CaptureView>,
    v: usize,
    x: usize,
    y: usize,
    toks: Seq<TokenView>,
    pos: int,
    k: nat,
    r: nat,
)
    requires
        v != x,
        v != y,
        x != y,
        r <= k,
        forall|i: int| 0 <= i < head.len() ==> (#[trigger] head[i]).leaf == v,
    ensures
        texts_of(head + pair_captures(x, y, toks, pos, k), x as int, (head.len() + 2 * r) as int) == Seq::new(
            r,
            |i: int| toks[pos + 2 * i]->Word_0,
        ),
        texts_of(head + pair_captures(x, y, toks, pos, k), y as int, (head.len() + 2 * r) as int) == Seq::new(
            r,
            |i: int| toks[pos + 2 * i + 1]->Word_0,
        ),
    decreases r,
{
    let caps = head + pair_captures(x, y, toks, pos, k);
    if r == 0 {
        lemma_texts_of_head(head, pair_captures(x, y, toks, pos, k), v, x, head.len() as int);
        lemma_texts_of_head(head, pair_captures(x, y, toks, pos, k), v, y, head.len() as int);
        assert(texts_of(caps, x as int, head.len() as int) =~= Seq::new(0, |i: int| toks[pos + 2 * i]->Word_0));
        assert(texts_of(caps, y as int, head.len() as int) =~= Seq::new(
            0,
            |i: int| toks[pos + 2 * i + 1]->Word_0,
        ));
    } else {
        lemma_pair_texts(head, v, x, y, toks, pos, k, (r - 1) as nat);
        let n = (head.len() + 2 * r) as int;
        let pc = pair_captures(x, y, toks, pos, k);
        assert(caps[n - 1] == pc[2 * r - 1]);
        assert(caps[n - 2] == pc[2 * r - 2]);
        assert((2 * r - 1) % 2 == 1) by (nonlinear_arith)
            requires
                r >= 1,
        ;
        assert((2 * r - 2) % 2 == 0) by (nonlinear_arith)
            requires
                r >= 1,
        ;
        assert(caps[n - 1] == word_capture(y, toks, pos + 2 * r - 1));
        assert(caps[n - 2] == word_capture(x, toks, pos + 2 * r - 2));
        reveal_with_fuel(texts_of, 3);
        assert(texts_of(caps, x as int, n) =~= Seq::new(r, |i: int| toks[pos + 2 * i]->Word_0));
        assert(texts_of(caps, y as int, n) =~= Seq::new(r, |i: int| toks[pos + 2 * i + 1]->Word_0));
    }
}

proof fn lemma_texts_of_head(
    head: Seq<CaptureView>,
    tail: Seq<CaptureView>,
    v: usize,
    x: usize,
    n: int,
)
    requires
        v != x,
        0 <= n <= head.len(),
        forall|i: int| 0 <= i < head.len() ==> (#[trigger] head[i]).leaf == v,
    ensures
        texts_of(head + tail, x as int, n).len() == 0,
    decreases n,
{
    if n > 0 {
        lemma_texts_of_head(head, tail, v, x, n - 1);
        assert((head + tail)[n - 1] == head[n - 1]);
    }
}

/// The lists of `[-v <x> <y>]...` for every number of pairs. Let the
/// tokens be the flag of the option `v`, which takes no value, and then
/// `n` pairs of words, one pair at least. Then the line matches them all,
/// the list of `x` is the first word of each pair and the list of `y` the
/// second, in the order of the pairs.
pub proof fn lemma_pairs_of_words(
    t: Seq<LeafView>,
    v: usize,
    x: usize,
    y: usize,
    name: Seq<char>,
    ws: Seq<Seq<char>>,
    n: nat,
)
    requires
        v != x,
        v != y,
        x != y,
        v < t.len(),
        x < t.len(),
        y < t.len(),
        !t[v as int].takes_value,
        spelled(t[v as int], name),
        n >= 1,
        ws.len() == 2 * n,
    ensures
        ({
            let toks = seq![TokenView::Flag { name, value: None }] + words(ws);
            let o = matched(t, pair_line(v, x, y), toks, 0);
            &&& o is Some
            &&& ended(o) == toks.len()
            &&& texts_of(made(o), x as int, made(o).len() as int) == Seq::new(n, |r: int| ws[2 * r])
            &&& texts_of(made(o), y as int, made(o).len() as int) == Seq::new(n, |r: int| ws[2 * r + 1])
        }),
{
    let toks = seq![TokenView::Flag { name, value: None }] + words(ws);
    let q = pair_group(v, x, y);
    let rep = PatternView::OneOrMore(Box::new(q));
    let empty = Seq::<CaptureView>::empty();
    assert(toks.len() == 1 + 2 * n);
    assert forall|i: int| 1 <= i < toks.len() implies (#[trigger] toks[i]) is Word && toks[i]->Word_0 == ws[i
        - 1] by {
        assert(toks[i] == words(ws)[i - 1]);
    }
    assert(toks[0] == TokenView::Flag { name, value: None });
    lemma_group_unfolds(t, v, x, y, toks, 0);
    let head = seq![CaptureView { leaf: v, text: Seq::<char>::empty() }];
    let first = head + seq![word_capture(x, toks, 1)] + seq![word_capture(y, toks, 2)];
    assert(toks[1] is Word && toks[2] is Word);
    assert(matched(t, q, toks, 0) == Some((3int, first)));
    lemma_more_pairs(t, v, x, y, toks, 3, (n - 1) as nat, first);
    let caps = first + pair_captures(x, y, toks, 3, (n - 1) as nat);
    assert(matched(t, rep, toks, 0) == Some((toks.len() as int, caps)));
    let items = seq![rep];
    assert(matched(t, pair_line(v, x, y), toks, 0) == match_all(t, items, 0, toks, 0, empty));
    assert(match_all(t, items, 0, toks, 0, empty) == match_all(
        t,
        items,
        1,
        toks,
        toks.len() as int,
        empty + caps,
    ));
    assert(empty + caps =~= caps);
    assert(caps =~= head + pair_captures(x, y, toks, 1, n)) by {
        let right = head + pair_captures(x, y, toks, 1, n);
        assert(caps.len() == right.len());
        assert forall|i: int| 0 <= i < caps.len() implies caps[i] == right[i] by {
            if i >= 3 {
                assert(caps[i] == pair_captures(x, y, toks, 3, (n - 1) as nat)[i - 3]);
                assert(right[i] == pair_captures(x, y, toks, 1, n)[i - 1]);
                assert((i - 1) % 2 == (i - 3) % 2);
            } else if i >= 1 {
                assert(right[i] == pair_captures(x, y, toks, 1, n)[i - 1]);
            }
        }
    }
    lemma_pair_texts(head, v, x, y, toks, 1, n, n);
    assert(Seq::new(n, |r: int| toks[1 + 2 * r]->Word_0) =~= Seq::new(n, |r: int| ws[2 * r]));
    assert(Seq::new(n, |r: int| toks[1 + 2 * r + 1]->Word_0) =~= Seq::new(n, |r: int| ws[2 * r + 1]));
}

} // verus!
