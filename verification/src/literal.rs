//! What follows the separator: every argument after the first `--` is a
//! word, and a match binds each of those words as it stands, in order, to
//! a command or a positional, never to an option.

use vstd::prelude::*;
use crate::leaf::{LeafKind, LeafView};
use crate::matcher::{
    first_option, full_match, match_all, match_any, match_first, match_more, match_option, matched, Outcome,
};
use crate::pattern::{fits, CaptureView, PatternView};
use crate::replay::{rendered, token_of};
use crate::token::{is_separator, lemma_after_separator, no_separator_before, tokens, words, TokenView};
use crate::value::{bound, lemma_capture_is_bound, lemma_texts_in_order, texts_of};

verus! {

/// Whether `s` is where the words after the separator begin: the token
/// before `s` is the separator, and every token from `s` on is a word.
pub open spec fn words_begin(toks: Seq<TokenView>, s: int) -> bool {
    &&& 0 < s <= toks.len()
    &&& toks[s - 1] is Separator
    &&& forall|k: int| s <= k < toks.len() ==> (#[trigger] toks[k]) is Word
}

/// The place `x`, or `s` if `x` lies before it.
pub open spec fn later(x: int, s: int) -> int {
    if x < s {
        s
    } else {
        x
    }
}

/// Whether an outcome, if it is a match from `pos` with the captures `got`
/// already made, bound the words it took from `s` on: its new captures end
/// with one for each such word, which render to those words in order; and
/// a match that began at or after `s` made no other capture.
pub open spec fn binds_words(
    t: Seq<LeafView>,
    o: Outcome,
    toks: Seq<TokenView>,
    pos: int,
    got: Seq<CaptureView>,
    s: int,
) -> bool {
    match o {
        Some((next, all)) => {
            let w = later(next, s) - later(pos, s);
            &&& pos <= next <= toks.len()
            &&& got.len() + w <= all.len()
            &&& all.subrange(0, got.len() as int) == got
            &&& pos >= s ==> all.len() == got.len() + w
            &&& rendered(t, all.subrange(all.len() - w, all.len() as int)) == toks.subrange(
                later(pos, s),
                later(next, s),
            )
        },
        None => true,
    }
}

proof fn lemma_binds_more(
    t: Seq<LeafView>,
    toks: Seq<TokenView>,
    pos: int,
    mid: int,
    got: Seq<CaptureView>,
    c1: Seq<CaptureView>,
    o: Outcome,
    s: int,
)
    requires
        0 <= pos <= mid <= toks.len(),
        0 < s <= toks.len(),
        binds_words(t, Some((mid, c1)), toks, pos, seq![], s),
        binds_words(t, o, toks, mid, got + c1, s),
    ensures
        binds_words(t, o, toks, pos, got, s),
{
    match o {
        Some((next, all)) => {
            let n = got.len() as int;
            let m = (got + c1).len() as int;
            let w1 = later(mid, s) - later(pos, s);
            let w2 = later(next, s) - later(mid, s);
            let w = later(next, s) - later(pos, s);
            assert(all.subrange(0, n) =~= got) by {
                assert(all.subrange(0, m) == got + c1);
                assert forall|k: int| 0 <= k < n implies all.subrange(0, n)[k] == got[k] by {
                    assert(all.subrange(0, m)[k] == (got + c1)[k]);
                }
            }
            let last1 = c1.subrange(c1.len() - w1, c1.len() as int);
            let last2 = all.subrange(all.len() - w2, all.len() as int);
            let last = all.subrange(all.len() - w, all.len() as int);
            if w1 > 0 {
                assert(mid >= s);
                assert(all.len() == m + w2);
                assert(last =~= last1 + last2) by {
                    assert forall|k: int| 0 <= k < w1 implies last[k] == last1[k] by {
                        assert(all.subrange(0, m)[m - w1 + k] == (got + c1)[m - w1 + k]);
                    }
                }
                assert(rendered(t, last1 + last2) =~= rendered(t, last1) + rendered(t, last2));
                assert(toks.subrange(later(pos, s), later(mid, s)) + toks.subrange(
                    later(mid, s),
                    later(next, s),
                ) =~= toks.subrange(later(pos, s), later(next, s)));
            } else {
                assert(later(pos, s) == later(mid, s));
                assert(last =~= last2);
            }
        },
        None => {},
    }
}

proof fn lemma_binds_nothing(
    t: Seq<LeafView>,
    toks: Seq<TokenView>,
    pos: int,
    got: Seq<CaptureView>,
    s: int,
)
    requires
        0 <= pos <= toks.len(),
        0 < s <= toks.len(),
    ensures
        binds_words(t, Some((pos, got)), toks, pos, got, s),
{
    assert(got.subrange(0, got.len() as int) =~= got);
    assert(rendered(t, got.subrange(got.len() as int, got.len() as int)) =~= toks.subrange(
        later(pos, s),
        later(pos, s),
    ));
}

proof fn lemma_binds_leaf(t: Seq<LeafView>, p: PatternView, toks: Seq<TokenView>, pos: int, s: int)
    requires
        fits(t, p),
        words_begin(toks, s),
        0 <= pos <= toks.len(),
        p is Command || p is Positional || p is OptionRef || p is Separator,
    ensures
        binds_words(t, matched(t, p, toks, pos), toks, pos, seq![], s),
{
    match matched(t, p, toks, pos) {
        Some((next, all)) => {
            assert(all.subrange(0, 0) =~= Seq::<CaptureView>::empty());
            if pos >= s {
                assert(toks[pos] is Word);
                assert(all.len() == 1);
                assert(next == pos + 1);
                assert(token_of(t, all[0]) == toks[pos]);
                assert(all.subrange(0, 1) =~= all);
                assert(rendered(t, all) =~= toks.subrange(pos, pos + 1));
            } else {
                if next > s {
                    assert(next == pos + 2);
                    assert(toks[pos + 1] is Word);
                    assert(pos + 1 == s - 1 || pos + 1 >= s);
                    assert(pos + 1 == s - 1);
                    assert(false);
                }
                assert(rendered(t, all.subrange(all.len() as int, all.len() as int)) =~= toks.subrange(s, s));
            }
        },
        None => {},
    }
}

proof fn lemma_binds(t: Seq<LeafView>, p: PatternView, toks: Seq<TokenView>, pos: int, s: int)
    requires
        fits(t, p),
        words_begin(toks, s),
        0 <= pos <= toks.len(),
    ensures
        binds_words(t, matched(t, p, toks, pos), toks, pos, seq![], s),
    decreases p, 1nat, 0nat,
{
    match p {
        PatternView::Command(_) => lemma_binds_leaf(t, p, toks, pos, s),
        PatternView::Positional(_) => lemma_binds_leaf(t, p, toks, pos, s),
        PatternView::OptionRef(_) => lemma_binds_leaf(t, p, toks, pos, s),
        PatternView::Separator => lemma_binds_leaf(t, p, toks, pos, s),
        PatternView::AnyOptions(count) => lemma_binds_any(t, count, toks, pos, seq![], s),
        PatternView::Sequence(ps) => lemma_binds_all(t, ps, 0, toks, pos, seq![], s),
        PatternView::Either(ps) => lemma_binds_first(t, ps, 0, toks, pos, s),
        PatternView::Optional(q) => {
            lemma_binds(t, *q, toks, pos, s);
            if matched(t, *q, toks, pos) is None {
                lemma_binds_nothing(t, toks, pos, seq![], s);
            }
        },
        PatternView::Required(q) => lemma_binds(t, *q, toks, pos, s),
        PatternView::OneOrMore(q) => {
            lemma_binds(t, *q, toks, pos, s);
            match matched(t, *q, toks, pos) {
                Some((next, c1)) => {
                    if pos < next <= toks.len() {
                        assert(Seq::<CaptureView>::empty() + c1 =~= c1);
                        lemma_binds_again(t, *q, toks, next, c1, s);
                        lemma_binds_more(
                            t,
                            toks,
                            pos,
                            next,
                            seq![],
                            c1,
                            match_more(t, *q, toks, next, c1),
                            s,
                        );
                    }
                },
                None => {},
            }
        },
    }
}

proof fn lemma_binds_all(
    t: Seq<LeafView>,
    ps: Seq<PatternView>,
    i: int,
    toks: Seq<TokenView>,
    pos: int,
    got: Seq<CaptureView>,
    s: int,
)
    requires
        0 <= i,
        forall|k: int| 0 <= k < ps.len() ==> fits(t, #[trigger] ps[k]),
        words_begin(toks, s),
        0 <= pos <= toks.len(),
    ensures
        binds_words(t, match_all(t, ps, i, toks, pos, got), toks, pos, got, s),
    decreases ps, 0nat, ps.len() - i,
{
    if i < ps.len() {
        lemma_binds(t, ps[i], toks, pos, s);
        match matched(t, ps[i], toks, pos) {
            Some((next, c1)) => {
                lemma_binds_all(t, ps, i + 1, toks, next, got + c1, s);
                lemma_binds_more(
                    t,
                    toks,
                    pos,
                    next,
                    got,
                    c1,
                    match_all(t, ps, i + 1, toks, next, got + c1),
                    s,
                );
            },
            None => {},
        }
    } else {
        lemma_binds_nothing(t, toks, pos, got, s);
    }
}

proof fn lemma_binds_first(
    t: Seq<LeafView>,
    ps: Seq<PatternView>,
    i: int,
    toks: Seq<TokenView>,
    pos: int,
    s: int,
)
    requires
        0 <= i,
        forall|k: int| 0 <= k < ps.len() ==> fits(t, #[trigger] ps[k]),
        words_begin(toks, s),
        0 <= pos <= toks.len(),
    ensures
        binds_words(t, match_first(t, ps, i, toks, pos), toks, pos, seq![], s),
    decreases ps, 0nat, ps.len() - i,
{
    if i < ps.len() {
        lemma_binds(t, ps[i], toks, pos, s);
        if matched(t, ps[i], toks, pos) is None {
            lemma_binds_first(t, ps, i + 1, toks, pos, s);
        }
    }
}

proof fn lemma_binds_again(
    t: Seq<LeafView>,
    q: PatternView,
    toks: Seq<TokenView>,
    pos: int,
    got: Seq<CaptureView>,
    s: int,
)
    requires
        fits(t, q),
        words_begin(toks, s),
        0 <= pos <= toks.len(),
    ensures
        binds_words(t, match_more(t, q, toks, pos, got), toks, pos, got, s),
    decreases q, 2nat, toks.len() - pos,
{
    lemma_binds(t, q, toks, pos, s);
    match matched(t, q, toks, pos) {
        Some((next, c1)) => {
            if pos < next <= toks.len() {
                lemma_binds_again(t, q, toks, next, got + c1, s);
                lemma_binds_more(t, toks, pos, next, got, c1, match_more(t, q, toks, next, got + c1), s);
            } else {
                lemma_binds_nothing(t, toks, pos, got, s);
            }
        },
        None => {
            lemma_binds_nothing(t, toks, pos, got, s);
        },
    }
}

proof fn lemma_binds_option(
    t: Seq<LeafView>,
    count: usize,
    k: int,
    toks: Seq<TokenView>,
    pos: int,
    s: int,
)
    requires
        0 <= k,
        fits(t, PatternView::AnyOptions(count)),
        words_begin(toks, s),
        0 <= pos <= toks.len(),
    ensures
        binds_words(t, first_option(t, count, k, toks, pos), toks, pos, seq![], s),
    decreases count - k,
{
    if k < count {
        assert(t[k].kind == LeafKind::Flag);
        lemma_binds_leaf(t, PatternView::OptionRef(k as usize), toks, pos, s);
        if match_option(t, k as usize, toks, pos) is None {
            lemma_binds_option(t, count, k + 1, toks, pos, s);
        }
    }
}

proof fn lemma_binds_any(
    t: Seq<LeafView>,
    count: usize,
    toks: Seq<TokenView>,
    pos: int,
    got: Seq<CaptureView>,
    s: int,
)
    requires
        fits(t, PatternView::AnyOptions(count)),
        words_begin(toks, s),
        0 <= pos <= toks.len(),
    ensures
        binds_words(t, match_any(t, count, toks, pos, got), toks, pos, got, s),
    decreases toks.len() - pos,
{
    lemma_binds_option(t, count, 0, toks, pos, s);
    match first_option(t, count, 0, toks, pos) {
        Some((next, c1)) => {
            if pos < next <= toks.len() {
                lemma_binds_any(t, count, toks, next, got + c1, s);
                lemma_binds_more(t, toks, pos, next, got, c1, match_any(t, count, toks, next, got + c1), s);
            } else {
                lemma_binds_nothing(t, toks, pos, got, s);
            }
        },
        None => {
            lemma_binds_nothing(t, toks, pos, got, s);
        },
    }
}

proof fn lemma_binds_branches(
    t: Seq<LeafView>,
    branches: Seq<PatternView>,
    k: int,
    toks: Seq<TokenView>,
    s: int,
)
    requires
        0 <= k,
        forall|x: int| 0 <= x < branches.len() ==> fits(t, #[trigger] branches[x]),
        words_begin(toks, s),
    ensures
        full_match(t, branches, k, toks) is Some ==> binds_words(
            t,
            Some((toks.len() as int, full_match(t, branches, k, toks)->0)),
            toks,
            0,
            seq![],
            s,
        ),
    decreases branches.len() - k,
{
    if k < branches.len() {
        lemma_binds(t, branches[k], toks, 0, s);
        lemma_binds_branches(t, branches, k + 1, toks, s);
    }
}

/// Whether the capture binds a word to a command or a positional: it is
/// not the capture of an option.
pub open spec fn binds_no_option(t: Seq<LeafView>, c: CaptureView) -> bool {
    !(c.leaf < t.len() && t[c.leaf as int].kind == LeafKind::Flag)
}

/// What follows the first `--` is bound as it stands. Let the first `--`
/// of an argument vector stand at `j`, and let the vector match. Then the
/// last captures of the match are one for each argument after `j`, in the
/// order of the arguments: each holds its argument unchanged, whatever
/// dashes it begins with, and each is the capture of a command or of a
/// positional, so that the argument is among the texts from which the
/// value of that leaf is made. No such argument is read as a flag, counts
/// for one, or becomes the value of an option.
pub proof fn lemma_literal_after_separator(
    t: Seq<LeafView>,
    branches: Seq<PatternView>,
    argv: Seq<Seq<char>>,
    j: int,
)
    requires
        forall|x: int| 0 <= x < branches.len() ==> fits(t, #[trigger] branches[x]),
        0 <= j < argv.len(),
        is_separator(argv[j]),
        no_separator_before(argv, j),
        full_match(t, branches, 0, tokens(t, argv)) is Some,
    ensures
        ({
            let caps = full_match(t, branches, 0, tokens(t, argv))->0;
            let n = argv.len() - j - 1;
            &&& n <= caps.len()
            &&& forall|k: int|
                0 <= k < n ==> (#[trigger] caps[caps.len() - n + k]).text == argv[j + 1 + k] && binds_no_option(
                    t,
                    caps[caps.len() - n + k],
                ) && texts_of(caps, caps[caps.len() - n + k].leaf as int, caps.len() as int).contains(
                    argv[j + 1 + k],
                )
        }),
{
    let toks = tokens(t, argv);
    let rest = argv.subrange(j + 1, argv.len() as int);
    let before = tokens(t, argv.subrange(0, j));
    lemma_after_separator(t, argv, j);
    let s = (before.len() + 1) as int;
    assert(toks == before.push(TokenView::Separator) + words(rest));
    assert(toks.len() == s + rest.len());
    assert(toks[s - 1] is Separator);
    assert forall|k: int| s <= k < toks.len() implies (#[trigger] toks[k]) is Word by {
        assert(toks[k] == words(rest)[k - s]);
    }
    lemma_binds_branches(t, branches, 0, toks, s);
    let caps = full_match(t, branches, 0, toks)->0;
    let n = argv.len() - j - 1;
    let last = caps.subrange(caps.len() - n, caps.len() as int);
    assert(later(toks.len() as int, s) - later(0, s) == n);
    assert(rendered(t, last) == toks.subrange(s, toks.len() as int));
    assert forall|k: int| 0 <= k < n implies (#[trigger] caps[caps.len() - n + k]).text == argv[j + 1 + k]
        && binds_no_option(t, caps[caps.len() - n + k]) && texts_of(
        caps,
        caps[caps.len() - n + k].leaf as int,
        caps.len() as int,
    ).contains(argv[j + 1 + k]) by {
        lemma_capture_is_bound(caps, caps.len() - n + k, caps.len() as int);
        assert(rendered(t, last)[k] == token_of(t, last[k]));
        assert(toks.subrange(s, toks.len() as int)[k] == toks[s + k]);
        assert(toks[s + k] == words(rest)[k]);
        assert(rest[k] == argv[j + 1 + k]);
        assert(last[k] == caps[caps.len() - n + k]);
    }
}

proof fn lemma_no_texts(caps: Seq<CaptureView>, leaf: int, n: int)
    requires
        0 <= n <= caps.len(),
        forall|k: int| 0 <= k < n ==> (#[trigger] caps[k]).leaf != leaf,
    ensures
        texts_of(caps, leaf, n) == Seq::<Seq<char>>::empty(),
    decreases n,
{
    if n > 0 {
        lemma_no_texts(caps, leaf, n - 1);
        assert(caps[n - 1].leaf != leaf);
    }
}

/// What follows the first `--` changes the value of no option. Under the
/// conditions of the law above, the value bound to an option is the one
/// that the captures before those of the trailing arguments give it.
pub proof fn lemma_options_untouched_after_separator(
    t: Seq<LeafView>,
    branches: Seq<PatternView>,
    argv: Seq<Seq<char>>,
    j: int,
    l: int,
)
    requires
        forall|x: int| 0 <= x < branches.len() ==> fits(t, #[trigger] branches[x]),
        0 <= j < argv.len(),
        is_separator(argv[j]),
        no_separator_before(argv, j),
        full_match(t, branches, 0, tokens(t, argv)) is Some,
        0 <= l < t.len(),
        l <= usize::MAX,
        t[l].kind == LeafKind::Flag,
    ensures
        ({
            let caps = full_match(t, branches, 0, tokens(t, argv))->0;
            let n = argv.len() - j - 1;
            let head = caps.subrange(0, caps.len() - n);
            &&& n <= caps.len()
            &&& bound(t[l], texts_of(caps, l, caps.len() as int)) == bound(
                t[l],
                texts_of(head, l, head.len() as int),
            )
        }),
{
    lemma_literal_after_separator(t, branches, argv, j);
    let caps = full_match(t, branches, 0, tokens(t, argv))->0;
    let n = argv.len() - j - 1;
    let head = caps.subrange(0, caps.len() - n);
    let tail = caps.subrange(caps.len() - n, caps.len() as int);
    assert(head + tail =~= caps);
    assert forall|k: int| 0 <= k < n implies (#[trigger] tail[k]).leaf != l by {
        assert(tail[k] == caps[caps.len() - n + k]);
        assert(binds_no_option(t, caps[caps.len() - n + k]));
    }
    lemma_no_texts(tail, l, n);
    lemma_texts_in_order(head, tail, l, n);
    assert(texts_of(head, l, head.len() as int) + Seq::<Seq<char>>::empty() =~= texts_of(
        head,
        l,
        head.len() as int,
    ));
}

} // verus!
