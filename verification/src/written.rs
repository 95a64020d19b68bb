//! Writing bound values back as arguments: each command and positional as
//! its word, each option as its flag, followed by its value where it takes
//! one. Parsing what is written binds the same values.

use vstd::prelude::*;
use crate::leaf::{distinct, find_leaf, lemma_find_leaf, spelled, LeafKind, LeafView};
use crate::matcher::full_match;
use crate::pattern::{fits, CaptureView, PatternView};
use crate::replay::{
    after, has_no_separator, leaf_of, lemma_normal_form, lemma_round_trip, norm, pairs_at, rendered,
    token_of, unit,
};
use crate::text::find_char;
use crate::token::{
    is_long, is_separator, is_short, long_token, push_arg, short_name, short_tokens, tokens, tokens_from,
    TokenView,
};

verus! {

/// An argument that is read as a word.
pub open spec fn is_word(a: Seq<char>) -> bool {
    !is_long(a) && !is_short(a) && !is_separator(a)
}

/// An argument that is read as one flag without a value: a long spelling
/// without `=`, or a dash and one letter.
pub open spec fn is_flag_name(a: Seq<char>) -> bool {
    (is_long(a) && find_char(a, '=', 2) >= a.len()) || (is_short(a) && a.len() == 2)
}

/// Whether the capture is one of an option.
pub open spec fn of_option(t: Seq<LeafView>, c: CaptureView) -> bool {
    c.leaf < t.len() && t[c.leaf as int].kind == LeafKind::Flag
}

/// Whether a capture can be written as arguments: an option's name must
/// read as one flag, and a word or a value must read as a word, so it may
/// begin with no dash unless it is a dash alone.
pub open spec fn writable(t: Seq<LeafView>, c: CaptureView) -> bool {
    if of_option(t, c) {
        is_flag_name(t[c.leaf as int].name) && (t[c.leaf as int].takes_value ==> is_word(c.text))
    } else {
        is_word(c.text)
    }
}

/// The arguments that write a capture.
pub open spec fn written(t: Seq<LeafView>, c: CaptureView) -> Seq<Seq<char>> {
    if of_option(t, c) {
        if t[c.leaf as int].takes_value {
            seq![t[c.leaf as int].name, c.text]
        } else {
            seq![t[c.leaf as int].name]
        }
    } else {
        seq![c.text]
    }
}

/// The arguments that write the first `n` captures, in order.
pub open spec fn written_all(t: Seq<LeafView>, caps: Seq<CaptureView>, n: int) -> Seq<Seq<char>>
    decreases n,
{
    if 0 < n <= caps.len() {
        written_all(t, caps, n - 1) + written(t, caps[n - 1])
    } else {
        seq![]
    }
}

/// Whether every capture can be written.
pub open spec fn all_writable(t: Seq<LeafView>, caps: Seq<CaptureView>) -> bool {
    forall|k: int| 0 <= k < caps.len() ==> writable(t, #[trigger] caps[k])
}

/// The token of an argument that is a flag name or a word.
pub open spec fn one_token(a: Seq<char>) -> TokenView {
    if is_flag_name(a) {
        TokenView::Flag { name: a, value: None }
    } else {
        TokenView::Word(a)
    }
}

/// Whether every argument is a flag name or a word.
pub open spec fn all_simple(argv: Seq<Seq<char>>) -> bool {
    forall|k: int| 0 <= k < argv.len() ==> is_flag_name(#[trigger] argv[k]) || is_word(argv[k])
}

/// One token for each argument.
pub open spec fn simple_tokens(argv: Seq<Seq<char>>) -> Seq<TokenView> {
    Seq::new(argv.len(), |k: int| one_token(argv[k]))
}

proof fn lemma_push_simple(t: Seq<LeafView>, a: Seq<char>, done: Seq<TokenView>)
    requires
        is_flag_name(a) || is_word(a),
    ensures
        !is_separator(a),
        push_arg(t, a, done) == done.push(one_token(a)),
{
    if is_flag_name(a) {
        if is_long(a) {
            assert(long_token(a) == TokenView::Flag { name: a, value: None });
        } else {
            assert(short_name(a[1]) =~= a);
            let pushed = done.push(TokenView::Flag { name: short_name(a[1]), value: None });
            assert(short_tokens(t, a, 2, pushed) == pushed);
        }
    }
}

proof fn lemma_tokens_simple(t: Seq<LeafView>, argv: Seq<Seq<char>>, i: int, done: Seq<TokenView>)
    requires
        all_simple(argv),
        0 <= i <= argv.len(),
        done == simple_tokens(argv).subrange(0, i),
    ensures
        tokens_from(t, argv, i, done) == simple_tokens(argv),
    decreases argv.len() - i,
{
    if i < argv.len() {
        lemma_push_simple(t, argv[i], done);
        assert(done.push(one_token(argv[i])) =~= simple_tokens(argv).subrange(0, i + 1));
        lemma_tokens_simple(t, argv, i + 1, done.push(one_token(argv[i])));
    } else {
        assert(simple_tokens(argv).subrange(0, i) =~= simple_tokens(argv));
    }
}

/// What is written for the captures from `n` on stands in the whole from
/// where the first `n` end.
proof fn lemma_written_at(t: Seq<LeafView>, caps: Seq<CaptureView>, n: int, m: int)
    requires
        0 <= n < m <= caps.len(),
    ensures
        written_all(t, caps, m).len() >= written_all(t, caps, n).len() + written(t, caps[n]).len(),
        forall|j: int|
            0 <= j < written(t, caps[n]).len() ==> #[trigger] written_all(t, caps, m)[written_all(
                t,
                caps,
                n,
            ).len() + j] == written(t, caps[n])[j],
        written_all(t, caps, n + 1).len() == written_all(t, caps, n).len() + written(t, caps[n]).len(),
    decreases m - n,
{
    if m > n + 1 {
        lemma_written_at(t, caps, n, m - 1);
    }
}

proof fn lemma_written_simple(t: Seq<LeafView>, caps: Seq<CaptureView>, n: int)
    requires
        all_writable(t, caps),
        0 <= n <= caps.len(),
    ensures
        all_simple(written_all(t, caps, n)),
    decreases n,
{
    if n > 0 {
        lemma_written_simple(t, caps, n - 1);
        let before = written_all(t, caps, n - 1);
        let w = written(t, caps[n - 1]);
        assert(writable(t, caps[n - 1]));
        assert forall|k: int| 0 <= k < (before + w).len() implies is_flag_name(#[trigger] (before + w)[k])
            || is_word((before + w)[k]) by {
            if k < before.len() {
                assert((before + w)[k] == before[k]);
            } else {
                assert((before + w)[k] == w[k - before.len()]);
            }
        }
    }
}

proof fn lemma_norm_written(t: Seq<LeafView>, caps: Seq<CaptureView>, n: int)
    requires
        distinct(t),
        all_writable(t, caps),
        0 <= n <= caps.len(),
    ensures
        norm(
            t,
            simple_tokens(written_all(t, caps, caps.len() as int)),
            written_all(t, caps, n).len() as int,
        ) == rendered(t, caps).subrange(n, caps.len() as int),
    decreases caps.len() - n,
{
    let argv = written_all(t, caps, caps.len() as int);
    let toks = simple_tokens(argv);
    let p = written_all(t, caps, n).len() as int;
    if n < caps.len() {
        let c = caps[n];
        lemma_written_at(t, caps, n, caps.len() as int);
        lemma_norm_written(t, caps, n + 1);
        assert(writable(t, c));
        assert(argv[p + 0] == written(t, c)[0]);
        assert(toks[p] == one_token(argv[p]));
        if of_option(t, c) {
            let l = c.leaf as int;
            let name = t[l].name;
            lemma_find_leaf(t, LeafKind::Flag, name, 0);
            assert(spelled(t[l], name));
            let found = find_leaf(t, LeafKind::Flag, name, 0)->0;
            assert(spelled(t[found], name));
            assert(found == l);
            assert(leaf_of(t, toks[p]) == Some(l));
            if t[l].takes_value {
                assert(argv[p + 1] == written(t, c)[1]);
                assert(toks[p + 1] == one_token(argv[p + 1]));
                assert(pairs_at(t, toks, p));
            }
        } else {
            assert(!is_flag_name(c.text));
        }
        assert(unit(t, toks, p) == token_of(t, c));
        assert(after(t, toks, p) == written_all(t, caps, n + 1).len());
        assert(seq![token_of(t, c)] + rendered(t, caps).subrange(n + 1, caps.len() as int) =~= rendered(
            t,
            caps,
        ).subrange(n, caps.len() as int));
    } else {
        assert(rendered(t, caps).subrange(n, caps.len() as int) =~= Seq::<TokenView>::empty());
    }
}

/// What is written reads back in the normal form of what is rendered.
pub proof fn lemma_written_reads_back(t: Seq<LeafView>, caps: Seq<CaptureView>)
    requires
        distinct(t),
        all_writable(t, caps),
    ensures
        norm(t, tokens(t, written_all(t, caps, caps.len() as int)), 0) == rendered(t, caps),
{
    let argv = written_all(t, caps, caps.len() as int);
    lemma_written_simple(t, caps, caps.len() as int);
    assert(simple_tokens(argv).subrange(0, 0) =~= Seq::<TokenView>::empty());
    lemma_tokens_simple(t, argv, 0, seq![]);
    lemma_norm_written(t, caps, 0);
    assert(rendered(t, caps).subrange(0, caps.len() as int) =~= rendered(t, caps));
}

/// Round trip on arguments. Let the usage lines hold no `--`, over a table
/// in which no spelling belongs to two leaves, and let an argument vector
/// match. Write the captures back as arguments: each command as its word,
/// each positional as its value, each option as its flag, followed by its
/// value where it takes one. If all of that can be written, so that no
/// word or value is mistaken for a flag, then the arguments written match
/// again, by the same rule of the first line that takes all, with the same
/// captures: so the same value map is bound.
pub proof fn lemma_round_trip_of_arguments(
    t: Seq<LeafView>,
    branches: Seq<PatternView>,
    argv: Seq<Seq<char>>,
)
    requires
        distinct(t),
        forall|x: int| 0 <= x < branches.len() ==> fits(t, #[trigger] branches[x]),
        forall|x: int| 0 <= x < branches.len() ==> has_no_separator(#[trigger] branches[x]),
        full_match(t, branches, 0, tokens(t, argv)) is Some,
        all_writable(t, full_match(t, branches, 0, tokens(t, argv))->0),
    ensures
        ({
            let caps = full_match(t, branches, 0, tokens(t, argv))->0;
            full_match(t, branches, 0, tokens(t, written_all(t, caps, caps.len() as int))) == Some(caps)
        }),
{
    let caps = full_match(t, branches, 0, tokens(t, argv))->0;
    let again = tokens(t, written_all(t, caps, caps.len() as int));
    lemma_written_reads_back(t, caps);
    lemma_normal_form(t, branches, again);
    lemma_round_trip(t, branches, tokens(t, argv));
}

} // verus!
