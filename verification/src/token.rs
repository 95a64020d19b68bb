//! Tokens, and the tokenizer that turns an argument vector into them.

use vstd::prelude::*;
use crate::leaf::{as_index, find_leaf, lookup, takes_value, wants_value, Leaf, LeafKind, LeafView};
use crate::text::{copy, find_char, index_of, slice, views};

verus! {

/// One unit of an argument vector after tokenization. A flag carries its
/// spelling with the dashes (`-x`, `--name`) and the value written in the
/// same argument, if any.
#[derive(Debug)]
pub enum Token {
    Word(Vec<char>),
    Flag { name: Vec<char>, value: Option<Vec<char>> },
    Separator,
}

/// A token as the specification sees it.
pub enum TokenView {
    Word(Seq<char>),
    Flag { name: Seq<char>, value: Option<Seq<char>> },
    Separator,
}

impl View for Token {
    type V = TokenView;

    open spec fn view(&self) -> TokenView {
        match self {
            Token::Word(w) => TokenView::Word(w@),
            Token::Flag { name, value } => TokenView::Flag {
                name: name@,
                value: match value {
                    Some(v) => Some(v@),
                    None => None,
                },
            },
            Token::Separator => TokenView::Separator,
        }
    }
}

/// The argument `--`, after which nothing is a flag.
pub open spec fn is_separator(a: Seq<char>) -> bool {
    a == seq!['-', '-']
}

/// Two dashes and at least one more character.
pub open spec fn is_long(a: Seq<char>) -> bool {
    a.len() > 2 && a[0] == '-' && a[1] == '-'
}

/// One dash and at least one more character that is no dash.
pub open spec fn is_short(a: Seq<char>) -> bool {
    a.len() > 1 && a[0] == '-' && a[1] != '-'
}

/// The spelling of a long flag: what stands before the first `=`.
pub open spec fn long_name(a: Seq<char>) -> Seq<char> {
    a.subrange(0, find_char(a, '=', 2))
}

/// A long flag, with the value written after `=` where there is one. The
/// value is kept as it stands, white space included.
pub open spec fn long_token(a: Seq<char>) -> TokenView {
    let e = find_char(a, '=', 2);
    if e < a.len() {
        TokenView::Flag { name: a.subrange(0, e), value: Some(a.subrange(e + 1, a.len() as int)) }
    } else {
        TokenView::Flag { name: a, value: None }
    }
}

/// The spelling of the short flag for letter `c`.
pub open spec fn short_name(c: char) -> Seq<char> {
    seq!['-', c]
}

/// The flags bundled in `a`, from its letter at `k` on, pushed onto `done`.
/// Each letter is a flag of its own, until one that takes a value: what is
/// left of the argument is then that value, and the bundle ends.
pub open spec fn short_tokens(t: Seq<LeafView>, a: Seq<char>, k: int, done: Seq<TokenView>) -> Seq<TokenView>
    decreases a.len() - k,
{
    if 1 <= k < a.len() {
        let name = short_name(a[k]);
        if takes_value(t, name) {
            if k + 1 < a.len() {
                done.push(TokenView::Flag { name, value: Some(a.subrange(k + 1, a.len() as int)) })
            } else {
                done.push(TokenView::Flag { name, value: None })
            }
        } else {
            short_tokens(t, a, k + 1, done.push(TokenView::Flag { name, value: None }))
        }
    } else {
        done
    }
}

/// The tokens of one argument that stands before any separator, pushed onto `done`.
pub open spec fn push_arg(t: Seq<LeafView>, a: Seq<char>, done: Seq<TokenView>) -> Seq<TokenView> {
    if is_long(a) {
        done.push(long_token(a))
    } else if is_short(a) {
        short_tokens(t, a, 1, done)
    } else {
        done.push(TokenView::Word(a))
    }
}

/// Every argument as a literal word.
pub open spec fn words(args: Seq<Seq<char>>) -> Seq<TokenView> {
    Seq::new(args.len(), |k: int| TokenView::Word(args[k]))
}

/// The tokens of `argv` from argument `i` on, pushed onto `done`.
pub open spec fn tokens_from(t: Seq<LeafView>, argv: Seq<Seq<char>>, i: int, done: Seq<TokenView>) -> Seq<
    TokenView,
>
    decreases argv.len() - i,
{
    if 0 <= i < argv.len() {
        if is_separator(argv[i]) {
            done.push(TokenView::Separator) + words(argv.subrange(i + 1, argv.len() as int))
        } else {
            tokens_from(t, argv, i + 1, push_arg(t, argv[i], done))
        }
    } else {
        done
    }
}

/// The tokens of an argument vector.
pub open spec fn tokens(t: Seq<LeafView>, argv: Seq<Seq<char>>) -> Seq<TokenView> {
    tokens_from(t, argv, 0, seq![])
}

/// Whether every letter of the bundle `a`, from `k` on, that `short_tokens`
/// reads as a flag is an option of the table.
pub open spec fn short_known(t: Seq<LeafView>, a: Seq<char>, k: int) -> bool
    decreases a.len() - k,
{
    if 1 <= k < a.len() {
        let name = short_name(a[k]);
        find_leaf(t, LeafKind::Flag, name, 0) is Some && (takes_value(t, name) || short_known(t, a, k + 1))
    } else {
        true
    }
}

/// Whether every flag that argument `a` holds is an option of the table.
pub open spec fn arg_known(t: Seq<LeafView>, a: Seq<char>) -> bool {
    if is_long(a) {
        find_leaf(t, LeafKind::Flag, long_name(a), 0) is Some
    } else if is_short(a) {
        short_known(t, a, 1)
    } else {
        true
    }
}

/// The index of the first argument, from `i` on and before any separator,
/// that holds a flag the table does not know.
pub open spec fn first_unknown(t: Seq<LeafView>, argv: Seq<Seq<char>>, i: int) -> Option<int>
    decreases argv.len() - i,
{
    if 0 <= i < argv.len() {
        if is_separator(argv[i]) {
            None
        } else if !arg_known(t, argv[i]) {
            Some(i)
        } else {
            first_unknown(t, argv, i + 1)
        }
    } else {
        None
    }
}

/// No argument before index `j` is the separator.
pub open spec fn no_separator_before(argv: Seq<Seq<char>>, j: int) -> bool {
    forall|k: int| 0 <= k < j ==> !is_separator(#[trigger] argv[k])
}

proof fn lemma_tokens_split(t: Seq<LeafView>, argv: Seq<Seq<char>>, i: int, j: int, done: Seq<TokenView>)
    requires
        0 <= i <= j < argv.len(),
        is_separator(argv[j]),
        forall|k: int| i <= k < j ==> !is_separator(#[trigger] argv[k]),
    ensures
        tokens_from(t, argv, i, done) == tokens_from(t, argv.subrange(0, j), i, done).push(
            TokenView::Separator,
        ) + words(argv.subrange(j + 1, argv.len() as int)),
    decreases j - i,
{
    if i < j {
        assert(argv.subrange(0, j)[i] == argv[i]);
        lemma_tokens_split(t, argv, i + 1, j, push_arg(t, argv[i], done));
    }
}

/// Everything after the first `--` is a literal word: the tokens of an
/// argument vector whose first separator stands at `j` are the tokens of
/// what stands before it, the separator, and then each later argument as a
/// word, unread and in order, whatever dashes it begins with.
pub proof fn lemma_after_separator(t: Seq<LeafView>, argv: Seq<Seq<char>>, j: int)
    requires
        0 <= j < argv.len(),
        is_separator(argv[j]),
        no_separator_before(argv, j),
    ensures
        tokens(t, argv) == tokens(t, argv.subrange(0, j)).push(TokenView::Separator) + words(
            argv.subrange(j + 1, argv.len() as int),
        ),
{
    lemma_tokens_split(t, argv, 0, j, seq![]);
}

/// A value written after `=` comes through as it stands: an argument that
/// begins with two dashes and holds its first `=` at `e` is one flag, whose
/// name is what stands before the `=` and whose value is all that stands
/// after it, white space and further `=` included.
pub proof fn lemma_inline_value_kept(t: Seq<LeafView>, a: Seq<char>, e: int)
    requires
        is_long(a),
        2 <= e < a.len(),
        a[e] == '=',
        forall|k: int| 2 <= k < e ==> a[k] != '=',
    ensures
        tokens(t, seq![a]) == seq![
            TokenView::Flag { name: a.subrange(0, e), value: Some(a.subrange(e + 1, a.len() as int)) },
        ],
{
    lemma_find_char(a, '=', 2, e);
    assert(!is_separator(a));
    assert(tokens_from(t, seq![a], 1, push_arg(t, a, seq![])) == push_arg(t, a, seq![]));
    assert(push_arg(t, a, seq![]) =~= seq![long_token(a)]);
}

proof fn lemma_find_char(a: Seq<char>, c: char, i: int, e: int)
    requires
        0 <= i <= e < a.len(),
        a[e] == c,
        forall|k: int| i <= k < e ==> a[k] != c,
    ensures
        find_char(a, c, i) == e,
    decreases e - i,
{
    if i < e {
        lemma_find_char(a, c, i + 1, e);
    }
}

/// Whether `a` is the argument `--`.
pub fn separator(a: &Vec<char>) -> (b: bool)
    ensures
        b == is_separator(a@),
{
    let b = a.len() == 2 && a[0] == '-' && a[1] == '-';
    assert(b ==> a@ =~= seq!['-', '-']);
    b
}

/// Whether `a` is written as a long flag.
pub fn long(a: &Vec<char>) -> (b: bool)
    ensures
        b == is_long(a@),
{
    a.len() > 2 && a[0] == '-' && a[1] == '-'
}

/// Whether `a` is written as a short flag or a bundle of them.
pub fn short(a: &Vec<char>) -> (b: bool)
    ensures
        b == is_short(a@),
{
    a.len() > 1 && a[0] == '-' && a[1] != '-'
}

fn short_spelling(c: char) -> (name: Vec<char>)
    ensures
        name@ == short_name(c),
{
    let mut name: Vec<char> = Vec::new();
    name.push('-');
    name.push(c);
    assert(name@ =~= short_name(c));
    name
}

fn push_long(a: &Vec<char>, out: &mut Vec<Token>)
    requires
        is_long(a@),
    ensures
        views(final(out)@) == views(old(out)@).push(long_token(a@)),
{
    let e = index_of(a, '=', 2);
    let tok = if e < a.len() {
        Token::Flag { name: slice(a, 0, e), value: Some(slice(a, e + 1, a.len())) }
    } else {
        Token::Flag { name: copy(a), value: None }
    };
    out.push(tok);
    assert(views(out@) =~= views(old(out)@).push(long_token(a@)));
}

fn push_short(table: &Vec<Leaf>, a: &Vec<char>, out: &mut Vec<Token>)
    requires
        is_short(a@),
    ensures
        views(final(out)@) == short_tokens(views(table@), a@, 1, views(old(out)@)),
{
    let mut k: usize = 1;
    while k < a.len()
        invariant
            1 <= k <= a.len(),
            short_tokens(views(table@), a@, 1, views(old(out)@)) == short_tokens(
                views(table@),
                a@,
                k as int,
                views(out@),
            ),
        decreases a.len() - k,
    {
        let name = short_spelling(a[k]);
        let ghost before = views(out@);
        if wants_value(table, &name) {
            let value = if k + 1 < a.len() {
                Some(slice(a, k + 1, a.len()))
            } else {
                None
            };
            out.push(Token::Flag { name, value });
            assert(views(out@) =~= before.push(out@[out.len() - 1]@));
            return ;
        }
        out.push(Token::Flag { name, value: None });
        assert(views(out@) =~= before.push(TokenView::Flag { name: short_name(a@[k as int]), value: None }));
        k += 1;
    }
}

/// Splits an argument vector into tokens. Bundled short flags are expanded
/// by the table's arities; after a bare `--` every argument is a word.
pub fn tokenize(table: &Vec<Leaf>, argv: &Vec<Vec<char>>) -> (out: Vec<Token>)
    ensures
        views(out@) == tokens(views(table@), views(argv@)),
{
    let mut out: Vec<Token> = Vec::new();
    let mut i: usize = 0;
    assert(views(out@) =~= Seq::<TokenView>::empty());
    while i < argv.len()
        invariant
            i <= argv.len(),
            tokens(views(table@), views(argv@)) == tokens_from(
                views(table@),
                views(argv@),
                i as int,
                views(out@),
            ),
        decreases argv.len() - i,
    {
        let a = &argv[i];
        let ghost before = views(out@);
        if separator(a) {
            out.push(Token::Separator);
            let mut k: usize = i + 1;
            assert(views(out@) =~= before.push(TokenView::Separator) + words(
                views(argv@).subrange(i + 1, k as int),
            ));
            while k < argv.len()
                invariant
                    i < k <= argv.len(),
                    views(out@) == before.push(TokenView::Separator) + words(
                        views(argv@).subrange(i + 1, k as int),
                    ),
                decreases argv.len() - k,
            {
                let ghost prev = views(out@);
                out.push(Token::Word(copy(&argv[k])));
                assert(views(out@) =~= prev.push(TokenView::Word(argv@[k as int]@)));
                assert(words(views(argv@).subrange(i + 1, k + 1)) =~= words(
                    views(argv@).subrange(i + 1, k as int),
                ).push(TokenView::Word(argv@[k as int]@)));
                k += 1;
            }
            return out;
        } else if long(a) {
            push_long(a, &mut out);
        } else if short(a) {
            push_short(table, a, &mut out);
        } else {
            out.push(Token::Word(copy(a)));
            assert(views(out@) =~= before.push(TokenView::Word(a@)));
        }
        i += 1;
    }
    out
}

fn known_bundle(table: &Vec<Leaf>, a: &Vec<char>) -> (b: bool)
    requires
        is_short(a@),
    ensures
        b == short_known(views(table@), a@, 1),
{
    let mut k: usize = 1;
    while k < a.len()
        invariant
            1 <= k <= a.len(),
            short_known(views(table@), a@, 1) == short_known(views(table@), a@, k as int),
        decreases a.len() - k,
    {
        let name = short_spelling(a[k]);
        match lookup(table, LeafKind::Flag, &name) {
            None => {
                return false;
            },
            Some(id) => {
                if table[id].takes_value {
                    return true;
                }
            },
        }
        k += 1;
    }
    true
}

/// The first argument that holds a flag which the table does not know.
pub fn find_unknown(table: &Vec<Leaf>, argv: &Vec<Vec<char>>) -> (r: Option<usize>)
    ensures
        as_index(r) == first_unknown(views(table@), views(argv@), 0),
        r matches Some(k) ==> k < argv.len(),
{
    let mut i: usize = 0;
    while i < argv.len()
        invariant
            i <= argv.len(),
            first_unknown(views(table@), views(argv@), 0) == first_unknown(
                views(table@),
                views(argv@),
                i as int,
            ),
        decreases argv.len() - i,
    {
        let a = &argv[i];
        if separator(a) {
            return None;
        }
        let known = if long(a) {
            let e = index_of(a, '=', 2);
            let name = slice(a, 0, e);
            lookup(table, LeafKind::Flag, &name).is_some()
        } else if short(a) {
            known_bundle(table, a)
        } else {
            true
        };
        if !known {
            return Some(i);
        }
        i += 1;
    }
    None
}

} // verus!
