//! The compiled usage document, and the parse of an argument vector by it.

use vstd::prelude::*;
use crate::errors::{Error, ErrorView, Fault};
use crate::grammar::{
    lemma_line_fits, lemma_marked_all, mark_each, marked_all, options_first, parse_line, parsed_line,
    repeats_among,
};
use crate::leaf::{distinct, spelled, table_wf, well_named, Leaf, LeafKind, LeafView};
use crate::matcher::{full_match, match_branches};
use crate::options::{declared_options, read_options};
use crate::pattern::{fits, keeps_kinds, lemma_fits_kept, Pattern, PatternView};
use crate::replay::{has_no_separator, lemma_round_trip, rendered};
use crate::written::{all_writable, lemma_round_trip_of_arguments, written_all};
use crate::text::{copy, lemma_views_push, lines, split_lines, to_chars, views, whole_text};
use crate::token::{find_unknown, first_unknown, tokenize, tokens};
use crate::usage::{cut, lex, lexed, usage_lines, usage_section};
use crate::value::{bind, bindings, distinct_entries, lemma_entries_distinct, ArgvMap, EntryView};

verus! {

/// A leaf table and the pattern of each usage line, in the order of the lines.
pub struct GrammarView {
    pub table: Seq<LeafView>,
    pub usages: Seq<PatternView>,
}

/// The grammar of the pattern lines from `i` on, after `usages`. Each line
/// adds its leaves to the table; `n` is the number of declared options.
pub open spec fn patterns_from(
    us: Seq<Seq<char>>,
    i: int,
    n: usize,
    t: Seq<LeafView>,
    usages: Seq<PatternView>,
) -> Result<GrammarView, Fault>
    decreases us.len() - i,
{
    if 0 <= i < us.len() {
        let lx = lexed(us[i], t);
        match parsed_line(lx.elems, n) {
            Ok(p) => patterns_from(us, i + 1, n, lx.table, usages.push(p)),
            Err(f) => Err(f),
        }
    } else {
        Ok(GrammarView { table: t, usages })
    }
}

/// The table with each leaf's `repeats` set by `flags`.
pub open spec fn with_repeats(t: Seq<LeafView>, flags: Seq<bool>) -> Seq<LeafView> {
    Seq::new(t.len(), |l: int| LeafView { repeats: 0 <= l < flags.len() && flags[l], ..t[l] })
}

/// No leaf flagged.
pub open spec fn no_flags(n: nat) -> Seq<bool> {
    Seq::new(n, |l: int| false)
}

/// The grammar that a usage document stands for.
///
/// The options that the document declares come first in the table, in the
/// order of their lines; the leaves of the usage lines follow as they are
/// first met. A leaf can repeat if it stands under an ellipsis anywhere.
pub open spec fn compiled(doc: Seq<char>) -> Result<GrammarView, Fault> {
    let ls = lines(doc);
    let declared = declared_options(ls);
    match usage_lines(ls) {
        Ok(us) => match patterns_from(us, 0, declared.len() as usize, declared, seq![]) {
            Ok(g) => Ok(
                GrammarView {
                    table: with_repeats(g.table, marked_all(g.usages, 0, false, no_flags(g.table.len()))),
                    usages: g.usages,
                },
            ),
            Err(f) => Err(f),
        },
        Err(f) => Err(f),
    }
}

/// In a compiled grammar the leaves that can repeat are those that stand
/// under an ellipsis in some usage line.
pub proof fn lemma_repeats(doc: Seq<char>, l: int)
    requires
        compiled(doc) is Ok,
        0 <= l < compiled(doc)->Ok_0.table.len(),
    ensures
        compiled(doc)->Ok_0.table[l].repeats == repeats_among(compiled(doc)->Ok_0.usages, 0, l, false),
{
    let ls = lines(doc);
    let declared = declared_options(ls);
    let us = usage_lines(ls)->Ok_0;
    let g = patterns_from(us, 0, declared.len() as usize, declared, seq![])->Ok_0;
    lemma_marked_all(g.usages, 0, false, no_flags(g.table.len()));
}

/// A compiled usage document, with the argument vector to parse.
///
/// `usages` holds the alternatives of the top-level choice, one for each
/// usage line: the first that matches the whole argument vector wins.
#[derive(Debug)]
pub struct Docopt {
    pub doc: String,
    pub table: Vec<Leaf>,
    pub usages: Vec<Pattern>,
    pub argv: Vec<Vec<char>>,
    pub strict: bool,
}

/// A compiled document as the specification sees it.
pub struct DocoptView {
    pub doc: Seq<char>,
    pub table: Seq<LeafView>,
    pub usages: Seq<PatternView>,
    pub argv: Seq<Seq<char>>,
    pub strict: bool,
}

impl View for Docopt {
    type V = DocoptView;

    open spec fn view(&self) -> DocoptView {
        DocoptView {
            doc: self.doc@,
            table: views(self.table@),
            usages: views(self.usages@),
            argv: views(self.argv@),
            strict: self.strict,
        }
    }
}

impl DocoptView {
    /// The table is well formed: no spelling belongs to two leaves. And
    /// every leaf of every usage line names a leaf of the table, of its kind.
    pub open spec fn wf(self) -> bool {
        &&& table_wf(self.table)
        &&& forall|i: int| 0 <= i < self.usages.len() ==> fits(self.table, #[trigger] self.usages[i])
    }

    /// The top-level pattern: the choice between the usage lines.
    pub open spec fn pattern(self) -> PatternView {
        PatternView::Either(self.usages)
    }
}

/// What parsing gives. In strict mode the first argument with a flag that
/// the grammar does not know is an error. Otherwise the first usage line
/// that matches every token decides the values; where none does, the error
/// holds the usage document.
pub open spec fn parsed(d: DocoptView) -> Result<Seq<EntryView>, ErrorView> {
    if d.strict && first_unknown(d.table, d.argv, 0) is Some {
        Err(ErrorView::UnknownOption(d.argv[first_unknown(d.table, d.argv, 0)->0]))
    } else {
        match full_match(d.table, d.usages, 0, tokens(d.table, d.argv)) {
            Some(caps) => Ok(bindings(d.table, caps)),
            None => Err(ErrorView::Usage(d.doc)),
        }
    }
}

/// Round trip of a parse. Where no usage line holds `--`, the values that
/// a parse binds, written back as tokens and matched again, bind the same
/// value map.
pub proof fn lemma_parse_round_trip(d: DocoptView)
    requires
        d.wf(),
        forall|i: int| 0 <= i < d.usages.len() ==> has_no_separator(#[trigger] d.usages[i]),
        full_match(d.table, d.usages, 0, tokens(d.table, d.argv)) is Some,
    ensures
        ({
            let caps = full_match(d.table, d.usages, 0, tokens(d.table, d.argv))->0;
            let again = full_match(d.table, d.usages, 0, rendered(d.table, caps));
            &&& again == Some(caps)
            &&& bindings(d.table, again->0) == bindings(d.table, caps)
        }),
{
    lemma_round_trip(d.table, d.usages, tokens(d.table, d.argv));
}

/// Round trip of a parse, on arguments. Where no usage line holds `--`,
/// and what a parse captured can be written as arguments, parsing the
/// arguments written gives the same value map.
pub proof fn lemma_parse_of_written(d: DocoptView)
    requires
        d.wf(),
        !d.strict,
        forall|i: int| 0 <= i < d.usages.len() ==> has_no_separator(#[trigger] d.usages[i]),
        parsed(d) is Ok,
        all_writable(d.table, full_match(d.table, d.usages, 0, tokens(d.table, d.argv))->0),
    ensures
        ({
            let caps = full_match(d.table, d.usages, 0, tokens(d.table, d.argv))->0;
            parsed(DocoptView { argv: written_all(d.table, caps, caps.len() as int), ..d }) == parsed(d)
        }),
{
    lemma_round_trip_of_arguments(d.table, d.usages, d.argv);
}

/// The arguments of an invocation: all but the first, which names the program.
pub open spec fn arguments(args: Seq<&str>) -> Seq<Seq<char>> {
    Seq::new((if args.len() > 0 { args.len() - 1 } else { 0 }) as nat, |i: int| args[i + 1]@)
}

/// Setting which leaves repeat keeps a table well formed.
pub proof fn lemma_repeats_keep_wf(t: Seq<LeafView>, flags: Seq<bool>)
    requires
        table_wf(t),
    ensures
        table_wf(with_repeats(t, flags)),
{
    let u = with_repeats(t, flags);
    assert forall|a: int, b: int, name: Seq<char>|
        0 <= a < u.len() && 0 <= b < u.len() && #[trigger] spelled(u[a], name) && #[trigger] spelled(
            u[b],
            name,
        ) implies a == b by {
        assert(spelled(t[a], name) && spelled(t[b], name));
    }
    assert forall|k: int| 0 <= k < u.len() implies well_named(#[trigger] u[k]) by {
        assert(well_named(t[k]));
    }
}

fn set_repeats(table: Vec<Leaf>, flags: &Vec<bool>) -> (out: Vec<Leaf>)
    ensures
        views(out@) == with_repeats(views(table@), flags@),
{
    let mut out: Vec<Leaf> = Vec::new();
    let mut l: usize = 0;
    while l < table.len()
        invariant
            l <= table.len(),
            views(out@) == with_repeats(views(table@), flags@).take(l as int),
        decreases table.len() - l,
    {
        let old = &table[l];
        let leaf = Leaf {
            kind: old.kind,
            name: copy(&old.name),
            alias: match &old.alias {
                Some(a) => Some(copy(a)),
                None => None,
            },
            takes_value: old.takes_value,
            default: match &old.default {
                Some(d) => Some(copy(d)),
                None => None,
            },
            repeats: l < flags.len() && flags[l],
        };
        proof {
            lemma_views_push(out@, leaf);
            let all = with_repeats(views(table@), flags@);
            assert(leaf@ == all[l as int]);
            assert(all.take(l + 1) =~= all.take(l as int).push(all[l as int]));
        }
        out.push(leaf);
        l += 1;
    }
    assert(with_repeats(views(table@), flags@).take(table.len() as int) =~= with_repeats(
        views(table@),
        flags@,
    ));
    out
}

fn unflagged(n: usize) -> (flags: Vec<bool>)
    ensures
        flags@ == no_flags(n as nat),
{
    let mut flags: Vec<bool> = Vec::new();
    while flags.len() < n
        invariant
            flags.len() <= n,
            forall|k: int| 0 <= k < flags.len() ==> !(#[trigger] flags@[k]),
        decreases n - flags.len(),
    {
        flags.push(false);
    }
    assert(flags@ =~= no_flags(n as nat));
    flags
}

impl Docopt {
    /// Compiles a usage document.
    #[verifier::loop_isolation(false)]
    pub fn new(doc: &str) -> (r: Result<Docopt, Error>)
        ensures
            match compiled(doc@) {
                Ok(g) => r is Ok && r->Ok_0@ == (DocoptView {
                    doc: doc@,
                    table: g.table,
                    usages: g.usages,
                    argv: seq![],
                    strict: false,
                }),
                Err(f) => r is Err && r->Err_0@ == ErrorView::Grammar(f),
            },
            r is Ok ==> r->Ok_0@.wf(),
    {
        let text = to_chars(doc);
        let ls = split_lines(&text);
        let mut table = read_options(&ls);
        let n = table.len();
        let us = match usage_section(&ls) {
            Ok(us) => us,
            Err(f) => {
                return Err(Error::Grammar(f));
            },
        };
        let mut usages: Vec<Pattern> = Vec::new();
        let mut i: usize = 0;
        let ghost declared = views(table@);
        assert(views(usages@) =~= Seq::<PatternView>::empty());
        while i < us.len()
            invariant
                i <= us.len(),
                table_wf(views(table@)),
                options_first(views(table@), n),
                forall|k: int| 0 <= k < usages.len() ==> fits(views(table@), #[trigger] views(usages@)[k]),
                patterns_from(views(us@), 0, n, declared, seq![]) == patterns_from(
                    views(us@),
                    i as int,
                    n,
                    views(table@),
                    views(usages@),
                ),
            decreases us.len() - i,
        {
            let ws = cut(&us[i]);
            let ghost before = views(table@);
            let es = lex(&ws, &mut table);
            proof {
                assert forall|k: int| 0 <= k < usages.len() implies fits(
                    views(table@),
                    #[trigger] views(usages@)[k],
                ) by {
                    lemma_fits_kept(before, views(table@), views(usages@)[k]);
                }
                assert(options_first(views(table@), n)) by {
                    assert forall|k: int| 0 <= k < n implies (#[trigger] views(table@)[k]).kind
                        == LeafKind::Flag by {
                        assert(before[k].kind == LeafKind::Flag);
                    }
                }
                lemma_line_fits(views(table@), es@, n);
            }
            match parse_line(&es, n) {
                Ok(p) => {
                    proof {
                        lemma_views_push(usages@, p);
                    }
                    usages.push(p);
                },
                Err(f) => {
                    return Err(Error::Grammar(f));
                },
            }
            i += 1;
        }
        let mut flags = unflagged(table.len());
        mark_each(&usages, false, &mut flags);
        let ghost before = views(table@);
        let table = set_repeats(table, &flags);
        proof {
            lemma_repeats_keep_wf(before, flags@);
            assert(keeps_kinds(before, views(table@)));
            assert forall|k: int| 0 <= k < usages.len() implies fits(
                views(table@),
                #[trigger] views(usages@)[k],
            ) by {
                lemma_fits_kept(before, views(table@), views(usages@)[k]);
            }
        }
        let argv: Vec<Vec<char>> = Vec::new();
        assert(views(argv@) =~= Seq::<Seq<char>>::empty());
        Ok(Docopt { doc: whole_text(&text), table, usages, argv, strict: false })
    }

    /// Sets the argument vector of an invocation. Its first item names the
    /// program and is left out.
    pub fn argv(self, args: &[&str]) -> (r: Docopt)
        ensures
            r@ == (DocoptView { argv: arguments(args@), ..self@ }),
    {
        let mut argv: Vec<Vec<char>> = Vec::new();
        let mut i: usize = 1;
        let ghost all = arguments(args@);
        assert(views(argv@) =~= all.take(0));
        if args.len() == 0 {
            assert(views(argv@) =~= all);
            return Docopt {
                doc: self.doc,
                table: self.table,
                usages: self.usages,
                argv,
                strict: self.strict,
            };
        }
        while i < args.len()
            invariant
                1 <= i <= args.len(),
                all == arguments(args@),
                all.len() == args.len() - 1,
                views(argv@) == all.take(i - 1),
            decreases args.len() - i,
        {
            let a = to_chars(args[i]);
            proof {
                lemma_views_push(argv@, a);
                assert(all[i - 1] == args@[i as int]@);
                assert(all.take(i as int) =~= all.take(i - 1).push(a@));
            }
            argv.push(a);
            i += 1;
        }
        assert(all.take(all.len() as int) =~= all);
        Docopt { doc: self.doc, table: self.table, usages: self.usages, argv, strict: self.strict }
    }

    /// Sets whether a flag that the grammar does not know is an error of
    /// its own.
    pub fn strict(self, yes: bool) -> (r: Docopt)
        ensures
            r@ == (DocoptView { strict: yes, ..self@ }),
    {
        Docopt { doc: self.doc, table: self.table, usages: self.usages, argv: self.argv, strict: yes }
    }

    /// Parses the argument vector.
    pub fn parse(&self) -> (r: Result<ArgvMap, Error>)
        ensures
            match parsed(self@) {
                Ok(entries) => r is Ok && r->Ok_0@ == entries,
                Err(e) => r is Err && r->Err_0@ == e,
            },
            r is Ok && distinct(self@.table) ==> distinct_entries(r->Ok_0@),
    {
        if self.strict {
            match find_unknown(&self.table, &self.argv) {
                Some(k) => {
                    return Err(Error::UnknownOption(whole_text(&self.argv[k])));
                },
                None => {},
            }
        }
        let toks = tokenize(&self.table, &self.argv);
        match match_branches(&self.table, &self.usages, &toks) {
            Some(caps) => {
                proof {
                    if distinct(views(self.table@)) {
                        lemma_entries_distinct(views(self.table@), views(caps@));
                    }
                }
                Ok(ArgvMap { entries: bind(&self.table, &caps) })
            },
            None => Err(Error::Usage(self.doc.clone())),
        }
    }
}

} // verus!
