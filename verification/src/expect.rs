//! Helpers to state what a parse should give, and to hold a parse to it.

use vstd::prelude::*;
use crate::dopt::{compiled, parsed, Docopt, DocoptView};
use crate::text::{lemma_views_push, to_chars, views, whole_text};
use crate::value::{
    distinct_entries, find_entry, hit, lemma_find_entry, position, value_at, ArgvMap, Entry, EntryView,
    Value, ValueView,
};

verus! {

/// A usage document compiled, with `argv` as the arguments after the
/// program's name.
pub open spec fn invocation(doc: Seq<char>, argv: Seq<Seq<char>>) -> DocoptView {
    DocoptView {
        doc,
        table: compiled(doc)->Ok_0.table,
        usages: compiled(doc)->Ok_0.usages,
        argv,
        strict: false,
    }
}

/// Compiles `doc` and parses `argv` by it, for a document that compiles
/// and an argument vector that it matches.
pub fn get_args(doc: &str, argv: &[&str]) -> (r: ArgvMap)
    requires
        compiled(doc@) is Ok,
        parsed(invocation(doc@, views(argv@))) is Ok,
    ensures
        r@ == parsed(invocation(doc@, views(argv@)))->Ok_0,
        distinct_entries(r@),
{
    let dopt = match Docopt::new(doc) {
        Ok(dopt) => dopt,
        Err(_) => vstd::pervasive::unreached(),
    };
    let mut all: Vec<&str> = Vec::new();
    all.push("cmd");
    let mut i: usize = 0;
    while i < argv.len()
        invariant
            i <= argv.len(),
            all.len() == i + 1,
            forall|k: int| 0 <= k < i ==> all@[k + 1] == argv@[k],
        decreases argv.len() - i,
    {
        all.push(argv[i]);
        i += 1;
    }
    let dopt = dopt.argv(all.as_slice());
    assert(dopt@.argv =~= views(argv@));
    match dopt.parse() {
        Ok(vals) => vals,
        Err(_) => vstd::pervasive::unreached(),
    }
}

/// A list of pairs, each a key and a value, as the specification sees it.
pub open spec fn pairs(alist: Seq<(&str, Value)>) -> Seq<(Seq<char>, ValueView)> {
    Seq::new(alist.len(), |i: int| (alist[i].0@, alist[i].1@))
}

/// The value of the last of the first `n` pairs whose key is `key`.
pub open spec fn last_value(ps: Seq<(Seq<char>, ValueView)>, key: Seq<char>, n: int) -> Option<ValueView>
    decreases n,
{
    if 0 < n <= ps.len() {
        if ps[n - 1].0 == key {
            Some(ps[n - 1].1)
        } else {
            last_value(ps, key, n - 1)
        }
    } else {
        None
    }
}

/// No entry has a second spelling.
pub open spec fn plain_keys(es: Seq<EntryView>) -> bool {
    forall|i: int| 0 <= i < es.len() ==> (#[trigger] es[i]).alias is None
}

/// No two entries have the same key.
pub open spec fn distinct_keys(es: Seq<EntryView>) -> bool {
    forall|i: int, j: int| 0 <= i < j < es.len() ==> (#[trigger] es[i]).key != (#[trigger] es[j]).key
}

proof fn lemma_find_push(es: Seq<EntryView>, e: EntryView, key: Seq<char>, i: int)
    requires
        0 <= i <= es.len(),
    ensures
        find_entry(es.push(e), key, i) == (match find_entry(es, key, i) {
            Some(k) => Some(k),
            None => if hit(e, key) {
                Some(es.len() as int)
            } else {
                None
            },
        }),
    decreases es.len() - i,
{
    if i < es.len() {
        assert(es.push(e)[i] == es[i]);
        if !hit(es[i], key) {
            lemma_find_push(es, e, key, i + 1);
        }
    } else {
        assert(es.push(e)[i] == e);
        assert(find_entry(es.push(e), key, i + 1) is None);
    }
}

proof fn lemma_find_update(es: Seq<EntryView>, j: int, e: EntryView, key: Seq<char>, i: int)
    requires
        0 <= j < es.len(),
        0 <= i,
        hit(es[j], key) == hit(e, key),
    ensures
        find_entry(es.update(j, e), key, i) == find_entry(es, key, i),
    decreases es.len() - i,
{
    if i < es.len() {
        if i != j {
            assert(es.update(j, e)[i] == es[i]);
        }
        if !hit(es[i], key) {
            lemma_find_update(es, j, e, key, i + 1);
        }
    }
}

/// Builds a map from a list of pairs. As in any map, a key stands once:
/// of two pairs with one key the later gives the value.
pub fn map_from_alist(alist: Vec<(&str, Value)>) -> (m: ArgvMap)
    ensures
        distinct_keys(m@),
        plain_keys(m@),
        forall|key: Seq<char>| value_at(m@, key) == last_value(pairs(alist@), key, alist.len() as int),
{
    let mut entries: Vec<Entry> = Vec::new();
    let mut n: usize = 0;
    while n < alist.len()
        invariant
            n <= alist.len(),
            distinct_keys(views(entries@)),
            plain_keys(views(entries@)),
            forall|key: Seq<char>|
                value_at(views(entries@), key) == last_value(pairs(alist@), key, n as int),
        decreases alist.len() - n,
    {
        let name = whole_text(&to_chars(alist[n].0));
        let value = alist[n].1.duplicate();
        let entry = Entry { key: name, alias: None, value };
        let ghost before = views(entries@);
        let ghost k = entry@.key;
        assert(pairs(alist@)[n as int] == (k, entry@.value));
        match position(&entries, &entry.key) {
            Some(i) => {
                proof {
                    lemma_find_entry(before, k, 0);
                    assert(before[i as int].key == k);
                    assert(views(entries@.update(i as int, entry)) =~= before.update(i as int, entry@));
                    assert forall|key: Seq<char>|
                        value_at(before.update(i as int, entry@), key) == last_value(
                            pairs(alist@),
                            key,
                            n + 1,
                        ) by {
                        let after = before.update(i as int, entry@);
                        assert(hit(before[i as int], key) == (k == key));
                        assert(hit(entry@, key) == (k == key));
                        lemma_find_update(before, i as int, entry@, key, 0);
                        lemma_find_entry(before, key, 0);
                        assert(value_at(before, key) == last_value(pairs(alist@), key, n as int));
                        if k == key {
                            assert(find_entry(after, key, 0) == Some(i as int));
                            assert(after[i as int].value == entry@.value);
                        } else {
                            if find_entry(before, key, 0) is Some {
                                let idx = find_entry(before, key, 0)->0;
                                assert(hit(before[idx], key));
                                assert(idx != i);
                                assert(after[idx] == before[idx]);
                            }
                        }
                    }
                }
                entries.set(i, entry);
            },
            None => {
                proof {
                    lemma_views_push(entries@, entry);
                    lemma_find_entry(before, k, 0);
                    assert forall|key: Seq<char>|
                        value_at(before.push(entry@), key) == last_value(pairs(alist@), key, n + 1) by {
                        let after = before.push(entry@);
                        lemma_find_push(before, entry@, key, 0);
                        lemma_find_entry(before, key, 0);
                        assert(value_at(before, key) == last_value(pairs(alist@), key, n as int));
                        assert(hit(entry@, key) == (k == key));
                        if k == key {
                            assert(find_entry(before, key, 0) is None);
                            assert(after[before.len() as int] == entry@);
                        } else {
                            if find_entry(before, key, 0) is Some {
                                let idx = find_entry(before, key, 0)->0;
                                assert(after[idx] == before[idx]);
                            }
                        }
                    }
                }
                entries.push(entry);
            },
        }
        n += 1;
    }
    ArgvMap { entries }
}

/// Whether `got` holds every entry of `expected`: each key of `expected`
/// is a key of `got`, with the same value. What else `got` holds does not
/// count.
pub open spec fn holds_all(expected: Seq<EntryView>, got: Seq<EntryView>) -> bool {
    forall|i: int|
        0 <= i < expected.len() ==> value_at(got, (#[trigger] expected[i]).key) == Some(expected[i].value)
}

/// Tests whether `got` holds every entry of `expected`.
pub fn args_agree(expected: &ArgvMap, got: &ArgvMap) -> (ok: bool)
    ensures
        ok == holds_all(expected@, got@),
{
    let mut i: usize = 0;
    while i < expected.entries.len()
        invariant
            i <= expected.entries.len(),
            forall|k: int|
                0 <= k < i ==> value_at(got@, (#[trigger] expected@[k]).key) == Some(expected@[k].value),
        decreases expected.entries.len() - i,
    {
        let e = &expected.entries[i];
        let found = match position(&got.entries, &e.key) {
            Some(k) => got.entries[k].value.same_as(&e.value),
            None => false,
        };
        if !found {
            assert(value_at(got@, expected@[i as int].key) != Some(expected@[i as int].value));
            return false;
        }
        i += 1;
    }
    true
}

/// Holds a parse to what was expected of it: for a `got` that holds every
/// entry of `expected`. It returns nothing and changes nothing.
pub fn same_args(expected: &ArgvMap, got: &ArgvMap)
    requires
        holds_all(expected@, got@),
{
    if !args_agree(expected, got) {
        vstd::pervasive::unreached()
    }
}

} // verus!
