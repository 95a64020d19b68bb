//! Structural mapping: from a value map to the fields of a record that the
//! caller declares by name and type.
//!
//! A field's name says which key it reads: `flag_` names an option, `cmd_`
//! a command, `arg_` a positional. An underscore in what follows the prefix
//! stands for a dash.

use vstd::prelude::*;
use crate::errors::{Error, ErrorView};
use crate::text::{is_upper, lemma_views_push, to_chars, upper, views, whole_text};
use crate::leaf::all_upper;
use crate::value::{
    flag_of, list_of, number_of, position, text_of, value_at, ArgvMap, EntryView, ValueView,
};

verus! {

/// The type of a field.
#[derive(Clone, Copy, Debug, PartialEq, Eq, Structural)]
pub enum FieldKind {
    Flag,
    Number,
    Text,
    List,
}

/// A field of the target record.
#[derive(Clone, Debug, PartialEq, Eq)]
pub struct Field {
    pub name: String,
    pub kind: FieldKind,
}

/// A field as the specification sees it.
pub struct FieldView {
    pub name: Seq<char>,
    pub kind: FieldKind,
}

impl View for Field {
    type V = FieldView;

    open spec fn view(&self) -> FieldView {
        FieldView { name: self.name@, kind: self.kind }
    }
}

/// The value of a field.
#[derive(Clone, Debug, PartialEq, Eq)]
pub enum FieldValue {
    Flag(bool),
    Number(u64),
    Text(String),
    List(Vec<String>),
}

/// The value of a field as the specification sees it.
pub enum FieldValueView {
    Flag(bool),
    Number(u64),
    Text(Seq<char>),
    List(Seq<Seq<char>>),
}

impl View for FieldValue {
    type V = FieldValueView;

    open spec fn view(&self) -> FieldValueView {
        match self {
            FieldValue::Flag(b) => FieldValueView::Flag(*b),
            FieldValue::Number(n) => FieldValueView::Number(*n),
            FieldValue::Text(s) => FieldValueView::Text(s@),
            FieldValue::List(l) => FieldValueView::List(views(l@)),
        }
    }
}

/// The prefix of a field that reads an option.
pub open spec fn flag_prefix() -> Seq<char> {
    seq!['f', 'l', 'a', 'g', '_']
}

/// The prefix of a field that reads a positional.
pub open spec fn arg_prefix() -> Seq<char> {
    seq!['a', 'r', 'g', '_']
}

/// The prefix of a field that reads a command.
pub open spec fn cmd_prefix() -> Seq<char> {
    seq!['c', 'm', 'd', '_']
}

/// Whether `s` begins with `p`.
pub open spec fn has_prefix(s: Seq<char>, p: Seq<char>) -> bool {
    s.len() >= p.len() && s.subrange(0, p.len() as int) == p
}

/// `s` with a dash for each underscore.
pub open spec fn dashed(s: Seq<char>) -> Seq<char> {
    Seq::new(
        s.len(),
        |i: int|
            if s[i] == '_' {
                '-'
            } else {
                s[i]
            },
    )
}

/// The key that a field reads, by its name. A one-letter flag reads a
/// short option, any other a long one. An argument in upper-case letters
/// reads the placeholder of that name, any other the name in angle
/// brackets. A command reads its word. A name without one of the three
/// prefixes reads nothing.
pub open spec fn key_of(name: Seq<char>) -> Option<Seq<char>> {
    if has_prefix(name, flag_prefix()) {
        let rest = dashed(name.subrange(5, name.len() as int));
        Some(
            if rest.len() == 1 {
                seq!['-'] + rest
            } else {
                seq!['-', '-'] + rest
            },
        )
    } else if has_prefix(name, arg_prefix()) {
        let rest = dashed(name.subrange(4, name.len() as int));
        Some(
            if rest.len() > 0 && all_upper(rest) {
                rest
            } else {
                seq!['<'] + rest + seq!['>']
            },
        )
    } else if has_prefix(name, cmd_prefix()) {
        Some(dashed(name.subrange(4, name.len() as int)))
    } else {
        None
    }
}

/// A value as a field of the given type. Only a number can fail.
pub open spec fn converted(v: ValueView, kind: FieldKind) -> Option<FieldValueView> {
    match kind {
        FieldKind::Flag => Some(FieldValueView::Flag(flag_of(v))),
        FieldKind::Number => match number_of(v) {
            Some(n) => Some(FieldValueView::Number(n)),
            None => None,
        },
        FieldKind::Text => Some(FieldValueView::Text(text_of(v))),
        FieldKind::List => Some(FieldValueView::List(list_of(v))),
    }
}

/// The value of one field: that of the key it reads, as its type. A field
/// that reads no key of the map, or whose value does not convert, is an
/// error that names the field.
pub open spec fn field_value(entries: Seq<EntryView>, field: FieldView) -> Result<FieldValueView, ErrorView> {
    match key_of(field.name) {
        Some(key) => match value_at(entries, key) {
            Some(v) => match converted(v, field.kind) {
                Some(x) => Ok(x),
                None => Err(ErrorView::ValueConversion(field.name)),
            },
            None => Err(ErrorView::ValueConversion(field.name)),
        },
        None => Err(ErrorView::ValueConversion(field.name)),
    }
}

/// The values of the fields from `i` on, pushed onto `done`; the error of
/// the first field that fails.
pub open spec fn decoded_from(
    entries: Seq<EntryView>,
    fields: Seq<FieldView>,
    i: int,
    done: Seq<FieldValueView>,
) -> Result<Seq<FieldValueView>, ErrorView>
    decreases fields.len() - i,
{
    if 0 <= i < fields.len() {
        match field_value(entries, fields[i]) {
            Ok(x) => decoded_from(entries, fields, i + 1, done.push(x)),
            Err(e) => Err(e),
        }
    } else {
        Ok(done)
    }
}

/// The values of all the fields, in their order.
pub open spec fn decoded(entries: Seq<EntryView>, fields: Seq<FieldView>) -> Result<
    Seq<FieldValueView>,
    ErrorView,
> {
    decoded_from(entries, fields, 0, seq![])
}

/// A record without fields is filled from any map.
pub proof fn lemma_no_fields(entries: Seq<EntryView>)
    ensures
        decoded(entries, seq![]) == Ok::<Seq<FieldValueView>, ErrorView>(seq![]),
{
}

/// A value that is absent counts as zero: a numeric field that reads an
/// absent value is zero, and no error.
pub proof fn lemma_absent_is_zero(entries: Seq<EntryView>, field: FieldView)
    requires
        field.kind == FieldKind::Number,
        key_of(field.name) is Some,
        value_at(entries, key_of(field.name)->0) == Some(ValueView::Absent),
    ensures
        field_value(entries, field) == Ok::<FieldValueView, ErrorView>(FieldValueView::Number(0)),
{
}

fn starts_with(v: &Vec<char>, p: &Vec<char>) -> (b: bool)
    ensures
        b == has_prefix(v@, p@),
{
    if v.len() < p.len() {
        return false;
    }
    let mut i: usize = 0;
    while i < p.len()
        invariant
            i <= p.len() <= v.len(),
            forall|k: int| 0 <= k < i ==> v@[k] == p@[k],
        decreases p.len() - i,
    {
        if v[i] != p[i] {
            assert(v@.subrange(0, p.len() as int)[i as int] != p@[i as int]);
            return false;
        }
        i += 1;
    }
    assert(v@.subrange(0, p.len() as int) =~= p@);
    true
}

fn with_dashes(v: &Vec<char>, from: usize) -> (r: Vec<char>)
    requires
        from <= v.len(),
    ensures
        r@ == dashed(v@.subrange(from as int, v.len() as int)),
{
    let mut r: Vec<char> = Vec::new();
    let mut i: usize = from;
    while i < v.len()
        invariant
            from <= i <= v.len(),
            r.len() == i - from,
            forall|k: int| 0 <= k < r.len() ==> #[trigger] r@[k] == dashed(v@.subrange(from as int, v.len() as int))[k],
        decreases v.len() - i,
    {
        let c = v[i];
        r.push(if c == '_' {
            '-'
        } else {
            c
        });
        i += 1;
    }
    assert(r@ =~= dashed(v@.subrange(from as int, v.len() as int)));
    r
}

fn every_upper(v: &Vec<char>) -> (b: bool)
    ensures
        b == all_upper(v@),
{
    let mut i: usize = 0;
    while i < v.len()
        invariant
            i <= v.len(),
            forall|k: int| 0 <= k < i ==> is_upper(#[trigger] v@[k]),
        decreases v.len() - i,
    {
        if !upper(v[i]) {
            assert(!is_upper(v@[i as int]));
            return false;
        }
        i += 1;
    }
    true
}

/// The key that a field of this name reads.
pub fn field_key(name: &str) -> (key: Option<String>)
    ensures
        match key_of(name@) {
            Some(k) => key is Some && key->0@ == k,
            None => key is None,
        },
{
    let v = to_chars(name);
    let flag = vec!['f', 'l', 'a', 'g', '_'];
    let arg = vec!['a', 'r', 'g', '_'];
    let cmd = vec!['c', 'm', 'd', '_'];
    assert(flag@ =~= flag_prefix());
    assert(arg@ =~= arg_prefix());
    assert(cmd@ =~= cmd_prefix());
    if starts_with(&v, &flag) {
        let mut rest = with_dashes(&v, 5);
        let mut key = if rest.len() == 1 {
            vec!['-']
        } else {
            vec!['-', '-']
        };
        let ghost head = key@;
        let ghost tail = rest@;
        key.append(&mut rest);
        assert(key@ =~= head + tail);
        assert(tail.len() == 1 ==> head =~= seq!['-']);
        assert(tail.len() != 1 ==> head =~= seq!['-', '-']);
        Some(whole_text(&key))
    } else if starts_with(&v, &arg) {
        let mut rest = with_dashes(&v, 4);
        if rest.len() > 0 && every_upper(&rest) {
            Some(whole_text(&rest))
        } else {
            let mut key = vec!['<'];
            let ghost tail = rest@;
            key.append(&mut rest);
            key.push('>');
            assert(key@ =~= seq!['<'] + tail + seq!['>']);
            Some(whole_text(&key))
        }
    } else if starts_with(&v, &cmd) {
        let rest = with_dashes(&v, 4);
        Some(whole_text(&rest))
    } else {
        None
    }
}

impl ArgvMap {
    /// The value of one field.
    pub fn field(&self, field: &Field) -> (r: Result<FieldValue, Error>)
        ensures
            match field_value(self@, field@) {
                Ok(x) => r is Ok && r->Ok_0@ == x,
                Err(e) => r is Err && r->Err_0@ == e,
            },
    {
        let found = match field_key(field.name.as_str()) {
            Some(key) => position(&self.entries, &key),
            None => None,
        };
        match found {
            Some(i) => {
                let v = &self.entries[i].value;
                match field.kind {
                    FieldKind::Flag => Ok(FieldValue::Flag(v.as_bool())),
                    FieldKind::Number => match v.as_number() {
                        Some(n) => Ok(FieldValue::Number(n)),
                        None => Err(Error::ValueConversion(field.name.clone())),
                    },
                    FieldKind::Text => Ok(FieldValue::Text(v.as_text())),
                    FieldKind::List => Ok(FieldValue::List(v.as_list())),
                }
            },
            None => Err(Error::ValueConversion(field.name.clone())),
        }
    }

    /// Fills the fields of a record from the map: the value of each field,
    /// in the order of the fields, or the error of the first that fails. A
    /// record without fields is filled from any map.
    pub fn decode(&self, fields: &Vec<Field>) -> (r: Result<Vec<FieldValue>, Error>)
        ensures
            match decoded(self@, views(fields@)) {
                Ok(xs) => r is Ok && views(r->Ok_0@) == xs,
                Err(e) => r is Err && r->Err_0@ == e,
            },
            fields.len() == 0 ==> r is Ok && r->Ok_0.len() == 0,
    {
        let mut out: Vec<FieldValue> = Vec::new();
        let mut i: usize = 0;
        assert(views(out@) =~= Seq::<FieldValueView>::empty());
        while i < fields.len()
            invariant
                i <= fields.len(),
                out.len() == i,
                decoded(self@, views(fields@)) == decoded_from(self@, views(fields@), i as int, views(out@)),
            decreases fields.len() - i,
        {
            match self.field(&fields[i]) {
                Ok(x) => {
                    proof {
                        lemma_views_push(out@, x);
                    }
                    out.push(x);
                },
                Err(e) => {
                    return Err(e);
                },
            }
            i += 1;
        }
        Ok(out)
    }
}

} // verus!
