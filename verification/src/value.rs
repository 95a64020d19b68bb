//! Values, the map from names to values, and how captures become values.

use vstd::prelude::*;
use crate::leaf::{as_index, distinct, spelled, Leaf, LeafKind, LeafView};
use crate::pattern::{Capture, CaptureView};
use crate::text::{copy, is_digit, lemma_views_push, views, whole_text};

verus! {

/// What a leaf is bound to after a match.
#[derive(Clone, Debug, PartialEq, Eq)]
pub enum Value {
    /// A positional or a valued option that was not given and has no default.
    Absent,
    /// Whether a command or a plain flag was given.
    Switch(bool),
    /// The text of a positional or of an option's value, or its default.
    Plain(Option<String>),
    /// The texts of a repeatable leaf, one for each time it was given.
    List(Vec<String>),
}

/// A value as the specification sees it.
pub enum ValueView {
    Absent,
    Switch(bool),
    Plain(Option<Seq<char>>),
    List(Seq<Seq<char>>),
}

impl View for Value {
    type V = ValueView;

    open spec fn view(&self) -> ValueView {
        match self {
            Value::Absent => ValueView::Absent,
            Value::Switch(b) => ValueView::Switch(*b),
            Value::Plain(o) => ValueView::Plain(
                match o {
                    Some(s) => Some(s@),
                    None => None,
                },
            ),
            Value::List(v) => ValueView::List(views(v@)),
        }
    }
}

/// The texts that the first `n` captures bound to `leaf`, in order.
pub open spec fn texts_of(caps: Seq<CaptureView>, leaf: int, n: int) -> Seq<Seq<char>>
    decreases n,
{
    if 0 < n <= caps.len() {
        let before = texts_of(caps, leaf, n - 1);
        if caps[n - 1].leaf == leaf {
            before.push(caps[n - 1].text)
        } else {
            before
        }
    } else {
        seq![]
    }
}

/// A leaf that is either there or not: a command, or an option without a value.
pub open spec fn is_switch(leaf: LeafView) -> bool {
    leaf.kind == LeafKind::Command || (leaf.kind == LeafKind::Flag && !leaf.takes_value)
}

/// The value of a leaf, given the texts it captured, in order.
///
/// The kind of value depends on the leaf alone, never on the texts: a switch
/// for a command or a plain flag, a list for any other leaf that can repeat,
/// and otherwise a single text, the last captured. A leaf that captured
/// nothing has its default, and is absent where it has none.
pub open spec fn bound(leaf: LeafView, texts: Seq<Seq<char>>) -> ValueView {
    if is_switch(leaf) {
        ValueView::Switch(texts.len() > 0)
    } else if leaf.repeats {
        if texts.len() == 0 && leaf.default is Some {
            ValueView::List(seq![leaf.default->0])
        } else {
            ValueView::List(texts)
        }
    } else if texts.len() > 0 {
        ValueView::Plain(Some(texts.last()))
    } else if leaf.default is Some {
        ValueView::Plain(leaf.default)
    } else {
        ValueView::Absent
    }
}

/// One leaf of the grammar with the value bound to it. An option with two
/// spellings is one entry, found under either.
#[derive(Clone, Debug, PartialEq, Eq)]
pub struct Entry {
    pub key: String,
    pub alias: Option<String>,
    pub value: Value,
}

/// An entry as the specification sees it.
pub struct EntryView {
    pub key: Seq<char>,
    pub alias: Option<Seq<char>>,
    pub value: ValueView,
}

impl View for Entry {
    type V = EntryView;

    open spec fn view(&self) -> EntryView {
        EntryView {
            key: self.key@,
            alias: match self.alias {
                Some(a) => Some(a@),
                None => None,
            },
            value: self.value@,
        }
    }
}

/// The entries that a table and the captures of a match give: one for each
/// leaf of the table, in the table's order, matched or not.
pub open spec fn bindings(t: Seq<LeafView>, caps: Seq<CaptureView>) -> Seq<EntryView> {
    Seq::new(
        t.len(),
        |l: int|
            EntryView {
                key: t[l].name,
                alias: t[l].alias,
                value: bound(t[l], texts_of(caps, l, caps.len() as int)),
            },
    )
}

/// The index of the first entry, from `i` on, that `key` names.
pub open spec fn find_entry(entries: Seq<EntryView>, key: Seq<char>, i: int) -> Option<int>
    decreases entries.len() - i,
{
    if 0 <= i < entries.len() {
        if entries[i].key == key || entries[i].alias == Some(key) {
            Some(i)
        } else {
            find_entry(entries, key, i + 1)
        }
    } else {
        None
    }
}

/// The value under `key`, by either spelling.
pub open spec fn value_at(entries: Seq<EntryView>, key: Seq<char>) -> Option<ValueView> {
    match find_entry(entries, key, 0) {
        Some(i) => Some(entries[i].value),
        None => None,
    }
}

/// What `find_entry` gives is the first entry from `i` on that `key` names.
pub proof fn lemma_find_entry(entries: Seq<EntryView>, key: Seq<char>, i: int)
    requires
        0 <= i,
    ensures
        match find_entry(entries, key, i) {
            Some(k) => i <= k < entries.len() && (entries[k].key == key || entries[k].alias == Some(key))
                && forall|j: int|
                i <= j < k ==> !((#[trigger] entries[j]).key == key || entries[j].alias == Some(key)),
            None => forall|j: int|
                i <= j < entries.len() ==> !((#[trigger] entries[j]).key == key || entries[j].alias == Some(
                    key,
                )),
        },
    decreases entries.len() - i,
{
    if i < entries.len() && !(entries[i].key == key || entries[i].alias == Some(key)) {
        lemma_find_entry(entries, key, i + 1);
    }
}

/// Whether a value counts as given.
pub open spec fn flag_of(v: ValueView) -> bool {
    match v {
        ValueView::Absent => false,
        ValueView::Switch(b) => b,
        ValueView::Plain(o) => o is Some,
        ValueView::List(l) => l.len() > 0,
    }
}

/// The single text of a value; empty where it has none.
pub open spec fn text_of(v: ValueView) -> Seq<char> {
    match v {
        ValueView::Plain(Some(s)) => s,
        _ => seq![],
    }
}

/// The texts of a value, as a list.
pub open spec fn list_of(v: ValueView) -> Seq<Seq<char>> {
    match v {
        ValueView::List(l) => l,
        ValueView::Plain(Some(s)) => seq![s],
        _ => seq![],
    }
}

/// The number that the first `n` characters of `s` write in decimal.
pub open spec fn decimal(s: Seq<char>, n: int) -> int
    decreases n,
{
    if 0 < n <= s.len() {
        decimal(s, n - 1) * 10 + (s[n - 1] as int - '0' as int)
    } else {
        0
    }
}

/// Whether every character is a decimal digit.
pub open spec fn all_digits(s: Seq<char>) -> bool {
    forall|i: int| 0 <= i < s.len() ==> is_digit(#[trigger] s[i])
}

/// The number that a text writes: decimal digits, one at least, that fit
/// 64 bits.
pub open spec fn number_in(s: Seq<char>) -> Option<u64> {
    if s.len() > 0 && all_digits(s) && decimal(s, s.len() as int) <= u64::MAX {
        Some(decimal(s, s.len() as int) as u64)
    } else {
        None
    }
}

/// The signed number that a text writes: a number as above within 63
/// bits, or a dash and the digits of a number down to the least of 64 bits.
pub open spec fn signed_in(s: Seq<char>) -> Option<i64> {
    if s.len() > 0 && s[0] == '-' {
        let d = s.subrange(1, s.len() as int);
        if d.len() > 0 && all_digits(d) && decimal(d, d.len() as int) <= 0x8000_0000_0000_0000 {
            Some((-decimal(d, d.len() as int)) as i64)
        } else {
            None
        }
    } else if s.len() > 0 && all_digits(s) && decimal(s, s.len() as int) <= i64::MAX {
        Some(decimal(s, s.len() as int) as i64)
    } else {
        None
    }
}

/// The signed number of a value, by the rules of `number_of`.
pub open spec fn signed_of(v: ValueView) -> Option<i64> {
    match v {
        ValueView::Absent => Some(0i64),
        ValueView::Plain(None) => Some(0i64),
        ValueView::Switch(b) => Some(
            if b {
                1i64
            } else {
                0i64
            },
        ),
        ValueView::Plain(Some(s)) => signed_in(s),
        ValueView::List(_) => None,
    }
}

/// The number of a value. What is absent counts as zero, a switch as one
/// or zero, and a text as the number it writes. A text that writes none,
/// and a list, have no number.
pub open spec fn number_of(v: ValueView) -> Option<u64> {
    match v {
        ValueView::Absent => Some(0u64),
        ValueView::Plain(None) => Some(0u64),
        ValueView::Switch(b) => Some(
            if b {
                1u64
            } else {
                0u64
            },
        ),
        ValueView::Plain(Some(s)) => number_in(s),
        ValueView::List(_) => None,
    }
}

proof fn lemma_decimal_grows(s: Seq<char>, k: int, n: int)
    requires
        all_digits(s),
        0 <= k <= n <= s.len(),
    ensures
        0 <= decimal(s, k) <= decimal(s, n),
    decreases n - k,
{
    lemma_decimal_positive(s, k);
    if k < n {
        lemma_decimal_grows(s, k + 1, n);
        assert(is_digit(s[k]));
    }
}

proof fn lemma_decimal_positive(s: Seq<char>, n: int)
    requires
        all_digits(s),
        0 <= n <= s.len(),
    ensures
        0 <= decimal(s, n),
    decreases n,
{
    if 0 < n {
        lemma_decimal_positive(s, n - 1);
        assert(is_digit(s[n - 1]));
    }
}

impl Value {
    /// Whether the value counts as given.
    pub fn as_bool(&self) -> (b: bool)
        ensures
            b == flag_of(self@),
    {
        match self {
            Value::Absent => false,
            Value::Switch(b) => *b,
            Value::Plain(o) => o.is_some(),
            Value::List(l) => l.len() > 0,
        }
    }

    /// The single text of the value; empty where it has none.
    pub fn as_text(&self) -> (s: String)
        ensures
            s@ == text_of(self@),
    {
        match self {
            Value::Plain(Some(s)) => s.clone(),
            _ => String::new(),
        }
    }

    /// The texts of the value, as a list.
    pub fn as_list(&self) -> (l: Vec<String>)
        ensures
            views(l@) == list_of(self@),
    {
        match self {
            Value::List(v) => copy_texts(v),
            Value::Plain(Some(s)) => {
                let mut l: Vec<String> = Vec::new();
                l.push(s.clone());
                assert(views(l@) =~= seq![s@]);
                l
            },
            _ => {
                let l: Vec<String> = Vec::new();
                assert(views(l@) =~= Seq::<Seq<char>>::empty());
                l
            },
        }
    }

    /// The number of the value, if it has one.
    pub fn as_number(&self) -> (n: Option<u64>)
        ensures
            n == number_of(self@),
    {
        match self {
            Value::Absent => Some(0),
            Value::Plain(None) => Some(0),
            Value::Switch(b) => Some(
                if *b {
                    1
                } else {
                    0
                },
            ),
            Value::Plain(Some(text)) => read_number(text.as_str()),
            Value::List(_) => None,
        }
    }

    /// The signed number of the value, if it has one.
    pub fn as_signed(&self) -> (n: Option<i64>)
        ensures
            n == signed_of(self@),
    {
        match self {
            Value::Absent => Some(0),
            Value::Plain(None) => Some(0),
            Value::Switch(b) => Some(
                if *b {
                    1
                } else {
                    0
                },
            ),
            Value::Plain(Some(text)) => read_signed(text.as_str()),
            Value::List(_) => None,
        }
    }

    /// A copy of the value.
    pub fn duplicate(&self) -> (v: Value)
        ensures
            v@ == self@,
    {
        match self {
            Value::Absent => Value::Absent,
            Value::Switch(b) => Value::Switch(*b),
            Value::Plain(Some(s)) => Value::Plain(Some(s.clone())),
            Value::Plain(None) => Value::Plain(None),
            Value::List(l) => Value::List(copy_texts(l)),
        }
    }

    /// Whether two values are the same.
    pub fn same_as(&self, other: &Value) -> (b: bool)
        ensures
            b == (self@ == other@),
    {
        match (self, other) {
            (Value::Absent, Value::Absent) => true,
            (Value::Switch(a), Value::Switch(b)) => *a == *b,
            (Value::Plain(Some(a)), Value::Plain(Some(b))) => *a == *b,
            (Value::Plain(None), Value::Plain(None)) => true,
            (Value::List(a), Value::List(b)) => same_texts(a, b),
            _ => false,
        }
    }
}

/// Reads digits as a decimal number.
pub fn read_digits(s: &Vec<char>) -> (n: Option<u64>)
    ensures
        n == number_in(s@),
{
    if s.len() == 0 {
        return None;
    }
    let mut total: u64 = 0;
    let mut i: usize = 0;
    while i < s.len()
        invariant
            i <= s.len(),
            s.len() > 0,
            forall|k: int| 0 <= k < i ==> is_digit(#[trigger] s@[k]),
            total == decimal(s@, i as int),
        decreases s.len() - i,
    {
        let c = s[i];
        if !('0' <= c && c <= '9') {
            assert(!is_digit(s@[i as int]));
            return None;
        }
        let d = (c as u32 - '0' as u32) as u64;
        if total > (u64::MAX - d) / 10 {
            proof {
                if all_digits(s@) {
                    lemma_decimal_grows(s@, i + 1, s.len() as int);
                }
            }
            return None;
        }
        total = total * 10 + d;
        i += 1;
    }
    Some(total)
}

/// Reads a text as a decimal number.
pub fn read_number(text: &str) -> (n: Option<u64>)
    ensures
        n == number_in(text@),
{
    let s = crate::text::to_chars(text);
    read_digits(&s)
}

/// Reads a text as a signed decimal number.
pub fn read_signed(text: &str) -> (n: Option<i64>)
    ensures
        n == signed_in(text@),
{
    let s = crate::text::to_chars(text);
    if s.len() > 0 && s[0] == '-' {
        let d = crate::text::slice(&s, 1, s.len());
        proof {
            if all_digits(d@) {
                lemma_decimal_positive(d@, d.len() as int);
            }
        }
        match read_digits(&d) {
            Some(m) => {
                if m < 0x8000_0000_0000_0000 {
                    Some(-(m as i64))
                } else if m == 0x8000_0000_0000_0000 {
                    Some(i64::MIN)
                } else {
                    None
                }
            },
            None => None,
        }
    } else {
        proof {
            if all_digits(s@) {
                lemma_decimal_positive(s@, s.len() as int);
            }
        }
        match read_digits(&s) {
            Some(m) => {
                if m <= 0x7fff_ffff_ffff_ffff {
                    Some(m as i64)
                } else {
                    None
                }
            },
            None => None,
        }
    }
}

/// A copy of a vector of strings.
pub fn copy_texts(v: &Vec<String>) -> (r: Vec<String>)
    ensures
        views(r@) == views(v@),
{
    let mut r: Vec<String> = Vec::new();
    let mut i: usize = 0;
    while i < v.len()
        invariant
            i <= v.len(),
            views(r@) == views(v@).take(i as int),
        decreases v.len() - i,
    {
        let item = v[i].clone();
        proof {
            lemma_views_push(r@, item);
            assert(views(v@).take(i + 1) =~= views(v@).take(i as int).push(v@[i as int]@));
        }
        r.push(item);
        i += 1;
    }
    assert(views(v@).take(v.len() as int) =~= views(v@));
    r
}

/// Whether two vectors hold the same strings.
pub fn same_texts(a: &Vec<String>, b: &Vec<String>) -> (r: bool)
    ensures
        r == (views(a@) == views(b@)),
{
    if a.len() != b.len() {
        assert(views(a@).len() != views(b@).len());
        return false;
    }
    let mut i: usize = 0;
    while i < a.len()
        invariant
            a.len() == b.len(),
            i <= a.len(),
            forall|k: int| 0 <= k < i ==> a@[k]@ == b@[k]@,
        decreases a.len() - i,
    {
        if !(a[i] == b[i]) {
            assert(views(a@)[i as int] != views(b@)[i as int]);
            return false;
        }
        i += 1;
    }
    assert(views(a@) =~= views(b@));
    true
}

/// The strings of a vector of character vectors.
pub fn to_texts(v: &Vec<Vec<char>>) -> (r: Vec<String>)
    ensures
        views(r@) == views(v@),
{
    let mut r: Vec<String> = Vec::new();
    let mut i: usize = 0;
    while i < v.len()
        invariant
            i <= v.len(),
            views(r@) == views(v@).take(i as int),
        decreases v.len() - i,
    {
        let item = whole_text(&v[i]);
        proof {
            lemma_views_push(r@, item);
            assert(views(v@).take(i + 1) =~= views(v@).take(i as int).push(v@[i as int]@));
        }
        r.push(item);
        i += 1;
    }
    assert(views(v@).take(v.len() as int) =~= views(v@));
    r
}

/// The texts that the captures bound to `leaf`, in order.
pub fn collect(caps: &Vec<Capture>, leaf: usize) -> (r: Vec<Vec<char>>)
    ensures
        views(r@) == texts_of(views(caps@), leaf as int, caps.len() as int),
{
    let mut r: Vec<Vec<char>> = Vec::new();
    let mut n: usize = 0;
    assert(views(r@) =~= Seq::<Seq<char>>::empty());
    while n < caps.len()
        invariant
            n <= caps.len(),
            views(r@) == texts_of(views(caps@), leaf as int, n as int),
        decreases caps.len() - n,
    {
        if caps[n].leaf == leaf {
            let ghost before = views(r@);
            r.push(copy(&caps[n].text));
            assert(views(r@) =~= before.push(caps@[n as int].text@));
        }
        n += 1;
    }
    r
}

/// The value of a leaf that captured `texts`.
pub fn value_of(leaf: &Leaf, texts: &Vec<Vec<char>>) -> (v: Value)
    ensures
        v@ == bound(leaf@, views(texts@)),
{
    let switch = match leaf.kind {
        LeafKind::Command => true,
        LeafKind::Flag => !leaf.takes_value,
        LeafKind::Positional => false,
    };
    if switch {
        Value::Switch(texts.len() > 0)
    } else if leaf.repeats {
        if texts.len() == 0 {
            match &leaf.default {
                Some(d) => {
                    let mut l: Vec<String> = Vec::new();
                    l.push(whole_text(d));
                    assert(views(l@) =~= seq![d@]);
                    return Value::List(l);
                },
                None => {},
            }
        }
        Value::List(to_texts(texts))
    } else if texts.len() > 0 {
        Value::Plain(Some(whole_text(&texts[texts.len() - 1])))
    } else {
        match &leaf.default {
            Some(d) => Value::Plain(Some(whole_text(d))),
            None => Value::Absent,
        }
    }
}

/// Builds the entries of a value map: one for each leaf of the table.
pub fn bind(table: &Vec<Leaf>, caps: &Vec<Capture>) -> (entries: Vec<Entry>)
    ensures
        views(entries@) == bindings(views(table@), views(caps@)),
{
    let mut entries: Vec<Entry> = Vec::new();
    let mut l: usize = 0;
    while l < table.len()
        invariant
            l <= table.len(),
            views(entries@) == bindings(views(table@), views(caps@)).take(l as int),
        decreases table.len() - l,
    {
        let leaf = &table[l];
        let texts = collect(caps, l);
        let entry = Entry {
            key: whole_text(&leaf.name),
            alias: match &leaf.alias {
                Some(a) => Some(whole_text(a)),
                None => None,
            },
            value: value_of(leaf, &texts),
        };
        proof {
            lemma_views_push(entries@, entry);
            let all = bindings(views(table@), views(caps@));
            assert(entry@ == all[l as int]);
            assert(all.take(l + 1) =~= all.take(l as int).push(all[l as int]));
        }
        entries.push(entry);
        l += 1;
    }
    assert(bindings(views(table@), views(caps@)).take(table.len() as int) =~= bindings(
        views(table@),
        views(caps@),
    ));
    entries
}

/// Finds the entry that `key` names.
pub fn position(entries: &Vec<Entry>, key: &String) -> (r: Option<usize>)
    ensures
        as_index(r) == find_entry(views(entries@), key@, 0),
        r matches Some(k) ==> k < entries.len(),
{
    let mut i: usize = 0;
    while i < entries.len()
        invariant
            i <= entries.len(),
            find_entry(views(entries@), key@, 0) == find_entry(views(entries@), key@, i as int),
        decreases entries.len() - i,
    {
        let e = &entries[i];
        let hit = e.key == *key || match &e.alias {
            Some(a) => *a == *key,
            None => false,
        };
        if hit {
            return Some(i);
        }
        i += 1;
    }
    None
}

} // verus!

verus! {

/// The map from the names of a grammar to the values bound by one match.
/// It holds one entry for each leaf of the grammar, matched or not.
#[derive(Clone, Debug, PartialEq, Eq)]
pub struct ArgvMap {
    pub entries: Vec<Entry>,
}

impl View for ArgvMap {
    type V = Seq<EntryView>;

    open spec fn view(&self) -> Seq<EntryView> {
        views(self.entries@)
    }
}

/// The view of an optional value.
pub open spec fn seen(v: Option<&Value>) -> Option<ValueView> {
    match v {
        Some(x) => Some(x@),
        None => None,
    }
}

impl ArgvMap {
    /// The value under `key`, which may be either spelling of an option.
    pub fn find(&self, key: &str) -> (r: Option<&Value>)
        ensures
            seen(r) == value_at(self@, key@),
    {
        let chars = crate::text::to_chars(key);
        let name = whole_text(&chars);
        match position(&self.entries, &name) {
            Some(i) => Some(&self.entries[i].value),
            None => None,
        }
    }

    /// Whether the leaf under `key` was given. False where there is no such key.
    pub fn get_bool(&self, key: &str) -> (b: bool)
        ensures
            b == match value_at(self@, key@) {
                Some(v) => flag_of(v),
                None => false,
            },
    {
        match self.find(key) {
            Some(v) => v.as_bool(),
            None => false,
        }
    }

    /// The text under `key`. Empty where there is no such key or no text.
    pub fn get_str(&self, key: &str) -> (s: String)
        ensures
            s@ == match value_at(self@, key@) {
                Some(v) => text_of(v),
                None => seq![],
            },
    {
        match self.find(key) {
            Some(v) => v.as_text(),
            None => String::new(),
        }
    }

    /// The texts under `key`. Empty where there is no such key.
    pub fn get_vec(&self, key: &str) -> (l: Vec<String>)
        ensures
            views(l@) == match value_at(self@, key@) {
                Some(v) => list_of(v),
                None => seq![],
            },
    {
        match self.find(key) {
            Some(v) => v.as_list(),
            None => {
                let l: Vec<String> = Vec::new();
                assert(views(l@) =~= Seq::<Seq<char>>::empty());
                l
            },
        }
    }
}

} // verus!

verus! {

/// Captures keep their order: what a leaf captured in two runs of captures,
/// one after the other, is what it captured in the first and then what it
/// captured in the second. So the lists of two leaves that are captured in
/// turns pair up index by index.
pub proof fn lemma_texts_in_order(a: Seq<CaptureView>, b: Seq<CaptureView>, leaf: int, n: int)
    requires
        0 <= n <= b.len(),
    ensures
        texts_of(a + b, leaf, a.len() + n) == texts_of(a, leaf, a.len() as int) + texts_of(b, leaf, n),
    decreases n,
{
    if n == 0 {
        lemma_texts_of_prefix(a, b, leaf, a.len() as int);
        assert(texts_of(b, leaf, 0) =~= Seq::<Seq<char>>::empty());
        assert(texts_of(a, leaf, a.len() as int) + texts_of(b, leaf, 0) =~= texts_of(a, leaf, a.len() as int));
    } else {
        lemma_texts_in_order(a, b, leaf, n - 1);
        assert((a + b)[a.len() + n - 1] == b[n - 1]);
        if b[n - 1].leaf == leaf {
            assert(texts_of(a, leaf, a.len() as int) + texts_of(b, leaf, n - 1).push(b[n - 1].text)
                =~= (texts_of(a, leaf, a.len() as int) + texts_of(b, leaf, n - 1)).push(b[n - 1].text));
        }
    }
}

proof fn lemma_texts_of_prefix(a: Seq<CaptureView>, b: Seq<CaptureView>, leaf: int, n: int)
    requires
        0 <= n <= a.len(),
    ensures
        texts_of(a + b, leaf, n) == texts_of(a, leaf, n),
    decreases n,
{
    if n > 0 {
        lemma_texts_of_prefix(a, b, leaf, n - 1);
        assert((a + b)[n - 1] == a[n - 1]);
    }
}

/// What a capture holds is among the texts of its leaf: no capture is
/// dropped on the way to the value map.
pub proof fn lemma_capture_is_bound(caps: Seq<CaptureView>, k: int, n: int)
    requires
        0 <= k < n <= caps.len(),
    ensures
        texts_of(caps, caps[k].leaf as int, n).contains(caps[k].text),
    decreases n,
{
    let leaf = caps[k].leaf as int;
    if k == n - 1 {
        let before = texts_of(caps, leaf, n - 1);
        assert(texts_of(caps, leaf, n) == before.push(caps[k].text));
        assert(before.push(caps[k].text)[before.len() as int] == caps[k].text);
    } else {
        lemma_capture_is_bound(caps, k, n - 1);
        let before = texts_of(caps, leaf, n - 1);
        let i = choose|i: int| 0 <= i < before.len() && before[i] == caps[k].text;
        if caps[n - 1].leaf == leaf {
            assert(before.push(caps[n - 1].text)[i] == caps[k].text);
        }
    }
}

/// The kind of a leaf's value is fixed by the leaf: whatever it captured,
/// a switch leaf is bound to a switch, any other leaf that repeats to a
/// list, and the rest to a single text or to nothing at all.
pub proof fn lemma_kind_is_fixed(leaf: LeafView, texts: Seq<Seq<char>>)
    ensures
        is_switch(leaf) <==> bound(leaf, texts) is Switch,
        !is_switch(leaf) && leaf.repeats <==> bound(leaf, texts) is List,
        !is_switch(leaf) && !leaf.repeats <==> bound(leaf, texts) is Plain || bound(leaf, texts) is Absent,
{
}

/// Whether `key` names the entry, by either spelling.
pub open spec fn hit(e: EntryView, key: Seq<char>) -> bool {
    e.key == key || e.alias == Some(key)
}

/// Whether no key names two entries.
pub open spec fn distinct_entries(es: Seq<EntryView>) -> bool {
    forall|i: int, j: int, key: Seq<char>|
        0 <= i < es.len() && 0 <= j < es.len() && #[trigger] hit(es[i], key) && #[trigger] hit(es[j], key)
            ==> i == j
}

/// Where no spelling belongs to two leaves, no key names two entries.
pub proof fn lemma_entries_distinct(t: Seq<LeafView>, caps: Seq<CaptureView>)
    requires
        distinct(t),
    ensures
        distinct_entries(bindings(t, caps)),
{
    let es = bindings(t, caps);
    assert forall|i: int, j: int, key: Seq<char>|
        0 <= i < es.len() && 0 <= j < es.len() && #[trigger] hit(es[i], key) && #[trigger] hit(
            es[j],
            key,
        ) implies i == j by {
        assert(spelled(t[i], key) && spelled(t[j], key));
    }
}

/// The map holds one entry for each leaf of the table, under the leaf's
/// names, whether the leaf was matched or not. Where no spelling belongs
/// to two leaves, no key names two entries, and either spelling of a leaf
/// finds the value of that leaf.
pub proof fn lemma_one_entry_per_leaf(t: Seq<LeafView>, caps: Seq<CaptureView>, l: int)
    requires
        0 <= l < t.len(),
    ensures
        bindings(t, caps).len() == t.len(),
        bindings(t, caps)[l].key == t[l].name,
        bindings(t, caps)[l].alias == t[l].alias,
        value_at(bindings(t, caps), t[l].name) is Some,
        distinct(t) ==> distinct_entries(bindings(t, caps)),
        distinct(t) ==> forall|key: Seq<char>|
            spelled(t[l], key) ==> #[trigger] value_at(bindings(t, caps), key) == Some(
                bound(t[l], texts_of(caps, l, caps.len() as int)),
            ),
{
    let es = bindings(t, caps);
    lemma_find_entry(es, t[l].name, 0);
    if distinct(t) {
        lemma_entries_distinct(t, caps);
        assert forall|key: Seq<char>| spelled(t[l], key) implies #[trigger] value_at(es, key) == Some(
            bound(t[l], texts_of(caps, l, caps.len() as int)),
        ) by {
            lemma_find_entry(es, key, 0);
            assert(hit(es[l], key));
            let k = find_entry(es, key, 0)->0;
            assert(hit(es[k], key));
        }
    }
}

} // verus!
