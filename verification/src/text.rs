//! Characters and character sequences: the alphabet every parser here reads.

use vstd::prelude::*;

verus! {

/// `String::push` of the standard library: afterwards the string is what it
/// was before with `c` at its end.
pub assume_specification[ String::push ](s: &mut String, c: char)
    ensures
        final(s)@ == old(s)@.push(c),
;

/// A space or a tab.
pub open spec fn is_blank(c: char) -> bool {
    c == ' ' || c == '\t'
}

/// A blank, a line feed or a carriage return.
pub open spec fn is_space(c: char) -> bool {
    is_blank(c) || c == '\n' || c == '\r'
}

/// An upper-case letter of the basic Latin alphabet.
pub open spec fn is_upper(c: char) -> bool {
    'A' <= c && c <= 'Z'
}

/// A decimal digit.
pub open spec fn is_digit(c: char) -> bool {
    '0' <= c && c <= '9'
}

/// `a` and `b` are the same letter up to case, where `b` is a lower-case letter.
pub open spec fn is_letter_of(a: char, b: char) -> bool {
    a == b || (is_upper(a) && a as int + 32 == b as int)
}

/// Whether `c` is a space or a tab.
pub fn blank(c: char) -> (b: bool)
    ensures
        b == is_blank(c),
{
    c == ' ' || c == '\t'
}

/// Whether `c` is white space.
pub fn space(c: char) -> (b: bool)
    ensures
        b == is_space(c),
{
    c == ' ' || c == '\t' || c == '\n' || c == '\r'
}

/// Whether `c` is an upper-case letter.
pub fn upper(c: char) -> (b: bool)
    ensures
        b == is_upper(c),
{
    'A' <= c && c <= 'Z'
}

/// Whether `a` is the lower-case letter `b` in either case, or `b` itself.
pub fn letter_of(a: char, b: char) -> (r: bool)
    ensures
        r == is_letter_of(a, b),
{
    a == b || ('A' <= a && a <= 'Z' && a as u32 + 32 == b as u32)
}

/// The characters of a string slice, as a vector.
#[verifier::loop_isolation(false)]
pub fn to_chars(s: &str) -> (v: Vec<char>)
    ensures
        v@ == s@,
{
    let mut v: Vec<char> = Vec::new();
    for c in it: s.chars()
        invariant
            it.seq() == s@,
            v@ == s@.take(it.index() as int),
    {
        assert(s@.take(it.index() + 1) == s@.take(it.index() as int).push(c));
        v.push(c);
    }
    assert(s@.take(s@.len() as int) == s@);
    v
}

/// The string made of `v[from..to]`.
pub fn to_text(v: &Vec<char>, from: usize, to: usize) -> (s: String)
    requires
        from <= to <= v.len(),
    ensures
        s@ == v@.subrange(from as int, to as int),
{
    let mut s = String::new();
    let mut i: usize = from;
    while i < to
        invariant
            from <= i <= to <= v.len(),
            s@ == v@.subrange(from as int, i as int),
        decreases to - i,
    {
        s.push(v[i]);
        i += 1;
    }
    s
}

/// The string made of all of `v`.
pub fn whole_text(v: &Vec<char>) -> (s: String)
    ensures
        s@ == v@,
{
    let s = to_text(v, 0, v.len());
    assert(v@.subrange(0, v.len() as int) == v@);
    s
}

/// A copy of `v[from..to]`.
pub fn slice(v: &Vec<char>, from: usize, to: usize) -> (r: Vec<char>)
    requires
        from <= to <= v.len(),
    ensures
        r@ == v@.subrange(from as int, to as int),
{
    let mut r: Vec<char> = Vec::new();
    let mut i: usize = from;
    while i < to
        invariant
            from <= i <= to <= v.len(),
            r@ == v@.subrange(from as int, i as int),
        decreases to - i,
    {
        r.push(v[i]);
        i += 1;
    }
    r
}

/// A copy of `v`.
pub fn copy(v: &Vec<char>) -> (r: Vec<char>)
    ensures
        r@ == v@,
{
    let r = slice(v, 0, v.len());
    assert(v@.subrange(0, v.len() as int) == v@);
    r
}

/// Whether two vectors hold the same characters.
pub fn same(a: &Vec<char>, b: &Vec<char>) -> (r: bool)
    ensures
        r == (a@ == b@),
{
    if a.len() != b.len() {
        return false;
    }
    let mut i: usize = 0;
    while i < a.len()
        invariant
            a.len() == b.len(),
            i <= a.len(),
            a@.take(i as int) == b@.take(i as int),
        decreases a.len() - i,
    {
        if a[i] != b[i] {
            return false;
        }
        assert(a@.take(i + 1) == a@.take(i as int).push(a@[i as int]));
        assert(b@.take(i + 1) == b@.take(i as int).push(b@[i as int]));
        i += 1;
    }
    assert(a@.take(a.len() as int) == a@);
    assert(b@.take(b.len() as int) == b@);
    true
}

/// Whether an optional spelling is present and equal to `b`.
pub fn same_opt(a: &Option<Vec<char>>, b: &Vec<char>) -> (r: bool)
    ensures
        r == (a is Some && a->0@ == b@),
{
    match a {
        Some(x) => same(x, b),
        None => false,
    }
}

/// The first index at or after `i` that holds no blank.
pub open spec fn skip_blanks(s: Seq<char>, i: int) -> int
    decreases s.len() - i,
{
    if 0 <= i < s.len() && is_blank(s[i]) {
        skip_blanks(s, i + 1)
    } else {
        i
    }
}

/// Skips the blanks from `i` on.
pub fn after_blanks(v: &Vec<char>, i: usize) -> (j: usize)
    requires
        i <= v.len(),
    ensures
        j == skip_blanks(v@, i as int),
        i <= j <= v.len(),
{
    let mut j: usize = i;
    while j < v.len() && blank(v[j])
        invariant
            i <= j <= v.len(),
            skip_blanks(v@, i as int) == skip_blanks(v@, j as int),
        decreases v.len() - j,
    {
        j += 1;
    }
    j
}

/// The last index before `n` from which only blanks reach `n`.
pub open spec fn trim_end(s: Seq<char>, n: int) -> int
    decreases n,
{
    if 0 < n <= s.len() && is_blank(s[n - 1]) {
        trim_end(s, n - 1)
    } else {
        n
    }
}

/// `s` without the blanks at either end.
pub open spec fn trim(s: Seq<char>) -> Seq<char> {
    let a = skip_blanks(s, 0);
    let b = trim_end(s, s.len() as int);
    if 0 <= a < b <= s.len() {
        s.subrange(a, b)
    } else {
        seq![]
    }
}

/// A copy of `v[from..to]` without the blanks at either end.
pub fn trimmed(v: &Vec<char>, from: usize, to: usize) -> (r: Vec<char>)
    requires
        from <= to <= v.len(),
    ensures
        r@ == trim(v@.subrange(from as int, to as int)),
{
    let part = slice(v, from, to);
    let a = after_blanks(&part, 0);
    let mut b: usize = part.len();
    while b > 0 && blank(part[b - 1])
        invariant
            b <= part.len(),
            trim_end(part@, part.len() as int) == trim_end(part@, b as int),
        decreases b,
    {
        b -= 1;
    }
    if a < b {
        slice(&part, a, b)
    } else {
        Vec::new()
    }
}

/// The first index at or after `i` that holds `c`, or the length.
pub open spec fn find_char(a: Seq<char>, c: char, i: int) -> int
    decreases a.len() - i,
{
    if 0 <= i < a.len() && a[i] != c {
        find_char(a, c, i + 1)
    } else {
        i
    }
}

/// Finds `c` from `from` on; gives the length where it is not found.
pub fn index_of(a: &Vec<char>, c: char, from: usize) -> (e: usize)
    requires
        from <= a.len(),
    ensures
        e == find_char(a@, c, from as int),
        from <= e <= a.len(),
{
    let mut e: usize = from;
    while e < a.len() && a[e] != c
        invariant
            from <= e <= a.len(),
            find_char(a@, c, from as int) == find_char(a@, c, e as int),
        decreases a.len() - e,
    {
        e += 1;
    }
    e
}

/// Whether `w` stands in `s` at index `i`, letters compared without regard
/// to case. `w` is written in lower case.
pub open spec fn matches_at(s: Seq<char>, i: int, w: Seq<char>) -> bool {
    0 <= i && i + w.len() <= s.len() && forall|k: int|
        0 <= k < w.len() ==> is_letter_of(#[trigger] s[i + k], w[k])
}

/// The first index at or after `i` where `w` stands in `s`.
pub open spec fn find_word(s: Seq<char>, w: Seq<char>, i: int) -> Option<int>
    decreases s.len() - i,
{
    if 0 <= i && i + w.len() <= s.len() {
        if matches_at(s, i, w) {
            Some(i)
        } else {
            find_word(s, w, i + 1)
        }
    } else {
        None
    }
}

/// Whether `w` stands at index `i`, in any case.
pub fn word_at(v: &Vec<char>, i: usize, w: &Vec<char>) -> (b: bool)
    requires
        i + w.len() <= v.len(),
    ensures
        b == matches_at(v@, i as int, w@),
{
    let mut k: usize = 0;
    while k < w.len()
        invariant
            k <= w.len(),
            i + w.len() <= v.len(),
            forall|j: int| 0 <= j < k ==> is_letter_of(#[trigger] v@[i + j], w@[j]),
        decreases w.len() - k,
    {
        if !letter_of(v[i + k], w[k]) {
            assert(!is_letter_of(v@[i + k], w@[k as int]));
            return false;
        }
        k += 1;
    }
    true
}

/// Finds `w`, in any case, from `from` on.
pub fn search(v: &Vec<char>, w: &Vec<char>, from: usize) -> (r: Option<usize>)
    ensures
        match find_word(v@, w@, from as int) {
            Some(k) => r == Some(k as usize) && from <= k && k + w.len() <= v.len(),
            None => r is None,
        },
{
    let mut i: usize = from;
    while i <= v.len() && w.len() <= v.len() - i
        invariant
            from <= i,
            find_word(v@, w@, from as int) == find_word(v@, w@, i as int),
        decreases v.len() - i,
    {
        if word_at(v, i, w) {
            return Some(i);
        }
        i += 1;
    }
    None
}

/// The characters at which a text is cut into pieces.
#[derive(Clone, Copy, Debug, PartialEq, Eq, Structural)]
pub enum Breaks {
    /// White space.
    Spaces,
    /// Blanks, commas and equal signs: what parts the spellings of an option.
    Listing,
}

/// Whether `c` parts two pieces.
pub open spec fn breaks(b: Breaks, c: char) -> bool {
    match b {
        Breaks::Spaces => is_space(c),
        Breaks::Listing => is_blank(c) || c == ',' || c == '=',
    }
}

/// Whether `c` parts two pieces.
pub fn is_break(b: Breaks, c: char) -> (r: bool)
    ensures
        r == breaks(b, c),
{
    match b {
        Breaks::Spaces => space(c),
        Breaks::Listing => blank(c) || c == ',' || c == '=',
    }
}

/// `done` with the piece `s[start..end]`, unless that piece is empty.
pub open spec fn flush(s: Seq<char>, start: int, end: int, done: Seq<Seq<char>>) -> Seq<Seq<char>> {
    if 0 <= start < end <= s.len() {
        done.push(s.subrange(start, end))
    } else {
        done
    }
}

/// The pieces of `s` between breaks, none of them empty. `start` is where
/// the current piece began, `i` the position of the scan.
pub open spec fn pieces_from(s: Seq<char>, b: Breaks, start: int, i: int, done: Seq<Seq<char>>) -> Seq<
    Seq<char>,
>
    decreases s.len() - i,
{
    if 0 <= start <= i < s.len() {
        if breaks(b, s[i]) {
            pieces_from(s, b, i + 1, i + 1, flush(s, start, i, done))
        } else {
            pieces_from(s, b, start, i + 1, done)
        }
    } else {
        flush(s, start, s.len() as int, done)
    }
}

/// The pieces of `s` between breaks, none of them empty.
pub open spec fn pieces(s: Seq<char>, b: Breaks) -> Seq<Seq<char>> {
    pieces_from(s, b, 0, 0, seq![])
}

/// A piece: not empty, and without a break.
pub open spec fn is_piece(w: Seq<char>, b: Breaks) -> bool {
    w.len() > 0 && forall|k: int| 0 <= k < w.len() ==> !breaks(b, #[trigger] w[k])
}

proof fn lemma_pieces_from(s: Seq<char>, b: Breaks, start: int, i: int, done: Seq<Seq<char>>)
    requires
        0 <= start <= i <= s.len(),
        forall|k: int| start <= k < i ==> !breaks(b, #[trigger] s[k]),
        forall|k: int| 0 <= k < done.len() ==> is_piece(#[trigger] done[k], b),
    ensures
        forall|k: int|
            0 <= k < pieces_from(s, b, start, i, done).len() ==> is_piece(
                #[trigger] pieces_from(s, b, start, i, done)[k],
                b,
            ),
    decreases s.len() - i,
{
    let end = if i < s.len() {
        i
    } else {
        s.len() as int
    };
    let more = flush(s, start, end, done);
    assert forall|k: int| 0 <= k < more.len() implies is_piece(#[trigger] more[k], b) by {
        if k < done.len() {
            assert(more[k] == done[k]);
        } else {
            let w = s.subrange(start, end);
            assert forall|j: int| 0 <= j < w.len() implies !breaks(b, #[trigger] w[j]) by {
                assert(w[j] == s[start + j]);
            }
        }
    }
    if i < s.len() {
        if breaks(b, s[i]) {
            lemma_pieces_from(s, b, i + 1, i + 1, more);
            assert(pieces_from(s, b, start, i, done) == pieces_from(s, b, i + 1, i + 1, more));
        } else {
            lemma_pieces_from(s, b, start, i + 1, done);
            assert(pieces_from(s, b, start, i, done) == pieces_from(s, b, start, i + 1, done));
        }
    } else {
        assert(pieces_from(s, b, start, i, done) == more);
    }
}

/// Every piece of a text holds a character, and none holds a break.
pub proof fn lemma_pieces(s: Seq<char>, b: Breaks)
    ensures
        forall|k: int| 0 <= k < pieces(s, b).len() ==> is_piece(#[trigger] pieces(s, b)[k], b),
{
    lemma_pieces_from(s, b, 0, 0, seq![]);
}

/// Pushes a copy of `v[start..end]` unless it is empty.
pub fn keep(v: &Vec<char>, start: usize, end: usize, out: &mut Vec<Vec<char>>)
    requires
        start <= end <= v.len(),
    ensures
        views(final(out)@) == flush(v@, start as int, end as int, views(old(out)@)),
{
    if start < end {
        let piece = slice(v, start, end);
        proof {
            lemma_views_push(out@, piece);
        }
        out.push(piece);
    }
}

/// Cuts a text into its pieces.
pub fn split(v: &Vec<char>, b: Breaks) -> (out: Vec<Vec<char>>)
    ensures
        views(out@) == pieces(v@, b),
{
    let mut out: Vec<Vec<char>> = Vec::new();
    let mut start: usize = 0;
    let mut i: usize = 0;
    assert(views(out@) == Seq::<Seq<char>>::empty());
    while i < v.len()
        invariant
            start <= i <= v.len(),
            pieces(v@, b) == pieces_from(v@, b, start as int, i as int, views(out@)),
        decreases v.len() - i,
    {
        if is_break(b, v[i]) {
            keep(v, start, i, &mut out);
            start = i + 1;
        }
        i += 1;
    }
    keep(v, start, v.len(), &mut out);
    out
}

/// A line that holds nothing but white space.
pub open spec fn is_blank_line(s: Seq<char>) -> bool {
    forall|i: int| 0 <= i < s.len() ==> is_space(#[trigger] s[i])
}

/// Whether a line holds nothing but white space.
pub fn blank_line(v: &Vec<char>) -> (b: bool)
    ensures
        b == is_blank_line(v@),
{
    let mut i: usize = 0;
    while i < v.len()
        invariant
            i <= v.len(),
            forall|k: int| 0 <= k < i ==> is_space(#[trigger] v@[k]),
        decreases v.len() - i,
    {
        if !space(v[i]) {
            return false;
        }
        i += 1;
    }
    true
}

/// The lines of a text, split at each line feed; the feeds themselves are dropped.
/// `start` is where the current line began, `i` the position of the scan.
pub open spec fn lines_from(s: Seq<char>, start: int, i: int, done: Seq<Seq<char>>) -> Seq<Seq<char>>
    decreases s.len() - i,
{
    if !(0 <= start <= i < s.len()) {
        done.push(s.subrange(start, s.len() as int))
    } else if s[i] == '\n' {
        lines_from(s, i + 1, i + 1, done.push(s.subrange(start, i)))
    } else {
        lines_from(s, start, i + 1, done)
    }
}

/// The lines of a text. A text without a line feed is one line.
pub open spec fn lines(s: Seq<char>) -> Seq<Seq<char>> {
    lines_from(s, 0, 0, seq![])
}

/// The first `n` items of `ws` in a row, with `sep` between neighbours.
pub open spec fn joined(ws: Seq<Seq<char>>, sep: char, n: int) -> Seq<char>
    decreases n,
{
    if 1 < n <= ws.len() {
        joined(ws, sep, n - 1) + seq![sep] + ws[n - 1]
    } else if n == 1 && ws.len() >= 1 {
        ws[0]
    } else {
        seq![]
    }
}

/// Whether `c` stands nowhere in `s`.
pub open spec fn lacks(s: Seq<char>, c: char) -> bool {
    forall|k: int| 0 <= k < s.len() ==> #[trigger] s[k] != c
}

/// What the lines read so far stand for: the lines with a feed after each.
pub open spec fn fed(done: Seq<Seq<char>>) -> Seq<char> {
    if done.len() == 0 {
        seq![]
    } else {
        joined(done, '\n', done.len() as int) + seq!['\n']
    }
}

proof fn lemma_joined_push(ws: Seq<Seq<char>>, sep: char, w: Seq<char>)
    ensures
        joined(ws.push(w), sep, (ws.len() + 1) as int) == if ws.len() == 0 {
            w
        } else {
            joined(ws, sep, ws.len() as int) + seq![sep] + w
        },
{
    lemma_joined_prefix(ws, sep, w, ws.len() as int);
}

proof fn lemma_joined_prefix(ws: Seq<Seq<char>>, sep: char, w: Seq<char>, n: int)
    requires
        0 <= n <= ws.len(),
    ensures
        joined(ws.push(w), sep, n) == joined(ws, sep, n),
    decreases n,
{
    if n > 1 {
        lemma_joined_prefix(ws, sep, w, n - 1);
        assert(ws.push(w)[n - 1] == ws[n - 1]);
    } else if n == 1 {
        assert(ws.push(w)[0] == ws[0]);
    }
}

proof fn lemma_lines_from(s: Seq<char>, start: int, i: int, done: Seq<Seq<char>>)
    requires
        0 <= start <= i <= s.len(),
        fed(done) == s.subrange(0, start),
        forall|k: int| 0 <= k < done.len() ==> lacks(#[trigger] done[k], '\n'),
        forall|k: int| start <= k < i ==> s[k] != '\n',
    ensures
        joined(lines_from(s, start, i, done), '\n', lines_from(s, start, i, done).len() as int) == s,
        forall|k: int|
            0 <= k < lines_from(s, start, i, done).len() ==> lacks(
                #[trigger] lines_from(s, start, i, done)[k],
                '\n',
            ),
    decreases s.len() - i,
{
    if i < s.len() {
        if s[i] == '\n' {
            let line = s.subrange(start, i);
            let more = done.push(line);
            lemma_joined_push(done, '\n', line);
            assert(fed(more) =~= s.subrange(0, i + 1));
            assert forall|k: int| 0 <= k < more.len() implies lacks(#[trigger] more[k], '\n') by {
                if k < done.len() {
                    assert(more[k] == done[k]);
                }
            }
            lemma_lines_from(s, i + 1, i + 1, more);
        } else {
            lemma_lines_from(s, start, i + 1, done);
        }
    } else {
        let line = s.subrange(start, s.len() as int);
        let all = done.push(line);
        lemma_joined_push(done, '\n', line);
        assert(joined(all, '\n', all.len() as int) =~= s);
        assert forall|k: int| 0 <= k < all.len() implies lacks(#[trigger] all[k], '\n') by {
            if k < done.len() {
                assert(all[k] == done[k]);
            }
        }
    }
}

/// The lines of a text are what stands between its line feeds: no line
/// holds a feed, and the lines with one feed between neighbours are the text.
pub proof fn lemma_lines(s: Seq<char>)
    ensures
        joined(lines(s), '\n', lines(s).len() as int) == s,
        forall|k: int| 0 <= k < lines(s).len() ==> lacks(#[trigger] lines(s)[k], '\n'),
{
    assert(s.subrange(0, 0) =~= Seq::<char>::empty());
    lemma_lines_from(s, 0, 0, seq![]);
}

/// The views of the items of a sequence.
pub open spec fn views<T: View>(v: Seq<T>) -> Seq<T::V> {
    Seq::new(v.len(), |i: int| v[i]@)
}

/// The views of a sequence with one more item are the views of the
/// sequence with the view of that item.
pub proof fn lemma_views_push<T: View>(s: Seq<T>, x: T)
    ensures
        views(s.push(x)) == views(s).push(x@),
{
    assert(views(s.push(x)) =~= views(s).push(x@));
}

/// Cuts a text into its lines.
pub fn split_lines(v: &Vec<char>) -> (out: Vec<Vec<char>>)
    ensures
        views(out@) == lines(v@),
{
    let mut out: Vec<Vec<char>> = Vec::new();
    let mut start: usize = 0;
    let mut i: usize = 0;
    assert(views(out@) == Seq::<Seq<char>>::empty());
    while i < v.len()
        invariant
            start <= i <= v.len(),
            lines(v@) == lines_from(v@, start as int, i as int, views(out@)),
        decreases v.len() - i,
    {
        if v[i] == '\n' {
            let line = slice(v, start, i);
            proof {
                assert(views(out@.push(line)) == views(out@).push(v@.subrange(start as int, i as int)));
            }
            out.push(line);
            start = i + 1;
        }
        i += 1;
    }
    let line = slice(v, start, v.len());
    proof {
        assert(views(out@.push(line)) == views(out@).push(v@.subrange(start as int, v.len() as int)));
    }
    out.push(line);
    out
}

} // verus!
