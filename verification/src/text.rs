//! Text as a sequence of characters: searching, splitting, trimming, joining.
use vstd::prelude::*;

verus! {

/// `String::push` appends one character to the end of a string.
pub assume_specification[ String::push ](text: &mut String, c: char)
    ensures
        final(text)@ == old(text)@.push(c),
;

/// The characters of a text, one by one.
pub fn chars_of(text: &str) -> (chars: Vec<char>)
    ensures
        chars@ == text@,
{
    let mut chars: Vec<char> = Vec::new();
    for c in it: text.chars()
        invariant
            chars@ == it.seq().take(it.index()),
            it.seq() == text@,
    {
        chars.push(c);
    }
    chars
}

/// The characters from `from` up to `to`, as a string.
pub fn text_of(chars: &[char], from: usize, to: usize) -> (text: String)
    requires
        from <= to <= chars@.len(),
    ensures
        text@ == chars@.subrange(from as int, to as int),
{
    let mut text = String::new();
    for i in from..to
        invariant
            from <= to <= chars@.len(),
            text@ == chars@.subrange(from as int, i as int),
    {
        text.push(chars[i]);
    }
    text
}

/// Whether two texts are the same.
pub fn same(a: &str, b: &str) -> (yes: bool)
    ensures
        yes == (a@ == b@),
{
    a.to_owned() == b.to_owned()
}

/// What the strings of a list hold.
pub open spec fn texts(list: Seq<String>) -> Seq<Seq<char>> {
    list.map_values(|text: String| text@)
}

/// What an optional string holds.
pub open spec fn given(text: Option<String>) -> Option<Seq<char>> {
    match text {
        Some(t) => Some(t@),
        None => None,
    }
}

/// Whether a list holds a text.
pub fn contains(list: &Vec<String>, text: &str) -> (yes: bool)
    ensures
        yes == texts(list@).contains(text@),
{
    for i in 0..list.len()
        invariant
            forall|j: int| 0 <= j < i ==> texts(list@)[j] != text@,
    {
        if same(&list[i], text) {
            assert(texts(list@)[i as int] == text@);
            return true;
        }
    }
    false
}

/// Where `c` first stands in `s`, or the length of `s` if it does not.
pub open spec fn find(s: Seq<char>, c: char) -> int
    decreases s.len(),
{
    if s.len() == 0 || s[0] == c {
        0
    } else {
        1 + find(s.drop_first(), c)
    }
}

/// `find` is the first position of the character.
pub proof fn lemma_find(s: Seq<char>, c: char)
    ensures
        0 <= find(s, c) <= s.len(),
        forall|j: int| 0 <= j < find(s, c) ==> s[j] != c,
        find(s, c) < s.len() ==> s[find(s, c)] == c,
    decreases s.len(),
{
    if s.len() > 0 && s[0] != c {
        let rest = s.drop_first();
        lemma_find(rest, c);
        assert forall|j: int| 0 <= j < find(s, c) implies s[j] != c by {
            if j > 0 {
                assert(s[j] == rest[j - 1]);
            }
        }
    }
}

/// The first position of a character is the only one with nothing before it.
pub proof fn lemma_find_is(s: Seq<char>, c: char, n: int)
    requires
        0 <= n <= s.len(),
        forall|j: int| 0 <= j < n ==> s[j] != c,
        n < s.len() ==> s[n] == c,
    ensures
        find(s, c) == n,
{
    lemma_find(s, c);
    let m = find(s, c);
    if m < n {
        assert(s[m] == c);
    } else if n < m {
        assert(s[n] == c);
    }
}

/// The pieces of `s` between the separators: always one more than there are
/// separators, and some of them may be empty.
pub open spec fn split(s: Seq<char>, sep: char) -> Seq<Seq<char>>
    decreases s.len(),
    via split_decreases
{
    let n = find(s, sep);
    if n < s.len() {
        seq![s.take(n)] + split(s.skip(n + 1), sep)
    } else {
        seq![s]
    }
}

#[via_fn]
proof fn split_decreases(s: Seq<char>, sep: char) {
    lemma_find(s, sep);
}

/// The pieces of `s` between spaces, without the empty ones.
pub open spec fn words(s: Seq<char>) -> Seq<Seq<char>>
    decreases s.len(),
    via words_decreases
{
    let n = find(s, ' ');
    let first = if n > 0 {
        seq![s.take(n)]
    } else {
        seq![]
    };
    if n < s.len() {
        first + words(s.skip(n + 1))
    } else {
        first
    }
}

#[via_fn]
proof fn words_decreases(s: Seq<char>) {
    lemma_find(s, ' ');
}

/// A line without the carriage return that may stand before its line feed.
pub open spec fn without_return(line: Seq<char>) -> Seq<char> {
    if line.len() > 0 && line.last() == '\r' {
        line.drop_last()
    } else {
        line
    }
}

/// The lines of `s`: each ends at a line feed, alone or after a carriage
/// return, and the last one may do without.
pub open spec fn lines(s: Seq<char>) -> Seq<Seq<char>>
    decreases s.len(),
    via lines_decreases
{
    let n = find(s, '\n');
    if s.len() == 0 {
        seq![]
    } else if n < s.len() {
        seq![without_return(s.take(n))] + lines(s.skip(n + 1))
    } else {
        seq![s]
    }
}

#[via_fn]
proof fn lines_decreases(s: Seq<char>) {
    lemma_find(s, '\n');
}

/// The pieces of `text` between the separators, as strings.
pub fn split_text(text: &str, sep: char) -> (pieces: Vec<String>)
    ensures
        texts(pieces@) == split(text@, sep),
{
    let chars = chars_of(text);
    let ghost s = chars@;
    let mut pieces: Vec<String> = Vec::new();
    let mut start: usize = 0;
    let mut i: usize = 0;
    assert(s.skip(0) == s);
    while i < chars.len()
        invariant
            s == chars@,
            start <= i <= s.len(),
            forall|j: int| start <= j < i ==> s[j] != sep,
            texts(pieces@) + split(s.skip(start as int), sep) == split(s, sep),
        decreases s.len() - i,
    {
        if chars[i] == sep {
            let ghost before = texts(pieces@);
            let piece = text_of(&chars, start, i);
            proof {
                let rest = s.skip(start as int);
                lemma_find_is(rest, sep, i - start);
                assert(rest.take(i - start) == piece@);
                assert(rest.skip(i - start + 1) == s.skip(i + 1));
            }
            pieces.push(piece);
            assert(texts(pieces@) == before.push(piece@));
            start = i + 1;
        }
        i = i + 1;
    }
    let ghost before = texts(pieces@);
    let piece = text_of(&chars, start, i);
    proof {
        let rest = s.skip(start as int);
        lemma_find_is(rest, sep, rest.len() as int);
        assert(rest == piece@);
    }
    pieces.push(piece);
    assert(texts(pieces@) == before.push(piece@));
    pieces
}

/// The pieces of `text` between spaces, without the empty ones, as strings.
pub fn words_of(text: &str) -> (pieces: Vec<String>)
    ensures
        texts(pieces@) == words(text@),
{
    let chars = chars_of(text);
    let ghost s = chars@;
    let mut pieces: Vec<String> = Vec::new();
    let mut start: usize = 0;
    let mut i: usize = 0;
    assert(s.skip(0) == s);
    while i < chars.len()
        invariant
            s == chars@,
            start <= i <= s.len(),
            forall|j: int| start <= j < i ==> s[j] != ' ',
            texts(pieces@) + words(s.skip(start as int)) == words(s),
        decreases s.len() - i,
    {
        if chars[i] == ' ' {
            let ghost before = texts(pieces@);
            proof {
                let rest = s.skip(start as int);
                lemma_find_is(rest, ' ', i - start);
                assert(rest.skip(i - start + 1) == s.skip(i + 1));
            }
            if start < i {
                let piece = text_of(&chars, start, i);
                assert(s.skip(start as int).take(i - start) == piece@);
                pieces.push(piece);
                assert(texts(pieces@) == before.push(piece@));
            }
            start = i + 1;
        }
        i = i + 1;
    }
    let ghost before = texts(pieces@);
    proof {
        let rest = s.skip(start as int);
        lemma_find_is(rest, ' ', rest.len() as int);
    }
    if start < i {
        let piece = text_of(&chars, start, i);
        assert(s.skip(start as int).take(i - start) == piece@);
        pieces.push(piece);
        assert(texts(pieces@) == before.push(piece@));
    }
    pieces
}

/// Whether a character is white space: the `White_Space` property of Unicode.
pub open spec fn is_space(c: char) -> bool {
    ||| '\x09' <= c && c <= '\x0d'
    ||| c == ' '
    ||| c == '\u{85}'
    ||| c == '\u{a0}'
    ||| c == '\u{1680}'
    ||| '\u{2000}' <= c && c <= '\u{200a}'
    ||| c == '\u{2028}'
    ||| c == '\u{2029}'
    ||| c == '\u{202f}'
    ||| c == '\u{205f}'
    ||| c == '\u{3000}'
}

/// A text without the white space at its end.
pub open spec fn trimmed_end(s: Seq<char>) -> Seq<char>
    decreases s.len(),
{
    if s.len() > 0 && is_space(s.last()) {
        trimmed_end(s.drop_last())
    } else {
        s
    }
}

/// A text without the white space at its start.
pub open spec fn trimmed_start(s: Seq<char>) -> Seq<char>
    decreases s.len(),
{
    if s.len() > 0 && is_space(s[0]) {
        trimmed_start(s.drop_first())
    } else {
        s
    }
}

/// A text without the white space at either end.
pub open spec fn trimmed(s: Seq<char>) -> Seq<char> {
    trimmed_end(trimmed_start(s))
}

/// Whether a character is white space.
pub fn is_whitespace(c: char) -> (yes: bool)
    ensures
        yes == is_space(c),
{
    ('\x09' <= c && c <= '\x0d') || c == ' ' || c == '\u{85}' || c == '\u{a0}' || c == '\u{1680}' || (
    '\u{2000}' <= c && c <= '\u{200a}') || c == '\u{2028}' || c == '\u{2029}' || c == '\u{202f}' || c
        == '\u{205f}' || c == '\u{3000}'
}

/// Where the white space starts that stands before `end`.
pub fn skip_back(chars: &[char], end: usize) -> (start: usize)
    requires
        end <= chars@.len(),
    ensures
        start <= end,
        trimmed_end(chars@.take(end as int)) == chars@.take(start as int),
{
    let mut i: usize = end;
    while i > 0 && is_whitespace(chars[i - 1])
        invariant
            i <= end <= chars@.len(),
            trimmed_end(chars@.take(end as int)) == trimmed_end(chars@.take(i as int)),
        decreases i,
    {
        assert(chars@.take(i as int).drop_last() == chars@.take(i - 1));
        i = i - 1;
    }
    i
}

/// A text without the white space at either end, as a string.
pub fn trim(text: &str) -> (shorter: String)
    ensures
        shorter@ == trimmed(text@),
{
    let chars = chars_of(text);
    let ghost s = chars@;
    let mut from: usize = 0;
    assert(s.skip(0) == s);
    while from < chars.len() && is_whitespace(chars[from])
        invariant
            s == chars@,
            from <= s.len(),
            trimmed_start(s) == trimmed_start(s.skip(from as int)),
        decreases s.len() - from,
    {
        assert(s.skip(from as int).drop_first() == s.skip(from + 1));
        from = from + 1;
    }
    let ghost rest = s.skip(from as int);
    let mut to: usize = chars.len();
    assert(rest.take(rest.len() as int) == rest);
    while to > from && is_whitespace(chars[to - 1])
        invariant
            s == chars@,
            from <= to <= s.len(),
            rest == s.skip(from as int),
            trimmed_end(rest) == trimmed_end(rest.take(to - from)),
        decreases to,
    {
        assert(rest.take(to - from).drop_last() == rest.take(to - 1 - from));
        to = to - 1;
    }
    assert(rest.take(to - from) == s.subrange(from as int, to as int));
    text_of(&chars, from, to)
}

/// Texts one after the other, with `sep` between them.
pub open spec fn joined(parts: Seq<Seq<char>>, sep: Seq<char>) -> Seq<char>
    decreases parts.len(),
{
    if parts.len() == 0 {
        seq![]
    } else if parts.len() == 1 {
        parts[0]
    } else {
        joined(parts.drop_last(), sep) + sep + parts.last()
    }
}

/// Texts one after the other, with `sep` between them, as a string.
pub fn join(parts: &Vec<String>, sep: &str) -> (text: String)
    ensures
        text@ == joined(texts(parts@), sep@),
{
    let ghost all = texts(parts@);
    let mut text = String::new();
    for i in 0..parts.len()
        invariant
            all == texts(parts@),
            text@ == joined(all.take(i as int), sep@),
    {
        assert(all.take(i + 1).drop_last() == all.take(i as int));
        assert(all.take(i + 1).last() == parts@[i as int]@);
        if i > 0 {
            text.append(sep);
        }
        text.append(&parts[i]);
    }
    assert(all.take(all.len() as int) == all);
    text
}

/// The lines of `text`, as strings.
pub fn lines_of(text: &str) -> (found: Vec<String>)
    ensures
        texts(found@) == lines(text@),
{
    let chars = chars_of(text);
    let ghost s = chars@;
    let mut found: Vec<String> = Vec::new();
    let mut start: usize = 0;
    let mut i: usize = 0;
    assert(s.skip(0) == s);
    while i < chars.len()
        invariant
            s == chars@,
            start <= i <= s.len(),
            forall|j: int| start <= j < i ==> s[j] != '\n',
            texts(found@) + lines(s.skip(start as int)) == lines(s),
        decreases s.len() - i,
    {
        if chars[i] == '\n' {
            let ghost before = texts(found@);
            let ghost rest = s.skip(start as int);
            proof {
                lemma_find_is(rest, '\n', i - start);
                assert(rest.skip(i - start + 1) == s.skip(i + 1));
            }
            let end: usize = if start < i && chars[i - 1] == '\r' {
                i - 1
            } else {
                i
            };
            let line = text_of(&chars, start, end);
            assert(without_return(rest.take(i - start)) == line@);
            found.push(line);
            assert(texts(found@) == before.push(line@));
            start = i + 1;
        }
        i = i + 1;
    }
    let ghost rest = s.skip(start as int);
    if start < i {
        let ghost before = texts(found@);
        let line = text_of(&chars, start, i);
        proof {
            lemma_find_is(rest, '\n', rest.len() as int);
            assert(rest == line@);
        }
        found.push(line);
        assert(texts(found@) == before.push(line@));
    } else {
        assert(rest.len() == 0);
        assert(texts(found@) + lines(rest) == texts(found@));
    }
    found
}

/// Whether `a` comes before `b`, compared character by character.
pub open spec fn before(a: Seq<char>, b: Seq<char>) -> bool
    decreases a.len(),
{
    if b.len() == 0 {
        false
    } else if a.len() == 0 {
        true
    } else if a[0] == b[0] {
        before(a.drop_first(), b.drop_first())
    } else {
        a[0] < b[0]
    }
}

/// The order of texts leaves no two of them apart: one comes first, unless they
/// are the same.
pub proof fn lemma_before_total(a: Seq<char>, b: Seq<char>)
    ensures
        before(a, b) || before(b, a) || a == b,
        !(before(a, b) && before(b, a)),
        !before(a, a),
    decreases a.len(),
{
    if a.len() > 0 {
        lemma_before_total(a.drop_first(), a.drop_first());
    }
    if a.len() > 0 && b.len() > 0 && a[0] == b[0] {
        lemma_before_total(a.drop_first(), b.drop_first());
        if a.drop_first() == b.drop_first() {
            assert(a == seq![a[0]] + a.drop_first());
            assert(b == seq![b[0]] + b.drop_first());
        }
    } else if a.len() == 0 && b.len() == 0 {
        assert(a == b);
    }
}

pub proof fn lemma_before_transitive(a: Seq<char>, b: Seq<char>, c: Seq<char>)
    requires
        before(a, b),
        before(b, c),
    ensures
        before(a, c),
    decreases a.len(),
{
    if a.len() > 0 && a[0] == b[0] && b[0] == c[0] {
        lemma_before_transitive(a.drop_first(), b.drop_first(), c.drop_first());
    }
}

/// Whether `a` comes before `b`.
pub fn is_before(a: &str, b: &str) -> (yes: bool)
    ensures
        yes == before(a@, b@),
{
    let left = chars_of(a);
    let right = chars_of(b);
    let ghost s = left@;
    let ghost t = right@;
    let mut i: usize = 0;
    assert(s.skip(0) == s);
    assert(t.skip(0) == t);
    while i < left.len() && i < right.len() && left[i] == right[i]
        invariant
            s == left@,
            t == right@,
            i <= s.len(),
            i <= t.len(),
            before(s.skip(i as int), t.skip(i as int)) == before(s, t),
        decreases s.len() - i,
    {
        assert(s.skip(i as int).drop_first() == s.skip(i + 1));
        assert(t.skip(i as int).drop_first() == t.skip(i + 1));
        i = i + 1;
    }
    if i == right.len() {
        false
    } else if i == left.len() {
        true
    } else {
        left[i] < right[i]
    }
}

} // verus!
