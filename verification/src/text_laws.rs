//! How texts are cut, trimmed, joined and compared.
use vstd::prelude::*;

use crate::text::{
    before, is_space, joined, lemma_find_is, lines, split, trimmed, trimmed_end, trimmed_start,
};

verus! {

/// Whether a character stands nowhere in a text.
pub open spec fn lacks(s: Seq<char>, c: char) -> bool {
    forall|i: int| 0 <= i < s.len() ==> #[trigger] s[i] != c
}

/// Whether a text is nothing but white space.
pub open spec fn all_space(s: Seq<char>) -> bool {
    forall|i: int| 0 <= i < s.len() ==> is_space(#[trigger] s[i])
}

/// A text is cut at every separator, and nowhere else.
pub proof fn law_text_is_cut_at_separators(a: Seq<char>, sep: char, b: Seq<char>)
    requires
        lacks(a, sep),
    ensures
        split(a, sep) == seq![a],
        split(a + seq![sep] + b, sep) == seq![a] + split(b, sep),
{
    lemma_find_is(a, sep, a.len() as int);
    let s = a + seq![sep] + b;
    let n = a.len() as int;
    assert forall|j: int| 0 <= j < n implies s[j] != sep by {
        assert(s[j] == a[j]);
    }
    assert(s[n] == sep);
    lemma_find_is(s, sep, n);
    assert(s.take(n) == a);
    assert(s.skip(n + 1) == b);
}

/// A line ends at a line feed, with or without a carriage return before it; the
/// last may do without.
pub proof fn law_lines_end_at_feeds(a: Seq<char>, b: Seq<char>)
    requires
        lacks(a, '\n'),
    ensures
        lines(Seq::empty()) == Seq::<Seq<char>>::empty(),
        a.len() > 0 ==> lines(a) == seq![a],
        lines(a + seq!['\r', '\n'] + b) == seq![a] + lines(b),
        a.len() == 0 || a.last() != '\r' ==> lines(a + seq!['\n'] + b) == seq![a] + lines(b),
{
    lemma_find_is(a, '\n', a.len() as int);
    let n = a.len() as int;
    let s = a + seq!['\n'] + b;
    assert forall|j: int| 0 <= j < n implies s[j] != '\n' by {
        assert(s[j] == a[j]);
    }
    assert(s[n] == '\n');
    lemma_find_is(s, '\n', n);
    assert(s.take(n) == a);
    assert(s.skip(n + 1) == b);
    let t = a + seq!['\r', '\n'] + b;
    assert forall|j: int| 0 <= j < n + 1 implies t[j] != '\n' by {
        if j < n {
            assert(t[j] == a[j]);
        } else {
            assert(t[j] == '\r');
        }
    }
    assert(t[n + 1] == '\n');
    lemma_find_is(t, '\n', n + 1);
    assert(t.take(n + 1) == a.push('\r'));
    assert(a.push('\r').drop_last() == a);
    assert(t.skip(n + 2) == b);
}

/// Trimming takes the white space from both ends, and nothing else.
pub proof fn law_only_white_space_is_trimmed(a: Seq<char>, s: Seq<char>, b: Seq<char>)
    requires
        all_space(a),
        all_space(b),
        s.len() > 0 ==> !is_space(s[0]) && !is_space(s.last()),
    ensures
        trimmed(a + s + b) == s,
{
    lemma_trimmed_start(a, s + b);
    assert(a + s + b == a + (s + b));
    if s.len() > 0 {
        assert((s + b)[0] == s[0]);
        assert(trimmed_start(s + b) == s + b);
        lemma_trimmed_end(s, b);
    } else {
        assert(s + b == b);
        lemma_trimmed_start(b, Seq::empty());
        assert(b + Seq::<char>::empty() == b);
        assert(trimmed_start(Seq::<char>::empty()) == Seq::<char>::empty());
        assert(s == Seq::<char>::empty());
    }
}

proof fn lemma_trimmed_start(a: Seq<char>, s: Seq<char>)
    requires
        all_space(a),
    ensures
        trimmed_start(a + s) == trimmed_start(s),
    decreases a.len(),
{
    let all = a + s;
    if a.len() == 0 {
        assert(all == s);
    } else {
        assert(is_space(a[0]));
        assert(all[0] == a[0]);
        let rest = a.drop_first();
        assert forall|i: int| 0 <= i < rest.len() implies is_space(#[trigger] rest[i]) by {
            assert(is_space(a[i + 1]));
        }
        assert(all.drop_first() == rest + s);
        lemma_trimmed_start(rest, s);
    }
}

pub proof fn lemma_trimmed_end(s: Seq<char>, b: Seq<char>)
    requires
        all_space(b),
        s.len() > 0 ==> !is_space(s.last()),
    ensures
        trimmed_end(s + b) == s,
    decreases b.len(),
{
    let all = s + b;
    if b.len() == 0 {
        assert(all == s);
    } else {
        assert(is_space(b[b.len() - 1]));
        assert(all.last() == b.last());
        let rest = b.drop_last();
        assert forall|i: int| 0 <= i < rest.len() implies is_space(#[trigger] rest[i]) by {
            assert(is_space(b[i]));
        }
        assert(all.drop_last() == s + rest);
        lemma_trimmed_end(s, rest);
    }
}

/// Texts are joined with the separator between each two of them.
pub proof fn law_texts_are_joined(parts: Seq<Seq<char>>, part: Seq<char>, sep: Seq<char>)
    ensures
        joined(Seq::empty(), sep) == Seq::<char>::empty(),
        joined(seq![part], sep) == part,
        parts.len() > 0 ==> joined(parts.push(part), sep) == joined(parts, sep) + sep + part,
{
    assert(parts.push(part).drop_last() == parts);
}

/// Of two texts that are the same up to some place, that comes first which ends
/// there, or has the lower character there.
pub proof fn law_texts_are_ordered(a: Seq<char>, s: Seq<char>, t: Seq<char>)
    requires
        s.len() > 0 && t.len() > 0 ==> s[0] != t[0],
    ensures
        before(a + s, a + t) <==> t.len() > 0 && (s.len() == 0 || s[0] < t[0]),
    decreases a.len(),
{
    if a.len() == 0 {
        assert(a + s == s);
        assert(a + t == t);
    } else {
        assert((a + s).drop_first() == a.drop_first() + s);
        assert((a + t).drop_first() == a.drop_first() + t);
        assert((a + s)[0] == a[0] && (a + t)[0] == a[0]);
        law_texts_are_ordered(a.drop_first(), s, t);
    }
}

} // verus!
