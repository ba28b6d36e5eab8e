//! Which hook sites a source has, and that they stay the same when it is
//! minified.
//!
//! Where a site is read off depends on the white space of the source only by
//! where there is some. So it can be read off the source with every run of white
//! space replaced by one space, and that is the same before and after layout is
//! removed.
use vstd::prelude::*;

use crate::js::{find_last, is_address, is_name, is_name_char, site_at, sites_before, sites_of};
use crate::js_laws::{law_compact_is_idempotent, lemma_sites_before};
use crate::lexeme::{
    breaks, code_after, compacted, first_lexeme, is_blank, lemma_first_lexeme, lex, spell, spelling,
    stripped, tidy, uncomment, Lexeme,
};
use crate::text::{is_space, trimmed_end};
use crate::text_laws::{all_space, lemma_trimmed_end};

verus! {

/// A text that one more character is put behind: white space only as one space,
/// and only behind something else.
spec fn step(text: Seq<char>, c: char) -> Seq<char> {
    if !is_space(c) {
        text.push(c)
    } else if text.len() == 0 || text.last() == ' ' {
        text
    } else {
        text.push(' ')
    }
}

/// A text that the characters of `s` are put behind in this way.
spec fn squeezed(text: Seq<char>, s: Seq<char>) -> Seq<char>
    decreases s.len(),
{
    if s.len() == 0 {
        text
    } else {
        step(squeezed(text, s.drop_last()), s.last())
    }
}

/// A text with one space for each run of white space, and none at its start.
spec fn squeeze(s: Seq<char>) -> Seq<char> {
    squeezed(seq![], s)
}

proof fn lemma_squeezed_concat(text: Seq<char>, a: Seq<char>, b: Seq<char>)
    ensures
        squeezed(text, a + b) == squeezed(squeezed(text, a), b),
    decreases b.len(),
{
    if b.len() == 0 {
        assert(a + b == a);
    } else {
        assert((a + b).drop_last() == a + b.drop_last());
        lemma_squeezed_concat(text, a, b.drop_last());
    }
}

proof fn lemma_squeezed_char(text: Seq<char>, c: char)
    ensures
        squeezed(text, seq![c]) == step(text, c),
{
    assert(seq![c].drop_last() == Seq::<char>::empty());
    assert(squeezed(text, seq![c].drop_last()) == text);
}

/// The end of a squeezed text is that of the text, or a space in place of white
/// space.
proof fn lemma_squeeze_end(s: Seq<char>)
    ensures
        s.len() > 0 && !is_space(s.last()) ==> squeeze(s) == squeeze(s.drop_last()).push(s.last()),
        s.len() > 0 && is_space(s.last()) ==> squeeze(s).len() == 0 || squeeze(s).last() == ' ',
        s.len() == 0 ==> squeeze(s).len() == 0,
{
}

/// Squeezing and taking white space from the end can be done in either order.
proof fn lemma_squeeze_trimmed(s: Seq<char>)
    ensures
        trimmed_end(squeeze(s)) == squeeze(trimmed_end(s)),
        trimmed_end(s).len() > 0 ==> !is_space(trimmed_end(s).last()),
    decreases s.len(),
{
    if s.len() > 0 {
        let p = squeeze(s.drop_last());
        lemma_squeeze_trimmed(s.drop_last());
        if is_space(s.last()) && squeeze(s) != p {
            assert(squeeze(s) == p.push(' '));
            assert(squeeze(s).drop_last() == p);
        }
    }
}

/// Whether all characters may stand in a name.
spec fn clean(s: Seq<char>) -> bool {
    forall|i: int| 0 <= i < s.len() ==> is_name_char(#[trigger] s[i])
}

proof fn lemma_clean_push(s: Seq<char>, c: char)
    ensures
        clean(s.push(c)) <==> clean(s) && is_name_char(c),
{
    let t = s.push(c);
    if clean(t) {
        assert(is_name_char(t[s.len() as int]));
        assert forall|i: int| 0 <= i < s.len() implies is_name_char(#[trigger] s[i]) by {
            assert(is_name_char(t[i]));
        }
    }
}

/// What stands behind the last quote is a name before squeezing if and only if it
/// is one after it, and then the same.
proof fn lemma_squeeze_quote(s: Seq<char>)
    ensures
        ({
            let t = squeeze(s);
            let q = find_last(s, '"');
            let r = find_last(t, '"');
            &&& -1 <= q < s.len()
            &&& -1 <= r < t.len()
            &&& q >= 0 <==> r >= 0
            &&& q >= 0 ==> {
                &&& t.take(r) == squeeze(s.take(q))
                &&& clean(s.skip(q + 1)) <==> clean(t.skip(r + 1))
                &&& clean(s.skip(q + 1)) ==> s.skip(q + 1) == t.skip(r + 1)
            }
        }),
    decreases s.len(),
{
    if s.len() > 0 {
        let fewer = s.drop_last();
        let c = s.last();
        let p = squeeze(fewer);
        let t = squeeze(s);
        let q = find_last(fewer, '"');
        let r = find_last(p, '"');
        lemma_squeeze_quote(fewer);
        if c == '"' {
            assert(t == p.push(c));
            assert(t.take(t.len() - 1) == p);
            assert(s.take(s.len() - 1) == fewer);
            assert(t.skip(t.len() as int) == Seq::<char>::empty());
            assert(s.skip(s.len() as int) == Seq::<char>::empty());
        } else {
            assert(find_last(s, '"') == q);
            if t != p {
                assert(t.drop_last() == p);
                assert(t.last() != '"');
                assert(find_last(t, '"') == r);
            }
            if q >= 0 {
                let name = fewer.skip(q + 1);
                let other = p.skip(r + 1);
                assert(s.take(q) == fewer.take(q));
                assert(t.take(r) == p.take(r));
                assert(s.skip(q + 1) == name.push(c));
                lemma_clean_push(name, c);
                if is_space(c) {
                    assert(!is_name_char(c));
                    if t == p {
                        lemma_find_last_stands(p, '"');
                        assert(p.last() == ' ');
                        assert(other.last() == ' ');
                        assert(!is_name_char(other[other.len() - 1]));
                    } else {
                        assert(t.skip(r + 1) == other.push(' '));
                        lemma_clean_push(other, ' ');
                    }
                } else {
                    assert(t.skip(r + 1) == other.push(c));
                    lemma_clean_push(other, c);
                }
            }
        }
    }
}

proof fn lemma_find_last_stands(s: Seq<char>, c: char)
    ensures
        -1 <= find_last(s, c) < s.len(),
        find_last(s, c) >= 0 ==> s[find_last(s, c)] == c,
    decreases s.len(),
{
    if s.len() > 0 && s.last() != c {
        lemma_find_last_stands(s.drop_last(), c);
    }
}

/// A site is read off the squeezed text as off the text.
proof fn lemma_squeeze_site(s: Seq<char>)
    ensures
        site_at(squeeze(s), squeeze(s).len() as int) == site_at(s, s.len() as int),
{
    let t = squeeze(s);
    assert(s.take(s.len() as int) == s);
    assert(t.take(t.len() as int) == t);
    let first = trimmed_end(s);
    lemma_squeeze_trimmed(s);
    lemma_squeeze_end(first);
    if first.len() > 0 {
        let rest = first.drop_last();
        assert(squeeze(first).drop_last() == squeeze(rest));
        let quoted = trimmed_end(rest);
        lemma_squeeze_trimmed(rest);
        lemma_squeeze_end(quoted);
        if quoted.len() > 0 {
            let opened = quoted.drop_last();
            assert(squeeze(quoted).drop_last() == squeeze(opened));
            lemma_squeeze_quote(opened);
            let quote = find_last(opened, '"');
            if quote >= 0 {
                let head = opened.take(quote);
                let call = trimmed_end(head);
                lemma_squeeze_trimmed(head);
                lemma_squeeze_end(call);
                if call.len() > 0 {
                    let before = call.drop_last();
                    lemma_squeeze_end(before);
                    let after = squeeze(call);
                    assert(after.drop_last() == squeeze(before));
                    if before.len() > 0 {
                        assert(call[call.len() - 2] == before.last());
                    }
                    if squeeze(before).len() > 0 {
                        assert(after[after.len() - 2] == squeeze(before).last());
                    }
                }
            }
        }
    }
}

/// What is squeezed of a beginning is a beginning of what is squeezed.
proof fn lemma_squeeze_prefix(s: Seq<char>, n: int)
    requires
        0 <= n <= s.len(),
    ensures
        squeeze(s.take(n)).len() <= squeeze(s).len(),
        squeeze(s).take(squeeze(s.take(n)).len() as int) == squeeze(s.take(n)),
    decreases s.len() - n,
{
    if n == s.len() {
        assert(s.take(n) == s);
        assert(squeeze(s).take(squeeze(s).len() as int) == squeeze(s));
    } else {
        let a = squeeze(s.take(n));
        let b = squeeze(s.take(n + 1));
        lemma_squeeze_prefix(s, n + 1);
        assert(s.take(n + 1).drop_last() == s.take(n));
        assert(s.take(n + 1).last() == s[n]);
        assert(b.take(a.len() as int) == a);
        assert(squeeze(s).take(b.len() as int).take(a.len() as int) == squeeze(s).take(
            a.len() as int,
        ));
    }
}

/// The character at a place, in the squeezed text.
proof fn lemma_squeeze_at(s: Seq<char>, n: int)
    requires
        0 <= n < s.len(),
    ensures
        ({
            let t = squeeze(s);
            let m = squeeze(s.take(n)).len() as int;
            let k = squeeze(s.take(n + 1)).len() as int;
            &&& !is_space(s[n]) ==> k == m + 1 && k <= t.len() && t[m] == s[n]
            &&& is_space(s[n]) ==> k == m || k == m + 1 && k <= t.len() && t[m] == ' '
            &&& is_space(s[n]) && n > 0 && !is_space(s[n - 1]) ==> k == m + 1
        }),
{
    let b = squeeze(s.take(n + 1));
    let a = squeeze(s.take(n));
    lemma_squeeze_prefix(s, n + 1);
    assert(s.take(n + 1).drop_last() == s.take(n));
    assert(s.take(n + 1).last() == s[n]);
    assert(b == step(a, s[n]));
    if b.len() > a.len() {
        assert(squeeze(s)[a.len() as int] == b[a.len() as int]);
    }
    if n > 0 {
        lemma_squeeze_end(s.take(n));
        assert(s.take(n).last() == s[n - 1]);
        assert(is_space(' '));
    }
}

/// A character that is no white space comes directly behind another in the text
/// if and only if it does in the squeezed text.
proof fn lemma_squeeze_next(s: Seq<char>, n: int, c: char)
    requires
        0 <= n < s.len(),
        !is_space(s[n]),
        !is_space(c),
    ensures
        ({
            let t = squeeze(s);
            let m = squeeze(s.take(n)).len() as int;
            &&& squeeze(s.take(n + 1)).len() == m + 1
            &&& m < t.len()
            &&& (n + 1 < s.len() && s[n + 1] == c) <==> (m + 1 < t.len() && t[m + 1] == c)
        }),
{
    lemma_squeeze_at(s, n);
    if n + 1 < s.len() {
        lemma_squeeze_at(s, n + 1);
        assert(is_space(' '));
    } else {
        assert(s.take(n + 1) == s);
    }
}

proof fn lemma_squeeze_address(s: Seq<char>, n: int)
    requires
        0 <= n < s.len(),
        !is_space(s[n]),
    ensures
        is_address(squeeze(s), squeeze(s.take(n)).len() as int) == is_address(s, n),
{
    let t = squeeze(s);
    let m = squeeze(s.take(n)).len() as int;
    lemma_squeeze_at(s, n);
    lemma_squeeze_next(s, n, 'V');
    if n + 1 < s.len() && s[n + 1] == 'V' {
        lemma_squeeze_next(s, n + 1, 'A');
        if n + 2 < s.len() && s[n + 2] == 'A' {
            lemma_squeeze_next(s, n + 2, '.');
        }
    }
}

/// The sites are read off the squeezed text as off the text.
proof fn lemma_squeeze_sites(s: Seq<char>, n: int)
    requires
        0 <= n <= s.len(),
    ensures
        sites_before(squeeze(s), squeeze(s.take(n)).len() as int) == sites_before(s, n),
    decreases n,
{
    let t = squeeze(s);
    if n == 0 {
        assert(s.take(0) == Seq::<char>::empty());
    } else {
        let m = squeeze(s.take(n - 1)).len() as int;
        lemma_squeeze_sites(s, n - 1);
        lemma_squeeze_at(s, n - 1);
        if is_space(s[n - 1]) {
            assert(is_space(' '));
            assert(!is_address(s, n - 1));
            if squeeze(s.take(n)).len() == m + 1 {
                assert(!is_address(t, m));
            }
        } else {
            lemma_squeeze_address(s, n - 1);
            lemma_squeeze_prefix(s, n - 1);
            lemma_squeeze_site(s.take(n - 1));
            assert(s.take(n - 1).take(n - 1) == s.take(n - 1));
            assert(t.take(m).take(m) == t.take(m));
            assert(site_at(t, m) == site_at(s, n - 1));
        }
    }
}

/// A space at the end adds no site.
proof fn lemma_space_adds_no_site(s: Seq<char>, n: int)
    requires
        n <= s.len(),
    ensures
        sites_before(s.push(' '), n) == sites_before(s, n),
    decreases n,
{
    if n > 0 {
        let t = s.push(' ');
        lemma_space_adds_no_site(s, n - 1);
        assert(t.take(n - 1) == s.take(n - 1));
        assert(site_at(t, n - 1) == site_at(s, n - 1));
        assert(is_address(t, n - 1) == is_address(s, n - 1));
    }
}

/// Whether lexemes hold no comment, and no blank but of the three kinds.
spec fn plain(xs: Seq<Lexeme>) -> bool {
    forall|i: int|
        0 <= i < xs.len() ==> match #[trigger] xs[i] {
            Lexeme::Comment(_) => false,
            Lexeme::Blank(c) => is_blank(c),
            _ => true,
        }
}

proof fn lemma_plain_concat(a: Seq<Lexeme>, b: Seq<Lexeme>)
    requires
        plain(a),
        plain(b),
    ensures
        plain(a + b),
{
    let all = a + b;
    assert forall|i: int| 0 <= i < all.len() implies match #[trigger] all[i] {
        Lexeme::Comment(_) => false,
        Lexeme::Blank(c) => is_blank(c),
        _ => true,
    } by {
        if i < a.len() {
            assert(all[i] == a[i]);
        } else {
            assert(all[i] == b[i - a.len()]);
        }
    }
}

proof fn lemma_breaks_are_plain(comment: Seq<char>)
    ensures
        plain(breaks(comment)),
    decreases comment.len(),
{
    if comment.len() > 0 {
        lemma_breaks_are_plain(comment.drop_first());
        lemma_plain_concat(seq![Lexeme::Break], breaks(comment.drop_first()));
    }
}

proof fn lemma_uncommented_is_plain(s: Seq<char>, prev: char)
    ensures
        plain(uncomment(lex(s, prev))),
    decreases s.len(),
{
    if s.len() > 0 {
        let x = first_lexeme(s, prev);
        lemma_first_lexeme(s, prev);
        let after = code_after(x, prev);
        let rest = s.skip(spelling(x).len() as int);
        let xs = lex(rest, after);
        lemma_uncommented_is_plain(rest, after);
        assert((seq![x] + xs).drop_first() == xs);
        match x {
            Lexeme::Comment(t) => {
                lemma_breaks_are_plain(t);
                lemma_plain_concat(breaks(t), uncomment(xs));
            },
            _ => {
                lemma_plain_concat(seq![x], uncomment(xs));
            },
        }
    }
}

/// Removing layout leaves the squeezed text as it is, but for a space at the end.
/// `text` is what came before the lexemes, and `other` what is left of that.
proof fn lemma_squeeze_tidied(
    xs: Seq<Lexeme>,
    begun: bool,
    gap: bool,
    text: Seq<char>,
    other: Seq<char>,
)
    requires
        plain(xs),
        !begun ==> !gap && (text.len() == 0 || text.last() == ' '),
        text == (if gap {
            step(other, ' ')
        } else {
            other
        }),
    ensures
        ({
            let a = squeezed(text, spell(xs));
            let b = squeezed(other, spell(tidy(xs, begun, gap)));
            a == b || a == step(b, ' ')
        }),
    decreases xs.len(),
{
    if xs.len() > 0 {
        let x = xs[0];
        let rest = xs.drop_first();
        let t = spelling(x);
        assert(is_space(' ') && is_space('\n'));
        assert forall|i: int| 0 <= i < rest.len() implies match #[trigger] rest[i] {
            Lexeme::Comment(_) => false,
            Lexeme::Blank(c) => is_blank(c),
            _ => true,
        } by {
            assert(rest[i] == xs[i + 1]);
        }
        lemma_squeezed_concat(text, t, spell(rest));
        match x {
            Lexeme::Code(_) => {
                let ts = tidy(rest, true, false);
                let piece = seq![x] + ts;
                assert(piece.drop_first() == ts);
                assert(spell(piece) == t + spell(ts));
                if gap {
                    let spaced = seq![Lexeme::Blank(' '), x] + ts;
                    assert(spaced.drop_first() == piece);
                    assert(spell(spaced) == seq![' '] + spell(piece));
                    lemma_squeezed_concat(other, seq![' '], spell(piece));
                    lemma_squeezed_char(other, ' ');
                }
                lemma_squeezed_concat(text, t, spell(ts));
                let next = squeezed(text, t);
                lemma_squeeze_tidied(rest, true, false, next, next);
            },
            Lexeme::Break => {
                let ts = tidy(rest, false, false);
                lemma_squeezed_char(text, '\n');
                let next = step(text, '\n');
                if begun {
                    let piece = seq![x] + ts;
                    assert(piece.drop_first() == ts);
                    assert(spell(piece) == seq!['\n'] + spell(ts));
                    lemma_squeezed_concat(other, seq!['\n'], spell(ts));
                    lemma_squeezed_char(other, '\n');
                    assert(step(other, '\n') == next);
                }
                lemma_squeeze_tidied(rest, false, false, next, next);
            },
            Lexeme::Blank(c) => {
                assert(is_blank(xs[0]->Blank_0));
                assert(is_space(c));
                lemma_squeezed_char(text, c);
                let next = step(text, c);
                if begun {
                    assert(next == step(other, ' '));
                }
                lemma_squeeze_tidied(rest, begun, begun, next, other);
            },
            Lexeme::Comment(_) => {
                assert(!(xs[0] is Comment));
            },
        }
    }
}

/// The hook sites of a module are the same before and after it is minified, in the
/// same order.
pub proof fn law_sites_survive_minifying(source: Seq<char>)
    ensures
        sites_of(compacted(source)) == sites_of(source),
{
    let long = stripped(source);
    let short = compacted(source);
    let xs = uncomment(lex(source, '\0'));
    law_compact_is_idempotent(source);
    lemma_uncommented_is_plain(source, '\0');
    lemma_squeeze_tidied(xs, false, false, seq![], seq![]);
    assert(long.take(long.len() as int) == long);
    assert(short.take(short.len() as int) == short);
    lemma_squeeze_sites(long, long.len() as int);
    lemma_squeeze_sites(short, short.len() as int);
    let a = squeeze(long);
    let b = squeeze(short);
    if a != b {
        assert(a == b.push(' '));
        assert(!is_address(a, b.len() as int));
        lemma_space_adds_no_site(b, b.len() as int);
    }
}

/// A letter or a digit of ASCII, or `_`.
pub open spec fn is_word_char(c: char) -> bool {
    'a' <= c && c <= 'z' || 'A' <= c && c <= 'Z' || '0' <= c && c <= '9' || c == '_'
}

/// Whether a text can be the name of a site.
pub open spec fn is_site_name(name: Seq<char>) -> bool {
    &&& name.len() > 0
    &&& !('0' <= name[0] && name[0] <= '9')
    &&& forall|i: int| 0 <= i < name.len() ==> is_word_char(#[trigger] name[i])
}

/// A call with a name as its first argument, up to its second: `f("name", `, with
/// any white space behind the bracket, before the comma and behind it.
pub open spec fn opened_call(
    a: Seq<char>,
    f: char,
    w: Seq<char>,
    name: Seq<char>,
    x: Seq<char>,
    y: Seq<char>,
) -> Seq<char> {
    a + seq![f, '('] + w + seq!['"'] + name + seq!['"'] + x + seq![','] + y
}

/// Whether such a call with an address as its second argument stands in a text,
/// with the address at `at`.
pub open spec fn is_hooked_at(s: Seq<char>, at: int, name: Seq<char>) -> bool {
    &&& 0 <= at && at + 4 <= s.len()
    &&& s.subrange(at, at + 4) == seq!['R', 'V', 'A', '.']
    &&& is_site_name(name)
    &&& exists|a: Seq<char>, f: char, w: Seq<char>, x: Seq<char>, y: Seq<char>|
        {
            &&& s.take(at) == #[trigger] opened_call(a, f, w, name, x, y)
            &&& is_word_char(f)
            &&& all_space(w) && all_space(x) && all_space(y)
        }
}

proof fn lemma_trimmed_parts(s: Seq<char>) -> (space: Seq<char>)
    ensures
        s == trimmed_end(s) + space,
        all_space(space),
        trimmed_end(s).len() > 0 ==> !is_space(trimmed_end(s).last()),
    decreases s.len(),
{
    if s.len() > 0 && is_space(s.last()) {
        let rest = lemma_trimmed_parts(s.drop_last());
        let space = rest.push(s.last());
        assert(s.drop_last().push(s.last()) == s);
        assert(trimmed_end(s) + space == (trimmed_end(s) + rest).push(s.last()));
        assert forall|i: int| 0 <= i < space.len() implies is_space(#[trigger] space[i]) by {
            if i < rest.len() {
                assert(space[i] == rest[i]);
            }
        }
        space
    } else {
        let space = Seq::<char>::empty();
        assert(s == trimmed_end(s) + space);
        space
    }
}

proof fn lemma_address(s: Seq<char>, at: int)
    requires
        0 <= at,
    ensures
        is_address(s, at) <==> at + 4 <= s.len() && s.subrange(at, at + 4) == seq![
            'R',
            'V',
            'A',
            '.',
        ],
{
    let rva = seq!['R', 'V', 'A', '.'];
    if at + 4 <= s.len() {
        let t = s.subrange(at, at + 4);
        assert(t.len() == 4);
        assert(t[0] == s[at] && t[1] == s[at + 1] && t[2] == s[at + 2] && t[3] == s[at + 3]);
        if is_address(s, at) {
            assert(t == rva);
        }
        if t == rva {
            assert(t[0] == rva[0] && t[1] == rva[1] && t[2] == rva[2] && t[3] == rva[3]);
        }
    }
}

proof fn lemma_find_last_is(s: Seq<char>, c: char, n: int)
    requires
        0 <= n < s.len(),
        s[n] == c,
        forall|j: int| n < j < s.len() ==> s[j] != c,
    ensures
        find_last(s, c) == n,
    decreases s.len(),
{
    if n < s.len() - 1 {
        assert(s[s.len() - 1] != c);
        lemma_find_last_is(s.drop_last(), c, n);
    }
}

proof fn lemma_call_is_site(
    s: Seq<char>,
    at: int,
    a: Seq<char>,
    f: char,
    w: Seq<char>,
    name: Seq<char>,
    x: Seq<char>,
    y: Seq<char>,
)
    requires
        0 <= at <= s.len(),
        s.take(at) == opened_call(a, f, w, name, x, y),
        is_site_name(name),
        is_word_char(f),
        all_space(w) && all_space(x) && all_space(y),
    ensures
        site_at(s, at) == Some(name),
{
    let head = a + seq![f, '('];
    let opened = head + w + seq!['"'] + name;
    let quoted = opened + seq!['"'];
    let first = quoted + x + seq![','];
    assert(s.take(at) == first + y);
    assert(first.last() == ',');
    lemma_trimmed_end(first, y);
    assert(first.drop_last() == quoted + x);
    assert(quoted.last() == '"');
    lemma_trimmed_end(quoted, x);
    assert(quoted.drop_last() == opened);
    let n = (head.len() + w.len()) as int;
    assert(opened[n] == '"');
    assert forall|j: int| n < j < opened.len() implies opened[j] != '"' by {
        assert(opened[j] == name[j - n - 1]);
        assert(is_word_char(name[j - n - 1]));
    }
    lemma_find_last_is(opened, '"', n);
    assert(opened.skip(n + 1) == name);
    assert(opened.take(n) == head + w);
    assert(head.last() == '(');
    lemma_trimmed_end(head, w);
    assert(head[head.len() - 2] == f);
    assert forall|i: int| 0 <= i < name.len() implies is_name_char(#[trigger] name[i]) by {
        assert(is_word_char(name[i]));
    }
    assert(is_name(name));
}

proof fn lemma_site_is_call(s: Seq<char>, at: int, name: Seq<char>)
    requires
        0 <= at <= s.len(),
        site_at(s, at) == Some(name),
    ensures
        is_site_name(name),
        exists|a: Seq<char>, f: char, w: Seq<char>, x: Seq<char>, y: Seq<char>|
            {
                &&& s.take(at) == #[trigger] opened_call(a, f, w, name, x, y)
                &&& is_word_char(f)
                &&& all_space(w) && all_space(x) && all_space(y)
            },
{
    let p = s.take(at);
    let first = trimmed_end(p);
    let y = lemma_trimmed_parts(p);
    let inner = first.drop_last();
    let quoted = trimmed_end(inner);
    let x = lemma_trimmed_parts(inner);
    let opened = quoted.drop_last();
    let quote = find_last(opened, '"');
    lemma_find_last_stands(opened, '"');
    let head = opened.take(quote);
    let call = trimmed_end(head);
    let w = lemma_trimmed_parts(head);
    let f = call[call.len() - 2];
    let a = call.take(call.len() - 2);
    assert(opened.skip(quote + 1) == name);
    assert(call == a + seq![f, '(']);
    assert(opened == head + seq!['"'] + name);
    assert(quoted == opened + seq!['"']);
    assert(inner == quoted + x);
    assert(first == inner + seq![',']);
    assert(p == opened_call(a, f, w, name, x, y));
    assert forall|i: int| 0 <= i < name.len() implies is_word_char(#[trigger] name[i]) by {
        assert(is_name_char(name[i]));
    }
}

proof fn lemma_hooked_at(s: Seq<char>, at: int, name: Seq<char>)
    requires
        0 <= at,
    ensures
        is_hooked_at(s, at, name) <==> is_address(s, at) && site_at(s, at) == Some(name),
{
    lemma_address(s, at);
    if is_hooked_at(s, at, name) {
        let (a, f, w, x, y) = choose|
            a: Seq<char>,
            f: char,
            w: Seq<char>,
            x: Seq<char>,
            y: Seq<char>,
        |
            {
                &&& s.take(at) == #[trigger] opened_call(a, f, w, name, x, y)
                &&& is_word_char(f)
                &&& all_space(w) && all_space(x) && all_space(y)
            };
        lemma_call_is_site(s, at, a, f, w, name, x, y);
    }
    if is_address(s, at) && site_at(s, at) == Some(name) {
        lemma_site_is_call(s, at, name);
    }
}

/// A name is among the sites of a source if and only if, outside its comments, a
/// call takes it as its first argument and an address as its second.
pub proof fn law_sites_are_the_calls(source: Seq<char>, name: Seq<char>)
    ensures
        sites_of(source).contains(name) <==> exists|at: int|
            #[trigger] is_hooked_at(stripped(source), at, name),
{
    let s = stripped(source);
    lemma_sites_before(s, s.len() as int);
    if sites_of(source).contains(name) {
        let at = choose|at: int|
            0 <= at < s.len() && is_address(s, at) && #[trigger] site_at(s, at) == Some(name);
        lemma_hooked_at(s, at, name);
        assert(is_hooked_at(s, at, name));
    }
    if exists|at: int| #[trigger] is_hooked_at(s, at, name) {
        let at = choose|at: int| #[trigger] is_hooked_at(s, at, name);
        lemma_hooked_at(s, at, name);
        assert(0 <= at < s.len() && is_address(s, at) && site_at(s, at) == Some(name));
    }
}

/// The sites come in the order in which they are first hooked, each once.
pub proof fn law_sites_come_in_order(source: Seq<char>, i: int, j: int)
    requires
        0 <= i < j < sites_of(source).len(),
    ensures
        sites_of(source)[i] != sites_of(source)[j],
        exists|at: int|
            {
                &&& #[trigger] is_hooked_at(stripped(source), at, sites_of(source)[i])
                &&& forall|to: int| #[trigger]
                    is_hooked_at(stripped(source), to, sites_of(source)[j]) ==> at < to
            },
{
    let s = stripped(source);
    let all = sites_of(source);
    lemma_sites_before(s, s.len() as int);
    let n = lemma_first_found(s, s.len() as int, j);
    let before = sites_before(s, n);
    assert(before[i] == all[i]);
    lemma_sites_before(s, n);
    assert(before.contains(all[i]));
    let at = choose|at: int|
        0 <= at < n && is_address(s, at) && #[trigger] site_at(s, at) == Some(all[i]);
    lemma_hooked_at(s, at, all[i]);
    assert(is_hooked_at(s, at, all[i]));
    assert forall|to: int| #[trigger] is_hooked_at(s, to, all[j]) implies at < to by {
        lemma_hooked_at(s, to, all[j]);
        if to < n {
            assert(0 <= to < n && is_address(s, to) && site_at(s, to) == Some(all[j]));
            assert(before.contains(all[j]));
            let k = choose|k: int| 0 <= k < before.len() && before[k] == all[j];
            assert(all[k] == all[j]);
        }
    }
}

/// Where the search stood when a site was found.
proof fn lemma_first_found(s: Seq<char>, end: int, j: int) -> (n: int)
    requires
        0 <= j < sites_before(s, end).len(),
    ensures
        0 <= n < end,
        sites_before(s, n).len() == j,
        forall|k: int| 0 <= k < j ==> sites_before(s, n)[k] == sites_before(s, end)[k],
    decreases end,
{
    let before = sites_before(s, end - 1);
    if j < before.len() {
        let n = lemma_first_found(s, end - 1, j);
        n
    } else {
        end - 1
    }
}

} // verus!
