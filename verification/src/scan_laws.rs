//! What minifying and removing comments do to a source, said of the source itself.
//!
//! A source is put together from calm text (which opens nothing), literals,
//! regular expressions, divisions and comments. These laws say what becomes of
//! each of them, wherever it stands behind calm text and whatever follows it:
//! a literal is written as it stands and otherwise counts as any value does, a
//! comment is nothing but the line feeds in it, and calm text is kept, with its
//! layout when only comments are removed.  Since a value is calm text again, the
//! laws reach every part of a source one after the other.
use vstd::prelude::*;

use crate::lexeme::{
    block_end, breaks, class_end, code_after, compacted, first_lexeme, is_blank,
    lemma_first_lexeme, lex, quote_end, regex_end, regex_follows, spell, spelling, stripped, tidy,
    uncomment, unicode_alphanumeric, Lexeme,
};
use crate::text::lemma_find_is;

verus! {

/// Text that opens no literal, no regular expression and no comment, and is no
/// division.
pub open spec fn calm(p: Seq<char>) -> bool {
    forall|i: int|
        0 <= i < p.len() ==> #[trigger] p[i] != '"' && p[i] != '\'' && p[i] != '`' && p[i] != '/'
}

/// A space, a tab, a carriage return or a line feed.
pub open spec fn is_layout(c: char) -> bool {
    c == ' ' || c == '\t' || c == '\r' || c == '\n'
}

/// Text of nothing but layout.
pub open spec fn all_layout(w: Seq<char>) -> bool {
    forall|i: int| 0 <= i < w.len() ==> is_layout(#[trigger] w[i])
}

/// Text with no line feed.
pub open spec fn no_feed(c: Seq<char>) -> bool {
    forall|i: int| 0 <= i < c.len() ==> #[trigger] c[i] != '\n'
}

/// Whether `l`, behind `p` and before `r`, is written as it stands, and stands
/// for a value: everything else is as it is with `0` in its place.
pub open spec fn is_kept(p: Seq<char>, l: Seq<char>, r: Seq<char>) -> bool {
    let z = p + seq!['0'];
    let k = compacted(z);
    &&& stripped(z + r).take(z.len() as int) == z
    &&& stripped(p + l + r) == p + l + stripped(z + r).skip(z.len() as int)
    &&& k.len() > 0 && k.last() == '0'
    &&& compacted(z + r).take(k.len() as int) == k
    &&& compacted(p + l + r) == k.drop_last() + l + compacted(z + r).skip(k.len() as int)
}

spec fn unit(c: char) -> Lexeme {
    if c == '\n' {
        Lexeme::Break
    } else if is_blank(c) {
        Lexeme::Blank(c)
    } else {
        Lexeme::Code(seq![c])
    }
}

spec fn units(p: Seq<char>) -> Seq<Lexeme> {
    p.map_values(|c: char| unit(c))
}

/// The last character of a text that is not layout, or `prev`.
spec fn tail(p: Seq<char>, prev: char) -> char
    decreases p.len(),
{
    if p.len() == 0 {
        prev
    } else {
        tail(
            p.drop_first(),
            if is_layout(p[0]) {
                prev
            } else {
                p[0]
            },
        )
    }
}

proof fn lemma_calm_lex(p: Seq<char>, b: Seq<char>, prev: char)
    requires
        calm(p),
    ensures
        lex(p + b, prev) == units(p) + lex(b, tail(p, prev)),
    decreases p.len(),
{
    let s = p + b;
    if p.len() == 0 {
        assert(s == b);
        assert(units(p) + lex(b, prev) == lex(b, prev));
    } else {
        let rest = p.drop_first();
        let x = first_lexeme(s, prev);
        assert(s[0] == p[0]);
        assert(s.take(1) == seq![p[0]]);
        assert(x == unit(p[0]));
        assert(s.skip(1) == rest + b);
        assert forall|i: int| 0 <= i < rest.len() implies #[trigger] rest[i] != '"' && rest[i]
            != '\'' && rest[i] != '`' && rest[i] != '/' by {
            assert(rest[i] == p[i + 1]);
        }
        let next = code_after(x, prev);
        lemma_calm_lex(rest, b, next);
        assert(lex(s, prev) == seq![x] + lex(rest + b, next));
        assert(units(p) == seq![x] + units(rest));
        assert(seq![x] + (units(rest) + lex(b, tail(rest, next))) == units(p) + lex(
            b,
            tail(rest, next),
        ));
    }
}

proof fn lemma_uncomment_concat(a: Seq<Lexeme>, b: Seq<Lexeme>)
    ensures
        uncomment(a + b) == uncomment(a) + uncomment(b),
    decreases a.len(),
{
    if a.len() == 0 {
        assert(a + b == b);
        assert(uncomment(a) + uncomment(b) == uncomment(b));
    } else {
        assert((a + b).drop_first() == a.drop_first() + b);
        lemma_uncomment_concat(a.drop_first(), b);
        let first = match a[0] {
            Lexeme::Comment(t) => breaks(t),
            x => seq![x],
        };
        assert(first + (uncomment(a.drop_first()) + uncomment(b)) == uncomment(a) + uncomment(b));
    }
}

proof fn lemma_spell_concat(a: Seq<Lexeme>, b: Seq<Lexeme>)
    ensures
        spell(a + b) == spell(a) + spell(b),
    decreases a.len(),
{
    if a.len() == 0 {
        assert(a + b == b);
        assert(spell(a) + spell(b) == spell(b));
    } else {
        assert((a + b).drop_first() == a.drop_first() + b);
        lemma_spell_concat(a.drop_first(), b);
        assert(spelling(a[0]) + (spell(a.drop_first()) + spell(b)) == spell(a) + spell(b));
    }
}

proof fn lemma_units(p: Seq<char>)
    ensures
        uncomment(units(p)) == units(p),
        spell(units(p)) == p,
    decreases p.len(),
{
    if p.len() > 0 {
        let rest = p.drop_first();
        lemma_units(rest);
        assert(units(p).drop_first() == units(rest));
        assert(units(p) == seq![unit(p[0])] + units(rest));
        assert(seq![p[0]] + rest == p);
    } else {
        assert(units(p) == Seq::<Lexeme>::empty());
        assert(spell(units(p)) == p);
    }
}

/// Whether the last line holds code, and whether blanks came after it.
spec fn after(xs: Seq<Lexeme>, begun: bool, gap: bool) -> (bool, bool)
    decreases xs.len(),
{
    if xs.len() == 0 {
        (begun, gap)
    } else {
        let rest = xs.drop_first();
        match xs[0] {
            Lexeme::Code(_) => after(rest, true, false),
            Lexeme::Break => after(rest, false, false),
            _ => after(rest, begun, begun),
        }
    }
}

proof fn lemma_tidy_concat(a: Seq<Lexeme>, b: Seq<Lexeme>, begun: bool, gap: bool)
    ensures
        tidy(a + b, begun, gap) == tidy(a, begun, gap) + tidy(
            b,
            after(a, begun, gap).0,
            after(a, begun, gap).1,
        ),
    decreases a.len(),
{
    let all = a + b;
    if a.len() == 0 {
        assert(all == b);
        assert(tidy(a, begun, gap) + tidy(b, begun, gap) == tidy(b, begun, gap));
    } else {
        let rest = a.drop_first();
        assert(all.drop_first() == rest + b);
        let (x, y) = match a[0] {
            Lexeme::Code(_) => (true, false),
            Lexeme::Break => (false, false),
            _ => (begun, begun),
        };
        lemma_tidy_concat(rest, b, x, y);
        let end = after(a, begun, gap);
        let first = match a[0] {
            Lexeme::Code(_) => if gap {
                seq![Lexeme::Blank(' '), a[0]]
            } else {
                seq![a[0]]
            },
            Lexeme::Break => if begun {
                seq![Lexeme::Break]
            } else {
                seq![]
            },
            _ => seq![],
        };
        assert(tidy(a, begun, gap) == first + tidy(rest, x, y));
        assert(tidy(all, begun, gap) == first + tidy(rest + b, x, y));
        assert(first + (tidy(rest, x, y) + tidy(b, end.0, end.1)) == tidy(a, begun, gap) + tidy(
            b,
            end.0,
            end.1,
        ));
    }
}

/// What is read behind a character depends on it only by whether a regular
/// expression may follow.
proof fn lemma_lex_prev(s: Seq<char>, a: char, b: char)
    requires
        regex_follows(a) == regex_follows(b),
    ensures
        lex(s, a) == lex(s, b),
    decreases s.len(),
{
    if s.len() > 0 {
        let x = first_lexeme(s, a);
        lemma_first_lexeme(s, a);
        assert(x == first_lexeme(s, b));
        let rest = s.skip(spelling(x).len() as int);
        match x {
            Lexeme::Code(_) => {},
            _ => {
                lemma_lex_prev(rest, a, b);
            },
        }
    }
}

/// What is written of `p`, one piece of code, and what comes behind it.
proof fn lemma_piece(p: Seq<char>, l: Seq<char>, ys: Seq<Lexeme>) -> (head: Seq<char>)
    ensures
        head == ({
            let u = units(p);
            let (begun, gap) = after(u, false, false);
            if gap {
                spell(tidy(u, false, false)) + seq![' ']
            } else {
                spell(tidy(u, false, false))
            }
        }),
        spell(uncomment(units(p) + (seq![Lexeme::Code(l)] + ys))) == p + l + spell(uncomment(ys)),
        spell(tidy(uncomment(units(p) + (seq![Lexeme::Code(l)] + ys)), false, false)) == head + l
            + spell(tidy(uncomment(ys), true, false)),
{
    let u = units(p);
    let x = Lexeme::Code(l);
    let zs = seq![x] + ys;
    let us = uncomment(ys);
    lemma_units(p);
    lemma_uncomment_concat(u, zs);
    lemma_uncomment_concat(seq![x], ys);
    assert(seq![x].drop_first() == Seq::<Lexeme>::empty());
    assert(uncomment(seq![x].drop_first()) == Seq::<Lexeme>::empty());
    assert(uncomment(seq![x]) == seq![x]);
    assert(uncomment(zs) == seq![x] + us);
    assert(uncomment(u + zs) == u + (seq![x] + us));
    lemma_spell_concat(u, seq![x] + us);
    lemma_spell_one(x, us);
    assert(p + (l + spell(us)) == p + l + spell(us));
    let (begun, gap) = after(u, false, false);
    lemma_tidy_concat(u, seq![x] + us, false, false);
    let ts = tidy(us, true, false);
    assert((seq![x] + us).drop_first() == us);
    let mid = tidy(seq![x] + us, begun, gap);
    lemma_spell_concat(tidy(u, false, false), mid);
    lemma_spell_one(x, ts);
    let start = spell(tidy(u, false, false));
    if gap {
        let space = Lexeme::Blank(' ');
        assert(mid == seq![space] + (seq![x] + ts));
        lemma_spell_one(space, seq![x] + ts);
        assert(start + (seq![' '] + (l + spell(ts))) == start + seq![' '] + l + spell(ts));
        start + seq![' ']
    } else {
        assert(mid == seq![x] + ts);
        assert(start + (l + spell(ts)) == start + l + spell(ts));
        start
    }
}

proof fn lemma_spell_one(x: Lexeme, xs: Seq<Lexeme>)
    ensures
        spell(seq![x] + xs) == spelling(x) + spell(xs),
{
    assert((seq![x] + xs).drop_first() == xs);
}

/// A piece of code that is read as a whole, and behind which no regular
/// expression may stand, is kept.
proof fn lemma_kept(p: Seq<char>, l: Seq<char>, r: Seq<char>)
    requires
        calm(p),
        l.len() > 0,
        first_lexeme(l + r, tail(p, '\0')) == Lexeme::Code(l),
        !regex_follows(l[0]),
    ensures
        is_kept(p, l, r),
{
    let prev = tail(p, '\0');
    let s = l + r;
    let z = p + seq!['0'];
    let zero = seq!['0'];
    let ys = lex(r, '0');
    lemma_calm_lex(p, s, '\0');
    assert(p + l + r == p + s);
    assert(s.skip(l.len() as int) == r);
    assert(lex(s, prev) == seq![Lexeme::Code(l)] + lex(r, l[0]));
    lemma_lex_prev(r, l[0], '0');
    lemma_calm_lex(p, zero + r, '\0');
    assert(z + r == p + (zero + r));
    assert((zero + r).take(1) == zero);
    assert((zero + r).skip(1) == r);
    assert(lex(zero + r, prev) == seq![Lexeme::Code(zero)] + ys);
    lemma_calm_lex(p, zero, '\0');
    assert(zero.take(1) == zero);
    assert(zero.skip(1) == Seq::<char>::empty());
    let none = Seq::<Lexeme>::empty();
    assert(lex(zero.skip(1), '0') == none);
    assert(lex(zero, prev) == seq![Lexeme::Code(zero)] + none);
    let head = lemma_piece(p, l, ys);
    let same = lemma_piece(p, zero, ys);
    let again = lemma_piece(p, zero, none);
    assert(uncomment(none) == none);
    assert(spell(none) == Seq::<char>::empty());
    assert(tidy(none, true, false) == none);
    let k = compacted(z);
    assert(k == head + zero);
    let rest = spell(uncomment(ys));
    assert(stripped(z + r) == z + rest);
    assert(stripped(z + r).skip(z.len() as int) == rest);
    assert(stripped(z + r).take(z.len() as int) == z);
    let more = spell(tidy(uncomment(ys), true, false));
    assert(compacted(z + r) == k + more);
    assert(compacted(z + r).skip(k.len() as int) == more);
    assert(compacted(z + r).take(k.len() as int) == k);
    assert(k.drop_last() == head);
}

/// What may stand between two quotes `q`: any character behind a backslash, and
/// otherwise neither the quote nor, unless it `spans` lines, a line feed.
pub open spec fn is_quoted(t: Seq<char>, q: char, spans: bool) -> bool
    decreases t.len(),
{
    if t.len() == 0 {
        true
    } else if t[0] == '\\' {
        t.len() >= 2 && is_quoted(t.skip(2), q, spans)
    } else {
        t[0] != q && (spans || t[0] != '\n') && is_quoted(t.skip(1), q, spans)
    }
}

proof fn lemma_quoted_end(a: Seq<char>, t: Seq<char>, r: Seq<char>, q: char, spans: bool)
    requires
        is_quoted(t, q, spans),
    ensures
        quote_end(a + t + r, a.len() as int, q, spans) == quote_end(
            a + t + r,
            (a.len() + t.len()) as int,
            q,
            spans,
        ),
    decreases t.len(),
{
    let s = a + t + r;
    if t.len() > 0 {
        assert(s[a.len() as int] == t[0]);
        let n = if t[0] == '\\' {
            2int
        } else {
            1
        };
        let b = a + t.take(n);
        lemma_quoted_end(b, t.skip(n), r, q, spans);
        assert(b + t.skip(n) + r == s);
    }
}

/// A string is kept, with whatever looks like a comment, a regular expression or
/// layout inside it, and so is a template.
pub proof fn law_strings_are_kept(p: Seq<char>, q: char, t: Seq<char>, r: Seq<char>)
    requires
        calm(p),
        q == '"' || q == '\'' || q == '`',
        is_quoted(t, q, q == '`'),
    ensures
        is_kept(p, seq![q] + t + seq![q], r),
{
    let l = seq![q] + t + seq![q];
    let s = l + r;
    lemma_quoted_end(seq![q], t, seq![q] + r, q, q == '`');
    assert(seq![q] + t + (seq![q] + r) == s);
    assert(s[0] == q);
    assert(s[1 + t.len() as int] == q);
    assert(q != '\\');
    assert(s.take(l.len() as int) == l);
    assert(l[0] == q);
    lemma_kept(p, l, r);
}

/// A string that its line feed cuts short is kept too, and it does not swallow what
/// follows.
pub proof fn law_open_strings_end_with_the_line(p: Seq<char>, q: char, t: Seq<char>, r: Seq<char>)
    requires
        calm(p),
        q == '"' || q == '\'',
        is_quoted(t, q, false),
    ensures
        is_kept(p, seq![q] + t + seq!['\n'], r),
{
    let l = seq![q] + t + seq!['\n'];
    let s = l + r;
    lemma_quoted_end(seq![q], t, seq!['\n'] + r, q, false);
    assert(seq![q] + t + (seq!['\n'] + r) == s);
    assert(s[0] == q);
    assert(s[1 + t.len() as int] == '\n');
    assert(s.take(l.len() as int) == l);
    assert(l[0] == q);
    lemma_kept(p, l, r);
}

/// A string or a template that is never closed is kept up to the end of the
/// source, a backslash at the very end too.
pub proof fn law_open_strings_end_with_the_source(p: Seq<char>, q: char, t: Seq<char>)
    requires
        calm(p),
        q == '"' || q == '\'' || q == '`',
        is_quoted(t, q, q == '`'),
    ensures
        is_kept(p, seq![q] + t, seq![]),
        is_kept(p, seq![q] + t + seq!['\\'], seq![]),
{
    let none = Seq::<char>::empty();
    let m = seq![q] + t;
    lemma_quoted_end(seq![q], t, none, q, q == '`');
    assert(seq![q] + t + none == m);
    assert(m + none == m);
    assert(m[0] == q);
    assert(m.take(m.len() as int) == m);
    lemma_kept(p, m, none);
    let b = m + seq!['\\'];
    lemma_quoted_end(seq![q], t, seq!['\\'], q, q == '`');
    assert(b + none == b);
    assert(b[0] == q);
    assert(b[b.len() - 1] == '\\');
    assert(b.take(b.len() as int) == b);
    reveal_with_fuel(quote_end, 2);
    lemma_kept(p, b, none);
}

/// What may stand in a character class: any character behind a backslash, and
/// otherwise neither `]` nor a line feed.
pub open spec fn is_class(t: Seq<char>) -> bool {
    is_quoted(t, ']', false)
}

/// What may stand between the slashes of a regular expression: characters other
/// than `/`, `[` and a line feed, any character behind a backslash, and character
/// classes, in which a `/` is nothing special. A line feed ends a class as `]`
/// does.
pub open spec fn is_pattern(t: Seq<char>) -> bool
    decreases t.len(),
{
    if t.len() == 0 {
        true
    } else if t[0] == '\\' {
        t.len() >= 2 && is_pattern(t.skip(2))
    } else if t[0] == '[' {
        exists|n: int|
            0 < n < t.len() && (t[n] == ']' || t[n] == '\n') && is_class(
                #[trigger] t.subrange(1, n),
            ) && is_pattern(t.skip(n + 1))
    } else {
        t[0] != '/' && t[0] != '\n' && is_pattern(t.skip(1))
    }
}

proof fn lemma_class(a: Seq<char>, t: Seq<char>, r: Seq<char>)
    requires
        is_class(t),
        r.len() > 0 ==> r[0] == ']' || r[0] == '\n',
    ensures
        class_end(a + t + r, a.len() as int) == a.len() + t.len() + (if r.len() > 0 {
            1int
        } else {
            0
        }),
    decreases t.len(),
{
    let s = a + t + r;
    if t.len() > 0 {
        assert(s[a.len() as int] == t[0]);
        let n = if t[0] == '\\' {
            2int
        } else {
            1
        };
        let b = a + t.take(n);
        lemma_class(b, t.skip(n), r);
        assert(b + t.skip(n) + r == s);
    } else if r.len() > 0 {
        assert(s[a.len() as int] == r[0]);
    }
}

proof fn lemma_pattern(a: Seq<char>, t: Seq<char>, r: Seq<char>)
    requires
        is_pattern(t),
    ensures
        regex_end(a + t + r, a.len() as int) == regex_end(a + t + r, (a.len() + t.len()) as int),
    decreases t.len(),
{
    let s = a + t + r;
    if t.len() > 0 {
        let i = a.len() as int;
        assert(s[i] == t[0]);
        let n = if t[0] == '\\' {
            2int
        } else if t[0] == '[' {
            let n = choose|n: int|
                0 < n < t.len() && (t[n] == ']' || t[n] == '\n') && is_class(
                    #[trigger] t.subrange(1, n),
                ) && is_pattern(t.skip(n + 1));
            let inner = t.subrange(1, n);
            let b = a + seq!['['];
            let c = t.skip(n) + r;
            assert(b + inner + c == s);
            lemma_class(b, inner, c);
            reveal_with_fuel(class_end, 2);
            n + 1
        } else {
            1
        };
        let b = a + t.take(n);
        lemma_pattern(b, t.skip(n), r);
        assert(b + t.skip(n) + r == s);
    }
}

/// Whether a character ends a value: a letter, a digit, `_`, `$`, a closing
/// bracket, or the end of a literal or a regular expression.
pub open spec fn ends_value(c: char) -> bool {
    ||| 'a' <= c && c <= 'z'
    ||| 'A' <= c && c <= 'Z'
    ||| '0' <= c && c <= '9'
    ||| c == '_' || c == '$' || c == ')' || c == ']' || c == '}'
    ||| c == '"' || c == '\'' || c == '`' || c == '/'
    ||| c > '\x7f' && unicode_alphanumeric(c)
}

proof fn lemma_tail(p: Seq<char>, w: Seq<char>, prev: char)
    requires
        all_layout(w),
    ensures
        tail(p + w, prev) == (if p.len() > 0 && !is_layout(p.last()) {
            p.last()
        } else {
            tail(p, prev)
        }),
    decreases p.len(), w.len(),
{
    let s = p + w;
    if p.len() == 0 {
        if w.len() > 0 {
            assert(s == w);
            assert(is_layout(w[0]));
            assert forall|i: int| 0 <= i < w.drop_first().len() implies is_layout(
                #[trigger] w.drop_first()[i],
            ) by {
                assert(is_layout(w[i + 1]));
            }
            lemma_tail(p, w.drop_first(), prev);
            assert(p + w.drop_first() == w.drop_first());
        }
    } else {
        let next = if is_layout(p[0]) {
            prev
        } else {
            p[0]
        };
        assert(s.drop_first() == p.drop_first() + w);
        lemma_tail(p.drop_first(), w, next);
        if p.len() == 1 {
            assert(p.last() == p[0]);
            assert(p.drop_first().len() == 0);
        } else {
            assert(p.last() == p.drop_first().last());
        }
    }
}

/// Where no value stands before it, a `/` opens a regular expression, which is
/// kept whatever its classes and escapes hold.
pub proof fn law_patterns_are_kept(p: Seq<char>, w: Seq<char>, t: Seq<char>, r: Seq<char>)
    requires
        calm(p),
        all_layout(w),
        p.len() == 0 || !is_layout(p.last()) && !ends_value(p.last()),
        t.len() > 0,
        t[0] != '*',
        is_pattern(t),
    ensures
        is_kept(p + w, seq!['/'] + t + seq!['/'], r),
{
    let one = seq!['/'];
    let all = p + w;
    lemma_no_value(p, w);
    assert(t[0] != '/');
    let l = one + t + one;
    let s = l + r;
    lemma_pattern(one, t, one + r);
    assert(one + t + (one + r) == s);
    assert(s[0] == '/' && s[1] == t[0] && s[1 + t.len() as int] == '/');
    assert(s.take(l.len() as int) == l);
    assert(l[0] == '/');
    lemma_kept(all, l, r);
}

proof fn lemma_no_value(p: Seq<char>, w: Seq<char>)
    requires
        calm(p),
        all_layout(w),
        p.len() == 0 || !is_layout(p.last()) && !ends_value(p.last()),
    ensures
        calm(p + w),
        regex_follows(tail(p + w, '\0')),
{
    let all = p + w;
    lemma_tail(p, w, '\0');
    assert forall|i: int| 0 <= i < all.len() implies #[trigger] all[i] != '"' && all[i] != '\''
        && all[i] != '`' && all[i] != '/' by {
        if i >= p.len() {
            assert(is_layout(w[i - p.len()]));
        } else {
            assert(all[i] == p[i]);
        }
    }
}

/// A regular expression that its line feed or the end of the source cuts short is
/// kept up to there, and does not swallow the next line. So is one whose class is
/// never closed.
pub proof fn law_open_patterns_end_with_the_line(
    p: Seq<char>,
    w: Seq<char>,
    t: Seq<char>,
    c: Seq<char>,
    r: Seq<char>,
)
    requires
        calm(p),
        all_layout(w),
        p.len() == 0 || !is_layout(p.last()) && !ends_value(p.last()),
        t.len() > 0 ==> t[0] != '*',
        is_pattern(t),
        is_class(c),
    ensures
        is_kept(p + w, seq!['/'] + t, seq!['\n'] + r),
        is_kept(p + w, seq!['/'] + t, seq![]),
        is_kept(p + w, seq!['/'] + t + seq!['['] + c, seq![]),
{
    let one = seq!['/'];
    let all = p + w;
    let none = Seq::<char>::empty();
    lemma_no_value(p, w);
    let m = one + t;
    let feed = seq!['\n'] + r;
    let u = m + feed;
    lemma_pattern(one, t, feed);
    assert(one + t + feed == u);
    assert(u[0] == '/' && u[1 + t.len() as int] == '\n');
    if t.len() > 0 {
        assert(u[1] == t[0] && m[1] == t[0] && t[0] != '/');
    }
    assert(u.take(m.len() as int) == m);
    assert(m[0] == '/');
    lemma_kept(all, m, feed);
    lemma_pattern(one, t, none);
    assert(one + t + none == m);
    assert(m + none == m);
    assert(m.take(m.len() as int) == m);
    lemma_kept(all, m, none);
    let b = m + seq!['['];
    let v = b + c;
    lemma_pattern(one, t, seq!['['] + c);
    assert(one + t + (seq!['['] + c) == v);
    assert(v[0] == '/' && v[m.len() as int] == '[');
    if t.len() > 0 {
        assert(v[1] == t[0]);
    }
    lemma_class(b, c, none);
    assert(b + c + none == v);
    assert(v + none == v);
    assert(v.take(v.len() as int) == v);
    reveal_with_fuel(class_end, 2);
    reveal_with_fuel(regex_end, 2);
    assert(class_end(v, m.len() as int) == v.len());
    assert(seq!['/'] + t + seq!['['] + c == v);
    lemma_kept(all, v, none);
}

/// A `/` opens a regular expression behind anything but a value.
pub proof fn law_patterns_follow_no_value(c: char)
    ensures
        regex_follows(c) <==> !ends_value(c),
{
}

/// Behind a value a `/` is a division: it is kept, and what follows it is read as
/// what follows a value.
pub proof fn law_divisions_open_nothing(p: Seq<char>, w: Seq<char>, r: Seq<char>)
    requires
        calm(p),
        all_layout(w),
        p.len() > 0,
        ends_value(p.last()),
        r.len() > 0 ==> r[0] != '/' && r[0] != '*',
    ensures
        is_kept(p + w, seq!['/'], r),
{
    let all = p + w;
    assert(!is_layout(p.last()));
    lemma_tail(p, w, '\0');
    assert(calm(all)) by {
        assert forall|i: int| 0 <= i < all.len() implies #[trigger] all[i] != '"' && all[i] != '\''
            && all[i] != '`' && all[i] != '/' by {
            if i >= p.len() {
                assert(is_layout(w[i - p.len()]));
            } else {
                assert(all[i] == p[i]);
            }
        }
    }
    let l = seq!['/'];
    let s = l + r;
    assert(s[0] == '/');
    if r.len() > 0 {
        assert(s[1] == r[0]);
    }
    assert(s.take(1) == l);
    lemma_kept(all, l, r);
}

/// The line feeds of a text, and nothing else of it.
pub open spec fn feeds(c: Seq<char>) -> Seq<char>
    decreases c.len(),
{
    if c.len() == 0 {
        seq![]
    } else if c[0] == '\n' {
        seq!['\n'] + feeds(c.drop_first())
    } else {
        feeds(c.drop_first())
    }
}

proof fn lemma_breaks_are_feeds(c: Seq<char>)
    ensures
        breaks(c) == units(feeds(c)),
        all_layout(feeds(c)),
        calm(feeds(c)),
    decreases c.len(),
{
    if c.len() > 0 {
        let rest = c.drop_first();
        lemma_breaks_are_feeds(rest);
        if c[0] == '\n' {
            let all = feeds(c);
            assert(units(all) == seq![Lexeme::Break] + units(feeds(rest)));
            assert forall|i: int| 0 <= i < all.len() implies #[trigger] all[i] == '\n' by {
                if i > 0 {
                    assert(all[i] == feeds(rest)[i - 1]);
                    assert(is_layout(feeds(rest)[i - 1]));
                    lemma_feeds_are_feeds(rest, i - 1);
                }
            }
        }
    } else {
        assert(breaks(c) == units(feeds(c)));
    }
}

proof fn lemma_feeds_are_feeds(c: Seq<char>, i: int)
    requires
        0 <= i < feeds(c).len(),
    ensures
        feeds(c)[i] == '\n',
    decreases c.len(),
{
    if c.len() > 0 {
        if c[0] == '\n' {
            if i > 0 {
                lemma_feeds_are_feeds(c.drop_first(), i - 1);
            }
        } else {
            lemma_feeds_are_feeds(c.drop_first(), i);
        }
    }
}

proof fn lemma_no_feeds(c: Seq<char>)
    requires
        no_feed(c),
    ensures
        feeds(c) == Seq::<char>::empty(),
    decreases c.len(),
{
    if c.len() > 0 {
        assert(c[0] != '\n');
        assert forall|i: int| 0 <= i < c.drop_first().len() implies #[trigger] c.drop_first()[i]
            != '\n' by {
            assert(c[i + 1] != '\n');
        }
        lemma_no_feeds(c.drop_first());
    }
}

proof fn lemma_calm_concat(a: Seq<char>, b: Seq<char>)
    requires
        calm(a),
        calm(b),
    ensures
        calm(a + b),
        units(a + b) == units(a) + units(b),
{
    let all = a + b;
    assert forall|i: int| 0 <= i < all.len() implies #[trigger] all[i] != '"' && all[i] != '\''
        && all[i] != '`' && all[i] != '/' by {
        if i < a.len() {
            assert(all[i] == a[i]);
        } else {
            assert(all[i] == b[i - a.len()]);
        }
    }
    assert(units(all) == units(a) + units(b));
}

/// A comment in a source is worth its line feeds.
proof fn lemma_comment(p: Seq<char>, x: Seq<char>, r: Seq<char>)
    requires
        calm(p),
        x.len() > 0,
        first_lexeme(x + r, tail(p, '\0')) == Lexeme::Comment(x),
    ensures
        stripped(p + x + r) == stripped(p + feeds(x) + r),
        compacted(p + x + r) == compacted(p + feeds(x) + r),
{
    let prev = tail(p, '\0');
    let s = x + r;
    let ys = lex(r, prev);
    let f = feeds(x);
    lemma_breaks_are_feeds(x);
    lemma_calm_lex(p, s, '\0');
    assert(p + x + r == p + s);
    assert(s.skip(x.len() as int) == r);
    let c = Lexeme::Comment(x);
    assert(lex(s, prev) == seq![c] + ys);
    lemma_calm_concat(p, f);
    lemma_calm_lex(p + f, r, '\0');
    lemma_tail(p, f, '\0');
    let none = Seq::<char>::empty();
    lemma_tail(p, none, '\0');
    assert(p + none == p);
    lemma_units(p);
    lemma_units(f);
    lemma_uncomment_concat(units(p), seq![c] + ys);
    assert((seq![c] + ys).drop_first() == ys);
    assert(uncomment(seq![c] + ys) == units(f) + uncomment(ys));
    lemma_uncomment_concat(units(p) + units(f), ys);
    lemma_uncomment_concat(units(p), units(f));
    assert(units(p) + (units(f) + uncomment(ys)) == units(p) + units(f) + uncomment(ys));
    assert(uncomment(lex(p + x + r, '\0')) == uncomment(lex(p + f + r, '\0')));
}

/// A line comment goes, up to the line feed that ends it, which stays: the source
/// is worth what it is worth without the comment.
pub proof fn law_line_comments_go(p: Seq<char>, c: Seq<char>, r: Seq<char>)
    requires
        calm(p),
        no_feed(c),
    ensures
        stripped(p + seq!['/', '/'] + c + seq!['\n'] + r) == stripped(p + seq!['\n'] + r),
        compacted(p + seq!['/', '/'] + c + seq!['\n'] + r) == compacted(p + seq!['\n'] + r),
        stripped(p + seq!['/', '/'] + c) == stripped(p),
        compacted(p + seq!['/', '/'] + c) == compacted(p),
{
    let x = seq!['/', '/'] + c;
    let feed = seq!['\n'] + r;
    let s = x + feed;
    let none = Seq::<char>::empty();
    assert(no_feed(x)) by {
        assert forall|i: int| 0 <= i < x.len() implies #[trigger] x[i] != '\n' by {
            if i >= 2 {
                assert(x[i] == c[i - 2]);
            }
        }
    }
    lemma_no_feeds(x);
    assert(p + none == p);
    assert forall|j: int| 0 <= j < x.len() implies s[j] != '\n' by {
        assert(s[j] == x[j]);
    }
    assert(s[x.len() as int] == '\n');
    lemma_find_is(s, '\n', x.len() as int);
    assert(s.take(x.len() as int) == x);
    assert(s[0] == '/' && s[1] == '/');
    lemma_comment(p, x, feed);
    assert(p + seq!['/', '/'] + c + seq!['\n'] + r == p + x + feed);
    assert(p + none + feed == p + seq!['\n'] + r);
    assert(x + none == x);
    lemma_find_is(x, '\n', x.len() as int);
    assert(x.take(x.len() as int) == x);
    lemma_comment(p, x, none);
    assert(p + x + none == p + seq!['/', '/'] + c);
    assert(p + none + none == p);
}

/// Whether a comment is not closed by what is in it.
pub open spec fn stays_open(c: Seq<char>) -> bool {
    forall|i: int| 0 <= i < c.len() - 1 ==> !(#[trigger] c[i] == '*' && c[i + 1] == '/')
}

proof fn lemma_stays_open(a: Seq<char>, c: Seq<char>, r: Seq<char>)
    requires
        stays_open(c),
        r.len() == 0 || r.len() >= 2 && r[0] == '*' && r[1] == '/',
    ensures
        block_end(a + c + r, a.len() as int) == a.len() + c.len() + (if r.len() == 0 {
            0int
        } else {
            2
        }),
    decreases c.len(),
{
    let s = a + c + r;
    let i = a.len() as int;
    if c.len() == 0 {
        if r.len() > 0 {
            assert(s[i] == '*' && s[i + 1] == '/');
        }
    } else {
        assert(s[i] == c[0]);
        if c.len() > 1 {
            assert(s[i + 1] == c[1]);
        } else if r.len() > 0 {
            assert(s[i + 1] == '*');
        }
        let b = a + c.take(1);
        let d = c.skip(1);
        assert forall|j: int| 0 <= j < d.len() - 1 implies !(#[trigger] d[j] == '*' && d[j + 1]
            == '/') by {
            assert(d[j] == c[j + 1] && d[j + 1] == c[j + 2]);
        }
        lemma_stays_open(b, d, r);
        assert(b + d + r == s);
    }
}

proof fn lemma_feeds_concat(a: Seq<char>, b: Seq<char>)
    ensures
        feeds(a + b) == feeds(a) + feeds(b),
    decreases a.len(),
{
    if a.len() == 0 {
        assert(a + b == b);
        assert(feeds(a) + feeds(b) == feeds(b));
    } else {
        assert((a + b).drop_first() == a.drop_first() + b);
        lemma_feeds_concat(a.drop_first(), b);
        assert(seq!['\n'] + (feeds(a.drop_first()) + feeds(b)) == seq!['\n'] + feeds(a.drop_first())
            + feeds(b));
    }
}

/// A block comment goes but for its line feeds: the source is worth what it is
/// worth with these in its place. One that is never closed ends with the source.
pub proof fn law_block_comments_go(p: Seq<char>, c: Seq<char>, r: Seq<char>)
    requires
        calm(p),
        stays_open(c),
    ensures
        stripped(p + seq!['/', '*'] + c + seq!['*', '/'] + r) == stripped(p + feeds(c) + r),
        compacted(p + seq!['/', '*'] + c + seq!['*', '/'] + r) == compacted(p + feeds(c) + r),
        stripped(p + seq!['/', '*'] + c) == stripped(p + feeds(c)),
        compacted(p + seq!['/', '*'] + c) == compacted(p + feeds(c)),
{
    let open = seq!['/', '*'];
    let close = seq!['*', '/'];
    let x = open + c + close;
    let s = x + r;
    let none = Seq::<char>::empty();
    lemma_no_feeds(open);
    lemma_no_feeds(close);
    lemma_feeds_concat(open, c);
    lemma_feeds_concat(open + c, close);
    assert(none + feeds(c) == feeds(c));
    assert(feeds(c) + none == feeds(c));
    lemma_stays_open(open, c, close + r);
    assert(open + c + (close + r) == s);
    assert(s[0] == '/' && s[1] == '*');
    assert(s.take(x.len() as int) == x);
    lemma_comment(p, x, r);
    assert(p + open + c + close + r == p + x + r);
    let y = open + c;
    lemma_stays_open(open, c, none);
    assert(open + c + none == y);
    assert(y + none == y);
    assert(y[0] == '/' && y[1] == '*');
    assert(y.take(y.len() as int) == y);
    lemma_comment(p, y, none);
    assert(p + y + none == p + open + c);
    assert(p + feeds(c) + none == p + feeds(c));
}

/// Calm text is kept as it is where only comments are removed.
pub proof fn law_calm_text_is_kept(p: Seq<char>)
    requires
        calm(p),
    ensures
        stripped(p) == p,
{
    lemma_calm(p);
}

proof fn lemma_calm(p: Seq<char>)
    requires
        calm(p),
    ensures
        stripped(p) == p,
        compacted(p) == spell(tidy(units(p), false, false)),
{
    let none = Seq::<char>::empty();
    lemma_calm_lex(p, none, '\0');
    assert(p + none == p);
    assert(units(p) + lex(none, tail(p, '\0')) == units(p));
    lemma_units(p);
}

/// What is left of layout: a line feed if there is one in it, and one space
/// otherwise.
pub open spec fn gap(w: Seq<char>) -> Seq<char> {
    if exists|i: int| 0 <= i < w.len() && #[trigger] w[i] == '\n' {
        seq!['\n']
    } else {
        seq![' ']
    }
}

proof fn lemma_layout(w: Seq<char>, begun: bool, owed: bool)
    requires
        all_layout(w),
    ensures
        no_feed(w) ==> tidy(units(w), begun, owed) == Seq::<Lexeme>::empty() && after(
            units(w),
            begun,
            owed,
        ) == (if w.len() == 0 {
            (begun, owed)
        } else {
            (begun, begun)
        }),
        !no_feed(w) ==> tidy(units(w), begun, owed) == (if begun {
            seq![Lexeme::Break]
        } else {
            seq![]
        }) && after(units(w), begun, owed) == (false, false),
    decreases w.len(),
{
    if w.len() > 0 {
        let rest = w.drop_first();
        assert(is_layout(w[0]));
        assert forall|i: int| 0 <= i < rest.len() implies is_layout(#[trigger] rest[i]) by {
            assert(is_layout(w[i + 1]));
        }
        assert(units(w).drop_first() == units(rest));
        assert(units(w)[0] == unit(w[0]));
        if no_feed(w) {
            assert(w[0] != '\n');
            assert forall|i: int| 0 <= i < rest.len() implies #[trigger] rest[i] != '\n' by {
                assert(w[i + 1] != '\n');
            }
        } else {
            let i = choose|i: int| 0 <= i < w.len() && w[i] == '\n';
            if i > 0 {
                assert(rest[i - 1] == '\n');
            }
        }
        if w[0] == '\n' {
            lemma_layout(rest, false, false);
            assert(seq![Lexeme::Break] + Seq::<Lexeme>::empty() == seq![Lexeme::Break]);
        } else {
            lemma_layout(rest, begun, begun);
        }
    } else {
        assert(units(w) == Seq::<Lexeme>::empty());
    }
}

proof fn lemma_layout_is_calm(w: Seq<char>)
    requires
        all_layout(w),
    ensures
        calm(w),
{
    assert forall|i: int| 0 <= i < w.len() implies #[trigger] w[i] != '"' && w[i] != '\'' && w[i]
        != '`' && w[i] != '/' by {
        assert(is_layout(w[i]));
    }
}

proof fn lemma_calm_before(p: Seq<char>, w: Seq<char>, r: Seq<char>)
    requires
        calm(p),
        all_layout(w),
    ensures
        compacted(p + w + r) == ({
            let (a, b) = after(units(p), false, false);
            let (c, d) = after(units(w), a, b);
            spell(
                tidy(units(p), false, false) + (tidy(units(w), a, b) + tidy(
                    uncomment(lex(r, tail(p, '\0'))),
                    c,
                    d,
                )),
            )
        }),
{
    lemma_layout_is_calm(w);
    lemma_calm_concat(p, w);
    lemma_calm_lex(p + w, r, '\0');
    lemma_tail(p, w, '\0');
    let none = Seq::<char>::empty();
    lemma_tail(p, none, '\0');
    assert(p + none == p);
    let ys = lex(r, tail(p, '\0'));
    lemma_units(p);
    lemma_units(w);
    lemma_uncomment_concat(units(p) + units(w), ys);
    lemma_uncomment_concat(units(p), units(w));
    let us = uncomment(ys);
    assert(units(p) + units(w) + us == units(p) + (units(w) + us));
    let (a, b) = after(units(p), false, false);
    lemma_tidy_concat(units(p), units(w) + us, false, false);
    lemma_tidy_concat(units(w), us, a, b);
}

/// Minifying makes one line feed or one space of any layout, and nothing of layout
/// at the start, and of blanks at the end.
pub proof fn law_layout_is_squeezed(p: Seq<char>, w: Seq<char>, r: Seq<char>)
    requires
        calm(p),
        all_layout(w),
        w.len() > 0,
    ensures
        compacted(p + w + r) == compacted(p + gap(w) + r),
        compacted(w + r) == compacted(r),
        no_feed(w) ==> compacted(p + w) == compacted(p),
{
    let v = gap(w);
    let none = Seq::<char>::empty();
    let (a, b) = after(units(p), false, false);
    if no_feed(w) {
        assert(v == seq![' ']);
        assert(no_feed(v));
    } else {
        let i = choose|i: int| 0 <= i < w.len() && w[i] == '\n';
        assert(v == seq!['\n']);
        assert(v[0] == '\n');
    }
    assert(all_layout(v));
    lemma_layout(w, a, b);
    lemma_layout(v, a, b);
    lemma_calm_before(p, w, r);
    lemma_calm_before(p, v, r);
    lemma_layout(w, false, false);
    lemma_calm_before(none, w, r);
    lemma_calm_before(none, none, r);
    assert(units(none) == Seq::<Lexeme>::empty());
    assert(none + w + r == w + r);
    assert(none + none + r == r);
    if no_feed(w) {
        lemma_calm_before(p, w, none);
        lemma_calm_before(p, none, none);
        lemma_layout(none, a, b);
        assert(p + w + none == p + w);
        assert(p + none + none == p);
    }
}

/// Minifying keeps code, one space where a space parts it, and the line feed that
/// ends a line of it.
pub proof fn law_code_is_kept(p: Seq<char>, c: char)
    requires
        calm(p),
        p.len() > 0,
        !is_layout(p.last()),
        calm(seq![c]),
        !is_layout(c),
    ensures
        compacted(Seq::<char>::empty()) == Seq::<char>::empty(),
        compacted(seq![c]) == seq![c],
        compacted(p + seq![c]) == compacted(p) + seq![c],
        compacted(p + seq![' ', c]) == compacted(p) + seq![' ', c],
        compacted(p + seq!['\n', c]) == compacted(p) + seq!['\n', c],
        compacted(p + seq!['\n']) == compacted(p) + seq!['\n'],
{
    let none = Seq::<char>::empty();
    let one = seq![c];
    let x = Lexeme::Code(one);
    assert(calm(none));
    lemma_calm(none);
    assert(units(none) == Seq::<Lexeme>::empty());
    lemma_calm(one);
    assert(units(one) == seq![x]);
    lemma_spell_one(x, Seq::empty());
    assert(seq![x].drop_first() == Seq::<Lexeme>::empty());
    assert(seq![x] + Seq::<Lexeme>::empty() == seq![x]);
    assert(one + spell(Seq::<Lexeme>::empty()) == one);
    assert(tidy(seq![x].drop_first(), true, false) == Seq::<Lexeme>::empty());
    assert(tidy(seq![x], false, false) == seq![x]);
    assert(tidy(seq![x], true, false) == seq![x]);
    lemma_begun(p);
    lemma_calm(p);
    lemma_calm_concat(p, one);
    lemma_calm(p + one);
    lemma_tidy_concat(units(p), units(one), false, false);
    lemma_spell_concat(tidy(units(p), false, false), seq![x]);

    let sp = seq![' ', c];
    let space = Lexeme::Blank(' ');
    assert(calm(sp)) by {
        assert(seq![c][0] == c);
    }
    assert(units(sp) == seq![space, x]);
    assert(seq![space, x].drop_first() == seq![x]);
    assert(tidy(seq![x], true, true) == seq![space, x] + tidy(seq![x].drop_first(), true, false));
    assert(seq![space, x] + Seq::<Lexeme>::empty() == seq![space, x]);
    assert(tidy(seq![space, x], true, false) == seq![space, x]);
    lemma_spell_one(space, seq![x]);
    assert(seq![space] + seq![x] == seq![space, x]);
    assert(seq![' '] + one == sp);
    lemma_calm_concat(p, sp);
    lemma_calm(p + sp);
    lemma_tidy_concat(units(p), units(sp), false, false);
    lemma_spell_concat(tidy(units(p), false, false), seq![space, x]);

    let nl = seq!['\n', c];
    let feed = Lexeme::Break;
    assert(calm(nl)) by {
        assert(seq![c][0] == c);
    }
    assert(units(nl) == seq![feed, x]);
    assert(seq![feed, x].drop_first() == seq![x]);
    assert(seq![feed] + seq![x] == seq![feed, x]);
    assert(tidy(seq![feed, x], true, false) == seq![feed, x]);
    lemma_spell_one(feed, seq![x]);
    assert(seq!['\n'] + one == nl);
    lemma_calm_concat(p, nl);
    lemma_calm(p + nl);
    lemma_tidy_concat(units(p), units(nl), false, false);
    lemma_spell_concat(tidy(units(p), false, false), seq![feed, x]);

    let n = seq!['\n'];
    assert(calm(n));
    assert(units(n) == seq![feed]);
    assert(seq![feed].drop_first() == Seq::<Lexeme>::empty());
    assert(seq![feed] + Seq::<Lexeme>::empty() == seq![feed]);
    assert(tidy(seq![feed].drop_first(), false, false) == Seq::<Lexeme>::empty());
    assert(tidy(seq![feed], true, false) == seq![feed]);
    lemma_spell_one(feed, Seq::empty());
    assert(n + spell(Seq::<Lexeme>::empty()) == n);
    lemma_calm_concat(p, n);
    lemma_calm(p + n);
    lemma_tidy_concat(units(p), units(n), false, false);
    lemma_spell_concat(tidy(units(p), false, false), seq![feed]);
}

proof fn lemma_after_concat(a: Seq<Lexeme>, b: Seq<Lexeme>, begun: bool, owed: bool)
    ensures
        after(a + b, begun, owed) == after(b, after(a, begun, owed).0, after(a, begun, owed).1),
    decreases a.len(),
{
    if a.len() == 0 {
        assert(a + b == b);
    } else {
        assert((a + b).drop_first() == a.drop_first() + b);
        match a[0] {
            Lexeme::Code(_) => lemma_after_concat(a.drop_first(), b, true, false),
            Lexeme::Break => lemma_after_concat(a.drop_first(), b, false, false),
            _ => lemma_after_concat(a.drop_first(), b, begun, begun),
        }
    }
}

proof fn lemma_begun(p: Seq<char>)
    requires
        p.len() > 0,
        !is_layout(p.last()),
    ensures
        after(units(p), false, false) == (true, false),
{
    let x = unit(p.last());
    assert(units(p) == units(p.drop_last()) + seq![x]);
    lemma_after_concat(units(p.drop_last()), seq![x], false, false);
    assert(seq![x].drop_first() == Seq::<Lexeme>::empty());
    let (a, b) = after(units(p.drop_last()), false, false);
    assert(after(seq![x].drop_first(), true, false) == (true, false));
}

/// Text with no layout in it.
pub open spec fn tight(p: Seq<char>) -> bool {
    forall|i: int| 0 <= i < p.len() ==> !is_layout(#[trigger] p[i])
}

proof fn lemma_tight(p: Seq<char>)
    requires
        calm(p),
        tight(p),
    ensures
        compacted(p) == p,
    decreases p.len(),
{
    if p.len() == 0 {
        assert(calm(seq!['0']));
        law_code_is_kept(seq!['0'], '0');
        assert(p == Seq::<char>::empty());
    } else {
        let q = p.drop_last();
        let c = p.last();
        assert(p[p.len() - 1] == c);
        assert(calm(seq![c])) by {
            assert(p[p.len() - 1] != '"');
        }
        assert forall|i: int| 0 <= i < q.len() implies #[trigger] q[i] != '"' && q[i] != '\''
            && q[i] != '`' && q[i] != '/' by {
            assert(q[i] == p[i]);
        }
        assert forall|i: int| 0 <= i < q.len() implies !is_layout(#[trigger] q[i]) by {
            assert(q[i] == p[i]);
        }
        lemma_tight(q);
        assert(!is_layout(p[p.len() - 1]));
        if q.len() == 0 {
            assert(calm(seq!['0']));
            law_code_is_kept(seq!['0'], c);
            assert(p == seq![c]);
        } else {
            assert(!is_layout(q[q.len() - 1]));
            law_code_is_kept(q, c);
            assert(q + seq![c] == p);
        }
    }
}

/// A string or a template, behind code and before the end, is its own minified and
/// its own stripped form.
pub proof fn law_quoted_text_is_untouched(p: Seq<char>, q: char, t: Seq<char>)
    requires
        calm(p),
        tight(p),
        q == '"' || q == '\'' || q == '`',
        is_quoted(t, q, q == '`'),
    ensures
        stripped(p + seq![q] + t + seq![q]) == p + seq![q] + t + seq![q],
        compacted(p + seq![q] + t + seq![q]) == p + seq![q] + t + seq![q],
{
    let l = seq![q] + t + seq![q];
    let none = Seq::<char>::empty();
    let z = p + seq!['0'];
    assert(calm(seq!['0']));
    lemma_calm_concat(p, seq!['0']);
    assert(tight(z)) by {
        assert forall|i: int| 0 <= i < z.len() implies !is_layout(#[trigger] z[i]) by {
            if i < p.len() {
                assert(z[i] == p[i]);
            }
        }
    }
    lemma_tight(z);
    lemma_calm(z);
    law_strings_are_kept(p, q, t, none);
    assert(z + none == z);
    assert(z.skip(z.len() as int) == none);
    assert(z.drop_last() == p);
    assert(p + l + none == p + l);
    assert(p + seq![q] + t + seq![q] == p + l);
}

} // verus!
