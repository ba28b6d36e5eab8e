//! What holds of a source after its comments, or its comments and its layout,
//! have been removed: the code in it is read as it was before.
use vstd::prelude::*;

use crate::js::{is_address, is_name, site_at, sites_before, sites_of};
use crate::lexeme::{
    breaks, class_end, code_after, compacted, first_lexeme, lemma_class_end, lemma_first_lexeme,
    lemma_quote_end, lemma_regex_end, lex, quote_end, regex_end, regex_follows, spell, spelling,
    stripped, tidy, uncomment, Lexeme,
};

verus! {

/// Whether lexemes are read one by one where their text is read.
spec fn readable(xs: Seq<Lexeme>, prev: char) -> bool
    decreases xs.len(),
{
    xs.len() == 0 || {
        &&& spelling(xs[0]).len() > 0
        &&& !(xs[0] is Comment)
        &&& first_lexeme(spell(xs), prev) == xs[0]
        &&& readable(xs.drop_first(), code_after(xs[0], prev))
    }
}

proof fn lemma_readable(xs: Seq<Lexeme>, prev: char)
    requires
        readable(xs, prev),
    ensures
        lex(spell(xs), prev) == xs,
    decreases xs.len(),
{
    if xs.len() > 0 {
        let x = xs[0];
        let rest = xs.drop_first();
        let s = spell(xs);
        lemma_readable(rest, code_after(x, prev));
        assert(s.skip(spelling(x).len() as int) == spell(rest));
        assert(seq![x] + rest == xs);
    }
}

/// What may stand behind a lexeme in place of `rest` without changing it:
/// nothing, a line feed, the character that stood there, or a space unless a line
/// feed stood there.
spec fn may_follow(rest: Seq<char>, other: Seq<char>) -> bool {
    &&& rest.len() == 0 ==> other.len() == 0
    &&& other.len() > 0 ==> {
        ||| rest[0] == '/'
        ||| other[0] == rest[0]
        ||| other[0] == '\n'
        ||| other[0] == ' ' && rest[0] != '\n'
    }
}

proof fn lemma_quote_end_stable(
    a: Seq<char>,
    rest: Seq<char>,
    other: Seq<char>,
    i: int,
    quote: char,
    spans: bool,
)
    requires
        0 <= i <= a.len(),
        quote_end(a + rest, i, quote, spans) == a.len(),
        rest.len() == 0 ==> other.len() == 0,
    ensures
        quote_end(a + other, i, quote, spans) == a.len(),
    decreases a.len() - i,
{
    reveal_with_fuel(quote_end, 2);
    let s = a + rest;
    let t = a + other;
    if i < a.len() {
        assert(s[i] == t[i]);
        if s[i] == '\\' {
            if i + 2 <= a.len() {
                lemma_quote_end_stable(a, rest, other, i + 2, quote, spans);
            } else if rest.len() > 0 {
                lemma_quote_end(s, i + 2, quote, spans);
            }
        } else if !(s[i] == quote || (s[i] == '\n' && !spans)) {
            lemma_quote_end_stable(a, rest, other, i + 1, quote, spans);
        }
    } else if rest.len() > 0 {
        if s[i] == '\\' {
            if i + 2 <= s.len() {
                lemma_quote_end(s, i + 2, quote, spans);
            }
        } else {
            lemma_quote_end(s, i + 1, quote, spans);
        }
    }
}

proof fn lemma_class_end_stable(a: Seq<char>, rest: Seq<char>, other: Seq<char>, i: int)
    requires
        0 <= i < a.len(),
        class_end(a + rest, i) <= a.len(),
        rest.len() == 0 ==> other.len() == 0,
    ensures
        class_end(a + other, i) == class_end(a + rest, i),
    decreases a.len() - i,
{
    reveal_with_fuel(class_end, 2);
    let s = a + rest;
    let t = a + other;
    assert(s[i] == t[i]);
    if s[i] == '\\' {
        if i + 2 < a.len() {
            lemma_class_end_stable(a, rest, other, i + 2);
        } else if i + 2 < s.len() {
            lemma_class_end(s, i + 2);
        }
    } else if !(s[i] == ']' || s[i] == '\n') {
        if i + 1 < a.len() {
            lemma_class_end_stable(a, rest, other, i + 1);
        } else if i + 1 < s.len() {
            lemma_class_end(s, i + 1);
        }
    }
}

proof fn lemma_regex_end_stable(a: Seq<char>, rest: Seq<char>, other: Seq<char>, i: int)
    requires
        0 <= i <= a.len(),
        regex_end(a + rest, i) == a.len(),
        may_follow(rest, other),
    ensures
        regex_end(a + other, i) == a.len(),
    decreases a.len() - i,
{
    reveal_with_fuel(regex_end, 2);
    let s = a + rest;
    let t = a + other;
    if i < a.len() {
        assert(s[i] == t[i]);
        if s[i] == '\\' {
            if i + 2 <= a.len() {
                lemma_regex_end_stable(a, rest, other, i + 2);
            } else if rest.len() > 0 {
                lemma_regex_end(s, i + 2);
            }
        } else if s[i] == '[' {
            lemma_class_end(s, i);
            lemma_regex_end(s, class_end(s, i));
            lemma_class_end_stable(a, rest, other, i);
            lemma_regex_end_stable(a, rest, other, class_end(s, i));
        } else if s[i] != '\n' && s[i] != '/' {
            lemma_regex_end_stable(a, rest, other, i + 1);
        }
    } else if rest.len() > 0 {
        if s[i] == '\\' {
            if i + 2 <= s.len() {
                lemma_regex_end(s, i + 2);
            }
        } else if s[i] == '[' {
            lemma_class_end(s, i);
            lemma_regex_end(s, class_end(s, i));
        } else {
            lemma_regex_end(s, i + 1);
        }
        assert(rest[0] == '\n');
    }
}

/// A lexeme that is no comment stays the same before other text that may follow.
proof fn lemma_first_stable(x: Lexeme, prev: char, rest: Seq<char>, other: Seq<char>)
    requires
        !(x is Comment),
        spelling(x).len() > 0,
        first_lexeme(spelling(x) + rest, prev) == x,
        may_follow(rest, other),
    ensures
        first_lexeme(spelling(x) + other, prev) == x,
{
    let a = spelling(x);
    let s = a + rest;
    let t = a + other;
    assert(s[0] == t[0]);
    lemma_quote_end(s, 1, s[0], false);
    lemma_quote_end(s, 1, '`', true);
    lemma_regex_end(s, 1);
    assert(t.take(a.len() as int) == a);
    if s[0] == '"' || s[0] == '\'' {
        lemma_quote_end_stable(a, rest, other, 1, s[0], false);
    } else if s[0] == '`' {
        lemma_quote_end_stable(a, rest, other, 1, '`', true);
    } else if s[0] == '/' {
        if a.len() == 1 && other.len() > 0 {
            assert(t[1] == other[0]);
            assert(s[1] == rest[0]);
        } else if a.len() > 1 {
            assert(t[1] == s[1]);
        }
        if regex_follows(prev) {
            lemma_regex_end_stable(a, rest, other, 1);
        }
    }
}

/// Breaks are read as breaks before anything that is read.
proof fn lemma_breaks_readable(comment: Seq<char>, xs: Seq<Lexeme>, prev: char)
    requires
        readable(xs, prev),
    ensures
        readable(breaks(comment) + xs, prev),
    decreases comment.len(),
{
    let all = breaks(comment) + xs;
    if comment.len() == 0 {
        assert(all == xs);
    } else {
        lemma_breaks_readable(comment.drop_first(), xs, prev);
        if comment[0] == '\n' {
            let rest = breaks(comment.drop_first()) + xs;
            assert(all[0] == Lexeme::Break);
            assert(all.drop_first() == rest);
            assert(spell(all)[0] == '\n');
        }
    }
}

/// What is left of a source without its comments is read as it was before, and
/// may follow whatever the source followed.
proof fn lemma_uncomment_readable(s: Seq<char>, prev: char)
    ensures
        readable(uncomment(lex(s, prev)), prev),
        may_follow(s, spell(uncomment(lex(s, prev)))),
    decreases s.len(),
{
    if s.len() > 0 {
        let x = first_lexeme(s, prev);
        let n = spelling(x).len() as int;
        lemma_first_lexeme(s, prev);
        let after = code_after(x, prev);
        let rest = s.skip(n);
        let xs = lex(rest, after);
        let us = uncomment(xs);
        lemma_uncomment_readable(rest, after);
        assert((seq![x] + xs).drop_first() == xs);
        let all = uncomment(lex(s, prev));
        match x {
            Lexeme::Comment(t) => {
                assert(all == breaks(t) + us);
                lemma_breaks_readable(t, us, prev);
                assert(s[0] == '/');
            },
            _ => {
                assert(all == seq![x] + us);
                assert(all.drop_first() == us);
                assert(s == spelling(x) + rest);
                lemma_first_stable(x, prev, rest, spell(us));
                assert(spell(all) == spelling(x) + spell(us));
                assert(spell(all)[0] == spelling(x)[0]);
            },
        }
    }
}

/// After code and blanks, the tidied text starts with a space or a line feed.
proof fn lemma_gap(xs: Seq<Lexeme>)
    ensures
        ({
            let t = spell(tidy(xs, true, true));
            t.len() == 0 || t[0] == ' ' || t[0] == '\n'
        }),
    decreases xs.len(),
{
    if xs.len() > 0 {
        let rest = xs.drop_first();
        match xs[0] {
            Lexeme::Code(_) => {},
            Lexeme::Break => {},
            _ => {
                lemma_gap(rest);
            },
        }
    }
}

/// What is left of lexemes without layout is read as it was before.
proof fn lemma_tidy_readable(xs: Seq<Lexeme>, prev: char, begun: bool, gap: bool)
    requires
        readable(xs, prev),
    ensures
        readable(tidy(xs, begun, gap), prev),
    decreases xs.len(),
{
    if xs.len() > 0 {
        let x = xs[0];
        let rest = xs.drop_first();
        let all = tidy(xs, begun, gap);
        match x {
            Lexeme::Code(t) => {
                let ts = tidy(rest, true, false);
                lemma_tidy_readable(rest, code_after(x, prev), true, false);
                let piece = seq![x] + ts;
                assert(piece.drop_first() == ts);
                lemma_code_may_follow(rest, code_after(x, prev));
                lemma_first_stable(x, prev, spell(rest), spell(ts));
                assert(readable(piece, prev));
                if gap {
                    assert(all == seq![Lexeme::Blank(' ')] + piece);
                    assert(all.drop_first() == piece);
                    assert(spell(all)[0] == ' ');
                } else {
                    assert(all == piece);
                }
            },
            Lexeme::Break => {
                let ts = tidy(rest, false, false);
                lemma_tidy_readable(rest, prev, false, false);
                if begun {
                    assert(all.drop_first() == ts);
                    assert(spell(all)[0] == '\n');
                }
            },
            _ => {
                lemma_tidy_readable(rest, prev, begun, begun);
            },
        }
    }
}

/// Behind code, the tidied rest of a line may stand in place of the rest.
proof fn lemma_code_may_follow(rest: Seq<Lexeme>, prev: char)
    requires
        readable(rest, prev),
    ensures
        may_follow(spell(rest), spell(tidy(rest, true, false))),
{
    if rest.len() > 0 {
        let x = rest[0];
        let more = rest.drop_first();
        let t = spell(tidy(rest, true, false));
        assert(spell(rest)[0] == spelling(x)[0]);
        match x {
            Lexeme::Code(_) => {
                assert(t[0] == spelling(x)[0]);
            },
            Lexeme::Break => {
                assert(t[0] == '\n');
            },
            _ => {
                lemma_gap(more);
            },
        }
    }
}

/// A source without its comments is read as the source is, except for the
/// comments.
pub proof fn law_strip_keeps_code(s: Seq<char>)
    ensures
        lex(stripped(s), '\0') == uncomment(lex(s, '\0')),
{
    lemma_uncomment_readable(s, '\0');
    lemma_readable(uncomment(lex(s, '\0')), '\0');
}

/// A minified source is read as the source is, except for comments and layout:
/// nothing is renamed, reordered or dropped.
pub proof fn law_compact_keeps_code(s: Seq<char>)
    ensures
        lex(compacted(s), '\0') == tidy(uncomment(lex(s, '\0')), false, false),
{
    let xs = uncomment(lex(s, '\0'));
    lemma_uncomment_readable(s, '\0');
    lemma_tidy_readable(xs, '\0', false, false);
    lemma_readable(tidy(xs, false, false), '\0');
}

/// The code among lexemes, in its order.
pub open spec fn code(xs: Seq<Lexeme>) -> Seq<Lexeme>
    decreases xs.len(),
{
    if xs.len() == 0 {
        seq![]
    } else if xs[0] is Code {
        seq![xs[0]] + code(xs.drop_first())
    } else {
        code(xs.drop_first())
    }
}

/// The lines of lexemes that hold code, each as its code; `line` is the code that
/// stands on the first line already.
pub open spec fn code_lines(xs: Seq<Lexeme>, line: Seq<Lexeme>) -> Seq<Seq<Lexeme>>
    decreases xs.len(),
{
    let done = if line.len() > 0 {
        seq![line]
    } else {
        seq![]
    };
    if xs.len() == 0 {
        done
    } else {
        match xs[0] {
            Lexeme::Code(_) => code_lines(xs.drop_first(), line.push(xs[0])),
            Lexeme::Break => done + code_lines(xs.drop_first(), seq![]),
            _ => code_lines(xs.drop_first(), line),
        }
    }
}

/// Whether lexemes hold no comment and no more layout than code needs: every
/// line that ends holds code, and a blank is one space between two pieces of code
/// on a line. `begun` says that code stands on the first line already.
pub open spec fn neat(xs: Seq<Lexeme>, begun: bool) -> bool
    decreases xs.len(),
{
    xs.len() == 0 || {
        let rest = xs.drop_first();
        match xs[0] {
            Lexeme::Comment(_) => false,
            Lexeme::Code(_) => neat(rest, true),
            Lexeme::Break => begun && neat(rest, false),
            Lexeme::Blank(c) => begun && c == ' ' && rest.len() > 0 && rest[0] is Code && neat(
                rest,
                true,
            ),
        }
    }
}

proof fn lemma_code_concat(a: Seq<Lexeme>, b: Seq<Lexeme>)
    ensures
        code(a + b) == code(a) + code(b),
    decreases a.len(),
{
    if a.len() == 0 {
        assert(a + b == b);
    } else {
        assert((a + b).drop_first() == a.drop_first() + b);
        lemma_code_concat(a.drop_first(), b);
    }
}

proof fn lemma_breaks_hold_no_code(comment: Seq<char>)
    ensures
        code(breaks(comment)) == Seq::<Lexeme>::empty(),
    decreases comment.len(),
{
    if comment.len() > 0 {
        let rest = breaks(comment.drop_first());
        lemma_breaks_hold_no_code(comment.drop_first());
        assert((seq![Lexeme::Break] + rest).drop_first() == rest);
    }
}

proof fn lemma_uncomment_code(xs: Seq<Lexeme>)
    ensures
        code(uncomment(xs)) == code(xs),
    decreases xs.len(),
{
    if xs.len() > 0 {
        let rest = xs.drop_first();
        lemma_uncomment_code(rest);
        match xs[0] {
            Lexeme::Comment(t) => {
                lemma_code_concat(breaks(t), uncomment(rest));
                lemma_breaks_hold_no_code(t);
            },
            x => {
                assert((seq![x] + uncomment(rest)).drop_first() == uncomment(rest));
            },
        }
    }
}

proof fn lemma_tidy_lines(xs: Seq<Lexeme>, line: Seq<Lexeme>, gap: bool)
    requires
        gap ==> line.len() > 0,
    ensures
        code_lines(tidy(xs, line.len() > 0, gap), line) == code_lines(xs, line),
        code(tidy(xs, line.len() > 0, gap)) == code(xs),
        neat(tidy(xs, line.len() > 0, gap), line.len() > 0),
        tidy(tidy(xs, line.len() > 0, gap), line.len() > 0, false) == tidy(
            xs,
            line.len() > 0,
            gap,
        ),
    decreases xs.len(),
{
    if xs.len() > 0 {
        let x = xs[0];
        let rest = xs.drop_first();
        let begun = line.len() > 0;
        match x {
            Lexeme::Code(_) => {
                let more = line.push(x);
                lemma_tidy_lines(rest, more, false);
                let ts = tidy(rest, true, false);
                let piece = seq![x] + ts;
                assert(piece.drop_first() == ts);
                assert(code_lines(piece, line) == code_lines(ts, more));
                assert(code(piece) == seq![x] + code(ts));
                assert(neat(piece, true) && neat(piece, begun));
                let space = Lexeme::Blank(' ');
                let spaced = seq![space, x] + ts;
                assert(spaced.drop_first() == piece);
                assert(code_lines(spaced, line) == code_lines(piece, line));
                assert(code(spaced) == code(piece));
                assert(tidy(piece, begun, true) == spaced);
                assert(tidy(piece, begun, false) == piece);
                assert(tidy(spaced, true, false) == tidy(piece, true, true));
            },
            Lexeme::Break => {
                lemma_tidy_lines(rest, seq![], false);
                let ts = tidy(rest, false, false);
                assert((seq![x] + ts).drop_first() == ts);
                if !begun {
                    assert(line == Seq::<Lexeme>::empty());
                    assert(Seq::<Seq<Lexeme>>::empty() + code_lines(rest, seq![]) == code_lines(
                        rest,
                        seq![],
                    ));
                }
            },
            _ => {
                lemma_tidy_lines(rest, line, begun);
            },
        }
    }
}

proof fn lemma_breaks_uncommented(comment: Seq<char>, xs: Seq<Lexeme>)
    ensures
        uncomment(breaks(comment) + xs) == breaks(comment) + uncomment(xs),
    decreases comment.len(),
{
    let all = breaks(comment) + xs;
    if comment.len() == 0 {
        assert(all == xs);
    } else {
        lemma_breaks_uncommented(comment.drop_first(), xs);
        if comment[0] == '\n' {
            let rest = breaks(comment.drop_first());
            assert(all.drop_first() == rest + xs);
            assert(seq![Lexeme::Break] + (rest + uncomment(xs)) == breaks(comment) + uncomment(xs));
        }
    }
}

proof fn lemma_uncomment_twice(xs: Seq<Lexeme>)
    ensures
        uncomment(uncomment(xs)) == uncomment(xs),
    decreases xs.len(),
{
    if xs.len() > 0 {
        let rest = xs.drop_first();
        let us = uncomment(rest);
        lemma_uncomment_twice(rest);
        match xs[0] {
            Lexeme::Comment(t) => {
                lemma_breaks_uncommented(t, us);
            },
            x => {
                assert((seq![x] + us).drop_first() == us);
            },
        }
    }
}

proof fn lemma_neat_uncommented(xs: Seq<Lexeme>, begun: bool)
    requires
        neat(xs, begun),
    ensures
        uncomment(xs) == xs,
    decreases xs.len(),
{
    if xs.len() > 0 {
        let rest = xs.drop_first();
        match xs[0] {
            Lexeme::Break => {
                lemma_neat_uncommented(rest, false);
            },
            _ => {
                lemma_neat_uncommented(rest, true);
            },
        }
        assert(seq![xs[0]] + rest == xs);
    }
}

/// The code of a source is the same, piece by piece, after its comments are
/// removed, and after it is minified.
pub proof fn law_code_untouched(s: Seq<char>)
    ensures
        code(lex(stripped(s), '\0')) == code(lex(s, '\0')),
        code(lex(compacted(s), '\0')) == code(lex(s, '\0')),
{
    let xs = lex(s, '\0');
    law_strip_keeps_code(s);
    law_compact_keeps_code(s);
    lemma_uncomment_code(xs);
    lemma_tidy_lines(uncomment(xs), seq![], false);
}

/// Minifying joins no lines and parts none: those that hold code are the same,
/// in the same order.
pub proof fn law_lines_are_not_joined(s: Seq<char>)
    ensures
        code_lines(lex(compacted(s), '\0'), seq![]) == code_lines(
            uncomment(lex(s, '\0')),
            seq![],
        ),
{
    law_compact_keeps_code(s);
    lemma_tidy_lines(uncomment(lex(s, '\0')), seq![], false);
}

/// A minified source holds no comment, no blank line, no indentation, no blank
/// at the end of a line, and between two pieces of code on a line no more than
/// one space.
pub proof fn law_compact_is_neat(s: Seq<char>)
    ensures
        neat(lex(compacted(s), '\0'), false),
{
    law_compact_keeps_code(s);
    lemma_tidy_lines(uncomment(lex(s, '\0')), seq![], false);
}

/// A source without comments has none left to remove.
pub proof fn law_strip_is_idempotent(s: Seq<char>)
    ensures
        stripped(stripped(s)) == stripped(s),
{
    law_strip_keeps_code(s);
    lemma_uncomment_twice(lex(s, '\0'));
}

/// A minified source is minified already, and it does not matter whether the
/// comments were removed before.
pub proof fn law_compact_is_idempotent(s: Seq<char>)
    ensures
        compacted(compacted(s)) == compacted(s),
        compacted(stripped(s)) == compacted(s),
        stripped(compacted(s)) == compacted(s),
{
    let xs = uncomment(lex(s, '\0'));
    law_strip_keeps_code(s);
    law_compact_keeps_code(s);
    lemma_uncomment_twice(lex(s, '\0'));
    lemma_tidy_lines(xs, seq![], false);
    lemma_neat_uncommented(tidy(xs, false, false), false);
}

pub proof fn lemma_sites_before(s: Seq<char>, end: int)
    requires
        0 <= end,
    ensures
        sites_before(s, end).no_duplicates(),
        forall|i: int| 0 <= i < sites_before(s, end).len() ==> is_name(#[trigger] sites_before(s, end)[i]),
        forall|name: Seq<char>| #[trigger]
            sites_before(s, end).contains(name) <==> exists|at: int|
                0 <= at < end && is_address(s, at) && #[trigger] site_at(s, at) == Some(name),
    decreases end,
{
    if end > 0 {
        lemma_sites_before(s, end - 1);
        let before = sites_before(s, end - 1);
        let after = sites_before(s, end);
        assert forall|name: Seq<char>| #[trigger] after.contains(name) <==> exists|at: int|
            0 <= at < end && is_address(s, at) && #[trigger] site_at(s, at) == Some(name) by {
            if after.contains(name) {
                if before.contains(name) {
                    let at = choose|at: int|
                        0 <= at < end - 1 && is_address(s, at) && #[trigger] site_at(s, at) == Some(
                            name,
                        );
                    assert(site_at(s, at) == Some(name));
                } else {
                    let i = choose|i: int| 0 <= i < after.len() && after[i] == name;
                    assert(i == before.len()) by {
                        if i < before.len() {
                            assert(before[i] == name);
                        }
                    }
                    assert(site_at(s, end - 1) == Some(name));
                }
            }
            if exists|at: int|
                0 <= at < end && is_address(s, at) && #[trigger] site_at(s, at) == Some(name) {
                let at = choose|at: int|
                    0 <= at < end && is_address(s, at) && #[trigger] site_at(s, at) == Some(name);
                if before.contains(name) {
                    let i = choose|i: int| 0 <= i < before.len() && before[i] == name;
                    assert(after[i] == name);
                } else {
                    assert(at == end - 1);
                    assert(after[before.len() as int] == name);
                }
            }
        }
    }
}

/// The sites of a source are names, and each is listed once.
pub proof fn law_sites_are_distinct_names(source: Seq<char>)
    ensures
        sites_of(source).no_duplicates(),
        forall|i: int| 0 <= i < sites_of(source).len() ==> is_name(#[trigger] sites_of(source)[i]),
{
    lemma_sites_before(stripped(source), stripped(source).len() as int);
}

/// A name is listed if and only if a call in the code, with the name first and
/// an address second, installs it: no site is missing from the list.
pub proof fn law_every_site_is_listed(source: Seq<char>, name: Seq<char>)
    ensures
        sites_of(source).contains(name) <==> exists|at: int|
            0 <= at && is_address(stripped(source), at) && #[trigger] site_at(stripped(source), at)
                == Some(name),
{
    let s = stripped(source);
    lemma_sites_before(s, s.len() as int);
    if exists|at: int| 0 <= at && is_address(s, at) && #[trigger] site_at(s, at) == Some(name) {
        let at = choose|at: int|
            0 <= at && is_address(s, at) && #[trigger] site_at(s, at) == Some(name);
        assert(at < s.len());
    }
}

/// A site named in a comment is not a site: without the comments, the sites are
/// the same.
pub proof fn law_sites_ignore_comments(source: Seq<char>)
    ensures
        sites_of(stripped(source)) == sites_of(source),
{
    law_strip_is_idempotent(source);
}

} // verus!
