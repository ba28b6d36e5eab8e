//! The lexemes of a JavaScript source, as far as removing comments and layout
//! has to tell them apart.
//!
//! A source is cut into comments, line breaks, blanks and code, where a string, a
//! template or a regular expression is one piece of code: that is what keeps a
//! `//` inside a string, or a quote inside a regular expression, from being
//! mistaken for something else.
use vstd::prelude::*;

use crate::text::{find, lemma_find};

verus! {

/// One piece of a source.
pub enum Lexeme {
    /// A comment, delimiters included. The line feed that ends a `//` comment
    /// is not part of it.
    Comment(Seq<char>),
    /// A line feed between two pieces of code.
    Break,
    /// A space, a tab or a carriage return outside any literal.
    Blank(char),
    /// A string, a template or a regular expression as a whole, or one
    /// character of anything else.
    Code(Seq<char>),
}

/// The characters of a lexeme.
pub open spec fn spelling(x: Lexeme) -> Seq<char> {
    match x {
        Lexeme::Comment(t) => t,
        Lexeme::Break => seq!['\n'],
        Lexeme::Blank(c) => seq![c],
        Lexeme::Code(t) => t,
    }
}

/// The characters of lexemes one after the other.
pub open spec fn spell(xs: Seq<Lexeme>) -> Seq<char>
    decreases xs.len(),
{
    if xs.len() == 0 {
        seq![]
    } else {
        spelling(xs[0]) + spell(xs.drop_first())
    }
}

/// Whether a character separates tokens without ending a line.
pub open spec fn is_blank(c: char) -> bool {
    c == ' ' || c == '\t' || c == '\r'
}

/// What `char::is_alphanumeric` says of a character.
pub uninterp spec fn unicode_alphanumeric(c: char) -> bool;

/// `char::is_alphanumeric` depends on nothing but the character. Which
/// characters outside ASCII it accepts is what the Unicode tables of the
/// standard library say, and is not stated.
pub assume_specification[ char::is_alphanumeric ](c: char) -> (yes: bool)
    ensures
        yes == unicode_alphanumeric(c),
;

/// A letter or a digit of ASCII.
pub open spec fn is_ascii_name_char(c: char) -> bool {
    ('a' <= c && c <= 'z') || ('A' <= c && c <= 'Z') || ('0' <= c && c <= '9')
}

/// A letter or a number, in ASCII or beyond it.
pub open spec fn is_alphanumeric(c: char) -> bool {
    if c <= '\x7f' {
        is_ascii_name_char(c)
    } else {
        unicode_alphanumeric(c)
    }
}

/// Whether a `/` opens a regular expression after the code character `prev`.
/// After a value (a name, a number, a closing bracket, the end of a literal) it
/// is a division; after anything else it is a literal.
pub open spec fn regex_follows(prev: char) -> bool {
    !(is_alphanumeric(prev) || prev == '_' || prev == '$' || prev == ')' || prev == ']' || prev
        == '}' || prev == '"' || prev == '\'' || prev == '`' || prev == '/')
}

/// Whether `s` starts with the two characters.
pub open spec fn opens_with(s: Seq<char>, a: char, b: char) -> bool {
    s.len() >= 2 && s[0] == a && s[1] == b
}

/// The distance to the end, as a measure for a scan that may step past it.
pub open spec fn left(s: Seq<char>, i: int) -> int {
    if i < s.len() {
        s.len() - i
    } else {
        0
    }
}

/// Where a block comment ends that is open at `i`: behind its `*/`, or at the
/// end of the source.
pub open spec fn block_end(s: Seq<char>, i: int) -> int
    decreases left(s, i),
{
    if i >= s.len() {
        s.len() as int
    } else if i + 1 < s.len() && s[i] == '*' && s[i + 1] == '/' {
        i + 2
    } else {
        block_end(s, i + 1)
    }
}

/// Where a quoted literal ends that is open at `i`: behind its quote, or at the
/// end of the source. A backslash takes the next character with it. Unless it
/// `spans` lines, a line feed ends the literal as well: the string was never
/// one, and the rest of the file is not to be swallowed with it.
pub open spec fn quote_end(s: Seq<char>, i: int, quote: char, spans: bool) -> int
    decreases left(s, i),
{
    if i >= s.len() {
        s.len() as int
    } else if s[i] == '\\' {
        quote_end(s, i + 2, quote, spans)
    } else if s[i] == quote || (s[i] == '\n' && !spans) {
        i + 1
    } else {
        quote_end(s, i + 1, quote, spans)
    }
}

/// Where a character class of a regular expression ends that is open at `i`:
/// behind its `]`, behind a line feed, or at the end of the source.
pub open spec fn class_end(s: Seq<char>, i: int) -> int
    decreases left(s, i),
{
    if i >= s.len() {
        s.len() as int
    } else if s[i] == '\\' {
        class_end(s, i + 2)
    } else if s[i] == ']' || s[i] == '\n' {
        i + 1
    } else {
        class_end(s, i + 1)
    }
}

pub proof fn lemma_class_end(s: Seq<char>, i: int)
    requires
        0 <= i < s.len(),
    ensures
        i < class_end(s, i) <= s.len(),
    decreases s.len() - i,
{
    reveal_with_fuel(class_end, 2);
    if s[i] == '\\' {
        if i + 2 < s.len() {
            lemma_class_end(s, i + 2);
        }
    } else if i + 1 < s.len() {
        lemma_class_end(s, i + 1);
    }
}

/// Where a regular expression ends that is open at `i`: behind its `/`, before a
/// line feed, or at the end of the source. A `/` inside a character class does
/// not end it.
pub open spec fn regex_end(s: Seq<char>, i: int) -> int
    decreases left(s, i),
    when 0 <= i
    via regex_end_decreases
{
    if i >= s.len() {
        s.len() as int
    } else if s[i] == '\\' {
        regex_end(s, i + 2)
    } else if s[i] == '[' {
        regex_end(s, class_end(s, i))
    } else if s[i] == '\n' {
        i
    } else if s[i] == '/' {
        i + 1
    } else {
        regex_end(s, i + 1)
    }
}

#[via_fn]
proof fn regex_end_decreases(s: Seq<char>, i: int) {
    if 0 <= i < s.len() {
        lemma_class_end(s, i);
    }
}

/// The first lexeme of a source that is not empty, where `prev` is the last code
/// character before it.
pub open spec fn first_lexeme(s: Seq<char>, prev: char) -> Lexeme {
    if opens_with(s, '/', '/') {
        Lexeme::Comment(s.take(find(s, '\n')))
    } else if opens_with(s, '/', '*') {
        Lexeme::Comment(s.take(block_end(s, 2)))
    } else if s[0] == '\n' {
        Lexeme::Break
    } else if is_blank(s[0]) {
        Lexeme::Blank(s[0])
    } else if s[0] == '"' || s[0] == '\'' {
        Lexeme::Code(s.take(quote_end(s, 1, s[0], false)))
    } else if s[0] == '`' {
        Lexeme::Code(s.take(quote_end(s, 1, '`', true)))
    } else if s[0] == '/' && regex_follows(prev) {
        Lexeme::Code(s.take(regex_end(s, 1)))
    } else {
        Lexeme::Code(s.take(1))
    }
}

/// The code character that a lexeme leaves as the last one: that which a literal
/// opens with, or the one before for what is not code.
pub open spec fn code_after(x: Lexeme, prev: char) -> char {
    match x {
        Lexeme::Code(t) => t[0],
        _ => prev,
    }
}

/// The lexemes of a source, where `prev` is the last code character before it.
pub open spec fn lex(s: Seq<char>, prev: char) -> Seq<Lexeme>
    decreases s.len(),
    via lex_decreases
{
    if s.len() == 0 {
        seq![]
    } else {
        let x = first_lexeme(s, prev);
        seq![x] + lex(s.skip(spelling(x).len() as int), code_after(x, prev))
    }
}

#[via_fn]
proof fn lex_decreases(s: Seq<char>, prev: char) {
    if s.len() > 0 {
        lemma_first_lexeme(s, prev);
    }
}

pub proof fn lemma_block_end(s: Seq<char>, i: int)
    requires
        0 <= i <= s.len(),
    ensures
        i <= block_end(s, i) <= s.len(),
    decreases s.len() - i,
{
    if i < s.len() {
        lemma_block_end(s, i + 1);
    }
}

pub proof fn lemma_quote_end(s: Seq<char>, i: int, quote: char, spans: bool)
    requires
        0 <= i <= s.len(),
    ensures
        i <= quote_end(s, i, quote, spans) <= s.len(),
    decreases s.len() - i,
{
    reveal_with_fuel(quote_end, 2);
    if i < s.len() {
        if s[i] == '\\' {
            if i + 2 <= s.len() {
                lemma_quote_end(s, i + 2, quote, spans);
            }
        } else {
            lemma_quote_end(s, i + 1, quote, spans);
        }
    }
}

pub proof fn lemma_regex_end(s: Seq<char>, i: int)
    requires
        0 <= i <= s.len(),
    ensures
        i <= regex_end(s, i) <= s.len(),
    decreases s.len() - i,
{
    reveal_with_fuel(regex_end, 2);
    if i < s.len() {
        if s[i] == '\\' {
            if i + 2 <= s.len() {
                lemma_regex_end(s, i + 2);
            }
        } else if s[i] == '[' {
            lemma_class_end(s, i);
            lemma_regex_end(s, class_end(s, i));
        } else {
            lemma_regex_end(s, i + 1);
        }
    }
}

/// The first lexeme is the beginning of the source, and not nothing.
pub proof fn lemma_first_lexeme(s: Seq<char>, prev: char)
    requires
        s.len() > 0,
    ensures
        0 < spelling(first_lexeme(s, prev)).len() <= s.len(),
        spelling(first_lexeme(s, prev)) == s.take(spelling(first_lexeme(s, prev)).len() as int),
{
    lemma_find(s, '\n');
    if s.len() >= 2 {
        lemma_block_end(s, 2);
    }
    lemma_quote_end(s, 1, s[0], false);
    lemma_quote_end(s, 1, '`', true);
    lemma_regex_end(s, 1);
    if opens_with(s, '/', '/') {
        assert(s[0] != '\n');
    }
}

/// The breaks that stand for a comment: one for each line it ends.
pub open spec fn breaks(comment: Seq<char>) -> Seq<Lexeme>
    decreases comment.len(),
{
    if comment.len() == 0 {
        seq![]
    } else if comment[0] == '\n' {
        seq![Lexeme::Break] + breaks(comment.drop_first())
    } else {
        breaks(comment.drop_first())
    }
}

/// Lexemes without the comments. A comment that spans lines leaves its line
/// feeds, so that the code on either side of it is not glued together.
pub open spec fn uncomment(xs: Seq<Lexeme>) -> Seq<Lexeme>
    decreases xs.len(),
{
    if xs.len() == 0 {
        seq![]
    } else {
        let first = match xs[0] {
            Lexeme::Comment(t) => breaks(t),
            x => seq![x],
        };
        first + uncomment(xs.drop_first())
    }
}

/// Lexemes without layout: code stays, one space is left where blanks stood
/// between two pieces of code on a line, and a break is left where it ends a
/// line that holds code. `begun` says that the line holds code already, `gap`
/// that blanks came after it.
pub open spec fn tidy(xs: Seq<Lexeme>, begun: bool, gap: bool) -> Seq<Lexeme>
    decreases xs.len(),
{
    if xs.len() == 0 {
        seq![]
    } else {
        let rest = xs.drop_first();
        match xs[0] {
            Lexeme::Code(_) => if gap {
                seq![Lexeme::Blank(' '), xs[0]] + tidy(rest, true, false)
            } else {
                seq![xs[0]] + tidy(rest, true, false)
            },
            Lexeme::Break => if begun {
                seq![Lexeme::Break] + tidy(rest, false, false)
            } else {
                tidy(rest, false, false)
            },
            _ => tidy(rest, begun, begun),
        }
    }
}

/// The text of lexemes that hold no comment, tidied where it is to be `tight`.
pub open spec fn arranged(xs: Seq<Lexeme>, tight: bool, begun: bool, gap: bool) -> Seq<char> {
    if tight {
        spell(tidy(xs, begun, gap))
    } else {
        spell(xs)
    }
}

pub proof fn lemma_arranged_first(x: Lexeme, xs: Seq<Lexeme>, tight: bool, begun: bool, gap: bool)
    requires
        !(x is Comment),
    ensures
        arranged(seq![x] + xs, tight, begun, gap) == (match x {
            Lexeme::Code(t) => if tight && gap {
                seq![' '] + t + arranged(xs, tight, true, false)
            } else {
                t + arranged(xs, tight, true, false)
            },
            Lexeme::Break => if !tight || begun {
                seq!['\n'] + arranged(xs, tight, false, false)
            } else {
                arranged(xs, tight, false, false)
            },
            Lexeme::Blank(c) => if tight {
                arranged(xs, tight, begun, begun)
            } else {
                seq![c] + arranged(xs, tight, begun, gap)
            },
            Lexeme::Comment(_) => seq![],
        }),
{
    let all = seq![x] + xs;
    assert(all.drop_first() == xs);
    if tight {
        if x is Code {
            let space = Lexeme::Blank(' ');
            let rest = tidy(xs, true, false);
            assert((seq![x] + rest).drop_first() == rest);
            assert((seq![space, x] + rest).drop_first() == seq![x] + rest);
            assert(spell(seq![x] + rest) == spelling(x) + spell(rest));
            assert(spell(seq![space, x] + rest) == seq![' '] + (spelling(x) + spell(rest)));
        } else if x is Break {
            let rest = tidy(xs, false, false);
            assert((seq![x] + rest).drop_first() == rest);
        }
    }
}

/// A source without its comments.
pub open spec fn stripped(s: Seq<char>) -> Seq<char> {
    spell(uncomment(lex(s, '\0')))
}

/// A source without its comments and its layout.
pub open spec fn compacted(s: Seq<char>) -> Seq<char> {
    spell(tidy(uncomment(lex(s, '\0')), false, false))
}

} // verus!
