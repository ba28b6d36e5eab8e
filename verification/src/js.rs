//! The agent's JavaScript handled as text: what is stripped out of it, and what
//! is read out of it.
//!
//! `compact` is the whole of the minification. It removes comments, indentation
//! and blank lines and collapses runs of spaces, and it does nothing else: no
//! renaming, no reordering, no dropping of anything that was declared. Line
//! breaks between statements are kept, because automatic semicolon insertion is
//! part of the language and joining lines changes what the parser sees.
//!
//! `sites` reads the hook names back out. Every site is installed through a call
//! that takes its own name first and its address second, `hook("goldDelta",
//! RVA.goldDelta, ...)`, so the list comes from the code rather than from a table
//! kept beside it.
//!
//! Both are stated over the lexemes of `crate::lexeme`.
use vstd::prelude::*;

use crate::lexeme::{
    arranged, block_end, breaks, class_end, code_after, compacted, first_lexeme,
    is_ascii_name_char, lemma_arranged_first, lemma_first_lexeme, lex, quote_end, regex_end,
    regex_follows, spelling, stripped, uncomment, Lexeme,
};
use crate::number::is_digit;
use crate::text::{
    chars_of, contains, find, lemma_find_is, skip_back, text_of, texts, trimmed_end,
};

verus! {

/// Whether a `/` here opens a regular expression, by the last code character.
pub fn opens_regex(prev: char) -> (yes: bool)
    ensures
        yes == regex_follows(prev),
{
    let named = if prev <= '\x7f' {
        is_ascii_alphanumeric(prev)
    } else {
        prev.is_alphanumeric()
    };
    !(named || prev == '_' || prev == '$' || prev == ')' || prev == ']' || prev == '}' || prev
        == '"' || prev == '\'' || prev == '`' || prev == '/')
}

fn is_ascii_alphanumeric(c: char) -> (yes: bool)
    ensures
        yes == is_ascii_name_char(c),
{
    ('a' <= c && c <= 'z') || ('A' <= c && c <= 'Z') || ('0' <= c && c <= '9')
}

/// Where the line ends that `at` stands on.
fn line_end(chars: &Vec<char>, at: usize) -> (end: usize)
    requires
        at <= chars@.len(),
    ensures
        at <= end <= chars@.len(),
        end - at == find(chars@.skip(at as int), '\n'),
{
    let ghost rest = chars@.skip(at as int);
    let mut i: usize = at;
    while i < chars.len() && chars[i] != '\n'
        invariant
            at <= i <= chars@.len(),
            rest == chars@.skip(at as int),
            forall|j: int| 0 <= j < i - at ==> rest[j] != '\n',
        decreases chars@.len() - i,
    {
        i = i + 1;
    }
    proof {
        lemma_find_is(rest, '\n', i - at);
    }
    i
}

/// Where the block comment ends that opens at `at`.
fn comment_end(chars: &Vec<char>, at: usize) -> (end: usize)
    requires
        at + 2 <= chars@.len(),
    ensures
        at + 2 <= end <= chars@.len(),
        end - at == block_end(chars@.skip(at as int), 2),
{
    let ghost rest = chars@.skip(at as int);
    assert(at + 2 <= chars.len());
    let mut i: usize = at + 2;
    while i < chars.len()
        invariant
            at + 2 <= i <= chars@.len(),
            rest == chars@.skip(at as int),
            block_end(rest, i - at) == block_end(rest, 2),
        decreases chars@.len() - i,
    {
        if i + 1 < chars.len() && chars[i] == '*' && chars[i + 1] == '/' {
            return i + 2;
        }
        i = i + 1;
    }
    i
}

/// Where the string or template ends that opens at `at`.
fn literal_end(chars: &Vec<char>, at: usize, quote: char, spans: bool) -> (end: usize)
    requires
        at < chars@.len(),
    ensures
        at < end <= chars@.len(),
        end - at == quote_end(chars@.skip(at as int), 1, quote, spans),
{
    let ghost rest = chars@.skip(at as int);
    assert(at < chars.len());
    let mut i: usize = at + 1;
    while i < chars.len()
        invariant
            at < i <= chars@.len(),
            rest == chars@.skip(at as int),
            quote_end(rest, i - at, quote, spans) == quote_end(rest, 1, quote, spans),
        decreases chars@.len() - i,
    {
        let c = chars[i];
        if c == '\\' {
            if i + 1 == chars.len() {
                assert(quote_end(rest, i + 2 - at, quote, spans) == rest.len());
                return i + 1;
            }
            i = i + 2;
        } else {
            i = i + 1;
            if c == quote || (c == '\n' && !spans) {
                return i;
            }
        }
    }
    i
}

/// Where the character class ends that opens at `from`, inside a regular
/// expression that opens at `at`.
fn char_class(chars: &Vec<char>, at: usize, from: usize) -> (end: usize)
    requires
        at <= from < chars@.len(),
    ensures
        from < end <= chars@.len(),
        end - at == class_end(chars@.skip(at as int), from - at),
{
    let ghost rest = chars@.skip(at as int);
    let mut i: usize = from;
    while i < chars.len()
        invariant
            at <= from <= i <= chars@.len(),
            from < chars@.len(),
            rest == chars@.skip(at as int),
            class_end(rest, i - at) == class_end(rest, from - at),
        decreases chars@.len() - i,
    {
        let c = chars[i];
        if c == '\\' {
            if i + 1 == chars.len() {
                assert(class_end(rest, i + 2 - at) == rest.len());
                return i + 1;
            }
            i = i + 2;
        } else {
            i = i + 1;
            if c == ']' || c == '\n' {
                return i;
            }
        }
    }
    i
}

/// Where the regular expression ends that opens at `at`.
fn pattern_end(chars: &Vec<char>, at: usize) -> (end: usize)
    requires
        at < chars@.len(),
    ensures
        at < end <= chars@.len(),
        end - at == regex_end(chars@.skip(at as int), 1),
{
    let ghost rest = chars@.skip(at as int);
    assert(at < chars.len());
    let mut i: usize = at + 1;
    while i < chars.len()
        invariant
            at < i <= chars@.len(),
            rest == chars@.skip(at as int),
            regex_end(rest, i - at) == regex_end(rest, 1),
        decreases chars@.len() - i,
    {
        let c = chars[i];
        if c == '\\' {
            if i + 1 == chars.len() {
                assert(regex_end(rest, i + 2 - at) == rest.len());
                return i + 1;
            }
            i = i + 2;
        } else if c == '[' {
            i = char_class(chars, at, i);
        } else if c == '\n' {
            return i;
        } else {
            i = i + 1;
            if c == '/' {
                return i;
            }
        }
    }
    i
}

/// Writes one character of code, after the space that is owed.
fn emit(out: &mut String, c: char, code_on_line: &mut bool, owed: &mut bool, tight: bool)
    ensures
        final(out)@ == old(out)@ + (if tight && *old(owed) {
            seq![' ', c]
        } else {
            seq![c]
        }),
        *final(code_on_line),
        *final(owed) == (*old(owed) && !tight),
{
    if tight && *owed {
        out.push(' ');
        *owed = false;
    }
    out.push(c);
    *code_on_line = true;
}

/// Ends a line, unless it is to be `tight` and holds no code.
fn line(out: &mut String, code_on_line: &mut bool, owed: &mut bool, tight: bool)
    ensures
        final(out)@ == (if !tight || *old(code_on_line) {
            old(out)@.push('\n')
        } else {
            old(out)@
        }),
        !*final(code_on_line),
        !*final(owed),
{
    if !tight || *code_on_line {
        out.push('\n');
    }
    *code_on_line = false;
    *owed = false;
}

/// Where the lexeme ends that starts at `at`.
fn lexeme_end(chars: &Vec<char>, at: usize, prev: char) -> (end: usize)
    requires
        at < chars@.len(),
    ensures
        at < end <= chars@.len(),
        end - at == spelling(first_lexeme(chars@.skip(at as int), prev)).len(),
        spelling(first_lexeme(chars@.skip(at as int), prev)) == chars@.subrange(
            at as int,
            end as int,
        ),
{
    let ghost rest = chars@.skip(at as int);
    let ghost x = first_lexeme(rest, prev);
    proof {
        lemma_first_lexeme(rest, prev);
        assert(rest.take(spelling(x).len() as int) == chars@.subrange(
            at as int,
            at + spelling(x).len(),
        ));
    }
    assert(at < chars.len());
    let c = chars[at];
    let slash = c == '/';
    if slash && at + 1 < chars.len() && chars[at + 1] == '/' {
        line_end(chars, at)
    } else if slash && at + 1 < chars.len() && chars[at + 1] == '*' {
        comment_end(chars, at)
    } else if c == '"' || c == '\'' {
        literal_end(chars, at, c, false)
    } else if c == '`' {
        literal_end(chars, at, c, true)
    } else if slash && opens_regex(prev) {
        pattern_end(chars, at)
    } else {
        at + 1
    }
}

/// Writes a source again without its comments and, where it is to be `tight`,
/// without its layout.
pub fn scan(source: &str, tight: bool) -> (written: String)
    ensures
        written@ == arranged(uncomment(lex(source@, '\0')), tight, false, false),
{
    let chars = chars_of(source);
    let ghost whole = arranged(uncomment(lex(source@, '\0')), tight, false, false);
    let mut out = String::new();
    // Whether code stands on this line yet, and whether a space is owed before
    // the next piece of it.
    let mut code_on_line = false;
    let mut owed = false;
    let mut prev = '\0';
    let mut i: usize = 0;
    assert(chars@.skip(0) == chars@);
    while i < chars.len()
        invariant
            i <= chars@.len(),
            !tight ==> !owed,
            whole == out@ + arranged(
                uncomment(lex(chars@.skip(i as int), prev)),
                tight,
                code_on_line,
                owed,
            ),
        decreases chars@.len() - i,
    {
        let ghost rest = chars@.skip(i as int);
        let ghost x = first_lexeme(rest, prev);
        let end = lexeme_end(&chars, i, prev);
        let ghost tail = uncomment(lex(chars@.skip(end as int), code_after(x, prev)));
        let c = chars[i];
        let comment = c == '/' && i + 1 < chars.len() && (chars[i + 1] == '/' || chars[i + 1] == '*');
        proof {
            let after = lex(chars@.skip(end as int), code_after(x, prev));
            assert(rest.skip(end - i) == chars@.skip(end as int));
            assert((seq![x] + after).drop_first() == after);
            assert(comment == (x is Comment));
            if !comment {
                lemma_arranged_first(x, tail, tight, code_on_line, owed);
            }
        }
        if comment {
            let ghost t = chars@.subrange(i as int, end as int);
            let mut j: usize = i;
            assert(t.skip(0) == t);
            while j < end
                invariant
                    i <= j <= end <= chars@.len(),
                    t == chars@.subrange(i as int, end as int),
                    !tight ==> !owed,
                    whole == out@ + arranged(
                        breaks(t.skip(j - i)) + tail,
                        tight,
                        code_on_line,
                        owed,
                    ),
                decreases end - j,
            {
                proof {
                    assert(t.skip(j - i).drop_first() == t.skip(j + 1 - i));
                    let more = breaks(t.skip(j + 1 - i)) + tail;
                    assert(seq![Lexeme::Break] + breaks(t.skip(j + 1 - i)) + tail
                        == seq![Lexeme::Break] + more);
                    lemma_arranged_first(Lexeme::Break, more, tight, code_on_line, owed);
                }
                if chars[j] == '\n' {
                    line(&mut out, &mut code_on_line, &mut owed, tight);
                }
                j = j + 1;
            }
            assert(breaks(t.skip(end - i)) + tail == tail);
        } else if c == '\n' {
            line(&mut out, &mut code_on_line, &mut owed, tight);
        } else if c == ' ' || c == '\t' || c == '\r' {
            if tight {
                // Leading blanks are dropped rather than owed, so an indented
                // line arrives at the margin.
                owed = code_on_line;
            } else {
                out.push(c);
            }
        } else {
            let ghost before = out@;
            let ghost t = chars@.subrange(i as int, end as int);
            let ghost space = if tight && owed {
                seq![' ']
            } else {
                seq![]
            };
            emit(&mut out, c, &mut code_on_line, &mut owed, tight);
            let mut j: usize = i + 1;
            assert(out@ == before + space + t.take(1));
            while j < end
                invariant
                    i < j <= end <= chars@.len(),
                    t == chars@.subrange(i as int, end as int),
                    !owed,
                    code_on_line,
                    out@ == before + space + t.take(j - i),
                decreases end - j,
            {
                emit(&mut out, chars[j], &mut code_on_line, &mut owed, tight);
                assert(t.take(j - i).push(t[j - i]) == t.take(j + 1 - i));
                j = j + 1;
            }
            assert(t.take(end - i) == t);
            prev = c;
        }
        i = end;
    }
    out
}

/// Minifies one module: comments and layout out, code untouched.
pub fn compact(source: &str) -> (written: String)
    ensures
        written@ == compacted(source@),
{
    scan(source, true)
}

/// Removes the comments and leaves the layout alone. What `sites` reads, so that
/// an example written in a comment is not offered as a hook.
pub fn strip_comments(source: &str) -> (written: String)
    ensures
        written@ == stripped(source@),
{
    scan(source, false)
}

/// Whether a character may stand in a site's name, or end the name of a
/// function.
pub open spec fn is_name_char(c: char) -> bool {
    is_ascii_name_char(c) || c == '_'
}

/// Whether a text is a name that a site can have.
pub open spec fn is_name(s: Seq<char>) -> bool {
    &&& s.len() > 0
    &&& forall|i: int| 0 <= i < s.len() ==> is_name_char(#[trigger] s[i])
    &&& !is_digit(s[0])
}

/// Where `c` last stands in `s`, or -1 if it does not.
pub open spec fn find_last(s: Seq<char>, c: char) -> int
    decreases s.len(),
{
    if s.len() == 0 {
        -1
    } else if s.last() == c {
        s.len() - 1
    } else {
        find_last(s.drop_last(), c)
    }
}

/// The name of the site whose address is read at `at`: what stands before it is
/// a call that has the name, in double quotes, as its first argument and the
/// address as its second.
pub open spec fn site_at(s: Seq<char>, at: int) -> Option<Seq<char>> {
    let first = trimmed_end(s.take(at));
    let quoted = trimmed_end(first.drop_last());
    let opened = quoted.drop_last();
    let quote = find_last(opened, '"');
    let name = opened.skip(quote + 1);
    let call = trimmed_end(opened.take(quote));
    if {
        &&& first.len() > 0 && first.last() == ','
        &&& quoted.len() > 0 && quoted.last() == '"'
        &&& quote >= 0
        &&& is_name(name)
        &&& call.len() >= 2 && call.last() == '(' && is_name_char(call[call.len() - 2])
    } {
        Some(name)
    } else {
        None
    }
}

/// Whether an address is read at `at`.
pub open spec fn is_address(s: Seq<char>, at: int) -> bool {
    &&& at + 4 <= s.len()
    &&& s[at] == 'R'
    &&& s[at + 1] == 'V'
    &&& s[at + 2] == 'A'
    &&& s[at + 3] == '.'
}

/// The sites whose addresses are read before `end`, in their order and each
/// once.
pub open spec fn sites_before(s: Seq<char>, end: int) -> Seq<Seq<char>>
    decreases end,
{
    if end <= 0 {
        seq![]
    } else {
        let before = sites_before(s, end - 1);
        match site_at(s, end - 1) {
            Some(name) if is_address(s, end - 1) && !before.contains(name) => before.push(name),
            _ => before,
        }
    }
}

/// The sites that a source installs. What stands in its comments does not count.
pub open spec fn sites_of(source: Seq<char>) -> Seq<Seq<char>> {
    sites_before(stripped(source), stripped(source).len() as int)
}

/// Walks back from `RVA.` over `, "name"` and the call that opened it.
fn named_before(text: &Vec<char>, at: usize) -> (name: Option<String>)
    requires
        at <= text@.len(),
    ensures
        match name {
            Some(n) => site_at(text@, at as int) == Some(n@),
            None => site_at(text@, at as int) is None,
        },
{
    let ghost s = text@;
    let comma = skip_back(text, at);
    if comma == 0 || text[comma - 1] != ',' {
        return None;
    }
    assert(s.take(comma as int).drop_last() == s.take(comma - 1));
    let end = skip_back(text, comma - 1);
    if end == 0 || text[end - 1] != '"' {
        return None;
    }
    let ghost opened = s.take(end - 1);
    assert(s.take(end as int).drop_last() == opened);
    let mut start: usize = end - 1;
    assert(opened.take(start as int) == opened);
    while start > 0 && text[start - 1] != '"'
        invariant
            s == text@,
            start < end <= s.len(),
            opened == s.take(end - 1),
            find_last(opened, '"') == find_last(opened.take(start as int), '"'),
        decreases start,
    {
        assert(opened.take(start as int).drop_last() == opened.take(start - 1));
        start = start - 1;
    }
    if start == 0 {
        return None;
    }
    assert(find_last(opened, '"') == start - 1);
    let ghost inner = opened.skip(start as int);
    assert(inner == s.subrange(start as int, end - 1));
    if start == end - 1 {
        return None;
    }
    let first = text[start];
    if '0' <= first && first <= '9' {
        assert(inner[0] == first);
        return None;
    }
    for i in start..end - 1
        invariant
            s == text@,
            start < end <= s.len(),
            inner == s.subrange(start as int, end - 1),
            forall|j: int| 0 <= j < i - start ==> is_name_char(#[trigger] inner[j]),
            site_at(s, at as int) is Some ==> is_name(inner),
    {
        let c = text[i];
        assert(c == inner[i - start]);
        if !(is_ascii_alphanumeric(c) || c == '_') {
            return None;
        }
    }
    assert(is_name(inner));
    // Whatever opened the call has to be a name: this is an argument list, not a
    // bare pair of values.
    let paren = skip_back(text, start - 1);
    assert(opened.take(start - 1) == s.take(start - 1));
    if paren < 2 || text[paren - 1] != '(' {
        return None;
    }
    let before = text[paren - 2];
    if !(is_ascii_alphanumeric(before) || before == '_') {
        return None;
    }
    Some(text_of(text, start, end - 1))
}

/// The hook sites one module installs, in the order it installs them.
///
/// Matched on the shape of the call rather than on a list of helper names, so
/// that a module wrapping `hook` in something of its own does not quietly drop
/// its sites out of the list.
pub fn sites(source: &str) -> (found: Vec<String>)
    ensures
        texts(found@) == sites_of(source@),
{
    let text = chars_of(&strip_comments(source));
    let ghost s = text@;
    let mut found: Vec<String> = Vec::new();
    for i in 0..text.len()
        invariant
            s == text@,
            texts(found@) == sites_before(s, i as int),
    {
        if text.len() - i >= 4 && text[i] == 'R' && text[i + 1] == 'V' && text[i + 2] == 'A'
            && text[i + 3] == '.' {
            if let Some(name) = named_before(&text, i) {
                if !contains(&found, &name) {
                    let ghost before = texts(found@);
                    found.push(name);
                    assert(texts(found@) == before.push(name@));
                }
            }
        }
    }
    found
}

} // verus!
