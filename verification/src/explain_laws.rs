//! How an error and its stack are told.
use vstd::prelude::*;

use crate::explain::{explained, indent, stack_frames};
use crate::text::{
    find, is_space, joined, lemma_find, lemma_find_is, lines, trimmed, trimmed_start,
    without_return,
};
use crate::text_laws::{lacks, law_lines_end_at_feeds};

verus! {

/// The trimmed lines that are not empty.
spec fn filled(all: Seq<Seq<char>>) -> Seq<Seq<char>>
    decreases all.len(),
{
    if all.len() == 0 {
        seq![]
    } else {
        filled(all.drop_last()) + one(all.last())
    }
}

/// A line as a list: trimmed, and nothing if nothing is left.
spec fn one(line: Seq<char>) -> Seq<Seq<char>> {
    if trimmed(line).len() > 0 {
        seq![trimmed(line)]
    } else {
        seq![]
    }
}

proof fn lemma_filled_first(a: Seq<char>, rest: Seq<Seq<char>>)
    ensures
        filled(seq![a] + rest) == one(a) + filled(rest),
    decreases rest.len(),
{
    let all = seq![a] + rest;
    if rest.len() == 0 {
        assert(all.drop_last() == rest);
        assert(all.last() == a);
        assert(filled(rest) + one(a) == one(a) + filled(rest));
    } else {
        assert(all.drop_last() == seq![a] + rest.drop_last());
        assert(all.last() == rest.last());
        lemma_filled_first(a, rest.drop_last());
        assert(one(a) + filled(rest.drop_last()) + one(rest.last()) == one(a) + filled(rest));
    }
}

proof fn lemma_frames(a: Seq<char>, rest: Seq<Seq<char>>)
    ensures
        stack_frames(seq![a] + rest) == filled(rest),
    decreases rest.len(),
{
    let all = seq![a] + rest;
    if rest.len() > 0 {
        assert(all.drop_last() == seq![a] + rest.drop_last());
        assert(all.last() == rest.last());
        lemma_frames(a, rest.drop_last());
        assert(stack_frames(all) == filled(rest));
    } else {
        assert(stack_frames(all) == filled(rest));
    }
}

proof fn lemma_trimmed_return(s: Seq<char>)
    ensures
        trimmed(s.push('\r')) == trimmed(s),
    decreases s.len(),
{
    let t = s.push('\r');
    assert(is_space('\r'));
    if s.len() == 0 {
        assert(t.drop_first() == s);
        assert(trimmed_start(t) == trimmed_start(s));
    } else if is_space(s[0]) {
        assert(t[0] == s[0]);
        assert(t.drop_first() == s.drop_first().push('\r'));
        lemma_trimmed_return(s.drop_first());
    } else {
        assert(t[0] == s[0]);
        assert(t.drop_last() == s);
    }
}

proof fn lemma_one_return(s: Seq<char>)
    ensures
        one(without_return(s)) == one(s),
{
    if s.len() > 0 && s.last() == '\r' {
        assert(s.drop_last().push('\r') == s);
        lemma_trimmed_return(s.drop_last());
    }
}

proof fn lemma_one_line(line: Seq<char>)
    requires
        lacks(line, '\n'),
    ensures
        filled(lines(line)) == one(line),
{
    let none = Seq::<char>::empty();
    if line.len() == 0 {
        assert(line == none);
        assert(trimmed_start(none) == none);
        assert(trimmed(line).len() == 0);
        assert(lines(line) == Seq::<Seq<char>>::empty());
        assert(filled(lines(line)) == one(line));
    } else {
        law_lines_end_at_feeds(line, none);
        lemma_filled_first(line, Seq::empty());
        assert(seq![line] + Seq::<Seq<char>>::empty() == seq![line]);
        assert(one(line) + filled(Seq::<Seq<char>>::empty()) == one(line));
    }
}

/// The lines of a text that starts with a line.
proof fn lemma_first_line(a: Seq<char>, b: Seq<char>)
    requires
        lacks(a, '\n'),
    ensures
        lines(a + seq!['\n'] + b) == seq![without_return(a)] + lines(b),
{
    let s = a + seq!['\n'] + b;
    let n = a.len() as int;
    assert forall|j: int| 0 <= j < n implies s[j] != '\n' by {
        assert(s[j] == a[j]);
    }
    assert(s[n] == '\n');
    lemma_find_is(s, '\n', n);
    assert(s.take(n) == a);
    assert(s.skip(n + 1) == b);
}

proof fn lemma_more_lines(s: Seq<char>, line: Seq<char>)
    requires
        lacks(line, '\n'),
    ensures
        filled(lines(s + seq!['\n'] + line)) == filled(lines(s)) + one(line),
    decreases s.len(),
{
    let n = find(s, '\n');
    lemma_find(s, '\n');
    let a = s.take(n);
    assert(lacks(a, '\n')) by {
        assert forall|i: int| 0 <= i < a.len() implies #[trigger] a[i] != '\n' by {
            assert(a[i] == s[i]);
        }
    }
    lemma_one_return(a);
    if n < s.len() {
        let b = s.skip(n + 1);
        assert(s == a + seq!['\n'] + b);
        assert(s + seq!['\n'] + line == a + seq!['\n'] + (b + seq!['\n'] + line));
        lemma_first_line(a, b);
        lemma_first_line(a, b + seq!['\n'] + line);
        lemma_more_lines(b, line);
        lemma_filled_first(without_return(a), lines(b));
        lemma_filled_first(without_return(a), lines(b + seq!['\n'] + line));
        assert(one(a) + (filled(lines(b)) + one(line)) == one(a) + filled(lines(b)) + one(line));
    } else {
        assert(a == s);
        lemma_first_line(s, line);
        lemma_one_line(line);
        lemma_one_line(s);
        lemma_filled_first(without_return(s), lines(line));
    }
}

proof fn lemma_more_frames(s: Seq<char>, line: Seq<char>)
    requires
        lacks(line, '\n'),
    ensures
        stack_frames(lines(s + seq!['\n'] + line)) == stack_frames(lines(s)) + one(line),
{
    let n = find(s, '\n');
    lemma_find(s, '\n');
    let a = s.take(n);
    assert(lacks(a, '\n')) by {
        assert forall|i: int| 0 <= i < a.len() implies #[trigger] a[i] != '\n' by {
            assert(a[i] == s[i]);
        }
    }
    if n < s.len() {
        let b = s.skip(n + 1);
        assert(s == a + seq!['\n'] + b);
        assert(s + seq!['\n'] + line == a + seq!['\n'] + (b + seq!['\n'] + line));
        lemma_first_line(a, b);
        lemma_first_line(a, b + seq!['\n'] + line);
        lemma_more_lines(b, line);
        lemma_frames(without_return(a), lines(b));
        lemma_frames(without_return(a), lines(b + seq!['\n'] + line));
    } else {
        assert(a == s);
        lemma_first_line(s, line);
        lemma_one_line(line);
        lemma_frames(without_return(s), lines(line));
        assert(stack_frames(lines(s)) == Seq::<Seq<char>>::empty());
        assert(stack_frames(lines(s)) + one(line) == one(line));
    }
}

proof fn lemma_frames_are_filled(all: Seq<Seq<char>>)
    ensures
        forall|i: int| 0 <= i < stack_frames(all).len() ==> (#[trigger] stack_frames(all)[i]).len()
            > 0,
    decreases all.len(),
{
    if all.len() > 1 {
        let done = stack_frames(all.drop_last());
        lemma_frames_are_filled(all.drop_last());
        assert forall|i: int| 0 <= i < stack_frames(all).len() implies (
        #[trigger] stack_frames(all)[i]).len() > 0 by {
            if i < done.len() {
                assert(stack_frames(all)[i] == done[i]);
            }
        }
    }
}

/// Below its description an error is told with its stack: the first line of the
/// stack is left out, and every further line that is not empty comes on a line of
/// its own, trimmed and indented by four spaces.
pub proof fn law_stack_is_told_line_by_line(
    text: Seq<char>,
    what: Seq<char>,
    stack: Seq<char>,
    line: Seq<char>,
)
    requires
        lacks(line, '\n'),
    ensures
        ({
            let start = what + seq!['\n', ' ', ' ', ' ', ' '];
            let told = explained(text, Some(what), Some(stack));
            let more = explained(text, Some(what), Some(stack + seq!['\n'] + line));
            &&& explained(text, Some(what), Some(line)) == start
            &&& trimmed(line).len() == 0 ==> more == told
            &&& trimmed(line).len() > 0 && told == start ==> more == start + trimmed(line)
            &&& trimmed(line).len() > 0 && told != start ==> more == told + seq![
                '\n',
                ' ',
                ' ',
                ' ',
                ' ',
            ] + trimmed(line)
        }),
{
    reveal_strlit("\n    ");
    let sep = seq!['\n', ' ', ' ', ' ', ' '];
    assert(indent() == sep);
    let start = what + sep;
    let none = Seq::<Seq<char>>::empty();
    if line.len() == 0 {
        assert(line == Seq::<char>::empty());
    }
    law_lines_end_at_feeds(line, Seq::empty());
    assert(stack_frames(lines(line)) == none);
    assert(joined(none, sep) == Seq::<char>::empty());
    assert(explained(text, Some(what), Some(line)) == start);
    lemma_more_frames(stack, line);
    let frames = stack_frames(lines(stack));
    let told = explained(text, Some(what), Some(stack));
    assert(told == start + joined(frames, sep));
    if trimmed(line).len() == 0 {
        assert(frames + one(line) == frames);
    } else {
        let more = frames + one(line);
        assert(more == frames.push(trimmed(line)));
        assert(more.drop_last() == frames);
        if frames.len() == 0 {
            assert(told == start);
            assert(more == seq![trimmed(line)]);
        } else {
            lemma_frames_are_filled(lines(stack));
            lemma_joined_is_filled(frames, sep);
            assert(told.len() > start.len());
            assert(start + (joined(frames, sep) + sep + trimmed(line)) == told + sep + trimmed(
                line,
            ));
        }
    }
}

proof fn lemma_joined_is_filled(parts: Seq<Seq<char>>, sep: Seq<char>)
    requires
        parts.len() > 0,
        forall|i: int| 0 <= i < parts.len() ==> (#[trigger] parts[i]).len() > 0,
    ensures
        joined(parts, sep).len() > 0,
{
    assert(parts[parts.len() - 1].len() > 0);
    if parts.len() == 1 {
        assert(parts[0].len() > 0);
    }
}

} // verus!
