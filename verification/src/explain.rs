//! What the console is told of an error in the agent.
use serde_json::Value;

use vstd::prelude::*;

use crate::codec::optional;
use crate::json::{contents, kind_of, member, parse, read, render, rendered, Json, Kind};
use crate::text::{given, join, joined, lines, lines_of, same, texts, trim, trimmed};

verus! {

/// The text that a member of a JSON value holds, if it is an object with such a
/// member and that is a string.
pub open spec fn text_member(tree: Json, key: Seq<char>) -> Option<Seq<char>> {
    match tree {
        Json::Object(m) => if m.contains_key(key) {
            match m[key] {
                Json::Text(t) => Some(t),
                _ => None,
            }
        } else {
            None
        },
        _ => None,
    }
}

/// The frames of a stack: its lines without the first, without the space around
/// them, and without those that are empty.
pub open spec fn stack_frames(all: Seq<Seq<char>>) -> Seq<Seq<char>>
    decreases all.len(),
{
    if all.len() <= 1 {
        seq![]
    } else {
        let done = stack_frames(all.drop_last());
        let frame = trimmed(all.last());
        if frame.len() > 0 {
            done.push(frame)
        } else {
            done
        }
    }
}

/// What stands between the lines of an error.
pub open spec fn indent() -> Seq<char> {
    "\n    "@
}

/// What the console is told of an error, where `text` is what the agent said of
/// it: its description and below that its stack, one frame on a line, or `text`
/// itself where there is no description.
pub open spec fn explained(
    text: Seq<char>,
    description: Option<Seq<char>>,
    stack: Option<Seq<char>>,
) -> Seq<char> {
    match (description, stack) {
        (None, _) => text,
        (Some(what), None) => what,
        (Some(what), Some(s)) => what + indent() + joined(stack_frames(lines(s)), indent()),
    }
}

/// What the console is told of an untyped agent message. An error is a text of
/// JSON in the member `data`.
pub open spec fn other_text(tree: Json) -> Seq<char> {
    match text_member(tree, "data"@) {
        None => rendered(tree),
        Some(text) => match read(text) {
            None => text,
            Some(inner) => explained(
                text,
                text_member(inner, "description"@),
                text_member(inner, "stack"@),
            ),
        },
    }
}

fn string_member(value: &Value, key: &str) -> (text: Option<String>)
    ensures
        given(text) == text_member(contents(*value), key@),
{
    match member(value, key) {
        Some(found) => match kind_of(found) {
            Kind::Text(t) => Some(t),
            _ => None,
        },
        None => None,
    }
}

/// The description and the stack of an error below each other, or what the agent
/// said of it where there is no description.
pub fn explain(text: &str, description: Option<&str>, stack: Option<&str>) -> (explanation: String)
    ensures
        explanation@ == explained(text@, optional(description), optional(stack)),
{
    let what = match description {
        Some(what) => what,
        None => {
            return text.to_owned();
        },
    };
    let stack = match stack {
        Some(stack) => stack,
        None => {
            return what.to_owned();
        },
    };
    // The stack is one line per frame in the bundled script, which is the only
    // way to tell which hook was running when it went wrong.
    let all = lines_of(stack);
    let ghost rows = texts(all@);
    let mut frames: Vec<String> = Vec::new();
    let mut i: usize = 1;
    while i < all.len()
        invariant
            1 <= i,
            rows == texts(all@),
            i <= rows.len() ==> texts(frames@) == stack_frames(rows.take(i as int)),
            i > rows.len() ==> i == 1 && frames@.len() == 0,
        decreases rows.len() - i,
    {
        let ghost done = texts(frames@);
        assert(rows.take(i + 1).drop_last() == rows.take(i as int));
        assert(rows.take(i + 1).last() == all@[i as int]@);
        let frame = trim(&all[i]);
        proof {
            reveal_strlit("");
            assert(frame@.len() == 0 ==> frame@ =~= ""@);
        }
        if !same(&frame, "") {
            frames.push(frame);
            assert(texts(frames@) == done.push(frame@));
        }
        i = i + 1;
    }
    proof {
        if rows.len() > 0 {
            assert(rows.take(i as int) == rows);
        }
        assert(texts(frames@) == stack_frames(rows));
    }
    let mut explanation = what.to_owned();
    explanation.append("\n    ");
    explanation.append(&join(&frames, "\n    "));
    explanation
}

/// Digs the description and the stack out of an untyped agent message.
pub fn other(value: &Value) -> (text: String)
    ensures
        text@ == other_text(contents(*value)),
{
    let text = match string_member(value, "data") {
        Some(text) => text,
        None => {
            return render(value);
        },
    };
    let inner = match parse(&text) {
        Some(inner) => inner,
        None => {
            return text;
        },
    };
    let description = string_member(&inner, "description");
    let stack = string_member(&inner, "stack");
    let what: Option<&str> = match &description {
        Some(d) => Some(d.as_str()),
        None => None,
    };
    let trace: Option<&str> = match &stack {
        Some(s) => Some(s.as_str()),
        None => None,
    };
    explain(&text, what, trace)
}

} // verus!
