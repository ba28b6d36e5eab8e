//! What holds of frames as they go over the wire.
use vstd::prelude::*;

use crate::codec::{
    decoded, encoded, encoded_fields, encoded_name, escape, escape_char, escaped, field_of, fields_of, goodbye,
    is_field, name_of, unescape, FrameView,
};
use crate::number::{decimal, is_digit, law_decimal_round_trip, law_parsed_decimal};
use crate::text::{find, lemma_find, lemma_find_is, lines, words};

verus! {

/// Whether a character stands for itself in a key or a value.
pub open spec fn is_literal(c: char) -> bool {
    c != '%' && c != ' ' && c != '=' && c != '\n' && c != '\r'
}

/// Whether a character would break a frame if it stood in a key or a value as it
/// is. A `%` does not: it starts an escape.
pub open spec fn breaks_frame(c: char) -> bool {
    c == ' ' || c == '=' || c == '\n' || c == '\r'
}

pub proof fn lemma_escape_concat(a: Seq<char>, b: Seq<char>)
    ensures
        escape(a + b) == escape(a) + escape(b),
    decreases b.len(),
{
    if b.len() == 0 {
        assert(a + b == a);
    } else {
        lemma_escape_concat(a, b.drop_last());
        assert((a + b).drop_last() == a + b.drop_last());
    }
}

proof fn lemma_escape_first(c: char, s: Seq<char>)
    ensures
        escape(seq![c] + s) == escape_char(c) + escape(s),
{
    lemma_escape_concat(seq![c], s);
    assert(seq![c].drop_last() == Seq::<char>::empty());
    assert(escape(seq![c].drop_last()) == Seq::<char>::empty());
    assert(escape(seq![c]) == escape_char(c));
}

proof fn lemma_unescape_char(c: char, s: Seq<char>)
    ensures
        unescape(escape_char(c) + s) == seq![c] + unescape(s),
{
    let t = escape_char(c) + s;
    if is_literal(c) {
        assert(t.skip(1) == s);
    } else {
        assert(t.skip(3) == s);
        assert(escaped(t));
    }
}

/// A key or a value is read back as it was, whatever it holds.
pub proof fn law_text_round_trip(s: Seq<char>)
    ensures
        unescape(escape(s)) == s,
    decreases s.len(),
{
    if s.len() > 0 {
        let rest = s.drop_first();
        assert(s == seq![s[0]] + rest);
        law_text_round_trip(rest);
        lemma_escape_first(s[0], rest);
        lemma_unescape_char(s[0], escape(rest));
    }
}

/// What is written of a key or a value holds nothing that would break a frame.
pub proof fn law_escape_is_safe(s: Seq<char>)
    ensures
        forall|i: int| 0 <= i < escape(s).len() ==> !breaks_frame(#[trigger] escape(s)[i]),
        escape(s).len() >= s.len(),
    decreases s.len(),
{
    if s.len() > 0 {
        let before = escape(s.drop_last());
        let last = escape_char(s.last());
        law_escape_is_safe(s.drop_last());
        assert forall|i: int| 0 <= i < escape(s).len() implies !breaks_frame(
            #[trigger] escape(s)[i],
        ) by {
            if i < before.len() {
                assert(escape(s)[i] == before[i]);
            } else {
                assert(escape(s)[i] == last[i - before.len()]);
            }
        }
    }
}

/// Everything but `%`, space, `=`, LF and CR stays literal.
pub proof fn law_literal_text_is_kept(s: Seq<char>)
    requires
        forall|i: int| 0 <= i < s.len() ==> is_literal(#[trigger] s[i]),
    ensures
        escape(s) == s,
    decreases s.len(),
{
    if s.len() > 0 {
        assert forall|i: int| 0 <= i < s.len() - 1 implies is_literal(
            #[trigger] s.drop_last()[i],
        ) by {
            assert(s[i] == s.drop_last()[i]);
        }
        law_literal_text_is_kept(s.drop_last());
        assert(is_literal(s[s.len() - 1]));
        assert(s.drop_last() + seq![s.last()] == s);
    }
}

/// Whether a text holds no space.
pub open spec fn is_word(s: Seq<char>) -> bool {
    forall|i: int| 0 <= i < s.len() ==> #[trigger] s[i] != ' '
}

pub proof fn lemma_words_of_word(s: Seq<char>)
    requires
        is_word(s),
    ensures
        words(s) == (if s.len() > 0 {
            seq![s]
        } else {
            seq![]
        }),
{
    lemma_find_is(s, ' ', s.len() as int);
    assert(s.take(s.len() as int) == s);
}

/// The words on either side of a space are the words of each side.
pub proof fn lemma_words_concat(a: Seq<char>, b: Seq<char>)
    ensures
        words(a + seq![' '] + b) == words(a) + words(b),
    decreases a.len(),
{
    let s = a + seq![' '] + b;
    let n = find(a, ' ');
    lemma_find(a, ' ');
    if n < a.len() {
        let rest = a.skip(n + 1);
        lemma_find_is(s, ' ', n);
        assert(s.take(n) == a.take(n));
        assert(s.skip(n + 1) == rest + seq![' '] + b);
        lemma_words_concat(rest, b);
        let first = if n > 0 {
            seq![a.take(n)]
        } else {
            seq![]
        };
        assert(first + (words(rest) + words(b)) == (first + words(rest)) + words(b));
    } else {
        lemma_find_is(s, ' ', n);
        assert(s.take(n) == a);
        assert(a.take(n) == a);
        assert(s.skip(n + 1) == b);
    }
}

/// Words hold no space, and none of them is empty.
pub proof fn lemma_words(s: Seq<char>)
    ensures
        forall|i: int|
            0 <= i < words(s).len() ==> (#[trigger] words(s)[i]).len() > 0 && is_word(words(s)[i]),
        words(s).len() > 0 ==> words(s)[0].len() <= s.len(),
        words(s).len() > 0 && !is_word(s) ==> words(s)[0].len() < s.len(),
        words(s).len() == 0 && is_word(s) ==> s.len() == 0,
    decreases s.len(),
{
    let n = find(s, ' ');
    lemma_find(s, ' ');
    if n < s.len() {
        let rest = s.skip(n + 1);
        lemma_words(rest);
        let first = if n > 0 {
            seq![s.take(n)]
        } else {
            seq![]
        };
        assert forall|i: int| 0 <= i < words(s).len() implies (#[trigger] words(s)[i]).len() > 0
            && is_word(words(s)[i]) by {
            if i >= first.len() {
                assert(words(s)[i] == words(rest)[i - first.len()]);
            }
        }
        assert(s[n] == ' ');
    } else {
        lemma_words_of_word(s);
    }
}

/// How one field is written.
spec fn field_word(field: (Seq<char>, Seq<char>)) -> Seq<char> {
    escape(field.0) + seq!['='] + escape(field.1)
}

spec fn field_words(fields: Seq<(Seq<char>, Seq<char>)>) -> Seq<Seq<char>> {
    fields.map_values(|field: (Seq<char>, Seq<char>)| field_word(field))
}

proof fn lemma_field_word(field: (Seq<char>, Seq<char>))
    ensures
        is_word(field_word(field)),
        field_word(field).len() > 0,
        is_field(field_word(field)) <==> field.0.len() > 0,
        field_of(field_word(field)) == field,
{
    let (key, value) = field;
    let w = field_word(field);
    let n = escape(key).len() as int;
    law_escape_is_safe(key);
    law_escape_is_safe(value);
    assert forall|i: int| 0 <= i < w.len() implies #[trigger] w[i] != ' ' by {
        if i < n {
            assert(!breaks_frame(escape(key)[i]));
        } else if i > n {
            assert(!breaks_frame(escape(value)[i - n - 1]));
        }
    }
    assert forall|j: int| 0 <= j < n implies w[j] != '=' by {
        assert(!breaks_frame(escape(key)[j]));
    }
    lemma_find_is(w, '=', n);
    assert(w.take(n) == escape(key));
    assert(w.skip(n + 1) == escape(value));
    law_text_round_trip(key);
    law_text_round_trip(value);
    if key.len() == 0 {
        assert(escape(key).len() == 0);
    }
}

/// The fields of a frame are words of its line, behind those of what precedes
/// them.
proof fn lemma_words_of_fields(start: Seq<char>, fields: Seq<(Seq<char>, Seq<char>)>)
    ensures
        words(start + encoded_fields(fields)) == words(start) + field_words(fields),
    decreases fields.len(),
{
    if fields.len() == 0 {
        assert(start + encoded_fields(fields) == start);
        assert(words(start) + field_words(fields) == words(start));
    } else {
        let before = fields.drop_last();
        let last = fields.last();
        let head = start + encoded_fields(before);
        lemma_words_of_fields(start, before);
        assert(start + encoded_fields(fields) == head + seq![' '] + field_word(last));
        lemma_words_concat(head, field_word(last));
        lemma_field_word(last);
        lemma_words_of_word(field_word(last));
        assert(field_words(before) + seq![field_word(last)] == field_words(fields));
        assert(words(start) + field_words(before) + seq![field_word(last)] == words(start)
            + field_words(fields));
    }
}

/// The words of a frame's line, where its verb is one word.
proof fn lemma_words_of_frame(frame: FrameView)
    requires
        is_word(frame.verb),
        frame.verb.len() > 0,
    ensures
        words(encoded(frame)) == seq![frame.verb, decimal(frame.seq as nat)] + (words(frame.name)
            + field_words(frame.fields)),
{
    let number = decimal(frame.seq as nat);
    let head = number + encoded_name(frame.name);
    law_decimal_round_trip(frame.seq as nat);
    assert forall|i: int| 0 <= i < number.len() implies #[trigger] number[i] != ' ' by {
        assert(is_digit(number[i]));
    }
    assert(encoded(frame) == frame.verb + seq![' '] + (head + encoded_fields(frame.fields)));
    lemma_words_concat(frame.verb, head + encoded_fields(frame.fields));
    lemma_words_of_word(frame.verb);
    lemma_words_of_word(number);
    lemma_words_of_fields(head, frame.fields);
    if frame.name.len() == 0 {
        assert(head == number);
        lemma_words_of_word(frame.name);
        assert(words(head) == seq![number] + words(frame.name));
    } else {
        assert(head == number + seq![' '] + frame.name);
        lemma_words_concat(number, frame.name);
    }
    let more = words(frame.name) + field_words(frame.fields);
    assert(seq![number] + words(frame.name) + field_words(frame.fields) == seq![number] + more);
    assert(seq![frame.verb] + (seq![number] + more) == seq![frame.verb, number] + more);
}

proof fn lemma_fields_concat(a: Seq<Seq<char>>, b: Seq<Seq<char>>)
    ensures
        fields_of(a + b) == fields_of(a) + fields_of(b),
    decreases b.len(),
{
    if b.len() == 0 {
        assert(a + b == a);
        assert(fields_of(a) + fields_of(b) == fields_of(a));
    } else {
        lemma_fields_concat(a, b.drop_last());
        assert((a + b).drop_last() == a + b.drop_last());
    }
}

proof fn lemma_fields_read_back(fields: Seq<(Seq<char>, Seq<char>)>)
    requires
        forall|i: int| 0 <= i < fields.len() ==> (#[trigger] fields[i]).0.len() > 0,
    ensures
        fields_of(field_words(fields)) == fields,
    decreases fields.len(),
{
    let all = field_words(fields);
    if fields.len() > 0 {
        let before = fields.drop_last();
        assert(all.drop_last() == field_words(before));
        assert forall|i: int| 0 <= i < before.len() implies (#[trigger] before[i]).0.len() > 0 by {
            assert(fields[i].0.len() > 0);
        }
        lemma_fields_read_back(before);
        lemma_field_word(fields.last());
        assert(fields[fields.len() - 1].0.len() > 0);
        assert(before.push(fields.last()) == fields);
    }
}

/// Fields behind a name do not change it, and without one there is none.
proof fn lemma_name_before_fields(named: Seq<Seq<char>>, fields: Seq<(Seq<char>, Seq<char>)>)
    requires
        forall|i: int| 0 <= i < fields.len() ==> (#[trigger] fields[i]).0.len() > 0,
    ensures
        named.len() == 0 ==> name_of(named + field_words(fields)) == Seq::<char>::empty(),
        named.len() > 0 && !is_field(named[0]) ==> name_of(named + field_words(fields)) == unescape(
            named[0],
        ),
    decreases fields.len(),
{
    let all = named + field_words(fields);
    if named.len() == 0 && fields.len() > 0 {
        let rest = fields.drop_first();
        assert(all[0] == field_word(fields[0]));
        assert(fields[0].0.len() > 0);
        lemma_field_word(fields[0]);
        assert(all.drop_first() == named + field_words(rest));
        assert forall|i: int| 0 <= i < rest.len() implies (#[trigger] rest[i]).0.len() > 0 by {
            assert(fields[i + 1].0.len() > 0);
        }
        lemma_name_before_fields(named, rest);
    }
}

/// Whether a frame can be read back from its line. Its verb is a word and its
/// name one word or none, which holds no escape and is not mistaken for a field;
/// its fields have keys; and `BYE` says nothing but that.
pub open spec fn writable(frame: FrameView) -> bool {
    &&& frame.verb.len() > 0
    &&& is_word(frame.verb)
    &&& is_word(frame.name)
    &&& !is_field(frame.name)
    &&& unescape(frame.name) == frame.name
    &&& forall|i: int| 0 <= i < frame.fields.len() ==> (#[trigger] frame.fields[i]).0.len() > 0
    &&& frame.verb == "BYE"@ ==> frame == goodbye()
}

proof fn lemma_writable_is_read_back(frame: FrameView)
    requires
        writable(frame),
    ensures
        decoded(encoded(frame)) == Some(frame),
{
    let all = words(encoded(frame));
    let named = words(frame.name);
    lemma_words_of_frame(frame);
    lemma_words_of_word(frame.name);
    assert(all[0] == frame.verb);
    assert(all[1] == decimal(frame.seq as nat));
    law_parsed_decimal(frame.seq);
    if frame.verb != "BYE"@ {
        let rest = all.skip(2);
        assert(rest == named + field_words(frame.fields));
        lemma_fields_concat(named, field_words(frame.fields));
        lemma_fields_read_back(frame.fields);
        lemma_name_before_fields(named, frame.fields);
        assert(fields_of(named) == Seq::<(Seq<char>, Seq<char>)>::empty()) by {
            if named.len() > 0 {
                assert(named.drop_last() == Seq::<Seq<char>>::empty());
                assert(fields_of(named.drop_last()) == Seq::<(Seq<char>, Seq<char>)>::empty());
            }
        }
        assert(fields_of(rest) == frame.fields);
        assert(frame.name.len() == 0 ==> frame.name == Seq::<char>::empty());
        assert(name_of(rest) == frame.name);
    }
}

pub proof fn lemma_unescape_len(s: Seq<char>)
    ensures
        unescape(s).len() <= s.len(),
        s.len() > 0 ==> unescape(s).len() > 0,
    decreases s.len(),
{
    if s.len() > 0 {
        if escaped(s) {
            lemma_unescape_len(s.skip(3));
        } else {
            lemma_unescape_len(s.skip(1));
        }
    }
}

/// A field that is read has a key.
proof fn lemma_fields_have_keys(ws: Seq<Seq<char>>)
    ensures
        forall|i: int| 0 <= i < fields_of(ws).len() ==> (#[trigger] fields_of(ws)[i]).0.len() > 0,
    decreases ws.len(),
{
    if ws.len() > 0 {
        let before = fields_of(ws.drop_last());
        lemma_fields_have_keys(ws.drop_last());
        let word = ws.last();
        if is_field(word) {
            lemma_unescape_len(word.take(find(word, '=')));
        }
        assert forall|i: int| 0 <= i < fields_of(ws).len() implies (#[trigger] fields_of(
            ws,
        )[i]).0.len() > 0 by {
            if i < before.len() {
                assert(fields_of(ws)[i] == before[i]);
            }
        }
    }
}

proof fn lemma_first_is_no_field(ws: Seq<Seq<char>>)
    requires
        fields_of(ws).len() == 0,
        ws.len() > 0,
    ensures
        !is_field(ws[0]),
    decreases ws.len(),
{
    if ws.len() > 1 {
        lemma_first_is_no_field(ws.drop_last());
        assert(ws[0] == ws.drop_last()[0]);
    }
}

proof fn lemma_read_back_is_writable(frame: FrameView)
    requires
        decoded(encoded(frame)) == Some(frame),
    ensures
        writable(frame),
{
    let all = words(encoded(frame));
    lemma_words(encoded(frame));
    assert(all[0].len() > 0 && is_word(all[0]));
    if all[0] == "BYE"@ {
        assert(frame == goodbye());
        assert(unescape(frame.name) == frame.name);
    } else {
        assert(frame.verb == all[0]);
        lemma_words_of_frame(frame);
        let named = words(frame.name);
        let rest = all.skip(2);
        assert(rest == named + field_words(frame.fields));
        lemma_fields_have_keys(rest);
        lemma_fields_concat(named, field_words(frame.fields));
        lemma_fields_read_back(frame.fields);
        assert(fields_of(named).len() == 0);
        lemma_name_before_fields(named, frame.fields);
        lemma_words(frame.name);
        if named.len() > 0 {
            lemma_first_is_no_field(named);
            lemma_unescape_len(named[0]);
            assert(is_word(frame.name));
            lemma_words_of_word(frame.name);
        }
    }
}

/// A frame is read back from its line as it was written if and only if it is
/// writable.
pub proof fn law_frame_round_trip(frame: FrameView)
    ensures
        decoded(encoded(frame)) == Some(frame) <==> writable(frame),
{
    if writable(frame) {
        lemma_writable_is_read_back(frame);
    }
    if decoded(encoded(frame)) == Some(frame) {
        lemma_read_back_is_writable(frame);
    }
}

/// A frame that was read and has a name without escapes and field marks is
/// written so that it is read again as the same.
pub proof fn law_decoded_is_read_again(line: Seq<char>)
    requires
        decoded(line) is Some,
        is_word((decoded(line)->0).name),
        !is_field((decoded(line)->0).name),
        unescape((decoded(line)->0).name) == (decoded(line)->0).name,
    ensures
        decoded(encoded(decoded(line)->0)) == decoded(line),
{
    let frame = decoded(line)->0;
    let all = words(line);
    lemma_words(line);
    if all[0] == "BYE"@ {
        reveal_strlit("BYE");
    } else {
        lemma_fields_have_keys(all.skip(2));
    }
    lemma_writable_is_read_back(frame);
}

/// A word with a key before its `=` is a field, never the name: where all words
/// behind the sequence number are such, the frame has no name and all of the
/// fields.
pub proof fn law_fields_are_never_the_name(ws: Seq<Seq<char>>)
    requires
        forall|i: int| 0 <= i < ws.len() ==> is_field(#[trigger] ws[i]),
    ensures
        name_of(ws) == Seq::<char>::empty(),
        fields_of(ws) == ws.map_values(|word: Seq<char>| field_of(word)),
    decreases ws.len(),
{
    if ws.len() > 0 {
        lemma_no_name(ws);
        let before = ws.drop_last();
        assert forall|i: int| 0 <= i < before.len() implies is_field(#[trigger] before[i]) by {
            assert(is_field(ws[i]));
        }
        law_fields_are_never_the_name(before);
        assert(is_field(ws[ws.len() - 1]));
        assert(before.map_values(|word: Seq<char>| field_of(word)).push(field_of(ws.last()))
            == ws.map_values(|word: Seq<char>| field_of(word)));
    }
}

proof fn lemma_no_name(ws: Seq<Seq<char>>)
    requires
        forall|i: int| 0 <= i < ws.len() ==> is_field(#[trigger] ws[i]),
    ensures
        name_of(ws) == Seq::<char>::empty(),
    decreases ws.len(),
{
    if ws.len() > 0 {
        let rest = ws.drop_first();
        assert(is_field(ws[0]));
        assert forall|i: int| 0 <= i < rest.len() implies is_field(#[trigger] rest[i]) by {
            assert(is_field(ws[i + 1]));
        }
        lemma_no_name(rest);
    }
}

/// Whether a text ends no line.
pub open spec fn on_one_line(s: Seq<char>) -> bool {
    forall|i: int| 0 <= i < s.len() ==> #[trigger] s[i] != '\n' && s[i] != '\r'
}

proof fn lemma_fields_on_one_line(fields: Seq<(Seq<char>, Seq<char>)>)
    ensures
        on_one_line(encoded_fields(fields)),
    decreases fields.len(),
{
    if fields.len() > 0 {
        let (key, value) = fields.last();
        lemma_fields_on_one_line(fields.drop_last());
        law_escape_is_safe(key);
        law_escape_is_safe(value);
        let before = encoded_fields(fields.drop_last());
        let all = encoded_fields(fields);
        assert forall|i: int| 0 <= i < all.len() implies #[trigger] all[i] != '\n' && all[i]
            != '\r' by {
            let k = i - before.len() - 1;
            let v = k - escape(key).len() - 1;
            if i < before.len() {
                assert(all[i] == before[i]);
            } else if 0 <= k < escape(key).len() {
                assert(all[i] == escape(key)[k]);
                assert(!breaks_frame(escape(key)[k]));
            } else if 0 <= v {
                assert(all[i] == escape(value)[v]);
                assert(!breaks_frame(escape(value)[v]));
            }
        }
    }
}

/// A frame is one line, whatever its fields hold.
pub proof fn law_frame_is_one_line(frame: FrameView)
    requires
        on_one_line(frame.verb),
        on_one_line(frame.name),
    ensures
        on_one_line(encoded(frame)),
{
    let number = decimal(frame.seq as nat);
    law_decimal_round_trip(frame.seq as nat);
    lemma_fields_on_one_line(frame.fields);
    let all = encoded(frame);
    let tail = encoded_fields(frame.fields);
    assert forall|i: int| 0 <= i < all.len() implies #[trigger] all[i] != '\n' && all[i]
        != '\r' by {
        let name = encoded_name(frame.name);
        let n = i - frame.verb.len() - 1;
        let m = n - number.len();
        let t = m - name.len();
        if i < frame.verb.len() {
            assert(all[i] == frame.verb[i]);
        } else if 0 <= n < number.len() {
            assert(all[i] == number[n]);
            assert(is_digit(number[n]));
        } else if 0 <= m < name.len() {
            assert(all[i] == name[m]);
            assert(m > 0 ==> name[m] == frame.name[m - 1]);
        } else if 0 <= t {
            assert(all[i] == tail[t]);
        }
    }
}

/// Frames as they go over the wire: each on a line of its own.
pub open spec fn stream(frames: Seq<FrameView>) -> Seq<char>
    decreases frames.len(),
{
    if frames.len() == 0 {
        seq![]
    } else {
        encoded(frames[0]) + seq!['\n'] + stream(frames.drop_first())
    }
}

/// Whatever frames are sent, the other side reads the same frames, in the same
/// order, one from each line.
pub proof fn law_stream_round_trip(frames: Seq<FrameView>)
    requires
        forall|i: int|
            0 <= i < frames.len() ==> writable(#[trigger] frames[i]) && on_one_line(frames[i].verb)
                && on_one_line(frames[i].name),
    ensures
        lines(stream(frames)).len() == frames.len(),
        forall|i: int|
            0 <= i < frames.len() ==> decoded(#[trigger] lines(stream(frames))[i]) == Some(
                frames[i],
            ),
    decreases frames.len(),
{
    if frames.len() > 0 {
        let frame = frames[0];
        let line = encoded(frame);
        let rest = frames.drop_first();
        let all = stream(frames);
        assert forall|i: int| 0 <= i < rest.len() implies writable(#[trigger] rest[i])
            && on_one_line(rest[i].verb) && on_one_line(rest[i].name) by {
            assert(writable(frames[i + 1]));
        }
        law_stream_round_trip(rest);
        assert(writable(frames[0]));
        law_frame_is_one_line(frame);
        lemma_writable_is_read_back(frame);
        lemma_find_is(all, '\n', line.len() as int);
        assert(all.take(line.len() as int) == line);
        assert(all.skip(line.len() as int + 1) == stream(rest));
        let ls = lines(all);
        assert(ls == seq![line] + lines(stream(rest)));
        assert forall|i: int| 0 <= i < frames.len() implies decoded(#[trigger] ls[i]) == Some(
            frames[i],
        ) by {
            if i > 0 {
                assert(ls[i] == lines(stream(rest))[i - 1]);
            }
        }
    }
}

} // verus!
