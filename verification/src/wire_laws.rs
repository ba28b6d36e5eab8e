//! How frames, keys, values and numbers are written and read, character by
//! character and word by word.
use vstd::prelude::*;

use crate::codec::{
    decoded, encoded, encoded_fields, escape, escape_char, escaped, is_field, name_of, unescape,
    FrameView,
};
use crate::codec_laws::{
    is_word, lemma_escape_concat, lemma_unescape_len, lemma_words, lemma_words_concat,
    lemma_words_of_word,
};
use crate::number::{all_digits, decimal, digits_value, hex_pair, parsed};
use crate::text::{lemma_find_is, words};

verus! {

/// A key or a value is written character by character: `%`, space, `=`, LF and CR
/// as `%` with two digits, and every other character as it is.
pub proof fn law_characters_are_escaped(a: Seq<char>, b: Seq<char>, c: char)
    ensures
        escape(Seq::empty()) == Seq::<char>::empty(),
        escape(a + b) == escape(a) + escape(b),
        escape(seq!['%']) == seq!['%', '2', '5'],
        escape(seq![' ']) == seq!['%', '2', '0'],
        escape(seq!['=']) == seq!['%', '3', 'D'],
        escape(seq!['\n']) == seq!['%', '0', 'A'],
        escape(seq!['\r']) == seq!['%', '0', 'D'],
        c != '%' && c != ' ' && c != '=' && c != '\n' && c != '\r' ==> escape(seq![c]) == seq![c],
{
    lemma_escape_concat(a, b);
    lemma_one(c);
    lemma_one('%');
    lemma_one(' ');
    lemma_one('=');
    lemma_one('\n');
    lemma_one('\r');
}

proof fn lemma_one(c: char)
    ensures
        escape(seq![c]) == escape_char(c),
{
    assert(seq![c].drop_last() == Seq::<char>::empty());
    assert(escape(seq![c].drop_last()) == Seq::<char>::empty());
    assert(Seq::<char>::empty() + escape_char(c) == escape_char(c));
}

/// What a hexadecimal digit is worth.
pub open spec fn worth(c: char) -> int {
    if '0' <= c && c <= '9' {
        c as int - '0' as int
    } else if 'a' <= c && c <= 'f' {
        c as int - 'a' as int + 10
    } else if 'A' <= c && c <= 'F' {
        c as int - 'A' as int + 10
    } else {
        -1
    }
}

/// A `%` and two hexadecimal digits are read as the character of that number, a
/// plus sign counting as no digit before the last, and every other character as
/// itself, a `%` without such digits too.
pub proof fn law_characters_are_read(s: Seq<char>, a: char, b: char, c: char)
    ensures
        unescape(Seq::empty()) == Seq::<char>::empty(),
        worth(a) >= 0 && worth(b) >= 0 ==> unescape(seq!['%', a, b] + s) == seq![
            (16 * worth(a) + worth(b)) as char,
        ] + unescape(s),
        worth(b) >= 0 ==> unescape(seq!['%', '+', b] + s) == seq![worth(b) as char] + unescape(s),
        worth(b) < 0 || worth(a) < 0 && a != '+' ==> unescape(seq!['%', a, b] + s) == seq!['%']
            + unescape(seq![a, b] + s),
        unescape(seq!['%', a]) == seq!['%'] + unescape(seq![a]),
        unescape(seq!['%']) == seq!['%'],
        c != '%' ==> unescape(seq![c] + s) == seq![c] + unescape(s),
{
    let t = seq!['%', a, b] + s;
    assert(t[0] == '%' && t[1] == a && t[2] == b);
    assert(t.skip(3) == s);
    assert(t.skip(1) == seq![a, b] + s);
    let u = seq!['%', '+', b] + s;
    assert(u[0] == '%' && u[1] == '+' && u[2] == b);
    assert(u.skip(3) == s);
    let v = seq![c] + s;
    assert(v[0] == c);
    assert(v.skip(1) == s);
    let w = seq!['%', a];
    assert(w.skip(1) == seq![a]);
    let x = seq!['%'];
    assert(x.skip(1) == Seq::<char>::empty());
    assert(unescape(x.skip(1)) == Seq::<char>::empty());
    assert(seq!['%'] + Seq::<char>::empty() == x);
}

/// A number is written with its decimal digits, the last one last, and without
/// zeros before the first.
pub proof fn law_numbers_are_written(n: nat, d: nat)
    requires
        d < 10,
    ensures
        decimal(d) == seq![('0' as int + d) as char],
        n > 0 ==> decimal(10 * n + d) == decimal(n).push(('0' as int + d) as char),
{
    if n > 0 {
        assert((10 * n + d) / 10 == n);
        assert((10 * n + d) % 10 == d);
    }
}

/// A number is read from its digits, of which there may be zeros before the first,
/// with a plus sign before them or without; from anything else none is read, and
/// none that 64 bits do not hold.
pub proof fn law_numbers_are_read(s: Seq<char>, c: char)
    ensures
        parsed(seq!['+'] + s) == (if s.len() > 0 && s[0] == '+' {
            None
        } else {
            parsed(s)
        }),
        s.len() > 0 && s[0] != '+' && !('0' <= c && c <= '9') ==> parsed(s.push(c)) is None,
        '0' <= c && c <= '9' ==> parsed(seq![c]) == Some((c as int - '0' as int) as u64),
        '0' <= c && c <= '9' && parsed(s) is Some ==> {
            let n = (parsed(s)->0) * 10 + (c as int - '0' as int);
            parsed(s.push(c)) == (if n <= u64::MAX {
                Some(n as u64)
            } else {
                None
            })
        },
        parsed(Seq::empty()) is None,
        !('0' <= c && c <= '9') ==> parsed(seq![c]) is None,
{
    let plus = seq!['+'] + s;
    assert(plus.drop_first() == s);
    if s.len() > 0 && s[0] == '+' {
        assert(!crate::number::is_digit(s[0]));
    }
    let one = seq![c];
    assert(one.drop_last() == Seq::<char>::empty());
    assert(digits_value(one.drop_last()) == 0);
    assert(one.drop_first() == Seq::<char>::empty());
    if '0' <= c && c <= '9' {
        assert(digits_value(one) == c as nat - 48);
        assert(all_digits(one));
    } else {
        assert(!crate::number::is_digit(one[0]));
    }
    let more = s.push(c);
    if s.len() > 0 && s[0] != '+' && !('0' <= c && c <= '9') {
        assert(more[s.len() as int] == c);
        assert(!crate::number::is_digit(more[s.len() as int]));
    }
    if '0' <= c && c <= '9' && parsed(s) is Some {
        let digits = crate::number::unsigned(s);
        let longer = crate::number::unsigned(more);
        assert(longer == digits.push(c));
        assert(longer.drop_last() == digits);
        assert(longer.last() == c);
        assert forall|i: int| 0 <= i < longer.len() implies crate::number::is_digit(
            #[trigger] longer[i],
        ) by {
            if i < digits.len() {
                assert(longer[i] == digits[i]);
                assert(crate::number::is_digit(digits[i]));
            }
        }
        assert(all_digits(longer));
    }
}

/// What two hexadecimal characters are worth is what their digits are worth.
pub proof fn law_hex_digits_have_their_worth(a: char, b: char)
    ensures
        hex_pair(a, b) == (if worth(b) < 0 {
            None
        } else if worth(a) >= 0 {
            Some(16 * worth(a) + worth(b))
        } else if a == '+' {
            Some(worth(b))
        } else {
            None
        }),
{
}

/// A frame is written as its verb, its number and its name, if it has one, with
/// one space between them, and a space, the key, `=` and the value for each of its
/// fields.
pub proof fn law_frames_are_written(
    verb: Seq<char>,
    seq: u64,
    name: Seq<char>,
    fields: Seq<(Seq<char>, Seq<char>)>,
    key: Seq<char>,
    value: Seq<char>,
)
    ensures
        encoded(FrameView { verb, seq, name: Seq::empty(), fields: Seq::empty() }) == verb + seq![
            ' ',
        ] + decimal(seq as nat),
        name.len() > 0 ==> encoded(FrameView { verb, seq, name, fields: Seq::empty() }) == verb
            + seq![' '] + decimal(seq as nat) + seq![' '] + name,
        encoded(FrameView { verb, seq, name, fields: fields.push((key, value)) }) == encoded(
            FrameView { verb, seq, name, fields },
        ) + seq![' '] + escape(key) + seq!['='] + escape(value),
{
    let number = decimal(seq as nat);
    let bare = verb + seq![' '] + number;
    let none = Seq::<(Seq<char>, Seq<char>)>::empty();
    assert(encoded_fields(none) == Seq::<char>::empty());
    assert(encoded(FrameView { verb, seq, name: Seq::empty(), fields: none }) == bare);
    if name.len() > 0 {
        assert(encoded(FrameView { verb, seq, name, fields: none }) == bare + seq![' '] + name);
    }
    let more = fields.push((key, value));
    assert(more.drop_last() == fields);
    assert(more.last() == (key, value));
    assert(encoded(FrameView { verb, seq, name, fields: more }) == encoded(
        FrameView { verb, seq, name, fields },
    ) + seq![' '] + escape(key) + seq!['='] + escape(value));
}

/// Spaces at either end of a line, and further spaces between two words, change
/// nothing.
pub proof fn law_spaces_only_part_words(a: Seq<char>, b: Seq<char>)
    ensures
        decoded(seq![' '] + a) == decoded(a),
        decoded(a + seq![' ']) == decoded(a),
        decoded(a + seq![' ', ' '] + b) == decoded(a + seq![' '] + b),
{
    let none = Seq::<char>::empty();
    lemma_words_of_word(none);
    lemma_words_concat(none, a);
    assert(none + seq![' '] + a == seq![' '] + a);
    assert(words(none) + words(a) == words(a));
    lemma_words_concat(a, none);
    assert(a + seq![' '] + none == a + seq![' ']);
    assert(words(a) + words(none) == words(a));
    lemma_words_concat(a, b);
    lemma_words_concat(a, seq![' '] + b);
    lemma_words_concat(none, b);
    assert(none + seq![' '] + b == seq![' '] + b);
    assert(words(none) + words(b) == words(b));
    assert(a + seq![' '] + (seq![' '] + b) == a + seq![' ', ' '] + b);
}

/// The words of a text are what stands between its spaces.
pub proof fn law_words_stand_between_spaces(a: Seq<char>, b: Seq<char>)
    requires
        is_word(a),
    ensures
        words(a) == (if a.len() > 0 {
            seq![a]
        } else {
            seq![]
        }),
        words(a + seq![' '] + b) == words(a) + words(b),
{
    lemma_words_of_word(a);
    lemma_words_concat(a, b);
}

/// A verb and a number are a frame without a name and without fields. A verb
/// alone, or with something else, is none, except for `BYE`.
pub proof fn law_frames_start_with_verb_and_number(verb: Seq<char>, word: Seq<char>)
    requires
        is_word(verb),
        is_word(word),
        verb.len() > 0,
        word.len() > 0,
        verb != "BYE"@,
    ensures
        decoded(Seq::empty()) is None,
        decoded(verb) is None,
        decoded(verb + seq![' '] + word) == (match parsed(word) {
            Some(seq) => Some(
                FrameView { verb, seq, name: Seq::empty(), fields: Seq::empty() },
            ),
            None => None,
        }),
{
    let none = Seq::<char>::empty();
    lemma_words_of_word(none);
    lemma_words_of_word(verb);
    lemma_words_of_word(word);
    lemma_words_concat(verb, word);
    let all = words(verb + seq![' '] + word);
    assert(all == seq![verb, word]);
    assert(all.skip(2) == Seq::<Seq<char>>::empty());
}

/// A further word of a frame is a field, if it has a key before its first `=`; the
/// key and the value are read as they were escaped. Otherwise it is the name, if
/// there is none yet. What is no frame does not become one.
pub proof fn law_frames_are_read_word_by_word(line: Seq<char>, word: Seq<char>, n: int)
    requires
        is_word(word),
        word.len() > 0,
        words(line).len() >= 2,
        words(line)[0] != "BYE"@,
        0 <= n <= word.len(),
        forall|i: int| 0 <= i < n ==> word[i] != '=',
        n < word.len() ==> word[n] == '=',
    ensures
        ({
            let more = decoded(line + seq![' '] + word);
            match decoded(line) {
                None => more is None,
                Some(frame) => {
                    &&& more is Some
                    &&& (more->0).verb == frame.verb
                    &&& (more->0).seq == frame.seq
                    &&& 0 < n < word.len() ==> {
                        &&& (more->0).fields == frame.fields.push(
                            (unescape(word.take(n)), unescape(word.skip(n + 1))),
                        )
                        &&& (more->0).name == frame.name
                    }
                    &&& n == 0 || n == word.len() ==> {
                        &&& (more->0).fields == frame.fields
                        &&& (more->0).name == (if frame.name.len() > 0 {
                            frame.name
                        } else {
                            unescape(word)
                        })
                    }
                },
            }
        }),
{
    let all = words(line);
    let longer = words(line + seq![' '] + word);
    lemma_words_concat(line, word);
    lemma_words_of_word(word);
    assert(longer == all.push(word));
    assert(longer[0] == all[0] && longer[1] == all[1]);
    let rest = all.skip(2);
    assert(longer.skip(2) == rest.push(word));
    lemma_find_is(word, '=', n);
    assert(rest.push(word).drop_last() == rest);
    lemma_words(line);
    assert forall|i: int| 0 <= i < rest.len() implies (#[trigger] rest[i]).len() > 0 by {
        assert(rest[i] == all[i + 2]);
    }
    lemma_name_push(rest, word);
}

proof fn lemma_name_push(rest: Seq<Seq<char>>, word: Seq<char>)
    requires
        word.len() > 0,
        forall|i: int| 0 <= i < rest.len() ==> (#[trigger] rest[i]).len() > 0,
    ensures
        name_of(rest.push(word)) == (if name_of(rest).len() > 0 {
            name_of(rest)
        } else if is_field(word) {
            Seq::empty()
        } else {
            unescape(word)
        }),
    decreases rest.len(),
{
    let more = rest.push(word);
    if rest.len() == 0 {
        assert(more.drop_first() == rest);
        assert(more[0] == word);
    } else {
        assert(more[0] == rest[0]);
        assert(rest[0].len() > 0);
        lemma_unescape_len(rest[0]);
        if is_field(rest[0]) {
            let less = rest.drop_first();
            assert(more.drop_first() == less.push(word));
            assert forall|i: int| 0 <= i < less.len() implies (#[trigger] less[i]).len() > 0 by {
                assert(rest[i + 1].len() > 0);
            }
            lemma_name_push(less, word);
        }
    }
}

} // verus!
