//! Frames on the wire to Coderpack.
//!
//! Flat key=value lines rather than JSON: the JDK ships no JSON parser, and a
//! line stays readable in a terminal, which is most of what this layer does.
//!
//! Keys and values percent-encode only the characters that would break a frame:
//! `%`, space, `=`, LF and CR. Everything else stays literal.
use vstd::prelude::*;

use crate::number::{decimal, decimal_text, hex_pair, parse_hex_pair, parse_number, parsed};
use crate::text::{chars_of, find, lemma_find_is, same, text_of, texts, words, words_of};

verus! {

/// One frame.
#[derive(Debug, Clone)]
pub struct Frame {
    pub verb: String,
    pub seq: u64,
    pub name: String,
    pub fields: Vec<(String, String)>,
}

/// What a frame holds.
pub struct FrameView {
    pub verb: Seq<char>,
    pub seq: u64,
    pub name: Seq<char>,
    pub fields: Seq<(Seq<char>, Seq<char>)>,
}

/// What a list of fields holds.
pub open spec fn pairs(fields: Seq<(String, String)>) -> Seq<(Seq<char>, Seq<char>)> {
    fields.map_values(|field: (String, String)| (field.0@, field.1@))
}

impl View for Frame {
    type V = FrameView;

    open spec fn view(&self) -> FrameView {
        FrameView {
            verb: self.verb@,
            seq: self.seq,
            name: self.name@,
            fields: pairs(self.fields@),
        }
    }
}

/// How one character is written in a key or a value.
pub open spec fn escape_char(c: char) -> Seq<char> {
    if c == '%' {
        seq!['%', '2', '5']
    } else if c == ' ' {
        seq!['%', '2', '0']
    } else if c == '=' {
        seq!['%', '3', 'D']
    } else if c == '\n' {
        seq!['%', '0', 'A']
    } else if c == '\r' {
        seq!['%', '0', 'D']
    } else {
        seq![c]
    }
}

/// How a key or a value is written.
pub open spec fn escape(s: Seq<char>) -> Seq<char>
    decreases s.len(),
{
    if s.len() == 0 {
        seq![]
    } else {
        escape(s.drop_last()) + escape_char(s.last())
    }
}

/// Whether an escape stands at the start of `s`.
pub open spec fn escaped(s: Seq<char>) -> bool {
    s.len() >= 3 && s[0] == '%' && hex_pair(s[1], s[2]) is Some
}

/// What a key or a value stands for that is written as `s`. A `%` that starts no
/// escape stands for itself.
pub open spec fn unescape(s: Seq<char>) -> Seq<char>
    decreases s.len(),
{
    if s.len() == 0 {
        seq![]
    } else if escaped(s) {
        seq![hex_pair(s[1], s[2])->0 as char] + unescape(s.skip(3))
    } else {
        seq![s[0]] + unescape(s.skip(1))
    }
}

/// What the first field with a key holds.
pub open spec fn lookup(fields: Seq<(Seq<char>, Seq<char>)>, key: Seq<char>) -> Option<Seq<char>>
    decreases fields.len(),
{
    if fields.len() == 0 {
        None
    } else if fields[0].0 == key {
        Some(fields[0].1)
    } else {
        lookup(fields.drop_first(), key)
    }
}

/// What an optional text holds.
pub open spec fn optional(text: Option<&str>) -> Option<Seq<char>> {
    match text {
        Some(t) => Some(t@),
        None => None,
    }
}

/// Whether a key names a rewrite.
pub open spec fn is_rewrite(key: Seq<char>) -> bool {
    key.len() >= 4 && key[0] == 's' && key[1] == 'e' && key[2] == 't' && key[3] == '.'
}

/// The fields whose key starts with `set.`, under the rest of it.
pub open spec fn rewrites_of(fields: Seq<(Seq<char>, Seq<char>)>) -> Seq<(Seq<char>, Seq<char>)>
    decreases fields.len(),
{
    if fields.len() == 0 {
        seq![]
    } else {
        let before = rewrites_of(fields.drop_last());
        let (key, value) = fields.last();
        if is_rewrite(key) {
            before.push((key.skip(4), value))
        } else {
            before
        }
    }
}

/// Fields as they are written behind the name of a frame.
pub open spec fn encoded_fields(fields: Seq<(Seq<char>, Seq<char>)>) -> Seq<char>
    decreases fields.len(),
{
    if fields.len() == 0 {
        seq![]
    } else {
        let (key, value) = fields.last();
        encoded_fields(fields.drop_last()) + seq![' '] + escape(key) + seq!['='] + escape(value)
    }
}

/// The name of a frame as it is written behind its number. A frame without a name
/// goes straight on to its fields.
pub open spec fn encoded_name(name: Seq<char>) -> Seq<char> {
    if name.len() == 0 {
        seq![]
    } else {
        seq![' '] + name
    }
}

/// The line that a frame is written as.
pub open spec fn encoded(frame: FrameView) -> Seq<char> {
    frame.verb + seq![' '] + decimal(frame.seq as nat) + encoded_name(frame.name)
        + encoded_fields(frame.fields)
}

/// Whether a word of a line is a field: it has a key, which is not empty, before
/// its first `=`.
pub open spec fn is_field(word: Seq<char>) -> bool {
    0 < find(word, '=') < word.len()
}

/// The field that a word stands for.
pub open spec fn field_of(word: Seq<char>) -> (Seq<char>, Seq<char>) {
    let n = find(word, '=');
    (unescape(word.take(n)), unescape(word.skip(n + 1)))
}

/// The fields among the words of a line, in their order.
pub open spec fn fields_of(words: Seq<Seq<char>>) -> Seq<(Seq<char>, Seq<char>)>
    decreases words.len(),
{
    if words.len() == 0 {
        seq![]
    } else {
        let before = fields_of(words.drop_last());
        if is_field(words.last()) {
            before.push(field_of(words.last()))
        } else {
            before
        }
    }
}

/// The name among the words of a line: the first that is not a field, or nothing
/// where all of them are.
pub open spec fn name_of(words: Seq<Seq<char>>) -> Seq<char>
    decreases words.len(),
{
    if words.len() == 0 {
        seq![]
    } else if is_field(words[0]) {
        name_of(words.drop_first())
    } else {
        unescape(words[0])
    }
}

/// The frame that ends a session.
pub open spec fn goodbye() -> FrameView {
    FrameView { verb: "BYE"@, seq: 0, name: seq![], fields: seq![] }
}

/// The frame that a line stands for: a verb, a sequence number, and then fields
/// and a name. `BYE` stands alone, and what follows it does not count.
pub open spec fn decoded(line: Seq<char>) -> Option<FrameView> {
    let all = words(line);
    if all.len() > 0 && all[0] == "BYE"@ {
        Some(goodbye())
    } else if all.len() >= 2 {
        match parsed(all[1]) {
            Some(seq) => Some(
                FrameView {
                    verb: all[0],
                    seq,
                    name: name_of(all.skip(2)),
                    fields: fields_of(all.skip(2)),
                },
            ),
            None => None,
        }
    } else {
        None
    }
}

/// Percent-encodes only what would break the line format, so values stay
/// readable.
pub fn encode(value: &str) -> (text: String)
    ensures
        text@ == escape(value@),
{
    let chars = chars_of(value);
    let mut out = String::new();
    assert(chars@.take(0) == Seq::<char>::empty());
    for i in 0..chars.len()
        invariant
            out@ == escape(chars@.take(i as int)),
    {
        let c = chars[i];
        let ghost before = out@;
        if c == '%' {
            out.push('%');
            out.push('2');
            out.push('5');
        } else if c == ' ' {
            out.push('%');
            out.push('2');
            out.push('0');
        } else if c == '=' {
            out.push('%');
            out.push('3');
            out.push('D');
        } else if c == '\n' {
            out.push('%');
            out.push('0');
            out.push('A');
        } else if c == '\r' {
            out.push('%');
            out.push('0');
            out.push('D');
        } else {
            out.push(c);
        }
        assert(out@ == before + escape_char(c));
        assert(chars@.take(i + 1).drop_last() == chars@.take(i as int));
    }
    assert(chars@.take(chars@.len() as int) == chars@);
    out
}

/// Reads a key or a value back.
pub fn decode(value: &str) -> (text: String)
    ensures
        text@ == unescape(value@),
{
    let chars = chars_of(value);
    let ghost s = chars@;
    let mut out = String::new();
    let mut i: usize = 0;
    assert(s.skip(0) == s);
    while i < chars.len()
        invariant
            s == chars@,
            i <= s.len(),
            out@ + unescape(s.skip(i as int)) == unescape(s),
        decreases s.len() - i,
    {
        let ghost rest = s.skip(i as int);
        let ghost before = out@;
        if chars[i] == '%' && chars.len() - i >= 3 {
            if let Some(byte) = parse_hex_pair(chars[i + 1], chars[i + 2]) {
                assert(escaped(rest));
                assert(rest.skip(3) == s.skip(i + 3));
                out.push(byte as char);
                assert(out@ == before + seq![byte as char]);
                i = i + 3;
                continue;
            }
        }
        assert(!escaped(rest));
        assert(rest.skip(1) == s.skip(i + 1));
        out.push(chars[i]);
        assert(out@ == before + seq![rest[0]]);
        i = i + 1;
    }
    assert(s.skip(i as int) == Seq::<char>::empty());
    out
}

impl Frame {
    /// A frame without fields.
    pub fn new(verb: &str, seq: u64, name: &str) -> (frame: Frame)
        ensures
            frame@ == (FrameView { verb: verb@, seq, name: name@, fields: seq![] }),
    {
        let frame = Frame {
            verb: verb.to_owned(),
            seq,
            name: name.to_owned(),
            fields: Vec::new(),
        };
        assert(frame@.fields == Seq::<(Seq<char>, Seq<char>)>::empty());
        frame
    }

    /// What the first field with this key holds.
    pub fn field(&self, key: &str) -> (value: Option<&str>)
        ensures
            optional(value) == lookup(self@.fields, key@),
    {
        let ghost fields = self@.fields;
        assert(fields.skip(0) == fields);
        for i in 0..self.fields.len()
            invariant
                fields == pairs(self.fields@),
                lookup(fields.skip(i as int), key@) == lookup(fields, key@),
        {
            let field = &self.fields[i];
            assert(fields.skip(i as int)[0] == (field.0@, field.1@));
            assert(fields.skip(i as int).drop_first() == fields.skip(i + 1));
            if same(&field.0, key) {
                return Some(field.1.as_str());
            }
        }
        None
    }

    /// Fields whose key starts with `set.`, i.e. a verdict's rewrites.
    pub fn rewrites(&self) -> (rewrites: Vec<(String, String)>)
        ensures
            pairs(rewrites@) == rewrites_of(self@.fields),
    {
        let ghost fields = self@.fields;
        let mut found: Vec<(String, String)> = Vec::new();
        assert(fields.take(0) == Seq::<(Seq<char>, Seq<char>)>::empty());
        for i in 0..self.fields.len()
            invariant
                fields == pairs(self.fields@),
                pairs(found@) == rewrites_of(fields.take(i as int)),
        {
            let key = chars_of(&self.fields[i].0);
            assert(fields.take(i + 1).drop_last() == fields.take(i as int));
            assert(fields.take(i + 1).last() == (key@, self.fields@[i as int].1@));
            if key.len() >= 4 && key[0] == 's' && key[1] == 'e' && key[2] == 't' && key[3] == '.' {
                let ghost before = pairs(found@);
                let name = text_of(&key, 4, key.len());
                let value = self.fields[i].1.clone();
                assert(name@ == key@.skip(4));
                found.push((name, value));
                assert(pairs(found@) == before.push((name@, value@)));
            }
        }
        assert(fields.take(fields.len() as int) == fields);
        found
    }

    /// The line that this frame is written as.
    pub fn encode(&self) -> (line: String)
        ensures
            line@ == encoded(self@),
    {
        let ghost fields = self@.fields;
        let mut line = self.verb.clone();
        line.append(" ");
        line.append(&decimal_text(self.seq));
        proof {
            reveal_strlit("");
            reveal_strlit(" ");
            reveal_strlit("=");
        }
        assert(" "@ == seq![' ']);
        assert("="@ == seq!['=']);
        assert(self.name@.len() == 0 ==> self.name@ =~= ""@);
        if !same(&self.name, "") {
            line.append(" ");
            line.append(&self.name);
        }
        let ghost start = line@;
        assert(start == self.verb@ + seq![' '] + decimal(self.seq as nat) + encoded_name(
            self.name@,
        ));
        assert(fields.take(0) == Seq::<(Seq<char>, Seq<char>)>::empty());
        for i in 0..self.fields.len()
            invariant
                fields == pairs(self.fields@),
                " "@ == seq![' '],
                "="@ == seq!['='],
                line@ == start + encoded_fields(fields.take(i as int)),
        {
            let field = &self.fields[i];
            assert(fields.take(i + 1).drop_last() == fields.take(i as int));
            assert(fields.take(i + 1).last() == (field.0@, field.1@));
            line.append(" ");
            line.append(&encode(&field.0));
            line.append("=");
            line.append(&encode(&field.1));
        }
        assert(fields.take(fields.len() as int) == fields);
        line
    }

    /// Reads a line back, if it is a frame.
    pub fn decode(line: &str) -> (frame: Option<Frame>)
        ensures
            match frame {
                Some(f) => decoded(line@) == Some(f@),
                None => decoded(line@) is None,
            },
    {
        let parts = words_of(line);
        let ghost all = words(line@);
        if parts.len() == 0 {
            return None;
        }
        assert(parts@[0]@ == all[0]);
        if same(&parts[0], "BYE") {
            let bye = Frame::new("BYE", 0, "");
            proof {
                reveal_strlit("");
                assert(bye@.name == Seq::<char>::empty());
            }
            return Some(bye);
        }
        if parts.len() < 2 {
            return None;
        }
        assert(parts@[1]@ == all[1]);
        let seq = match parse_number(&parts[1]) {
            Some(seq) => seq,
            None => {
                return None;
            },
        };

        // A word with a key before its `=` is a field, never the name: frames
        // such as END have no name, and their fields must not be taken for one.
        let ghost rest = all.skip(2);
        let mut name = String::new();
        let mut named = false;
        let mut fields: Vec<(String, String)> = Vec::new();
        let mut i: usize = 2;
        assert(rest.skip(0) == rest);
        assert(rest.take(0) == Seq::<Seq<char>>::empty());
        while i < parts.len()
            invariant
                2 <= i <= parts@.len(),
                all == texts(parts@),
                rest == all.skip(2),
                pairs(fields@) == fields_of(rest.take(i - 2)),
                named ==> name@ == name_of(rest),
                !named ==> name@ == Seq::<char>::empty() && name_of(rest) == name_of(
                    rest.skip(i - 2),
                ),
            decreases parts@.len() - i,
        {
            let part = chars_of(&parts[i]);
            let ghost word = part@;
            assert(rest[i - 2] == word);
            assert(rest.take(i - 1).drop_last() == rest.take(i - 2));
            assert(rest.skip(i - 2)[0] == word);
            assert(rest.skip(i - 2).drop_first() == rest.skip(i - 1));
            let mut n: usize = 0;
            while n < part.len() && part[n] != '='
                invariant
                    n <= part@.len(),
                    forall|j: int| 0 <= j < n ==> part@[j] != '=',
                decreases part@.len() - n,
            {
                n = n + 1;
            }
            proof {
                lemma_find_is(word, '=', n as int);
            }
            if 0 < n && n < part.len() {
                let ghost before = pairs(fields@);
                let key = decode(&text_of(&part, 0, n));
                let value = decode(&text_of(&part, n + 1, part.len()));
                assert(word.subrange(0, n as int) == word.take(n as int));
                assert(word.subrange(n + 1, word.len() as int) == word.skip(n + 1));
                fields.push((key, value));
                assert(pairs(fields@) == before.push((key@, value@)));
            } else if !named {
                name = decode(&parts[i]);
                named = true;
            }
            i = i + 1;
        }
        assert(rest.take(i - 2) == rest);
        assert(rest.skip(i - 2) == Seq::<Seq<char>>::empty());
        Some(Frame { verb: parts[0].clone(), seq, name, fields })
    }
}

} // verus!
