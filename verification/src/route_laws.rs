//! What the host makes of the messages of the agent and of the lines of Coderpack,
//! said of the messages and lines themselves.
use vstd::prelude::*;

use crate::codec::{
    decoded, encoded, is_field, is_rewrite, lookup, rewrites_of, unescape, FrameView,
};
use crate::codec_laws::{is_word, law_frame_round_trip};
use crate::explain::{explained, other_text};
use crate::flatten::{flat_fields, item_of, item_text, nested_names, object_items, ItemView};
use crate::json::{
    contents, enumerates, in_order, lemma_enumeration_is_unique, read, rendered, Json,
};
use crate::number::decimal;
use crate::outbox::{after_next, after_send, next_line_of, OutboxView};
use crate::pending::late;
use crate::post::{last_value, law_last_field_stays, law_message_members, message_tree};
use crate::pump::{bereft, carries_on, posts, Wake};
use crate::router::{
    frame_of, frame_with, late_notice, notice_of, open_after, reports, told_of, unreadable, verb_of,
    work_of, Message, Payload, ToAgentView, VERDICT_DEADLINE, WATCH_INTERVAL,
};
use crate::router_laws::verdict;
use crate::text::before;

verus! {

/// A message of the agent goes on under the verb of its kind, and those of another
/// kind do not.
pub proof fn law_kinds_have_verbs(kind: Seq<char>)
    ensures
        verb_of("evt"@) == Some("EVT"@),
        verb_of("ask"@) == Some("ASK"@),
        verb_of("res"@) == Some("RES"@),
        kind != "evt"@ && kind != "ask"@ && kind != "res"@ ==> verb_of(kind) is None,
{
    reveal_strlit("evt");
    reveal_strlit("ask");
    reveal_strlit("res");
    assert("evt"@[0] == 'e' && "ask"@[0] == 'a' && "res"@[0] == 'r');
}

/// The frame that a message becomes has the number, the name and the verb of the
/// message, whatever they are, and it is the last that waits where it is taken.
/// A question, or the answer to a command, is taken as long as somebody writes.
pub proof fn law_message_keeps_its_number(outbox: OutboxView, verb: Seq<char>, payload: Payload)
    ensures
        ({
            let frame = frame_of(verb, payload);
            let queue = after_send(outbox, frame).waiting;
            &&& frame.verb == verb
            &&& frame.seq == payload.id
            &&& frame.name == payload.result@
            &&& outbox.open && (verb != "EVT"@ || outbox.waiting.len() < outbox.limit) ==> {
                &&& queue.len() == outbox.waiting.len() + 1
                &&& queue.last().verb == verb
                &&& queue.last().seq == payload.id
                &&& queue.last().name == payload.result@
                &&& queue.last().fields == frame.fields
                &&& queue.drop_last() == outbox.waiting
            }
        }),
        forall|id: u64, name: Seq<char>, list: Seq<(Seq<char>, ItemView)>|
            {
                &&& (#[trigger] frame_with(verb, id, name, list)).verb == verb
                &&& frame_with(verb, id, name, list).seq == id
                &&& frame_with(verb, id, name, list).name == name
            },
{
    let frame = frame_of(verb, payload);
    assert(outbox.waiting.push(frame).drop_last() == outbox.waiting);
}

/// The text of a field for a member of a JSON object: nothing for null, `1` and
/// `0` for true and false, a number and a string as they are, and JSON text for
/// what is nested.
pub open spec fn field_text(member: Json) -> Option<Seq<char>> {
    match member {
        Json::Null => None,
        Json::Bool(true) => Some(seq!['1']),
        Json::Bool(false) => Some(seq!['0']),
        Json::Number(t) => Some(t),
        Json::Text(t) => Some(t),
        Json::Array(_) | Json::Object(_) => Some(rendered(member)),
    }
}

proof fn lemma_field_text(member: Json)
    ensures
        item_text(item_of(member)) == field_text(member),
{
    reveal_strlit("1");
    reveal_strlit("0");
    assert("1"@ == seq!['1']);
    assert("0"@ == seq!['0']);
}

/// The fields of a frame are the members of the object that the agent sent which
/// are not null, each once, in the order of their names, and no others. `list`
/// names the members of the object.
pub proof fn law_fields_are_the_members(
    list: Seq<(Seq<char>, Json)>,
    object: Map<Seq<char>, Json>,
    key: Seq<char>,
    value: Seq<char>,
)
    requires
        enumerates(list, object),
    ensures
        ({
            let fields = flat_fields(object_items(Json::Object(object)));
            &&& fields.contains((key, value)) <==> object.contains_key(key) && field_text(
                object[key],
            ) == Some(value)
            &&& forall|i: int, j: int|
                0 <= i < j < fields.len() ==> before(
                    (#[trigger] fields[i]).0,
                    (#[trigger] fields[j]).0,
                )
        }),
{
    let all = object_items(Json::Object(object));
    assert(in_order(object) == list) by {
        lemma_enumeration_is_unique(in_order(object), list, object);
    }
    assert forall|i: int| 0 <= i < all.len() implies (#[trigger] all[i]) == (
        list[i].0,
        item_of(list[i].1),
    ) by {}
    assert forall|i: int, j: int| 0 <= i < j < all.len() implies before(
        (#[trigger] all[i]).0,
        (#[trigger] all[j]).0,
    ) by {
        assert(before(list[i].0, list[j].0));
    }
    lemma_flat_order(all);
    lemma_flat_contains(all, key, value);
    let fields = flat_fields(all);
    if fields.contains((key, value)) {
        let i = choose|i: int|
            0 <= i < all.len() && (#[trigger] all[i]).0 == key && item_text(all[i].1) == Some(value);
        assert(object.contains_key(list[i].0));
        lemma_field_text(list[i].1);
    }
    if object.contains_key(key) && field_text(object[key]) == Some(value) {
        let i = choose|i: int| 0 <= i < list.len() && (#[trigger] list[i]).0 == key;
        lemma_field_text(list[i].1);
        assert(all[i].0 == key);
    }
}

proof fn lemma_flat_contains(
    list: Seq<(Seq<char>, ItemView)>,
    key: Seq<char>,
    value: Seq<char>,
)
    ensures
        flat_fields(list).contains((key, value)) <==> exists|i: int|
            0 <= i < list.len() && (#[trigger] list[i]).0 == key && item_text(list[i].1) == Some(
                value,
            ),
    decreases list.len(),
{
    if list.len() > 0 {
        let fewer = list.drop_last();
        let last = list[list.len() - 1];
        let done = flat_fields(fewer);
        let all = flat_fields(list);
        lemma_flat_contains(fewer, key, value);
        if all.contains((key, value)) {
            if done.contains((key, value)) {
                let i = choose|i: int|
                    0 <= i < fewer.len() && (#[trigger] fewer[i]).0 == key && item_text(fewer[i].1)
                        == Some(value);
                assert(list[i].0 == key);
            } else {
                let i = choose|i: int| 0 <= i < all.len() && all[i] == (key, value);
                if i < done.len() {
                    assert(done[i] == (key, value));
                }
                assert(last.0 == key);
            }
        }
        if exists|i: int|
            0 <= i < list.len() && (#[trigger] list[i]).0 == key && item_text(list[i].1) == Some(
                value,
            ) {
            let i = choose|i: int|
                0 <= i < list.len() && (#[trigger] list[i]).0 == key && item_text(list[i].1)
                    == Some(value);
            if i < fewer.len() {
                assert(fewer[i].0 == key);
                let j = choose|j: int| 0 <= j < done.len() && done[j] == (key, value);
                assert(all[j] == (key, value));
            } else {
                assert(all[all.len() - 1] == (key, value));
            }
        }
    }
}

proof fn lemma_flat_order(list: Seq<(Seq<char>, ItemView)>)
    requires
        forall|i: int, j: int|
            0 <= i < j < list.len() ==> before((#[trigger] list[i]).0, (#[trigger] list[j]).0),
    ensures
        forall|i: int, j: int|
            0 <= i < j < flat_fields(list).len() ==> before(
                (#[trigger] flat_fields(list)[i]).0,
                (#[trigger] flat_fields(list)[j]).0,
            ),
    decreases list.len(),
{
    if list.len() > 0 {
        let fewer = list.drop_last();
        let last = list[list.len() - 1];
        let done = flat_fields(fewer);
        let all = flat_fields(list);
        assert forall|i: int, j: int| 0 <= i < j < fewer.len() implies before(
            (#[trigger] fewer[i]).0,
            (#[trigger] fewer[j]).0,
        ) by {
            assert(before(list[i].0, list[j].0));
        }
        lemma_flat_order(fewer);
        assert forall|i: int, j: int| 0 <= i < j < all.len() implies before(
            (#[trigger] all[i]).0,
            (#[trigger] all[j]).0,
        ) by {
            if j < done.len() {
                assert(before(done[i].0, done[j].0));
            } else {
                assert(all[i] == done[i]);
                lemma_flat_contains(fewer, done[i].0, done[i].1);
                assert(done.contains(done[i]));
                let k = choose|k: int|
                    0 <= k < fewer.len() && (#[trigger] fewer[k]).0 == done[i].0 && item_text(
                        fewer[k].1,
                    ) == Some(done[i].1);
                assert(before(list[k].0, list[list.len() - 1].0));
            }
        }
    }
}

/// What the console is told of a message: of one that goes on, the names of its
/// nested members; otherwise what the agent logged, or that its kind is unknown.
pub proof fn law_console_is_told(
    kind: Seq<char>,
    name: Seq<char>,
    list: Seq<(Seq<char>, ItemView)>,
    text: Seq<char>,
)
    ensures
        kind == "evt"@ || kind == "ask"@ || kind == "res"@ ==> (told_of(kind, name, list).contains(
            text,
        ) <==> exists|i: int|
            {
                &&& 0 <= i < list.len()
                &&& (#[trigger] list[i]).1 is Nested
                &&& text == "[agent] Field "@ + list[i].0
                    + " is nested, but the protocol accepts only flat fields; Coderpack will ignore its contents"@
            }),
        told_of("log"@, name, list) == seq!["[agent] "@ + name],
        kind != "evt"@ && kind != "ask"@ && kind != "res"@ && kind != "log"@ ==> told_of(
            kind,
            name,
            list,
        ) == seq!["[agent] Unknown frame type: "@ + kind],
{
    law_kinds_have_verbs(kind);
    reveal_strlit("log");
    reveal_strlit("evt");
    reveal_strlit("ask");
    reveal_strlit("res");
    assert("log"@[0] == 'l' && "evt"@[0] == 'e' && "ask"@[0] == 'a' && "res"@[0] == 'r');
    law_kinds_have_verbs("log"@);
    if kind == "evt"@ || kind == "ask"@ || kind == "res"@ {
        let names = nested_names(list);
        let told = told_of(kind, name, list);
        if told.contains(text) {
            let i = choose|i: int| 0 <= i < told.len() && told[i] == text;
            lemma_nested(list, names[i]);
            assert(names.contains(names[i]));
        }
        if exists|i: int|
            {
                &&& 0 <= i < list.len()
                &&& (#[trigger] list[i]).1 is Nested
                &&& text == "[agent] Field "@ + list[i].0
                    + " is nested, but the protocol accepts only flat fields; Coderpack will ignore its contents"@
            } {
            let i = choose|i: int|
                {
                    &&& 0 <= i < list.len()
                    &&& (#[trigger] list[i]).1 is Nested
                    &&& text == "[agent] Field "@ + list[i].0
                        + " is nested, but the protocol accepts only flat fields; Coderpack will ignore its contents"@
                };
            lemma_nested(list, list[i].0);
            let j = choose|j: int| 0 <= j < names.len() && names[j] == list[i].0;
            assert(told[j] == text);
        }
    }
}

proof fn lemma_nested(list: Seq<(Seq<char>, ItemView)>, name: Seq<char>)
    ensures
        nested_names(list).contains(name) <==> exists|i: int|
            0 <= i < list.len() && (#[trigger] list[i]).1 is Nested && list[i].0 == name,
    decreases list.len(),
{
    if list.len() > 0 {
        let fewer = list.drop_last();
        let last = list[list.len() - 1];
        let done = nested_names(fewer);
        let all = nested_names(list);
        lemma_nested(fewer, name);
        if all.contains(name) {
            if done.contains(name) {
                let i = choose|i: int|
                    0 <= i < fewer.len() && (#[trigger] fewer[i]).1 is Nested && fewer[i].0 == name;
                assert(list[i].0 == name);
            } else {
                let i = choose|i: int| 0 <= i < all.len() && all[i] == name;
                if i < done.len() {
                    assert(done[i] == name);
                }
                assert(last.0 == name);
            }
        }
        if exists|i: int|
            0 <= i < list.len() && (#[trigger] list[i]).1 is Nested && list[i].0 == name {
            let i = choose|i: int|
                0 <= i < list.len() && (#[trigger] list[i]).1 is Nested && list[i].0 == name;
            if i < fewer.len() {
                assert(fewer[i].0 == name);
                let j = choose|j: int| 0 <= j < done.len() && done[j] == name;
                assert(all[j] == name);
            } else {
                assert(all[all.len() - 1] == name);
            }
        }
    }
}

/// Of a message that goes on the console is told of each nested member, once and
/// in their order.
pub proof fn law_nested_members_are_told_in_order(
    kind: Seq<char>,
    name: Seq<char>,
    list: Seq<(Seq<char>, ItemView)>,
    member: (Seq<char>, ItemView),
)
    requires
        kind == "evt"@ || kind == "ask"@ || kind == "res"@,
    ensures
        told_of(kind, name, Seq::empty()) == Seq::<Seq<char>>::empty(),
        told_of(kind, name, list.push(member)) == (if member.1 is Nested {
            told_of(kind, name, list).push(
                "[agent] Field "@ + member.0
                    + " is nested, but the protocol accepts only flat fields; Coderpack will ignore its contents"@,
            )
        } else {
            told_of(kind, name, list)
        }),
{
    law_kinds_have_verbs(kind);
    let more = list.push(member);
    assert(more.drop_last() == list);
    assert(more.last() == member);
    let none = Seq::<(Seq<char>, ItemView)>::empty();
    assert(nested_names(none) == Seq::<Seq<char>>::empty());
    assert(told_of(kind, name, none) == Seq::<Seq<char>>::empty());
    if member.1 is Nested {
        assert(told_of(kind, name, more) == told_of(kind, name, list).push(
            "[agent] Field "@ + member.0
                + " is nested, but the protocol accepts only flat fields; Coderpack will ignore its contents"@,
        ));
    } else {
        assert(told_of(kind, name, more) == told_of(kind, name, list));
    }
}

/// What is no object has no fields.
pub proof fn law_only_objects_have_fields(tree: Json)
    requires
        !(tree is Object),
    ensures
        object_items(tree).len() == 0,
        flat_fields(object_items(tree)).len() == 0,
{
}

/// What is nested is an array or an object, and nothing else is.
pub proof fn law_nested_is_array_or_object(member: Json)
    ensures
        item_of(member) is Nested <==> member is Array || member is Object,
        member is Null ==> item_of(member) is Null,
{
}

/// What the console is told of the messages that are not for Coderpack.
pub proof fn law_script_messages_are_told(
    text: String,
    description: String,
    file_name: String,
    line_number: u64,
    value: serde_json::Value,
)
    ensures
        reports(Message::Log(text)) == seq!["[agent] "@ + text@],
        reports(Message::Error { description, file_name, line_number }) == seq![
            "[agent] Error: "@ + description@ + " at "@ + file_name@ + ":"@ + decimal(
                line_number as nat,
            ),
        ],
        reports(Message::Other(value)) == seq!["[agent] "@ + other_text(contents(value))],
{
}

/// A command reaches the agent with its number, its name and all of its fields,
/// also where it has none.
pub proof fn law_command_reaches_the_agent(
    seq: u64,
    name: Seq<char>,
    fields: Seq<(Seq<char>, Seq<char>)>,
)
    requires
        is_word(name),
        !is_field(name),
        unescape(name) == name,
        forall|i: int| 0 <= i < fields.len() ==> (#[trigger] fields[i]).0.len() > 0,
    ensures
        ({
            let line = encoded(FrameView { verb: "CMD"@, seq, name, fields });
            &&& decoded(line) is Some
            &&& work_of(decoded(line)->0) == Some(ToAgentView::Command { seq, name, fields })
            &&& open_after(decoded(line)->0, map![seq => 0u128]) == map![seq => 0u128]
        }),
{
    reveal_strlit("CMD");
    reveal_strlit("BYE");
    reveal_strlit("END");
    let frame = FrameView { verb: "CMD"@, seq, name, fields };
    assert("CMD"@[0] == 'C' && "BYE"@[0] == 'B' && "END"@[0] == 'E');
    law_frame_round_trip(frame);
}

/// Every line that starts with the word `BYE` stops the questions.
pub proof fn law_goodbye_stops_the_questions(line: Seq<char>)
    requires
        line == "BYE"@ || line.len() > 3 && line.take(4) == "BYE"@ + seq![' '],
    ensures
        decoded(line) is Some,
        work_of(decoded(line)->0) == Some(ToAgentView::Asking(false)),
{
    reveal_strlit("BYE");
    reveal_strlit("CMD");
    reveal_strlit("END");
    assert("CMD"@[0] == 'C' && "BYE"@[0] == 'B' && "END"@[0] == 'E');
    let word = "BYE"@;
    if line == word {
        crate::text::lemma_find_is(line, ' ', 3);
        assert(line.take(3) == word);
        assert(crate::text::words(line)[0] == word);
    } else {
        assert forall|j: int| 0 <= j < 3 implies line[j] != ' ' by {
            assert(line.take(4)[j] == line[j]);
        }
        assert(line.take(4)[3] == line[3]);
        crate::text::lemma_find_is(line, ' ', 3);
        assert(line.take(3) == word) by {
            assert forall|j: int| 0 <= j < 3 implies line.take(3)[j] == word[j] by {
                assert(line.take(4)[j] == line[j]);
            }
        }
        assert(crate::text::words(line)[0] == word);
    }
}

/// Whether a verdict cancels: its first field `cancel` holds `1`.
pub open spec fn cancels(fields: Seq<(Seq<char>, Seq<char>)>) -> bool {
    exists|i: int|
        {
            &&& 0 <= i < fields.len()
            &&& (#[trigger] fields[i]).0 == "cancel"@ && fields[i].1 == seq!['1']
            &&& forall|j: int| 0 <= j < i ==> (#[trigger] fields[j]).0 != "cancel"@
        }
}

proof fn lemma_lookup_is_first(fields: Seq<(Seq<char>, Seq<char>)>, key: Seq<char>, i: int)
    requires
        0 <= i < fields.len(),
        fields[i].0 == key,
        forall|j: int| 0 <= j < i ==> (#[trigger] fields[j]).0 != key,
    ensures
        lookup(fields, key) == Some(fields[i].1),
    decreases fields.len(),
{
    if i > 0 {
        let rest = fields.drop_first();
        assert(fields[0].0 != key);
        assert forall|j: int| 0 <= j < i - 1 implies (#[trigger] rest[j]).0 != key by {
            assert(fields[j + 1].0 != key);
        }
        lemma_lookup_is_first(rest, key, i - 1);
    }
}

proof fn lemma_lookup_stands(fields: Seq<(Seq<char>, Seq<char>)>, key: Seq<char>) -> (i: int)
    requires
        lookup(fields, key) is Some,
    ensures
        0 <= i < fields.len(),
        fields[i].0 == key,
        forall|j: int| 0 <= j < i ==> (#[trigger] fields[j]).0 != key,
    decreases fields.len(),
{
    if fields[0].0 == key {
        0
    } else {
        let rest = fields.drop_first();
        let i = lemma_lookup_stands(rest, key);
        assert forall|j: int| 0 <= j < i + 1 implies (#[trigger] fields[j]).0 != key by {
            if j > 0 {
                assert(rest[j - 1].0 != key);
            }
        }
        i + 1
    }
}

/// A field that is looked up is the first with its key, and is found if there is
/// one.
pub proof fn law_first_field_is_found(fields: Seq<(Seq<char>, Seq<char>)>, key: Seq<char>)
    ensures
        match lookup(fields, key) {
            Some(value) => exists|i: int|
                {
                    &&& 0 <= i < fields.len()
                    &&& (#[trigger] fields[i]).0 == key && fields[i].1 == value
                    &&& forall|j: int| 0 <= j < i ==> (#[trigger] fields[j]).0 != key
                },
            None => forall|i: int| 0 <= i < fields.len() ==> (#[trigger] fields[i]).0 != key,
        },
    decreases fields.len(),
{
    match lookup(fields, key) {
        Some(value) => {
            let i = lemma_lookup_stands(fields, key);
            lemma_lookup_is_first(fields, key, i);
            assert(fields[i].0 == key && fields[i].1 == value);
        },
        None => {
            if exists|i: int| 0 <= i < fields.len() && (#[trigger] fields[i]).0 == key {
                let i = choose|i: int| 0 <= i < fields.len() && (#[trigger] fields[i]).0 == key;
                lemma_some(fields, key, i);
            }
        },
    }
}

proof fn lemma_some(fields: Seq<(Seq<char>, Seq<char>)>, key: Seq<char>, i: int)
    requires
        0 <= i < fields.len(),
        fields[i].0 == key,
    ensures
        lookup(fields, key) is Some,
    decreases fields.len(),
{
    if fields[0].0 != key {
        assert(fields.drop_first()[i - 1].0 == key);
        lemma_some(fields.drop_first(), key, i - 1);
    }
}

/// Whatever fields a verdict has, it reaches the agent under its number, and
/// cancels exactly where the first of its `cancel` fields holds `1`.
pub proof fn law_verdict_cancels(seq: u64, fields: Seq<(Seq<char>, Seq<char>)>)
    ensures
        work_of(verdict(seq, fields)) is Some,
        work_of(verdict(seq, fields))->0 is Verdict,
        (work_of(verdict(seq, fields))->0)->Verdict_seq == seq,
        (work_of(verdict(seq, fields))->0)->cancel == cancels(fields),
{
    reveal_strlit("1");
    assert("1"@ == seq!['1']);
    let key = "cancel"@;
    if lookup(fields, key) is Some {
        let i = lemma_lookup_stands(fields, key);
        lemma_lookup_is_first(fields, key, i);
        if cancels(fields) {
            let k = choose|i: int|
                {
                    &&& 0 <= i < fields.len()
                    &&& (#[trigger] fields[i]).0 == "cancel"@ && fields[i].1 == seq!['1']
                    &&& forall|j: int| 0 <= j < i ==> (#[trigger] fields[j]).0 != "cancel"@
                };
            lemma_lookup_is_first(fields, key, k);
        } else if fields[i].1 == seq!['1'] {
            assert(fields[i].0 == "cancel"@);
        }
    } else if cancels(fields) {
        let k = choose|i: int|
            {
                &&& 0 <= i < fields.len()
                &&& (#[trigger] fields[i]).0 == "cancel"@ && fields[i].1 == seq!['1']
                &&& forall|j: int| 0 <= j < i ==> (#[trigger] fields[j]).0 != "cancel"@
            };
        lemma_lookup_is_first(fields, key, k);
    }
}

/// The rewrites of a verdict are its `set.` fields, under the rest of their keys,
/// in their order: a further field adds one if and only if its key starts so.
pub proof fn law_rewrites_are_the_set_fields(
    fields: Seq<(Seq<char>, Seq<char>)>,
    key: Seq<char>,
    value: Seq<char>,
)
    ensures
        rewrites_of(Seq::empty()) == Seq::<(Seq<char>, Seq<char>)>::empty(),
        rewrites_of(fields.push(("set."@ + key, value))) == rewrites_of(fields).push((key, value)),
        key.len() < 4 || key.take(4) != "set."@ ==> rewrites_of(fields.push((key, value)))
            == rewrites_of(fields),
{
    reveal_strlit("set.");
    let more = fields.push(("set."@ + key, value));
    assert(more.drop_last() == fields);
    assert(more.last() == ("set."@ + key, value));
    assert(is_rewrite("set."@ + key));
    assert(("set."@ + key).skip(4) == key);
    let other = fields.push((key, value));
    assert(other.drop_last() == fields);
    assert(other.last() == (key, value));
    if is_rewrite(key) {
        assert(key.take(4) == "set."@);
    }
}

/// A frame of no other verb is work; a log is told with its level and as it is
/// written, and anything else with its verb. What is no frame is told as it is.
pub proof fn law_other_frames_are_told(frame: FrameView, line: Seq<char>)
    ensures
        frame.verb != "END"@ && frame.verb != "CMD"@ && frame.verb != "BYE"@ ==> work_of(frame)
            is None,
        frame.verb == "LOG"@ ==> notice_of(frame) == Some(
            "[coderpack] "@ + frame.name + " "@ + encoded(frame),
        ),
        frame.verb != "END"@ && frame.verb != "CMD"@ && frame.verb != "BYE"@ && frame.verb
            != "LOG"@ ==> notice_of(frame) == Some(
            "[coderpack] Unknown frame type: "@ + frame.verb,
        ),
        frame.verb == "END"@ || frame.verb == "CMD"@ || frame.verb == "BYE"@ ==> notice_of(frame)
            is None && work_of(frame) is Some,
        unreadable(line) == "[coderpack] Could not parse Coderpack output: "@ + line,
{
    reveal_strlit("LOG");
    reveal_strlit("END");
    reveal_strlit("CMD");
    reveal_strlit("BYE");
    assert("LOG"@[0] == 'L' && "END"@[0] == 'E' && "CMD"@[0] == 'C' && "BYE"@[0] == 'B');
}

/// Only a verdict closes a question, and only its own.
pub proof fn law_only_verdicts_close(
    frame: FrameView,
    pending: Map<u64, u128>,
    seq: u64,
)
    ensures
        frame.verb == "END"@ ==> !open_after(frame, pending).contains_key(frame.seq),
        frame.verb != "END"@ || seq != frame.seq ==> {
            &&& open_after(frame, pending).contains_key(seq) == pending.contains_key(seq)
            &&& pending.contains_key(seq) ==> open_after(frame, pending)[seq] == pending[seq]
        },
{
}

/// A question is overdue once more than the deadline has passed since it was
/// asked. The deadline is 250 milliseconds, and the watchdog looks every 125.
pub proof fn law_deadline(since: u128, now: u128, deadline: u128)
    ensures
        late(since, now, deadline) <==> now > since + deadline,
        VERDICT_DEADLINE == 250_000_000,
        WATCH_INTERVAL == 125_000_000,
{
}

/// What the console is told of a question that the host answered.
pub proof fn law_late_questions_are_named(seq: u64)
    ensures
        late_notice(seq) == "[host] Coderpack did not answer request "@ + decimal(seq as nat)
            + " in time. Continuing"@,
{
}

/// A frame is queued last while somebody writes, unless it is an event and the
/// queue is full. Otherwise it is counted, and the queue stays as it is. Nothing
/// else changes.
pub proof fn law_frames_are_queued_or_counted(outbox: OutboxView, frame: FrameView)
    ensures
        ({
            let after = after_send(outbox, frame);
            &&& after.limit == outbox.limit
            &&& after.open == outbox.open
            &&& if outbox.open && (frame.verb != "EVT"@ || outbox.waiting.len() < outbox.limit) {
                after.waiting == outbox.waiting.push(frame) && after.dropped == outbox.dropped
            } else {
                &&& after.waiting == outbox.waiting
                &&& outbox.dropped < u64::MAX ==> after.dropped == outbox.dropped + 1
                &&& outbox.dropped == u64::MAX ==> after.dropped == u64::MAX
            }
        }),
{
}

/// Frames are written from the front, one at a time. The count is written, and
/// starts again, once the queue is empty.
pub proof fn law_frames_are_written_from_the_front(outbox: OutboxView)
    ensures
        ({
            let after = after_next(outbox);
            &&& after.limit == outbox.limit
            &&& after.open == outbox.open
            &&& outbox.waiting.len() > 0 ==> {
                &&& next_line_of(outbox) == Some(encoded(outbox.waiting[0]))
                &&& after.waiting == outbox.waiting.skip(1)
                &&& after.dropped == outbox.dropped
            }
            &&& outbox.waiting.len() == 0 ==> {
                &&& after.waiting.len() == 0
                &&& after.dropped == 0
                &&& outbox.dropped > 0 ==> next_line_of(outbox) == Some(
                    "LOG warn dropped="@ + decimal(outbox.dropped as nat),
                )
                &&& outbox.dropped == 0 ==> next_line_of(outbox) is None
            }
        }),
{
    if outbox.waiting.len() > 0 {
        assert(outbox.waiting.drop_first() == outbox.waiting.skip(1));
    }
}

/// What is posted to the agent of the fields of a verdict or a command: every key,
/// with the value of its last field, as a string, and nothing else.
pub proof fn law_fields_are_posted(
    seq: u64,
    cancel: bool,
    name: Seq<char>,
    fields: Seq<(Seq<char>, Seq<char>)>,
    key: Seq<char>,
)
    ensures
        ({
            let v = message_tree(ToAgentView::Verdict { seq, cancel, set: fields });
            let c = message_tree(ToAgentView::Command { seq, name, fields });
            &&& v is Object && c is Object
            &&& (v->Object_0)["set"@] is Object
            &&& (v->Object_0)["set"@] == (c->Object_0)["f"@]
            &&& match last_value(fields, key) {
                Some(value) => {
                    let held = (v->Object_0)["set"@]->Object_0;
                    held.contains_key(key) && held[key] == Json::Text(value)
                },
                None => !((v->Object_0)["set"@]->Object_0).contains_key(key),
            }
        }),
{
    law_message_members(ToAgentView::Verdict { seq, cancel, set: fields });
    law_message_members(ToAgentView::Command { seq, name, fields });
    law_last_field_stays(fields, key);
}

/// What the poster thread does: it posts all work, goes on as long as there is
/// something to go on with, and tells the agent to stop asking, and the console,
/// once Coderpack is dead and the game is not.
pub proof fn law_poster_thread(work: crate::router::ToAgent, alive: bool)
    ensures
        posts(Wake::Work(work)) == Some(rendered(message_tree(work@))),
        carries_on(Wake::Work(work)) && !bereft(Wake::Work(work)),
        posts(Wake::Idle { detached: true, alive }) is None,
        !carries_on(Wake::Idle { detached: true, alive }),
        !bereft(Wake::Idle { detached: true, alive }),
        posts(Wake::Idle { detached: false, alive: true }) is None,
        carries_on(Wake::Idle { detached: false, alive: true }),
        !bereft(Wake::Idle { detached: false, alive: true }),
        posts(Wake::Idle { detached: false, alive: false }) == Some(
            rendered(
                Json::Object(
                    map!["type"@ => Json::Text("mode"@), "ask"@ => Json::Bool(false)],
                ),
            ),
        ),
        !carries_on(Wake::Idle { detached: false, alive: false }),
        bereft(Wake::Idle { detached: false, alive: false }),
        posts(Wake::Abandoned) is None,
        !carries_on(Wake::Abandoned) && !bereft(Wake::Abandoned),
{
    law_message_members(ToAgentView::Asking(false));
}

/// What is told of an untyped message: its description, with its stack if it has
/// one, where its `data` is JSON text that has one; otherwise its `data`, where
/// that is a text; and otherwise the message itself.
pub proof fn law_errors_are_dug_out(
    message: Map<Seq<char>, Json>,
    data: Seq<char>,
    inner: Map<Seq<char>, Json>,
    description: Seq<char>,
    stack: Seq<char>,
)
    ensures
        !message.contains_key("data"@) || !(message["data"@] is Text) ==> other_text(
            Json::Object(message),
        ) == rendered(Json::Object(message)),
        message.contains_key("data"@) && message["data"@] == Json::Text(data) ==> {
            let told = other_text(Json::Object(message));
            &&& read(data) is None ==> told == data
            &&& read(data) == Some(Json::Object(inner)) ==> {
                &&& !inner.contains_key("description"@) || !(inner["description"@] is Text)
                    ==> told == data
                &&& inner.contains_key("description"@) && inner["description"@] == Json::Text(
                    description,
                ) ==> {
                    &&& !inner.contains_key("stack"@) || !(inner["stack"@] is Text) ==> told
                        == description
                    &&& inner.contains_key("stack"@) && inner["stack"@] == Json::Text(stack)
                        ==> told == explained(data, Some(description), Some(stack))
                }
            }
            &&& read(data) is Some && !(read(data)->0 is Object) ==> told == data
        },
        other_text(Json::Null) == rendered(Json::Null),
        other_text(Json::Text(data)) == rendered(Json::Text(data)),
        other_text(Json::Number(data)) == rendered(Json::Number(data)),
        explained(data, None, Some(stack)) == data,
        explained(data, None, None) == data,
        explained(data, Some(description), None) == description,
{
}

} // verus!
