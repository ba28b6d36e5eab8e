//! The messages that the host posts to the agent.
use serde_json::Value;

use vstd::prelude::*;

use crate::codec::pairs;
use crate::json::{
    bool_value, contents, members, number_value, object_of, object_value, render, rendered,
    string_value, Json,
};
use crate::number::decimal;
use crate::router::{ToAgent, ToAgentView};

verus! {

/// Fields as members of an object, each a text. Fields go to the agent as
/// strings: the wire format has no types, and the agent parses what it knows the
/// shape of.
pub open spec fn text_members(fields: Seq<(Seq<char>, Seq<char>)>) -> Seq<(Seq<char>, Json)> {
    fields.map_values(|field: (Seq<char>, Seq<char>)| (field.0, Json::Text(field.1)))
}

/// Fields as an object. Of two with the same key, the later one stays.
pub open spec fn string_object(fields: Seq<(Seq<char>, Seq<char>)>) -> Json {
    Json::Object(object_of(text_members(fields)))
}

/// What the agent is sent.
pub open spec fn message_tree(work: ToAgentView) -> Json {
    Json::Object(
        object_of(
            match work {
                ToAgentView::Verdict { seq, cancel, set } => seq![
                    ("type"@, Json::Text("verdict"@)),
                    ("seq"@, Json::Number(decimal(seq as nat))),
                    ("cancel"@, Json::Bool(cancel)),
                    ("set"@, string_object(set)),
                ],
                ToAgentView::Command { seq, name, fields } => seq![
                    ("type"@, Json::Text("cmd"@)),
                    ("seq"@, Json::Number(decimal(seq as nat))),
                    ("name"@, Json::Text(name)),
                    ("f"@, string_object(fields)),
                ],
                ToAgentView::Asking(enabled) => seq![
                    ("type"@, Json::Text("mode"@)),
                    ("ask"@, Json::Bool(enabled)),
                ],
            },
        ),
    )
}

/// Fields as an object of strings.
pub fn strings(fields: &Vec<(String, String)>) -> (value: Value)
    ensures
        contents(value) == string_object(pairs(fields@)),
{
    let ghost all = text_members(pairs(fields@));
    let mut list: Vec<(String, Value)> = Vec::new();
    for i in 0..fields.len()
        invariant
            all == text_members(pairs(fields@)),
            members(list@) == all.take(i as int),
    {
        let ghost done = members(list@);
        let key = fields[i].0.clone();
        let held = string_value(fields[i].1.clone());
        list.push((key, held));
        assert(members(list@) == done.push((key@, contents(held))));
        assert(all.take(i + 1) == all.take(i as int).push(all[i as int]));
    }
    assert(all.take(fields@.len() as int) == all);
    object_value(list)
}

/// The message for the agent, as the JSON value that it is.
pub fn message_value(work: &ToAgent) -> (value: Value)
    ensures
        contents(value) == message_tree(work@),
{
    let mut list: Vec<(String, Value)> = Vec::new();
    match work {
        ToAgent::Verdict { seq, cancel, set } => {
            list.push(("type".to_owned(), string_value("verdict".to_owned())));
            list.push(("seq".to_owned(), number_value(*seq)));
            list.push(("cancel".to_owned(), bool_value(*cancel)));
            list.push(("set".to_owned(), strings(set)));
            assert(members(list@) == seq![
                ("type"@, Json::Text("verdict"@)),
                ("seq"@, Json::Number(decimal(*seq as nat))),
                ("cancel"@, Json::Bool(*cancel)),
                ("set"@, string_object(pairs(set@))),
            ]);
        },
        ToAgent::Command { seq, name, fields } => {
            list.push(("type".to_owned(), string_value("cmd".to_owned())));
            list.push(("seq".to_owned(), number_value(*seq)));
            list.push(("name".to_owned(), string_value(name.clone())));
            list.push(("f".to_owned(), strings(fields)));
            assert(members(list@) == seq![
                ("type"@, Json::Text("cmd"@)),
                ("seq"@, Json::Number(decimal(*seq as nat))),
                ("name"@, Json::Text(name@)),
                ("f"@, string_object(pairs(fields@))),
            ]);
        },
        ToAgent::Asking(enabled) => {
            list.push(("type".to_owned(), string_value("mode".to_owned())));
            list.push(("ask".to_owned(), bool_value(*enabled)));
            assert(members(list@) == seq![
                ("type"@, Json::Text("mode"@)),
                ("ask"@, Json::Bool(*enabled)),
            ]);
        },
    }
    object_value(list)
}

/// The message for the agent, as the text that is posted.
pub fn message(work: &ToAgent) -> (posted: String)
    ensures
        posted@ == rendered(message_tree(work@)),
{
    render(&message_value(work))
}

/// What the last field with a key holds.
pub open spec fn last_value(fields: Seq<(Seq<char>, Seq<char>)>, key: Seq<char>) -> Option<Seq<char>>
    decreases fields.len(),
{
    if fields.len() == 0 {
        None
    } else if fields.last().0 == key {
        Some(fields.last().1)
    } else {
        last_value(fields.drop_last(), key)
    }
}

/// Of several fields with the same key the agent sees the last one, and it sees
/// no other keys.
pub proof fn law_last_field_stays(fields: Seq<(Seq<char>, Seq<char>)>, key: Seq<char>)
    ensures
        match last_value(fields, key) {
            Some(value) => object_of(text_members(fields)).contains_key(key) && object_of(
                text_members(fields),
            )[key] == Json::Text(value),
            None => !object_of(text_members(fields)).contains_key(key),
        },
    decreases fields.len(),
{
    if fields.len() > 0 {
        law_last_field_stays(fields.drop_last(), key);
        assert(text_members(fields).drop_last() == text_members(fields.drop_last()));
        assert(text_members(fields).last() == (fields.last().0, Json::Text(fields.last().1)));
    }
}

/// What each message to the agent holds: these members, and no others.
pub proof fn law_message_members(work: ToAgentView)
    ensures
        message_tree(work) == Json::Object(
            match work {
                ToAgentView::Verdict { seq, cancel, set } => map![
                    "type"@ => Json::Text("verdict"@),
                    "seq"@ => Json::Number(decimal(seq as nat)),
                    "cancel"@ => Json::Bool(cancel),
                    "set"@ => string_object(set),
                ],
                ToAgentView::Command { seq, name, fields } => map![
                    "type"@ => Json::Text("cmd"@),
                    "seq"@ => Json::Number(decimal(seq as nat)),
                    "name"@ => Json::Text(name),
                    "f"@ => string_object(fields),
                ],
                ToAgentView::Asking(enabled) => map![
                    "type"@ => Json::Text("mode"@),
                    "ask"@ => Json::Bool(enabled),
                ],
            },
        ),
{
    match work {
        ToAgentView::Verdict { seq, cancel, set } => {
            lemma_four_members(
                ("type"@, Json::Text("verdict"@)),
                ("seq"@, Json::Number(decimal(seq as nat))),
                ("cancel"@, Json::Bool(cancel)),
                ("set"@, string_object(set)),
            );
        },
        ToAgentView::Command { seq, name, fields } => {
            lemma_four_members(
                ("type"@, Json::Text("cmd"@)),
                ("seq"@, Json::Number(decimal(seq as nat))),
                ("name"@, Json::Text(name)),
                ("f"@, string_object(fields)),
            );
        },
        ToAgentView::Asking(enabled) => {
            lemma_two_members(("type"@, Json::Text("mode"@)), ("ask"@, Json::Bool(enabled)));
        },
    }
}

proof fn lemma_two_members(a: (Seq<char>, Json), b: (Seq<char>, Json))
    ensures
        object_of(seq![a, b]) == Map::empty().insert(a.0, a.1).insert(b.0, b.1),
{
    assert(seq![a, b].drop_last() == seq![a]);
    assert(seq![a].drop_last() == Seq::<(Seq<char>, Json)>::empty());
    reveal_with_fuel(object_of, 3);
}

proof fn lemma_four_members(
    a: (Seq<char>, Json),
    b: (Seq<char>, Json),
    c: (Seq<char>, Json),
    d: (Seq<char>, Json),
)
    ensures
        object_of(seq![a, b, c, d]) == Map::empty().insert(a.0, a.1).insert(b.0, b.1).insert(
            c.0,
            c.1,
        ).insert(d.0, d.1),
{
    lemma_two_members(a, b);
    assert(seq![a, b, c, d].drop_last() == seq![a, b, c]);
    assert(seq![a, b, c].drop_last() == seq![a, b]);
    reveal_with_fuel(object_of, 3);
}

} // verus!
