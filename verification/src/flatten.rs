//! The fields of a frame out of what an agent message returns.
//!
//! Nested values are not part of the wire format: an event that needs structure
//! is an event that needs splitting.
use serde_json::Value;

use vstd::prelude::*;

use crate::codec::pairs;
use crate::json::{
    contents, entries, enumerates, in_order, kind_of, lemma_enumeration_is_unique, members, render,
    rendered, Json, Kind,
};
use crate::text::texts;

verus! {

/// One member of what an agent message returns, as far as a field can hold it.
pub enum Item {
    Null,
    Bool(bool),
    Number(String),
    Text(String),
    /// An array or an object, as its JSON text.
    Nested(String),
}

/// What such a member holds.
pub enum ItemView {
    Null,
    Bool(bool),
    Number(Seq<char>),
    Text(Seq<char>),
    Nested(Seq<char>),
}

impl View for Item {
    type V = ItemView;

    open spec fn view(&self) -> ItemView {
        match *self {
            Item::Null => ItemView::Null,
            Item::Bool(b) => ItemView::Bool(b),
            Item::Number(t) => ItemView::Number(t@),
            Item::Text(t) => ItemView::Text(t@),
            Item::Nested(t) => ItemView::Nested(t@),
        }
    }
}

/// What a field can hold of a JSON value.
pub open spec fn item_of(tree: Json) -> ItemView {
    match tree {
        Json::Null => ItemView::Null,
        Json::Bool(b) => ItemView::Bool(b),
        Json::Number(t) => ItemView::Number(t),
        Json::Text(t) => ItemView::Text(t),
        _ => ItemView::Nested(rendered(tree)),
    }
}

/// What the members of a list hold.
pub open spec fn items(list: Seq<(String, Item)>) -> Seq<(Seq<char>, ItemView)> {
    list.map_values(|entry: (String, Item)| (entry.0@, entry.1@))
}

/// The members of a JSON object in the order of their names, and none for a value
/// of another kind.
pub open spec fn object_items(tree: Json) -> Seq<(Seq<char>, ItemView)> {
    match tree {
        Json::Object(m) => in_order(m).map_values(
            |entry: (Seq<char>, Json)| (entry.0, item_of(entry.1)),
        ),
        _ => seq![],
    }
}

/// The text of a member as a field, unless it is null.
pub open spec fn item_text(item: ItemView) -> Option<Seq<char>> {
    match item {
        ItemView::Null => None,
        ItemView::Bool(b) => Some(
            if b {
                "1"@
            } else {
                "0"@
            },
        ),
        ItemView::Number(t) => Some(t),
        ItemView::Text(t) => Some(t),
        ItemView::Nested(t) => Some(t),
    }
}

/// Members as fields: each under its name, without those that are null.
pub open spec fn flat_fields(list: Seq<(Seq<char>, ItemView)>) -> Seq<(Seq<char>, Seq<char>)>
    decreases list.len(),
{
    if list.len() == 0 {
        seq![]
    } else {
        let done = flat_fields(list.drop_last());
        match item_text(list.last().1) {
            Some(text) => done.push((list.last().0, text)),
            None => done,
        }
    }
}

/// The names of the members that are arrays or objects. They are sent as a text
/// of JSON, which Coderpack does not look into.
pub open spec fn nested_names(list: Seq<(Seq<char>, ItemView)>) -> Seq<Seq<char>>
    decreases list.len(),
{
    if list.len() == 0 {
        seq![]
    } else {
        let done = nested_names(list.drop_last());
        if list.last().1 is Nested {
            done.push(list.last().0)
        } else {
            done
        }
    }
}

fn item(value: &Value) -> (item: Item)
    ensures
        item@ == item_of(contents(*value)),
{
    match kind_of(value) {
        Kind::Null => Item::Null,
        Kind::Bool(b) => Item::Bool(b),
        Kind::Number => Item::Number(render(value)),
        Kind::Text(t) => Item::Text(t),
        Kind::Array => Item::Nested(render(value)),
        Kind::Object => Item::Nested(render(value)),
    }
}

/// The members of what an agent message returns.
pub fn items_of(value: &Value) -> (list: Vec<(String, Item)>)
    ensures
        items(list@) == object_items(contents(*value)),
{
    let mut list: Vec<(String, Item)> = Vec::new();
    let found = match entries(value) {
        Some(found) => found,
        None => {
            assert(items(list@) == Seq::<(Seq<char>, ItemView)>::empty());
            return list;
        },
    };
    let ghost all = object_items(contents(*value));
    proof {
        let m = contents(*value)->Object_0;
        assert(enumerates(in_order(m), m));
        lemma_enumeration_is_unique(members(found@), in_order(m), m);
        assert(all.len() == found@.len());
        assert forall|i: int| 0 <= i < found@.len() implies #[trigger] all[i] == (
            found@[i].0@,
            item_of(contents(found@[i].1)),
        ) by {
            assert(members(found@)[i] == in_order(m)[i]);
        }
    }
    for i in 0..found.len()
        invariant
            all.len() == found@.len(),
            forall|i: int|
                0 <= i < found@.len() ==> #[trigger] all[i] == (
                    found@[i].0@,
                    item_of(contents(found@[i].1)),
                ),
            items(list@) == all.take(i as int),
    {
        let ghost done = items(list@);
        let name = found[i].0.clone();
        let held = item(&found[i].1);
        list.push((name, held));
        assert(items(list@) == done.push((name@, held@)));
        assert(all.take(i + 1) == all.take(i as int).push(all[i as int]));
    }
    list
}

/// Members as fields, and nested values as a text of JSON: an event that needs
/// structure is an event that needs splitting.
pub fn flat(list: &Vec<(String, Item)>) -> (fields: Vec<(String, String)>)
    ensures
        pairs(fields@) == flat_fields(items(list@)),
{
    let ghost all = items(list@);
    let mut fields: Vec<(String, String)> = Vec::new();
    for i in 0..list.len()
        invariant
            all == items(list@),
            pairs(fields@) == flat_fields(all.take(i as int)),
    {
        let ghost done = pairs(fields@);
        let entry = &list[i];
        assert(all.take(i + 1).drop_last() == all.take(i as int));
        assert(all.take(i + 1).last() == (entry.0@, entry.1@));
        let text = match &entry.1 {
            Item::Null => None,
            Item::Bool(b) => Some(
                if *b {
                    "1".to_owned()
                } else {
                    "0".to_owned()
                },
            ),
            Item::Number(t) => Some(t.clone()),
            Item::Text(t) => Some(t.clone()),
            Item::Nested(t) => Some(t.clone()),
        };
        if let Some(text) = text {
            let name = entry.0.clone();
            fields.push((name, text));
            assert(pairs(fields@) == done.push((name@, text@)));
        }
    }
    assert(all.take(all.len() as int) == all);
    fields
}

/// The names of the members that are arrays or objects.
pub fn nested(list: &Vec<(String, Item)>) -> (names: Vec<String>)
    ensures
        texts(names@) == nested_names(items(list@)),
{
    let ghost all = items(list@);
    let mut names: Vec<String> = Vec::new();
    for i in 0..list.len()
        invariant
            all == items(list@),
            texts(names@) == nested_names(all.take(i as int)),
    {
        let ghost done = texts(names@);
        let entry = &list[i];
        assert(all.take(i + 1).drop_last() == all.take(i as int));
        assert(all.take(i + 1).last() == (entry.0@, entry.1@));
        if let Item::Nested(_) = &entry.1 {
            let name = entry.0.clone();
            names.push(name);
            assert(texts(names@) == done.push(name@));
        }
    }
    assert(all.take(all.len() as int) == all);
    names
}

/// JSON object to flat string fields.
pub fn flatten(value: &Value) -> (fields: Vec<(String, String)>)
    ensures
        pairs(fields@) == flat_fields(object_items(contents(*value))),
{
    flat(&items_of(value))
}

} // verus!
