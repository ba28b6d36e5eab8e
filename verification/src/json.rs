//! JSON values, as far as the host reads and writes them.
//!
//! The values themselves are those of `serde_json`. What they hold is stated as a
//! `Json` tree, and the functions below that are marked as trusted say how the
//! calls into that crate relate to it.
use serde_json::Value;

use vstd::prelude::*;

use crate::number::decimal;
use crate::text::{before, lemma_before_total};

verus! {

/// The JSON values of `serde_json`.
#[verifier::external_type_specification]
#[verifier::external_body]
pub struct ExValue(serde_json::Value);

/// What a JSON value holds.
pub enum Json {
    Null,
    Bool(bool),
    /// A number, as the text it is written as.
    Number(Seq<char>),
    Text(Seq<char>),
    Array(Seq<Json>),
    Object(Map<Seq<char>, Json>),
}

/// What a value holds.
pub uninterp spec fn contents(value: serde_json::Value) -> Json;

/// The text that a value is written as.
pub uninterp spec fn rendered(tree: Json) -> Seq<char>;

/// What is read from a text, if it is JSON.
pub uninterp spec fn read(text: Seq<char>) -> Option<Json>;

/// What kind of value it is, with what the simple kinds hold.
pub enum Kind {
    Null,
    Bool(bool),
    Number,
    Text(String),
    Array,
    Object,
}

/// Tells the variants of `serde_json::Value` apart.
#[verifier::external_body]
pub(crate) fn kind_of(value: &Value) -> (kind: Kind)
    ensures
        match contents(*value) {
            Json::Null => kind is Null,
            Json::Bool(b) => kind == Kind::Bool(b),
            Json::Number(_) => kind is Number,
            Json::Text(t) => kind is Text && kind->Text_0@ == t,
            Json::Array(_) => kind is Array,
            Json::Object(_) => kind is Object,
        },
{
    match value {
        Value::Null => Kind::Null,
        Value::Bool(b) => Kind::Bool(*b),
        Value::Number(_) => Kind::Number,
        Value::String(s) => Kind::Text(s.clone()),
        Value::Array(_) => Kind::Array,
        Value::Object(_) => Kind::Object,
    }
}

/// `serde_json::Value::get` with a string: the member of an object with this
/// name, and nothing for a value that is not an object.
#[verifier::external_body]
pub(crate) fn member<'a>(value: &'a Value, key: &str) -> (found: Option<&'a Value>)
    ensures
        match contents(*value) {
            Json::Object(m) => match found {
                Some(v) => m.contains_key(key@) && contents(*v) == m[key@],
                None => !m.contains_key(key@),
            },
            _ => found is None,
        },
{
    value.get(key)
}

/// What the members of a list hold.
pub open spec fn members(list: Seq<(String, Value)>) -> Seq<(Seq<char>, Json)> {
    list.map_values(|member: (String, Value)| (member.0@, contents(member.1)))
}

/// Whether a list names the members of an object, each once, in the order of
/// their names.
pub open spec fn enumerates(list: Seq<(Seq<char>, Json)>, object: Map<Seq<char>, Json>) -> bool {
    &&& forall|i: int, j: int|
        0 <= i < j < list.len() ==> before((#[trigger] list[i]).0, (#[trigger] list[j]).0)
    &&& forall|i: int|
        0 <= i < list.len() ==> object.contains_key((#[trigger] list[i]).0)
            && object[list[i].0] == list[i].1
    &&& forall|key: Seq<char>| #[trigger]
        object.contains_key(key) ==> exists|i: int| 0 <= i < list.len() && (#[trigger] list[i]).0 == key
}

/// `serde_json::Value::as_object` and the walk over the map that it gives: the
/// members of an object, in the order of their names, which is how the map keeps
/// them unless `serde_json` is built to preserve another order.
#[verifier::external_body]
pub(crate) fn entries(value: &Value) -> (list: Option<Vec<(String, Value)>>)
    ensures
        match contents(*value) {
            Json::Object(m) => list is Some && enumerates(members(list->0@), m),
            _ => list is None,
        },
{
    value.as_object().map(|map| map.iter().map(|(key, item)| (key.clone(), item.clone())).collect())
}

/// `serde_json::Value::to_string`: it depends on what the value holds and
/// nothing else, and a number is written as its own text.
#[verifier::external_body]
pub(crate) fn render(value: &Value) -> (text: String)
    ensures
        text@ == rendered(contents(*value)),
        contents(*value) matches Json::Number(t) ==> text@ == t,
{
    value.to_string()
}

/// `serde_json::from_str`: it depends on the text and nothing else.
#[verifier::external_body]
pub(crate) fn parse(text: &str) -> (value: Option<Value>)
    ensures
        match value {
            Some(v) => read(text@) == Some(contents(v)),
            None => read(text@) is None,
        },
{
    serde_json::from_str(text).ok()
}

/// The object that members make one after the other: of two with the same name,
/// the later one stays.
pub open spec fn object_of(list: Seq<(Seq<char>, Json)>) -> Map<Seq<char>, Json>
    decreases list.len(),
{
    if list.len() == 0 {
        Map::empty()
    } else {
        object_of(list.drop_last()).insert(list.last().0, list.last().1)
    }
}

/// `serde_json::Map::new` as an object: it has no members.
#[verifier::external_body]
pub(crate) fn empty_object() -> (value: Value)
    ensures
        contents(value) == Json::Object(Map::empty()),
{
    Value::Object(serde_json::Map::new())
}

/// `serde_json::Map::insert` on the map of an object, which
/// `serde_json::Value::as_object_mut` gives: the member of this name is the new
/// one, whether there was one before or not, and the others stay.
#[verifier::external_body]
pub(crate) fn insert_member(object: &mut Value, key: String, item: Value)
    requires
        contents(*old(object)) is Object,
    ensures
        contents(*final(object)) == Json::Object(
            (contents(*old(object))->Object_0).insert(key@, contents(item)),
        ),
{
    let _ = object.as_object_mut().map(|map| map.insert(key, item));
}

/// Members as an object. Of two with the same name, the later one stays.
pub(crate) fn object_value(list: Vec<(String, Value)>) -> (value: Value)
    ensures
        contents(value) == Json::Object(object_of(members(list@))),
{
    let ghost all = members(list@);
    let mut value = empty_object();
    for entry in it: list
        invariant
            it.seq() == list@,
            all == members(list@),
            contents(value) == Json::Object(object_of(all.take(it.index()))),
    {
        let (key, item) = entry;
        proof {
            assert(all.take(it.index() + 1).drop_last() == all.take(it.index()));
            assert(all.take(it.index() + 1).last() == (key@, contents(item)));
        }
        insert_member(&mut value, key, item);
    }
    assert(all.take(list@.len() as int) == all);
    value
}

/// `serde_json::Value::Array`.
#[verifier::external_body]
pub(crate) fn array_value(list: Vec<Value>) -> (value: Value)
    ensures
        contents(value) == Json::Array(list@.map_values(|item: Value| contents(item))),
{
    Value::Array(list)
}

/// `serde_json::Value::String`.
#[verifier::external_body]
pub(crate) fn string_value(held: String) -> (value: Value)
    ensures
        contents(value) == Json::Text(held@),
{
    Value::String(held)
}

/// `serde_json::Value::Bool`.
#[verifier::external_body]
pub(crate) fn bool_value(held: bool) -> (value: Value)
    ensures
        contents(value) == Json::Bool(held),
{
    Value::Bool(held)
}

/// `serde_json::Value::from` for `u64`: the number is written in decimal digits.
#[verifier::external_body]
pub(crate) fn number_value(held: u64) -> (value: Value)
    ensures
        contents(value) == Json::Number(decimal(held as nat)),
{
    Value::from(held)
}

/// The members of an object, in the order of their names.
pub open spec fn in_order(object: Map<Seq<char>, Json>) -> Seq<(Seq<char>, Json)> {
    choose|list: Seq<(Seq<char>, Json)>| enumerates(list, object)
}

/// There is one way to list the members of an object in the order of their names.
pub proof fn lemma_enumeration_is_unique(
    a: Seq<(Seq<char>, Json)>,
    b: Seq<(Seq<char>, Json)>,
    object: Map<Seq<char>, Json>,
)
    requires
        enumerates(a, object),
        enumerates(b, object),
    ensures
        a == b,
{
    lemma_same_start(a, b, object, a.len() as int);
    lemma_same_start(b, a, object, b.len() as int);
    assert(a.len() == b.len());
    assert forall|i: int| 0 <= i < a.len() implies a[i] == b[i] by {
        assert(a[i].0 == b[i].0);
        assert(object.contains_key(a[i].0) && object.contains_key(b[i].0));
    }
}

/// The first names of two such lists are the same.
proof fn lemma_same_start(
    a: Seq<(Seq<char>, Json)>,
    b: Seq<(Seq<char>, Json)>,
    object: Map<Seq<char>, Json>,
    n: int,
)
    requires
        enumerates(a, object),
        enumerates(b, object),
        0 <= n <= a.len(),
    ensures
        n <= b.len(),
        forall|i: int| 0 <= i < n ==> (#[trigger] a[i]).0 == (#[trigger] b[i]).0,
    decreases n,
{
    if n > 0 {
        lemma_same_start(a, b, object, n - 1);
        let key = a[n - 1].0;
        assert(object.contains_key(key));
        let j = choose|j: int| 0 <= j < b.len() && (#[trigger] b[j]).0 == key;
        if j < n - 1 {
            assert(a[j].0 == b[j].0);
            assert(before(a[j].0, a[n - 1].0));
            lemma_before_total(key, key);
        }
        if j > n - 1 {
            // Then `b` has a smaller name in this place, which `a` has too.
            let other = b[n - 1].0;
            assert(before(b[n - 1].0, b[j].0));
            assert(object.contains_key(other));
            let i = choose|i: int| 0 <= i < a.len() && (#[trigger] a[i]).0 == other;
            if i < n - 1 {
                assert(a[i].0 == b[i].0);
                assert(before(b[i].0, b[n - 1].0));
                lemma_before_total(other, other);
            } else {
                if i > n - 1 {
                    assert(before(a[n - 1].0, a[i].0));
                }
                lemma_before_total(key, other);
                lemma_before_total(key, key);
            }
        }
        assert forall|i: int| 0 <= i < n implies (#[trigger] a[i]).0 == (#[trigger] b[i]).0 by {
            if i == n - 1 {
                assert(a[n - 1].0 == b[n - 1].0);
            }
        }
    }
}

} // verus!
