//! The manifest of the agent's hook sites.
//!
//! It is read off the code the author wrote, before a module is minified, so the
//! names in it are the names in the checkout.
use serde_json::Value;

use vstd::prelude::*;

use crate::agent::{in_load_order, load_order, module, module_of, views, Source, SourceView};
use crate::js::{sites, sites_of};
use crate::json::{
    array_value, contents, members, object_of, object_value, render, rendered, string_value, Json,
};
use crate::text::texts;

verus! {

/// Names as an array of strings.
pub open spec fn name_array(names: Seq<Seq<char>>) -> Json {
    Json::Array(names.map_values(|name: Seq<char>| Json::Text(name)))
}

/// A module and the sites it hooks.
pub struct Hooked {
    pub module: String,
    pub hooks: Vec<String>,
}

/// What such an entry holds.
pub struct HookedView {
    pub module: Seq<char>,
    pub hooks: Seq<Seq<char>>,
}

impl View for Hooked {
    type V = HookedView;

    open spec fn view(&self) -> HookedView {
        HookedView { module: self.module@, hooks: texts(self.hooks@) }
    }
}

/// What the entries of a list hold.
pub open spec fn hooked_views(list: Seq<Hooked>) -> Seq<HookedView> {
    list.map_values(|entry: Hooked| entry@)
}

/// The modules that hook anywhere, with their sites, in the order of the modules.
pub open spec fn hooked_in(list: Seq<SourceView>) -> Seq<HookedView>
    decreases list.len(),
{
    if list.len() == 0 {
        seq![]
    } else {
        let done = hooked_in(list.drop_last());
        let hooks = sites_of(list.last().text);
        if hooks.len() > 0 {
            done.push(HookedView { module: module_of(list.last().name), hooks })
        } else {
            done
        }
    }
}

/// The JSON entry of a module.
pub open spec fn entry_of(entry: HookedView) -> Json {
    Json::Object(
        object_of(
            seq![("module"@, Json::Text(entry.module)), ("hooks"@, name_array(entry.hooks))],
        ),
    )
}

/// The manifest of some modules.
pub open spec fn manifest_of(list: Seq<HookedView>) -> Json {
    Json::Array(list.map_values(|entry: HookedView| entry_of(entry)))
}

/// What the values of a list hold.
pub open spec fn trees(list: Seq<Value>) -> Seq<Json> {
    list.map_values(|item: Value| contents(item))
}

fn names_value(names: &Vec<String>) -> (value: Value)
    ensures
        contents(value) == name_array(texts(names@)),
{
    let ghost all = texts(names@).map_values(|name: Seq<char>| Json::Text(name));
    let mut list: Vec<Value> = Vec::new();
    for i in 0..names.len()
        invariant
            all == texts(names@).map_values(|name: Seq<char>| Json::Text(name)),
            trees(list@) == all.take(i as int),
    {
        let ghost done = trees(list@);
        let name = string_value(names[i].clone());
        list.push(name);
        assert(trees(list@) == done.push(contents(name)));
        assert(all.take(i + 1) == all.take(i as int).push(all[i as int]));
    }
    assert(all.take(names@.len() as int) == all);
    array_value(list)
}

/// The modules among files that hook anywhere, with their sites, in load order.
pub fn hooked(files: Vec<Source>) -> (found: Vec<Hooked>)
    ensures
        hooked_views(found@) == hooked_in(in_load_order(views(files@))),
{
    let list = load_order(files);
    let ghost all = views(list@);
    let mut found: Vec<Hooked> = Vec::new();
    for i in 0..list.len()
        invariant
            all == views(list@),
            hooked_views(found@) == hooked_in(all.take(i as int)),
    {
        assert(all.take(i + 1).drop_last() == all.take(i as int));
        assert(all.take(i + 1).last() == list@[i as int]@);
        let hooks = sites(&list[i].text);
        if hooks.len() > 0 {
            let ghost done = hooked_views(found@);
            let entry = Hooked { module: module(&list[i].name), hooks };
            found.push(entry);
            assert(hooked_views(found@) == done.push(entry@));
        }
    }
    assert(all.take(list@.len() as int) == all);
    found
}

/// The manifest of some modules, as a JSON value.
pub fn manifest(list: &Vec<Hooked>) -> (value: Value)
    ensures
        contents(value) == manifest_of(hooked_views(list@)),
{
    let ghost all = hooked_views(list@).map_values(|entry: HookedView| entry_of(entry));
    let mut entries: Vec<Value> = Vec::new();
    for i in 0..list.len()
        invariant
            all == hooked_views(list@).map_values(|entry: HookedView| entry_of(entry)),
            trees(entries@) == all.take(i as int),
    {
        let ghost done = trees(entries@);
        let mut parts: Vec<(String, Value)> = Vec::new();
        parts.push(("module".to_owned(), string_value(list[i].module.clone())));
        parts.push(("hooks".to_owned(), names_value(&list[i].hooks)));
        assert(members(parts@) == seq![
            ("module"@, Json::Text(list@[i as int].module@)),
            ("hooks"@, name_array(texts(list@[i as int].hooks@))),
        ]);
        let entry = object_value(parts);
        entries.push(entry);
        assert(trees(entries@) == done.push(contents(entry)));
        assert(all.take(i + 1) == all.take(i as int).push(all[i as int]));
    }
    assert(all.take(list@.len() as int) == all);
    array_value(entries)
}

/// The manifest of the modules among files, as JSON text.
pub fn manifest_text(files: Vec<Source>) -> (text: String)
    ensures
        text@ == rendered(manifest_of(hooked_in(in_load_order(views(files@))))),
{
    render(&manifest(&hooked(files)))
}

} // verus!
