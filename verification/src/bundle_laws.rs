//! What stands in the bundled script and in the manifest of hooks, said of the
//! files that they are made of.
use vstd::prelude::*;

use crate::agent::{
    bundled, ending, in_load_order, is_module, is_script, is_wanted, left_out, minified, module_of,
    placed, preamble, section, sections, without_extension, without_number, SourceView,
};
use crate::agent_laws::{
    ascending, law_load_order, law_unwanted_modules_leave_no_trace, lemma_section_stands, modules,
    picked,
};
use crate::hooks::{entry_of, hooked_in, manifest_of, name_array, HookedView};
use crate::js::sites_of;
use crate::json::{object_of, Json};
use crate::lexeme::compacted;
use crate::text::{before, joined, lemma_before_total, lemma_before_transitive};

verus! {

/// The extension of a module's file.
pub open spec fn js() -> Seq<char> {
    seq!['.', 'j', 's']
}

/// A digit or a dash, of which the number before a module's name is made.
pub open spec fn is_ordering(c: char) -> bool {
    '0' <= c && c <= '9' || c == '-'
}

/// Whether a name ends in `.js`.
pub open spec fn ends_in_js(s: Seq<char>) -> bool {
    s.len() >= 3 && s[s.len() - 3] == '.' && s[s.len() - 2] == 'j' && s[s.len() - 1] == 's'
}

/// Whether a file has the name of this module: `number` before it, and the
/// extension behind it.
pub open spec fn is_file_of(name: Seq<char>, number: Seq<char>, module: Seq<char>) -> bool {
    &&& name == number + module + js()
    &&& number.len() + module.len() > 0
    &&& forall|i: int| 0 <= i < number.len() ==> is_ordering(#[trigger] number[i])
    &&& module.len() > 0 ==> !is_ordering(module[0])
    &&& !ends_in_js(module)
    &&& !ends_in_js(number + module)
}

/// Whether everything else depends on a module.
pub open spec fn is_runtime(module: Seq<char>) -> bool {
    module == "core"@ || module == "bus"@ || module == "names"@
}

proof fn lemma_is_script(s: Seq<char>)
    ensures
        is_script(s) == ends_in_js(s),
{
    if s.len() >= 3 {
        let tail = s.skip(s.len() - 3);
        let end = js();
        assert(tail == seq![s[s.len() - 3], s[s.len() - 2], s[s.len() - 1]]);
        if tail == end {
            assert(tail[0] == end[0] && tail[1] == end[1] && tail[2] == end[2]);
        }
    }
}

proof fn lemma_without_number(number: Seq<char>, module: Seq<char>)
    requires
        forall|i: int| 0 <= i < number.len() ==> is_ordering(#[trigger] number[i]),
        module.len() > 0 ==> !is_ordering(module[0]),
    ensures
        without_number(number + module) == module,
    decreases number.len(),
{
    let all = number + module;
    if number.len() == 0 {
        assert(all == module);
    } else {
        let rest = number.drop_first();
        assert(all[0] == number[0]);
        assert(is_ordering(number[0]));
        assert forall|i: int| 0 <= i < rest.len() implies is_ordering(#[trigger] rest[i]) by {
            assert(is_ordering(number[i + 1]));
        }
        assert(all.drop_first() == rest + module);
        lemma_without_number(rest, module);
    }
}

/// A module is called what its file is called without the extension and the number
/// before it.
pub proof fn law_module_is_named_by_its_file(
    name: Seq<char>,
    number: Seq<char>,
    module: Seq<char>,
)
    requires
        is_file_of(name, number, module),
    ensures
        module_of(name) == module,
        is_module(name),
{
    let stem = number + module;
    assert(name[name.len() - 3] == '.' && name[name.len() - 2] == 'j' && name[name.len() - 1]
        == 's');
    lemma_is_script(name);
    lemma_is_script(stem);
    assert(name.take(name.len() - 3) == stem);
    assert(without_extension(stem) == stem);
    lemma_without_number(number, module);
}

/// A file is a module if its name ends in `.js` and is not only that.
pub proof fn law_modules_end_in_js(name: Seq<char>)
    ensures
        is_module(name) <==> ends_in_js(name) && name.len() > 3,
{
    lemma_is_script(name);
}

/// Further extensions and further digits make no other module.
pub proof fn law_module_name_ignores_repetition(name: Seq<char>, c: char)
    requires
        is_ordering(c),
    ensures
        module_of(name + js()) == module_of(name),
        module_of(seq![c] + name) == module_of(name),
    decreases name.len(),
{
    let more = name + js();
    assert(more[more.len() - 3] == '.' && more[more.len() - 2] == 'j' && more[more.len() - 1]
        == 's');
    lemma_is_script(more);
    assert(more.take(more.len() - 3) == name);
    lemma_number_first(name, c);
    let stem = without_extension(name);
    assert((seq![c] + stem).drop_first() == stem);
}

proof fn lemma_number_first(name: Seq<char>, c: char)
    requires
        is_ordering(c),
    ensures
        without_extension(seq![c] + name) == seq![c] + without_extension(name),
    decreases name.len(),
{
    let all = seq![c] + name;
    lemma_is_script(all);
    lemma_is_script(name);
    if name.len() >= 3 {
        assert(all[all.len() - 3] == name[name.len() - 3]);
        assert(all[all.len() - 2] == name[name.len() - 2]);
        assert(all[all.len() - 1] == name[name.len() - 1]);
        if is_script(name) {
            assert(all.take(all.len() - 3) == seq![c] + name.take(name.len() - 3));
            lemma_number_first(name.take(name.len() - 3), c);
        }
    } else if all.len() >= 3 {
        assert(all[0] == c);
        assert(all.len() == 3);
    }
}

/// Whether a module is loaded, by what `skip` and `only` hold: it is needed by
/// everything, or picked by name, or, where none is picked, not skipped by name.
pub open spec fn is_loaded(
    module: Seq<char>,
    skip: Seq<Seq<char>>,
    only: Seq<Seq<char>>,
) -> bool {
    ||| is_runtime(module)
    ||| exists|i: int| 0 <= i < only.len() && #[trigger] only[i] == module
    ||| only.len() == 0 && forall|i: int| 0 <= i < skip.len() ==> #[trigger] skip[i] != module
}

/// Every name that `only` holds picks its module, wherever it stands there; where
/// there are any, nothing but these and what everything depends on is loaded; and
/// where there are none, every name that `skip` holds leaves its module out.
pub proof fn law_modules_are_picked_by_name(
    module: Seq<char>,
    skip: Seq<Seq<char>>,
    only: Seq<Seq<char>>,
)
    ensures
        is_wanted(module, skip, only) == is_loaded(module, skip, only),
{
    if only.len() == 0 {
        if skip.contains(module) {
            let i = choose|i: int| 0 <= i < skip.len() && skip[i] == module;
            assert(skip[i] == module);
        }
    } else if exists|i: int| 0 <= i < only.len() && #[trigger] only[i] == module {
        let i = choose|i: int| 0 <= i < only.len() && #[trigger] only[i] == module;
        assert(only.contains(module));
    }
}

/// A module as it stands in the script: a comment with the name of its file, and
/// its text.
pub open spec fn as_written(source: SourceView) -> Seq<char> {
    "\n// ---- "@ + source.name + " ----\n"@ + source.text
}

proof fn lemma_file_is_listed(files: Seq<SourceView>, source: SourceView)
    requires
        files.contains(source),
        is_module(source.name),
    ensures
        modules(files).contains(source),
        in_load_order(files).contains(source),
    decreases files.len(),
{
    let fewer = files.drop_last();
    let all = modules(files);
    if files.last() == source {
        assert(all[all.len() - 1] == source);
    } else {
        let i = choose|i: int| 0 <= i < files.len() && files[i] == source;
        assert(fewer[i] == source);
        lemma_file_is_listed(fewer, source);
        let j = choose|j: int| 0 <= j < modules(fewer).len() && modules(fewer)[j] == source;
        assert(all[j] == source);
    }
    law_load_order(files);
    all.to_multiset_ensures();
    in_load_order(files).to_multiset_ensures();
    assert(in_load_order(files).to_multiset().count(source) > 0);
}

/// A module that is loaded stands in the script, with the name of its file and all
/// of its text, and so do two of them in the order of their file names.
pub proof fn law_loaded_modules_stand_in_the_script(
    generated: Seq<char>,
    files: Seq<SourceView>,
    skip: Seq<Seq<char>>,
    only: Seq<Seq<char>>,
    ask: bool,
    no_hook: Seq<Seq<char>>,
    trace: bool,
    source: SourceView,
    number: Seq<char>,
    module: Seq<char>,
)
    requires
        files.contains(source),
        is_file_of(source.name, number, module),
        is_loaded(module, skip, only),
    ensures
        exists|ahead: Seq<char>, rest: Seq<char>|
            bundled(generated, files, skip, only, ask, no_hook, trace) == #[trigger] (ahead
                + as_written(source) + rest),
{
    law_module_is_named_by_its_file(source.name, number, module);
    law_modules_are_picked_by_name(module, skip, only);
    lemma_file_is_listed(files, source);
    let list = in_load_order(files);
    let i = choose|i: int| 0 <= i < list.len() && list[i] == source;
    let behind = lemma_section_stands(list, skip, only, i);
    let rest = behind + ending(ask);
    let ahead = preamble(generated, no_hook, trace) + sections(list.take(i), skip, only);
    assert(section(source) == as_written(source));
    assert(bundled(generated, files, skip, only, ask, no_hook, trace) == ahead + as_written(source)
        + rest);
}

/// Of two modules that are loaded, that with the lower file name comes first.
pub proof fn law_loaded_modules_stand_in_order(
    generated: Seq<char>,
    files: Seq<SourceView>,
    skip: Seq<Seq<char>>,
    only: Seq<Seq<char>>,
    ask: bool,
    no_hook: Seq<Seq<char>>,
    trace: bool,
    a: SourceView,
    b: SourceView,
)
    requires
        files.contains(a),
        files.contains(b),
        before(a.name, b.name),
        is_module(a.name) && is_loaded(module_of(a.name), skip, only),
        is_module(b.name) && is_loaded(module_of(b.name), skip, only),
    ensures
        exists|ahead: Seq<char>, between: Seq<char>, rest: Seq<char>|
            bundled(generated, files, skip, only, ask, no_hook, trace) == #[trigger] (ahead
                + as_written(a) + between + as_written(b) + rest),
{
    law_modules_are_picked_by_name(module_of(a.name), skip, only);
    law_modules_are_picked_by_name(module_of(b.name), skip, only);
    lemma_file_is_listed(files, a);
    lemma_file_is_listed(files, b);
    law_load_order(files);
    let list = in_load_order(files);
    let i = choose|i: int| 0 <= i < list.len() && list[i] == a;
    let j = choose|j: int| 0 <= j < list.len() && list[j] == b;
    lemma_before_total(a.name, b.name);
    if j < i {
        assert(!before(list[i].name, list[j].name));
    }
    if i == j {
        assert(a == b);
        lemma_before_total(a.name, a.name);
    }
    let behind = lemma_section_stands(list, skip, only, j);
    let rest = behind + ending(ask);
    let earlier = list.take(j);
    assert(earlier[i] == list[i]);
    let between = lemma_section_stands(earlier, skip, only, i);
    let ahead = preamble(generated, no_hook, trace) + sections(earlier.take(i), skip, only);
    assert(section(a) == as_written(a) && section(b) == as_written(b));
    assert(bundled(generated, files, skip, only, ask, no_hook, trace) == ahead + as_written(a)
        + between + as_written(b) + rest);
}

proof fn lemma_picked_is_within(
    list: Seq<SourceView>,
    skip: Seq<Seq<char>>,
    only: Seq<Seq<char>>,
)
    ensures
        picked(list, skip, only).len() > 0 ==> exists|i: int|
            0 <= i < list.len() && #[trigger] list[i] == picked(list, skip, only).last(),
    decreases list.len(),
{
    if list.len() > 0 {
        let fewer = list.drop_last();
        lemma_picked_is_within(fewer, skip, only);
        let all = picked(list, skip, only);
        if is_wanted(module_of(list.last().name), skip, only) {
            assert(list[list.len() - 1] == all.last());
        } else if all.len() > 0 {
            let i = choose|i: int|
                0 <= i < fewer.len() && #[trigger] fewer[i] == picked(fewer, skip, only).last();
            assert(list[i] == all.last());
        }
    }
}

proof fn lemma_picked_placed(
    list: Seq<SourceView>,
    source: SourceView,
    skip: Seq<Seq<char>>,
    only: Seq<Seq<char>>,
)
    requires
        ascending(list),
    ensures
        picked(placed(list, source), skip, only) == (if is_wanted(
            module_of(source.name),
            skip,
            only,
        ) {
            placed(picked(list, skip, only), source)
        } else {
            picked(list, skip, only)
        }),
    decreases list.len(),
{
    let kept = picked(list, skip, only);
    let wanted = is_wanted(module_of(source.name), skip, only);
    if list.len() > 0 && before(source.name, list.last().name) {
        let fewer = list.drop_last();
        let last = list.last();
        assert forall|i: int, j: int| 0 <= i < j < fewer.len() implies !before(
            (#[trigger] fewer[j]).name,
            (#[trigger] fewer[i]).name,
        ) by {
            assert(!before(list[j].name, list[i].name));
        }
        lemma_picked_placed(fewer, source, skip, only);
        let shorter = placed(fewer, source);
        assert(placed(list, source).drop_last() == shorter);
        assert(placed(list, source).last() == last);
        if is_wanted(module_of(last.name), skip, only) {
            assert(kept.drop_last() == picked(fewer, skip, only));
            assert(kept.last() == last);
        }
    } else {
        assert(placed(list, source) == list.push(source));
        assert(list.push(source).drop_last() == list);
        if wanted && kept.len() > 0 {
            lemma_picked_is_within(list, skip, only);
            let i = choose|i: int| 0 <= i < list.len() && #[trigger] list[i] == kept.last();
            let last = list[list.len() - 1];
            if i < list.len() - 1 {
                assert(!before(list[list.len() - 1].name, list[i].name));
                lemma_before_total(last.name, list[i].name);
                if before(source.name, list[i].name) && before(list[i].name, last.name) {
                    lemma_before_transitive(source.name, list[i].name, last.name);
                }
            }
        }
    }
}

proof fn lemma_picked_in_load_order(
    files: Seq<SourceView>,
    skip: Seq<Seq<char>>,
    only: Seq<Seq<char>>,
)
    ensures
        picked(in_load_order(files), skip, only) == in_load_order(picked(files, skip, only)),
    decreases files.len(),
{
    if files.len() > 0 {
        let fewer = files.drop_last();
        let last = files.last();
        lemma_picked_in_load_order(fewer, skip, only);
        law_load_order(fewer);
        let kept = picked(files, skip, only);
        if is_wanted(module_of(last.name), skip, only) {
            assert(kept.drop_last() == picked(fewer, skip, only));
            assert(kept.last() == last);
        }
        if is_module(last.name) {
            lemma_picked_placed(in_load_order(fewer), last, skip, only);
        }
    }
}

proof fn lemma_picked_without(
    a: Seq<SourceView>,
    source: SourceView,
    b: Seq<SourceView>,
    skip: Seq<Seq<char>>,
    only: Seq<Seq<char>>,
)
    requires
        !is_wanted(module_of(source.name), skip, only),
    ensures
        picked(a + seq![source] + b, skip, only) == picked(a + b, skip, only),
    decreases b.len(),
{
    let with = a + seq![source] + b;
    if b.len() == 0 {
        assert(with.drop_last() == a);
        assert(with.last() == source);
        assert(a + b == a);
    } else {
        lemma_picked_without(a, source, b.drop_last(), skip, only);
        assert(with.drop_last() == a + seq![source] + b.drop_last());
        assert((a + b).drop_last() == a + b.drop_last());
        assert(with.last() == b.last() && (a + b).last() == b.last());
    }
}

proof fn lemma_order_without(a: Seq<SourceView>, source: SourceView, b: Seq<SourceView>)
    requires
        !is_module(source.name),
    ensures
        in_load_order(a + seq![source] + b) == in_load_order(a + b),
    decreases b.len(),
{
    let with = a + seq![source] + b;
    if b.len() == 0 {
        assert(with.drop_last() == a);
        assert(with.last() == source);
        assert(a + b == a);
    } else {
        lemma_order_without(a, source, b.drop_last());
        assert(with.drop_last() == a + seq![source] + b.drop_last());
        assert((a + b).drop_last() == a + b.drop_last());
        assert(with.last() == b.last() && (a + b).last() == b.last());
    }
}

/// A file changes nothing in the script where it is no module, or one that is not
/// loaded: the script is that of the other files.
pub proof fn law_other_files_change_nothing(
    generated: Seq<char>,
    a: Seq<SourceView>,
    source: SourceView,
    b: Seq<SourceView>,
    skip: Seq<Seq<char>>,
    only: Seq<Seq<char>>,
    ask: bool,
    no_hook: Seq<Seq<char>>,
    trace: bool,
)
    requires
        !ends_in_js(source.name) || source.name.len() == 3 || !is_loaded(
            module_of(source.name),
            skip,
            only,
        ),
    ensures
        bundled(generated, a + seq![source] + b, skip, only, ask, no_hook, trace) == bundled(
            generated,
            a + b,
            skip,
            only,
            ask,
            no_hook,
            trace,
        ),
{
    let with = a + seq![source] + b;
    lemma_is_script(source.name);
    law_modules_are_picked_by_name(module_of(source.name), skip, only);
    if !is_module(source.name) {
        lemma_order_without(a, source, b);
    } else {
        lemma_picked_without(a, source, b, skip, only);
        lemma_picked_in_load_order(with, skip, only);
        lemma_picked_in_load_order(a + b, skip, only);
        law_unwanted_modules_leave_no_trace(in_load_order(with), skip, only);
        law_unwanted_modules_leave_no_trace(in_load_order(a + b), skip, only);
    }
}

/// A file that no other comes behind adds to the script what stands of it there,
/// once, if it is a module that is loaded, and nothing otherwise. To the modules
/// that are left out it adds its own, and to the manifest its entry, in the same
/// way.
pub proof fn law_last_file_is_added_last(
    generated: Seq<char>,
    files: Seq<SourceView>,
    source: SourceView,
    skip: Seq<Seq<char>>,
    only: Seq<Seq<char>>,
    no_hook: Seq<Seq<char>>,
    trace: bool,
)
    requires
        forall|i: int| 0 <= i < files.len() ==> !before(source.name, (#[trigger] files[i]).name),
        ends_in_js(source.name) && source.name.len() > 3,
    ensures
        ({
            let more = files.push(source);
            let module = module_of(source.name);
            let script = bundled(generated, files, skip, only, true, no_hook, trace);
            let out = left_out(in_load_order(files), skip, only);
            let hooks = sites_of(source.text);
            let found = hooked_in(in_load_order(files));
            &&& bundled(generated, more, skip, only, true, no_hook, trace) == (if is_loaded(
                module,
                skip,
                only,
            ) {
                script + as_written(source)
            } else {
                script
            })
            &&& left_out(in_load_order(more), skip, only) == (if is_loaded(module, skip, only) {
                out
            } else {
                out.push(module)
            })
            &&& hooked_in(in_load_order(more)) == (if hooks.len() > 0 {
                found.push(HookedView { module, hooks })
            } else {
                found
            })
        }),
{
    let more = files.push(source);
    let list = in_load_order(files);
    lemma_is_script(source.name);
    law_modules_are_picked_by_name(module_of(source.name), skip, only);
    assert(more.drop_last() == files);
    assert(more.last() == source);
    if list.len() > 0 {
        assert(list.contains(list[list.len() - 1]));
        lemma_listed_is_file(files, list[list.len() - 1]);
        let i = choose|i: int| 0 <= i < files.len() && files[i] == list[list.len() - 1];
        assert(!before(source.name, files[i].name));
    }
    assert(in_load_order(more) == list.push(source));
    assert(list.push(source).drop_last() == list);
    assert(section(source) == as_written(source));
    let start = preamble(generated, no_hook, trace);
    let none = Seq::<char>::empty();
    assert(start + sections(list, skip, only) + none == start + sections(list, skip, only));
    assert(start + (sections(list, skip, only) + section(source)) + none == start + sections(
        list,
        skip,
        only,
    ) + section(source));
}

/// The names of sites as they are declared: in quotes, with commas between them.
pub open spec fn site_list(names: Seq<Seq<char>>) -> Seq<char>
    decreases names.len(),
{
    if names.len() == 0 {
        seq![]
    } else if names.len() == 1 {
        seq!['"'] + names[0] + seq!['"']
    } else {
        site_list(names.drop_last()) + seq![',', ' ', '"'] + names.last() + seq!['"']
    }
}

proof fn lemma_site_list(names: Seq<Seq<char>>)
    ensures
        joined(names.map_values(|name: Seq<char>| crate::agent::quoted(name)), ", "@) == site_list(
            names,
        ),
    decreases names.len(),
{
    reveal_strlit("\"");
    reveal_strlit(", ");
    assert("\""@ == seq!['"']);
    assert(", "@ == seq![',', ' ']);
    let all = names.map_values(|name: Seq<char>| crate::agent::quoted(name));
    if names.len() > 1 {
        let fewer = names.drop_last();
        lemma_site_list(fewer);
        assert(all.drop_last() == fewer.map_values(|name: Seq<char>| crate::agent::quoted(name)));
        assert(site_list(fewer) + ", "@ + ("\""@ + names.last() + "\""@) == site_list(fewer) + seq![
            ',',
            ' ',
            '"',
        ] + names.last() + seq!['"']);
    } else if names.len() == 1 {
        assert(all[0] == "\""@ + names[0] + "\""@);
    }
}

/// The script starts with the address table, all the sites to leave alone, and
/// whether hooks are traced; and without questions it ends with switching them
/// off.
pub proof fn law_script_starts_and_ends(
    generated: Seq<char>,
    files: Seq<SourceView>,
    skip: Seq<Seq<char>>,
    only: Seq<Seq<char>>,
    no_hook: Seq<Seq<char>>,
    trace: bool,
)
    ensures
        ({
            let start = generated + "\nvar NO_HOOK = ["@ + site_list(no_hook)
                + "];\nvar HOOK_TRACE = "@ + (if trace {
                "true"@
            } else {
                "false"@
            }) + ";\n"@;
            let asking = bundled(generated, files, skip, only, true, no_hook, trace);
            &&& asking.len() >= start.len()
            &&& asking.take(start.len() as int) == start
            &&& files.len() == 0 ==> asking == start
            &&& bundled(generated, files, skip, only, false, no_hook, trace) == asking
                + "\n// --no-ask\naskEnabled = false;\n"@
        }),
{
    lemma_site_list(no_hook);
    reveal_strlit("];\n");
    reveal_strlit("var HOOK_TRACE = ");
    reveal_strlit("];\nvar HOOK_TRACE = ");
    assert("];\n"@ + "var HOOK_TRACE = "@ == "];\nvar HOOK_TRACE = "@);
    let word = if trace {
        "true"@
    } else {
        "false"@
    };
    let start = generated + "\nvar NO_HOOK = ["@ + site_list(no_hook) + "];\nvar HOOK_TRACE = "@
        + word + ";\n"@;
    assert(preamble(generated, no_hook, trace) == start);
    let asking = bundled(generated, files, skip, only, true, no_hook, trace);
    assert(asking.take(start.len() as int) == start);
    if files.len() == 0 {
        assert(asking == start);
    }
    assert(bundled(generated, files, skip, only, false, no_hook, trace) == asking
        + "\n// --no-ask\naskEnabled = false;\n"@);
}

/// The modules that are named as left out are those among the files that are not
/// loaded, and no others.
pub proof fn law_left_out_modules_are_named(
    files: Seq<SourceView>,
    skip: Seq<Seq<char>>,
    only: Seq<Seq<char>>,
    module: Seq<char>,
)
    ensures
        left_out(in_load_order(files), skip, only).contains(module) <==> !is_loaded(
            module,
            skip,
            only,
        ) && exists|i: int|
            0 <= i < files.len() && is_module((#[trigger] files[i]).name) && module_of(
                files[i].name,
            ) == module,
{
    let list = in_load_order(files);
    law_modules_are_picked_by_name(module, skip, only);
    lemma_left_out(list, skip, only, module);
    if exists|i: int| 0 <= i < list.len() && module_of((#[trigger] list[i]).name) == module {
        let i = choose|i: int| 0 <= i < list.len() && module_of((#[trigger] list[i]).name) == module;
        lemma_listed_is_file(files, list[i]);
        let j = choose|j: int| 0 <= j < files.len() && files[j] == list[i];
        assert(is_module(files[j].name) && module_of(files[j].name) == module);
    }
    if exists|i: int|
        0 <= i < files.len() && is_module((#[trigger] files[i]).name) && module_of(files[i].name)
            == module {
        let i = choose|i: int|
            0 <= i < files.len() && is_module((#[trigger] files[i]).name) && module_of(
                files[i].name,
            ) == module;
        assert(files.contains(files[i]));
        lemma_file_is_listed(files, files[i]);
        let j = choose|j: int| 0 <= j < list.len() && list[j] == files[i];
        assert(module_of(list[j].name) == module);
    }
}

proof fn lemma_left_out(
    list: Seq<SourceView>,
    skip: Seq<Seq<char>>,
    only: Seq<Seq<char>>,
    module: Seq<char>,
)
    ensures
        left_out(list, skip, only).contains(module) <==> !is_wanted(module, skip, only) && exists|
            i: int,
        |
            0 <= i < list.len() && module_of((#[trigger] list[i]).name) == module,
    decreases list.len(),
{
    if list.len() > 0 {
        let fewer = list.drop_last();
        let last = list[list.len() - 1];
        let done = left_out(fewer, skip, only);
        let all = left_out(list, skip, only);
        lemma_left_out(fewer, skip, only, module);
        if all.contains(module) {
            if done.contains(module) {
                let i = choose|i: int|
                    0 <= i < fewer.len() && module_of((#[trigger] fewer[i]).name) == module;
                assert(module_of(list[i].name) == module);
            } else {
                let i = choose|i: int| 0 <= i < all.len() && all[i] == module;
                if i < done.len() {
                    assert(done[i] == module);
                }
                assert(module_of(last.name) == module);
            }
        }
        if !is_wanted(module, skip, only) && exists|i: int|
            0 <= i < list.len() && module_of((#[trigger] list[i]).name) == module {
            let i = choose|i: int|
                0 <= i < list.len() && module_of((#[trigger] list[i]).name) == module;
            if i < fewer.len() {
                assert(module_of(fewer[i].name) == module);
                let j = choose|j: int| 0 <= j < done.len() && done[j] == module;
                assert(all[j] == module);
            } else {
                assert(all[all.len() - 1] == module);
            }
        }
    }
}

proof fn lemma_listed_is_file(files: Seq<SourceView>, source: SourceView)
    requires
        in_load_order(files).contains(source),
    ensures
        files.contains(source),
        is_module(source.name),
    decreases files.len(),
{
    law_load_order(files);
    let all = modules(files);
    all.to_multiset_ensures();
    in_load_order(files).to_multiset_ensures();
    assert(all.to_multiset().count(source) > 0);
    assert(all.contains(source));
    lemma_module_is_file(files, source);
}

proof fn lemma_module_is_file(files: Seq<SourceView>, source: SourceView)
    requires
        modules(files).contains(source),
    ensures
        files.contains(source),
        is_module(source.name),
    decreases files.len(),
{
    let fewer = files.drop_last();
    let all = modules(files);
    let i = choose|i: int| 0 <= i < all.len() && all[i] == source;
    if is_module(files.last().name) && i == all.len() - 1 {
        assert(files[files.len() - 1] == source);
    } else {
        assert(modules(fewer)[i] == source);
        lemma_module_is_file(fewer, source);
        let j = choose|j: int| 0 <= j < fewer.len() && fewer[j] == source;
        assert(files[j] == source);
    }
}

/// Minifying keeps every file under its name and in its place.
pub proof fn law_minified_files_keep_their_places(files: Seq<SourceView>, i: int)
    requires
        0 <= i < files.len(),
    ensures
        minified(files).len() == files.len(),
        minified(files)[i].name == files[i].name,
        minified(files)[i].text == compacted(files[i].text),
{
}

/// The manifest has an entry for every module that hooks anywhere, with all of its
/// sites, and no other entry.
pub proof fn law_every_hook_is_in_the_manifest(files: Seq<SourceView>, entry: HookedView)
    ensures
        hooked_in(in_load_order(files)).contains(entry) <==> entry.hooks.len() > 0 && exists|i: int|
            {
                &&& 0 <= i < files.len()
                &&& is_module((#[trigger] files[i]).name)
                &&& entry.module == module_of(files[i].name)
                &&& entry.hooks == sites_of(files[i].text)
            },
{
    let list = in_load_order(files);
    lemma_hooked(list, entry);
    if hooked_in(list).contains(entry) {
        let i = choose|i: int| 0 <= i < list.len() && is_entry_of(entry, #[trigger] list[i]);
        lemma_listed_is_file(files, list[i]);
        let j = choose|j: int| 0 <= j < files.len() && files[j] == list[i];
        assert(is_entry_of(entry, files[j]) && is_module(files[j].name));
    }
    if entry.hooks.len() > 0 && exists|i: int|
        0 <= i < files.len() && is_module((#[trigger] files[i]).name) && is_entry_of(
            entry,
            files[i],
        ) {
        let i = choose|i: int|
            0 <= i < files.len() && is_module((#[trigger] files[i]).name) && is_entry_of(
                entry,
                files[i],
            );
        assert(files.contains(files[i]));
        lemma_file_is_listed(files, files[i]);
        let j = choose|j: int| 0 <= j < list.len() && list[j] == files[i];
        assert(is_entry_of(entry, list[j]));
    }
}

/// Whether an entry names a module and all of its sites.
pub open spec fn is_entry_of(entry: HookedView, source: SourceView) -> bool {
    entry.module == module_of(source.name) && entry.hooks == sites_of(source.text)
}

proof fn lemma_hooked(list: Seq<SourceView>, entry: HookedView)
    ensures
        hooked_in(list).contains(entry) <==> entry.hooks.len() > 0 && exists|i: int|
            0 <= i < list.len() && is_entry_of(entry, #[trigger] list[i]),
    decreases list.len(),
{
    if list.len() > 0 {
        let fewer = list.drop_last();
        let last = list[list.len() - 1];
        let done = hooked_in(fewer);
        let all = hooked_in(list);
        lemma_hooked(fewer, entry);
        if all.contains(entry) {
            if done.contains(entry) {
                let i = choose|i: int| 0 <= i < fewer.len() && is_entry_of(entry, #[trigger] fewer[i]);
                assert(is_entry_of(entry, list[i]));
            } else {
                let i = choose|i: int| 0 <= i < all.len() && all[i] == entry;
                if i < done.len() {
                    assert(done[i] == entry);
                }
                assert(is_entry_of(entry, last));
            }
        }
        if entry.hooks.len() > 0 && exists|i: int|
            0 <= i < list.len() && is_entry_of(entry, #[trigger] list[i]) {
            let i = choose|i: int| 0 <= i < list.len() && is_entry_of(entry, #[trigger] list[i]);
            if i < fewer.len() {
                assert(is_entry_of(entry, fewer[i]));
                let j = choose|j: int| 0 <= j < done.len() && done[j] == entry;
                assert(all[j] == entry);
            } else {
                assert(all[all.len() - 1] == entry);
            }
        }
    }
}

/// The entries of the manifest come in the order of the file names.
pub proof fn law_manifest_follows_load_order(files: Seq<SourceView>, a: SourceView, b: SourceView)
    requires
        files.contains(a),
        files.contains(b),
        is_module(a.name),
        is_module(b.name),
        before(a.name, b.name),
        sites_of(a.text).len() > 0,
        sites_of(b.text).len() > 0,
    ensures
        exists|i: int, j: int|
            {
                &&& 0 <= i < j < hooked_in(in_load_order(files)).len()
                &&& is_entry_of(#[trigger] hooked_in(in_load_order(files))[i], a)
                &&& is_entry_of(#[trigger] hooked_in(in_load_order(files))[j], b)
            },
{
    let list = in_load_order(files);
    let found = hooked_in(list);
    lemma_file_is_listed(files, a);
    lemma_file_is_listed(files, b);
    law_load_order(files);
    let i = choose|i: int| 0 <= i < list.len() && list[i] == a;
    let j = choose|j: int| 0 <= j < list.len() && list[j] == b;
    lemma_before_total(a.name, b.name);
    lemma_before_total(a.name, a.name);
    if j < i {
        assert(!before(list[i].name, list[j].name));
    }
    lemma_hooked_at(list, i);
    lemma_hooked_at(list, j);
    lemma_hooked_grows(list, i + 1, j);
    let m = hooked_in(list.take(i)).len() as int;
    let n = hooked_in(list.take(j)).len() as int;
    assert(m < n);
    assert(is_entry_of(found[m], a) && is_entry_of(found[n], b));
}

proof fn lemma_hooked_at(list: Seq<SourceView>, i: int)
    requires
        0 <= i < list.len(),
        sites_of(list[i].text).len() > 0,
    ensures
        hooked_in(list.take(i + 1)).len() == hooked_in(list.take(i)).len() + 1,
        hooked_in(list.take(i)).len() < hooked_in(list).len(),
        is_entry_of(hooked_in(list)[hooked_in(list.take(i)).len() as int], list[i]),
{
    let n = hooked_in(list.take(i)).len() as int;
    assert(list.take(i + 1).drop_last() == list.take(i));
    assert(list.take(i + 1).last() == list[i]);
    lemma_hooked_grows(list, i + 1, list.len() as int);
    assert(list.take(list.len() as int) == list);
    assert(hooked_in(list)[n] == hooked_in(list.take(i + 1))[n]);
}

proof fn lemma_hooked_grows(list: Seq<SourceView>, i: int, j: int)
    requires
        0 <= i <= j <= list.len(),
    ensures
        hooked_in(list.take(i)).len() <= hooked_in(list.take(j)).len(),
        hooked_in(list.take(j)).take(hooked_in(list.take(i)).len() as int) == hooked_in(
            list.take(i),
        ),
        forall|k: int|
            0 <= k < hooked_in(list.take(i)).len() ==> hooked_in(list.take(j))[k]
                == #[trigger] hooked_in(list.take(i))[k],
    decreases j - i,
{
    let a = hooked_in(list.take(i));
    if i < j {
        lemma_hooked_grows(list, i, j - 1);
        assert(list.take(j).drop_last() == list.take(j - 1));
        let b = hooked_in(list.take(j - 1));
        let c = hooked_in(list.take(j));
        assert(c.take(b.len() as int) == b);
        assert(c.take(a.len() as int) == b.take(a.len() as int));
    } else {
        assert(a.take(a.len() as int) == a);
    }
    let c = hooked_in(list.take(j));
    assert forall|k: int| 0 <= k < a.len() implies c[k] == #[trigger] a[k] by {
        assert(c.take(a.len() as int)[k] == a[k]);
    }
}

/// The JSON of the manifest: an array with an object for each entry, which holds
/// the name of the module and an array of the names of all of its sites.
pub proof fn law_manifest_json(list: Seq<HookedView>, i: int, k: int)
    requires
        0 <= i < list.len(),
        0 <= k < list[i].hooks.len(),
    ensures
        manifest_of(list) is Array,
        (manifest_of(list)->Array_0).len() == list.len(),
        ({
            let entry = (manifest_of(list)->Array_0)[i];
            &&& entry is Object
            &&& (entry->Object_0).dom() == set!["module"@, "hooks"@]
            &&& (entry->Object_0)["module"@] == Json::Text(list[i].module)
            &&& (entry->Object_0)["hooks"@] is Array
            &&& ((entry->Object_0)["hooks"@]->Array_0).len() == list[i].hooks.len()
            &&& ((entry->Object_0)["hooks"@]->Array_0)[k] == Json::Text(list[i].hooks[k])
        }),
{
    let a = ("module"@, Json::Text(list[i].module));
    let b = ("hooks"@, name_array(list[i].hooks));
    reveal_strlit("module");
    reveal_strlit("hooks");
    assert("module"@.len() != "hooks"@.len());
    assert(seq![a, b].drop_last() == seq![a]);
    assert(seq![a].drop_last() == Seq::<(Seq<char>, Json)>::empty());
    reveal_with_fuel(object_of, 3);
    let held = Map::<Seq<char>, Json>::empty().insert(a.0, a.1).insert(b.0, b.1);
    assert(object_of(seq![a, b]) == held);
    assert((manifest_of(list)->Array_0)[i] == entry_of(list[i]));
    assert(held.dom() == set!["module"@, "hooks"@]);
}

} // verus!
