//! Laws of the bundled script.
use vstd::prelude::*;

use crate::agent::{
    bundled, ending, in_load_order, is_module, is_required, is_wanted, module_of, placed, preamble,
    section, sections, SourceView,
};
use crate::text::{before, lemma_before_total, lemma_before_transitive};

verus! {

/// Whether no file comes before one that stands earlier in the list.
pub open spec fn ascending(list: Seq<SourceView>) -> bool {
    forall|i: int, j: int|
        0 <= i < j < list.len() ==> !before((#[trigger] list[j]).name, (#[trigger] list[i]).name)
}

proof fn lemma_placed_ascends(list: Seq<SourceView>, source: SourceView)
    requires
        ascending(list),
    ensures
        ascending(placed(list, source)),
        placed(list, source).len() == list.len() + 1,
        placed(list, source).to_multiset() == list.to_multiset().insert(source),
        forall|name: Seq<char>|
            (!before(name, source.name) && (forall|i: int|
                0 <= i < list.len() ==> !before(name, (#[trigger] list[i]).name))) ==> (forall|
                i: int,
            |
                0 <= i < list.len() + 1 ==> !before(name, (#[trigger] placed(list, source)[i]).name)),
    decreases list.len(),
{
    broadcast use vstd::seq_lib::group_to_multiset_ensures;

    let result = placed(list, source);
    if list.len() > 0 && before(source.name, list.last().name) {
        let fewer = list.drop_last();
        let last = list[list.len() - 1];
        let shorter = placed(fewer, source);
        assert forall|i: int, j: int| 0 <= i < j < fewer.len() implies !before(
            (#[trigger] fewer[j]).name,
            (#[trigger] fewer[i]).name,
        ) by {
            assert(!before(list[j].name, list[i].name));
        }
        lemma_placed_ascends(fewer, source);
        assert(list == fewer.push(last));
        lemma_before_total(last.name, source.name);
        assert forall|i: int| 0 <= i < fewer.len() implies !before(
            last.name,
            (#[trigger] fewer[i]).name,
        ) by {
            assert(!before(list[list.len() - 1].name, list[i].name));
        }
        assert(forall|i: int|
            0 <= i < fewer.len() + 1 ==> !before(last.name, (#[trigger] shorter[i]).name));
        assert forall|i: int, j: int| 0 <= i < j < result.len() implies !before(
            (#[trigger] result[j]).name,
            (#[trigger] result[i]).name,
        ) by {
            if j < shorter.len() {
                assert(!before(shorter[j].name, shorter[i].name));
            } else {
                assert(result[j] == last);
                assert(result[i] == shorter[i]);
            }
        }
        assert(result.to_multiset() == list.to_multiset().insert(source));
        assert forall|name: Seq<char>|
            !before(name, source.name) && (forall|i: int|
                0 <= i < list.len() ==> !before(name, (#[trigger] list[i]).name)) implies (forall|
            i: int,
        |
            0 <= i < list.len() + 1 ==> !before(name, (#[trigger] result[i]).name)) by {
            assert forall|i: int| 0 <= i < fewer.len() implies !before(
                name,
                (#[trigger] fewer[i]).name,
            ) by {
                assert(!before(name, list[i].name));
            }
            assert forall|i: int| 0 <= i < list.len() + 1 implies !before(
                name,
                (#[trigger] result[i]).name,
            ) by {
                if i < shorter.len() {
                    assert(!before(name, shorter[i].name));
                } else {
                    assert(!before(name, list[list.len() - 1].name));
                }
            }
        }
    } else {
        assert(result == list.push(source));
        assert forall|i: int, j: int| 0 <= i < j < result.len() implies !before(
            (#[trigger] result[j]).name,
            (#[trigger] result[i]).name,
        ) by {
            if j < list.len() {
                assert(!before(list[j].name, list[i].name));
            } else if i < list.len() - 1 {
                let last = list[list.len() - 1].name;
                assert(!before(last, list[i].name));
                lemma_before_total(last, list[i].name);
                lemma_before_total(source.name, last);
                if before(source.name, list[i].name) {
                    if before(list[i].name, last) {
                        lemma_before_transitive(source.name, list[i].name, last);
                    }
                }
            }
        }
    }
}

/// The modules among files, in the order of the files.
pub open spec fn modules(files: Seq<SourceView>) -> Seq<SourceView>
    decreases files.len(),
{
    if files.len() == 0 {
        seq![]
    } else if is_module(files.last().name) {
        modules(files.drop_last()).push(files.last())
    } else {
        modules(files.drop_last())
    }
}

/// The load order is the order of the file names, whatever order the files come
/// in, and it holds every module as often as the files do.
pub proof fn law_load_order(files: Seq<SourceView>)
    ensures
        ascending(in_load_order(files)),
        in_load_order(files).to_multiset() == modules(files).to_multiset(),
    decreases files.len(),
{
    broadcast use vstd::seq_lib::group_to_multiset_ensures;

    if files.len() > 0 {
        law_load_order(files.drop_last());
        if is_module(files.last().name) {
            lemma_placed_ascends(in_load_order(files.drop_last()), files.last());
        }
    }
}

/// Where a module stands in the script: `ahead` is what comes before it.
pub proof fn lemma_section_stands(
    list: Seq<SourceView>,
    skip: Seq<Seq<char>>,
    only: Seq<Seq<char>>,
    i: int,
) -> (rest: Seq<char>)
    requires
        0 <= i < list.len(),
        is_wanted(module_of(list[i].name), skip, only),
    ensures
        sections(list, skip, only) == sections(list.take(i), skip, only) + section(list[i]) + rest,
    decreases list.len(),
{
    let fewer = list.drop_last();
    if i == list.len() - 1 {
        assert(list.take(i) == fewer);
        let rest = Seq::<char>::empty();
        assert(sections(list, skip, only) == sections(list.take(i), skip, only) + section(list[i])
            + rest);
        rest
    } else {
        let shorter = lemma_section_stands(fewer, skip, only, i);
        assert(fewer.take(i) == list.take(i));
        let last = if is_wanted(module_of(list.last().name), skip, only) {
            section(list.last())
        } else {
            Seq::empty()
        };
        let rest = shorter + last;
        assert(sections(list, skip, only) == sections(fewer, skip, only) + last);
        assert(sections(list, skip, only) == sections(list.take(i), skip, only) + section(list[i])
            + rest);
        rest
    }
}

/// A module that is wanted is in the script, under its file name and with all of
/// its text, and behind the address table, `NO_HOOK` and `HOOK_TRACE`.
pub proof fn law_wanted_modules_load(
    generated: Seq<char>,
    files: Seq<SourceView>,
    skip: Seq<Seq<char>>,
    only: Seq<Seq<char>>,
    ask: bool,
    no_hook: Seq<Seq<char>>,
    trace: bool,
    source: SourceView,
)
    requires
        modules(files).contains(source),
        is_wanted(module_of(source.name), skip, only),
    ensures
        exists|ahead: Seq<char>, rest: Seq<char>|
            bundled(generated, files, skip, only, ask, no_hook, trace) == preamble(
                generated,
                no_hook,
                trace,
            ) + ahead + section(source) + rest,
{
    let list = in_load_order(files);
    law_load_order(files);
    modules(files).to_multiset_ensures();
    list.to_multiset_ensures();
    assert(list.to_multiset().count(source) > 0);
    assert(list.contains(source));
    let i = choose|i: int| 0 <= i < list.len() && list[i] == source;
    let rest = lemma_section_stands(list, skip, only, i);
    let ahead = sections(list.take(i), skip, only);
    assert(bundled(generated, files, skip, only, ask, no_hook, trace) == preamble(
        generated,
        no_hook,
        trace,
    ) + ahead + section(source) + (rest + ending(ask)));
}

/// `core`, `bus` and `names` are in the script whatever is skipped or picked.
pub proof fn law_required_modules_load(
    generated: Seq<char>,
    files: Seq<SourceView>,
    skip: Seq<Seq<char>>,
    only: Seq<Seq<char>>,
    ask: bool,
    no_hook: Seq<Seq<char>>,
    trace: bool,
    source: SourceView,
)
    requires
        modules(files).contains(source),
        is_required(module_of(source.name)),
    ensures
        exists|ahead: Seq<char>, rest: Seq<char>|
            bundled(generated, files, skip, only, ask, no_hook, trace) == preamble(
                generated,
                no_hook,
                trace,
            ) + ahead + section(source) + rest,
{
    law_wanted_modules_load(generated, files, skip, only, ask, no_hook, trace, source);
}

/// Of two modules that are loaded, the one that comes first in the load order
/// comes first in the script.
pub proof fn law_script_follows_load_order(
    generated: Seq<char>,
    files: Seq<SourceView>,
    skip: Seq<Seq<char>>,
    only: Seq<Seq<char>>,
    ask: bool,
    no_hook: Seq<Seq<char>>,
    trace: bool,
    i: int,
    j: int,
)
    requires
        0 <= i < j < in_load_order(files).len(),
        is_wanted(module_of(in_load_order(files)[i].name), skip, only),
        is_wanted(module_of(in_load_order(files)[j].name), skip, only),
    ensures
        exists|ahead: Seq<char>, between: Seq<char>, rest: Seq<char>|
            bundled(generated, files, skip, only, ask, no_hook, trace) == ahead + section(
                in_load_order(files)[i],
            ) + between + section(in_load_order(files)[j]) + rest,
{
    let list = in_load_order(files);
    let rest = lemma_section_stands(list, skip, only, j);
    let earlier = list.take(j);
    assert(earlier[i] == list[i]);
    let between = lemma_section_stands(earlier, skip, only, i);
    let ahead = preamble(generated, no_hook, trace) + sections(earlier.take(i), skip, only);
    assert(bundled(generated, files, skip, only, ask, no_hook, trace) == ahead + section(list[i])
        + between + section(list[j]) + (rest + ending(ask)));
}

/// The files without the modules that are not wanted.
pub open spec fn picked(
    files: Seq<SourceView>,
    skip: Seq<Seq<char>>,
    only: Seq<Seq<char>>,
) -> Seq<SourceView>
    decreases files.len(),
{
    if files.len() == 0 {
        seq![]
    } else {
        let done = picked(files.drop_last(), skip, only);
        if is_wanted(module_of(files.last().name), skip, only) {
            done.push(files.last())
        } else {
            done
        }
    }
}

/// A module that is not wanted leaves no trace in the script: it is the script of
/// the other modules.
pub proof fn law_unwanted_modules_leave_no_trace(
    list: Seq<SourceView>,
    skip: Seq<Seq<char>>,
    only: Seq<Seq<char>>,
)
    ensures
        sections(list, skip, only) == sections(picked(list, skip, only), seq![], seq![]),
    decreases list.len(),
{
    if list.len() > 0 {
        law_unwanted_modules_leave_no_trace(list.drop_last(), skip, only);
        let kept = picked(list, skip, only);
        if is_wanted(module_of(list.last().name), skip, only) {
            assert(kept.drop_last() == picked(list.drop_last(), skip, only));
            assert(kept.last() == list.last());
        }
    }
}

} // verus!
