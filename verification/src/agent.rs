//! Bundles the agent's JavaScript into the single script that is injected.
//!
//! Every module shares one scope, so load order matters and is encoded in the
//! file names: the generated address table first, then the numbered sources in
//! order.  Two modules declaring the same helper silently overwrite each other.
use vstd::prelude::*;

use crate::js::compact;
use crate::lexeme::compacted;
use crate::number::is_digit;
use crate::text::{before, chars_of, contains, is_before, join, joined, same, text_of, texts};

verus! {

/// One file of the agent.
pub struct Source {
    pub name: String,
    pub text: String,
}

/// What such a file holds.
pub struct SourceView {
    pub name: Seq<char>,
    pub text: Seq<char>,
}

impl View for Source {
    type V = SourceView;

    open spec fn view(&self) -> SourceView {
        SourceView { name: self.name@, text: self.text@ }
    }
}

/// What the files of a list hold.
pub open spec fn views(list: Seq<Source>) -> Seq<SourceView> {
    list.map_values(|source: Source| source@)
}

/// Whether a text ends in `.js`.
pub open spec fn is_script(s: Seq<char>) -> bool {
    s.len() >= 3 && s.skip(s.len() - 3) == seq!['.', 'j', 's']
}

/// Whether a file of this name is a module: `.js` is its extension, and not all
/// of its name.
pub open spec fn is_module(name: Seq<char>) -> bool {
    name.len() > 3 && is_script(name)
}

/// A name without what marks it as a script.
pub open spec fn without_extension(s: Seq<char>) -> Seq<char>
    decreases s.len(),
{
    if is_script(s) {
        without_extension(s.take(s.len() - 3))
    } else {
        s
    }
}

/// A name without the number that it starts with.
pub open spec fn without_number(s: Seq<char>) -> Seq<char>
    decreases s.len(),
{
    if s.len() > 0 && (is_digit(s[0]) || s[0] == '-') {
        without_number(s.drop_first())
    } else {
        s
    }
}

/// What the module in a file is called: `50-health.js` is `health`.
pub open spec fn module_of(name: Seq<char>) -> Seq<char> {
    without_number(without_extension(name))
}

/// Whether a text ends in `.js`, up to `end`.
fn ends_in_js(chars: &Vec<char>, end: usize) -> (yes: bool)
    requires
        end <= chars@.len(),
    ensures
        yes == is_script(chars@.take(end as int)),
{
    let ghost s = chars@.take(end as int);
    if end < 3 {
        return false;
    }
    proof {
        let tail = s.skip(s.len() - 3);
        assert(tail.len() == 3);
        assert(tail[0] == chars@[end - 3] && tail[1] == chars@[end - 2] && tail[2] == chars@[end
            - 1]);
        assert(tail == seq![tail[0], tail[1], tail[2]]);
        let js = seq!['.', 'j', 's'];
        assert(tail == js ==> tail[0] == js[0] && tail[1] == js[1] && tail[2] == js[2]);
    }
    chars[end - 3] == '.' && chars[end - 2] == 'j' && chars[end - 1] == 's'
}

/// What the module in a file is called: the file name without its extension and
/// its ordering prefix. This is the name that modules are skipped and picked by.
pub fn module(name: &str) -> (module: String)
    ensures
        module@ == module_of(name@),
{
    let chars = chars_of(name);
    let ghost s = chars@;
    let mut end: usize = chars.len();
    assert(s.take(end as int) == s);
    while ends_in_js(&chars, end)
        invariant
            s == chars@,
            end <= s.len(),
            without_extension(s.take(end as int)) == without_extension(s),
        ensures
            end <= s.len(),
            s.take(end as int) == without_extension(s),
        decreases end,
    {
        assert(s.take(end as int).take(end - 3) == s.take(end - 3));
        end = end - 3;
    }
    let ghost stem = s.take(end as int);
    let mut from: usize = 0;
    assert(stem.skip(0) == stem);
    while from < end && ('0' <= chars[from] && chars[from] <= '9' || chars[from] == '-')
        invariant
            s == chars@,
            from <= end <= s.len(),
            stem == s.take(end as int),
            without_number(stem.skip(from as int)) == without_number(stem),
        decreases end - from,
    {
        assert(stem.skip(from as int).drop_first() == stem.skip(from + 1));
        from = from + 1;
    }
    assert(stem.skip(from as int) == s.subrange(from as int, end as int));
    text_of(&chars, from, end)
}

/// Whether a file of this name is a module.
pub fn is_source(name: &str) -> (yes: bool)
    ensures
        yes == is_module(name@),
{
    let chars = chars_of(name);
    assert(chars@.take(chars@.len() as int) == chars@);
    chars.len() > 3 && ends_in_js(&chars, chars.len())
}

/// Whether everything else depends on a module. `names` installs no hooks, but
/// others read through it.
pub open spec fn is_required(module: Seq<char>) -> bool {
    module == "core"@ || module == "bus"@ || module == "names"@
}

/// Whether a module is loaded: `skip` leaves modules out, `only`, if it names
/// any, loads nothing but those, and the required ones are always loaded.
pub open spec fn is_wanted(
    module: Seq<char>,
    skip: Seq<Seq<char>>,
    only: Seq<Seq<char>>,
) -> bool {
    is_required(module) || if only.len() == 0 {
        !skip.contains(module)
    } else {
        only.contains(module)
    }
}

/// Whether a module is loaded.
pub fn wanted(module: &str, skip: &Vec<String>, only: &Vec<String>) -> (yes: bool)
    ensures
        yes == is_wanted(module@, texts(skip@), texts(only@)),
{
    if same(module, "core") || same(module, "bus") || same(module, "names") {
        true
    } else if only.len() == 0 {
        !contains(skip, module)
    } else {
        contains(only, module)
    }
}

/// A list in the order of the names, with one more file in its place.
pub open spec fn placed(list: Seq<SourceView>, source: SourceView) -> Seq<SourceView>
    decreases list.len(),
{
    if list.len() > 0 && before(source.name, list.last().name) {
        placed(list.drop_last(), source).push(list.last())
    } else {
        list.push(source)
    }
}

/// The modules among files, in load order, which is the order of their names.
pub open spec fn in_load_order(files: Seq<SourceView>) -> Seq<SourceView>
    decreases files.len(),
{
    if files.len() == 0 {
        seq![]
    } else {
        let rest = in_load_order(files.drop_last());
        if is_module(files.last().name) {
            placed(rest, files.last())
        } else {
            rest
        }
    }
}

/// Placing a file leaves what comes after it behind it.
proof fn lemma_placed(list: Seq<SourceView>, source: SourceView, at: int)
    requires
        0 <= at <= list.len(),
        forall|i: int| at <= i < list.len() ==> before(source.name, (#[trigger] list[i]).name),
        at > 0 ==> !before(source.name, list[at - 1].name),
    ensures
        placed(list, source) == list.insert(at, source),
    decreases list.len(),
{
    if at < list.len() {
        let fewer = list.drop_last();
        assert(before(source.name, list[list.len() - 1].name));
        assert forall|i: int| at <= i < fewer.len() implies before(
            source.name,
            (#[trigger] fewer[i]).name,
        ) by {
            assert(before(source.name, list[i].name));
        }
        lemma_placed(fewer, source, at);
        assert(fewer.insert(at, source).push(list.last()) == list.insert(at, source));
    } else {
        assert(list.insert(at, source) == list.push(source));
    }
}

/// The modules among files, in load order.
pub fn load_order(files: Vec<Source>) -> (list: Vec<Source>)
    ensures
        views(list@) == in_load_order(views(files@)),
{
    let ghost all = views(files@);
    let mut list: Vec<Source> = Vec::new();
    for file in it: files
        invariant
            it.seq() == files@,
            all == views(files@),
            views(list@) == in_load_order(all.take(it.index())),
    {
        let ghost before_it = all.take(it.index());
        let ghost done = views(list@);
        proof {
            assert(all.take(it.index() + 1).drop_last() == before_it);
            assert(all.take(it.index() + 1).last() == file@);
        }
        if is_source(&file.name) {
            let mut at: usize = list.len();
            while at > 0 && is_before(&file.name, &list[at - 1].name)
                invariant
                    at <= list.len(),
                    forall|i: int|
                        at <= i < list@.len() ==> before(
                            file.name@,
                            (#[trigger] views(list@)[i]).name,
                        ),
                decreases at,
            {
                at = at - 1;
            }
            proof {
                lemma_placed(done, file@, at as int);
            }
            list.insert(at, file);
            assert(views(list@) == done.insert(at as int, file@));
        }
    }
    assert(all.take(files@.len() as int) == all);
    list
}

/// A name in quotes.
pub open spec fn quoted(name: Seq<char>) -> Seq<char> {
    "\""@ + name + "\""@
}

/// What the script starts with: the address table, the sites that the agent must
/// not attach to, and whether it logs every hook as it fires.
pub open spec fn preamble(
    generated: Seq<char>,
    no_hook: Seq<Seq<char>>,
    trace: bool,
) -> Seq<char> {
    generated + "\nvar NO_HOOK = ["@ + joined(
        no_hook.map_values(|name: Seq<char>| quoted(name)),
        ", "@,
    ) + "];\n"@ + "var HOOK_TRACE = "@ + (if trace {
        "true"@
    } else {
        "false"@
    }) + ";\n"@
}

/// A module as it stands in the script, under its file name.
pub open spec fn section(source: SourceView) -> Seq<char> {
    "\n// ---- "@ + source.name + " ----\n"@ + source.text
}

/// The modules that are loaded, one after the other.
pub open spec fn sections(
    list: Seq<SourceView>,
    skip: Seq<Seq<char>>,
    only: Seq<Seq<char>>,
) -> Seq<char>
    decreases list.len(),
{
    if list.len() == 0 {
        seq![]
    } else {
        let done = sections(list.drop_last(), skip, only);
        if is_wanted(module_of(list.last().name), skip, only) {
            done + section(list.last())
        } else {
            done
        }
    }
}

/// The modules that are not loaded.
pub open spec fn left_out(
    list: Seq<SourceView>,
    skip: Seq<Seq<char>>,
    only: Seq<Seq<char>>,
) -> Seq<Seq<char>>
    decreases list.len(),
{
    if list.len() == 0 {
        seq![]
    } else {
        let done = left_out(list.drop_last(), skip, only);
        let module = module_of(list.last().name);
        if is_wanted(module, skip, only) {
            done
        } else {
            done.push(module)
        }
    }
}

/// What the script ends with. Without questions the hooks are installed and the
/// game thread never waits for a verdict.
pub open spec fn ending(ask: bool) -> Seq<char> {
    if ask {
        seq![]
    } else {
        "\n// --no-ask\naskEnabled = false;\n"@
    }
}

/// The script that is injected.
pub open spec fn bundled(
    generated: Seq<char>,
    files: Seq<SourceView>,
    skip: Seq<Seq<char>>,
    only: Seq<Seq<char>>,
    ask: bool,
    no_hook: Seq<Seq<char>>,
    trace: bool,
) -> Seq<char> {
    preamble(generated, no_hook, trace) + sections(in_load_order(files), skip, only) + ending(ask)
}

/// The script that is injected, and the modules that are not in it.
pub struct Bundle {
    pub script: String,
    pub skipped: Vec<String>,
}

fn declared(no_hook: &Vec<String>) -> (names: Vec<String>)
    ensures
        texts(names@) == texts(no_hook@).map_values(|name: Seq<char>| quoted(name)),
{
    let ghost all = texts(no_hook@).map_values(|name: Seq<char>| quoted(name));
    let mut names: Vec<String> = Vec::new();
    for i in 0..no_hook.len()
        invariant
            all == texts(no_hook@).map_values(|name: Seq<char>| quoted(name)),
            texts(names@) == all.take(i as int),
    {
        let ghost done = texts(names@);
        let mut name = "\"".to_owned();
        name.append(&no_hook[i]);
        name.append("\"");
        names.push(name);
        assert(texts(names@) == done.push(name@));
        assert(all.take(i + 1) == all.take(i as int).push(all[i as int]));
    }
    assert(all.take(no_hook@.len() as int) == all);
    names
}

/// Bundles the agent: `generated` is the address table, `files` are the files of
/// the agent's folder, in any order. Modules are named without the number prefix
/// ("gold", "position").  `skip` leaves those out, `only` loads nothing but
/// those.  `core`, `bus` and `names` always load, since everything else depends
/// on them. The agent leaves the sites in `no_hook` alone.
pub fn bundle(
    generated: &str,
    files: Vec<Source>,
    skip: &Vec<String>,
    only: &Vec<String>,
    ask: bool,
    no_hook: &Vec<String>,
    trace: bool,
) -> (bundle: Bundle)
    ensures
        bundle.script@ == bundled(
            generated@,
            views(files@),
            texts(skip@),
            texts(only@),
            ask,
            texts(no_hook@),
            trace,
        ),
        texts(bundle.skipped@) == left_out(
            in_load_order(views(files@)),
            texts(skip@),
            texts(only@),
        ),
{
    let mut script = generated.to_owned();
    // Individual sites the agent must not attach to, read by core's hook().
    script.append("\nvar NO_HOOK = [");
    script.append(&join(&declared(no_hook), ", "));
    script.append("];\n");
    script.append("var HOOK_TRACE = ");
    script.append(
        if trace {
            "true"
        } else {
            "false"
        },
    );
    script.append(";\n");
    let ghost start = preamble(generated@, texts(no_hook@), trace);
    assert(script@ == start);

    let mut skipped: Vec<String> = Vec::new();
    let list = load_order(files);
    let ghost all = views(list@);
    for i in 0..list.len()
        invariant
            all == views(list@),
            script@ == start + sections(all.take(i as int), texts(skip@), texts(only@)),
            texts(skipped@) == left_out(all.take(i as int), texts(skip@), texts(only@)),
    {
        assert(all.take(i + 1).drop_last() == all.take(i as int));
        assert(all.take(i + 1).last() == list@[i as int]@);
        let name = module(&list[i].name);
        if wanted(&name, skip, only) {
            let ghost done = script@;
            script.append("\n// ---- ");
            script.append(&list[i].name);
            script.append(" ----\n");
            script.append(&list[i].text);
            assert(script@ == done + section(list@[i as int]@));
        } else {
            let ghost done = texts(skipped@);
            skipped.push(name);
            assert(texts(skipped@) == done.push(name@));
        }
    }
    assert(all.take(list@.len() as int) == all);
    if !ask {
        script.append("\n// --no-ask\naskEnabled = false;\n");
    }
    Bundle { script, skipped }
}

/// The modules of the agent with comments and layout taken out.
pub open spec fn minified(list: Seq<SourceView>) -> Seq<SourceView> {
    list.map_values(
        |source: SourceView| SourceView { name: source.name, text: compacted(source.text) },
    )
}

/// Takes comments and layout out of files of the agent.
pub fn minify(files: &Vec<Source>) -> (list: Vec<Source>)
    ensures
        views(list@) == minified(views(files@)),
{
    let ghost all = minified(views(files@));
    let mut list: Vec<Source> = Vec::new();
    for i in 0..files.len()
        invariant
            all == minified(views(files@)),
            views(list@) == all.take(i as int),
    {
        let ghost done = views(list@);
        let source = Source { name: files[i].name.clone(), text: compact(&files[i].text) };
        list.push(source);
        assert(views(list@) == done.push(source@));
        assert(all.take(i + 1) == all.take(i as int).push(all[i as int]));
    }
    assert(all.take(files@.len() as int) == all);
    list
}

} // verus!
