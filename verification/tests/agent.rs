use protocol::agent::{bundle, is_source, load_order, minify, module, wanted, Source};
use protocol::hooks::manifest_text;

fn source(name: &str, text: &str) -> Source {
    Source { name: name.to_string(), text: text.to_string() }
}

/// A small agent, not in load order.
fn agent() -> Vec<Source> {
    vec![
        source("60-gold.js", "hook(\"goldEpilogue\", RVA.goldEpilogue, {});\n"),
        source("README.md", "not a module"),
        source("10-core.js", "function hook(name, at, on) {}\n"),
        source("50-health.js", "hook(\"hpDamage\", RVA.hpDamage, {});\n"),
        source("20-bus.js", "function emit() {}\n"),
        source("30-names.js", "function typeName() {}\n"),
    ]
}

fn none() -> Vec<String> {
    Vec::new()
}

fn list(names: &[&str]) -> Vec<String> {
    names.iter().map(|name| name.to_string()).collect()
}

#[test]
fn disabled_sites_reach_the_agent() {
    let bundle = bundle("", agent(), &none(), &none(), true, &list(&["goldEpilogue"]), false).script;
    assert!(
        bundle.contains("var NO_HOOK = [\"goldEpilogue\"];"),
        "the agent must be told which sites to leave alone"
    );
    assert!(
        bundle.find("var NO_HOOK").unwrap() < bundle.find("function hook(").unwrap(),
        "NO_HOOK has to be declared before core reads it"
    );
}

#[test]
fn only_keeps_the_runtime_modules() {
    let bundle = bundle("", agent(), &none(), &list(&["gold"]), true, &none(), false).script;
    assert!(bundle.contains("60-gold.js"));
    assert!(bundle.contains("10-core.js"), "core is not optional");
    assert!(!bundle.contains("50-health.js"));
}

#[test]
fn a_bundle_is_put_together_in_load_order() {
    let files = vec![source("2-b.js", "B\n"), source("1-a.js", "A\n")];
    let whole = bundle("var RVA = {};", files, &none(), &none(), false, &list(&["x", "y"]), true);
    assert_eq!(
        whole.script,
        "var RVA = {};\nvar NO_HOOK = [\"x\", \"y\"];\nvar HOOK_TRACE = true;\n\
         \n// ---- 1-a.js ----\nA\n\n// ---- 2-b.js ----\nB\n\
         \n// --no-ask\naskEnabled = false;\n"
    );
    assert!(whole.skipped.is_empty());
}

#[test]
fn an_empty_agent_is_only_the_preamble() {
    let whole = bundle("T", Vec::new(), &none(), &none(), true, &none(), false);
    assert_eq!(whole.script, "T\nvar NO_HOOK = [];\nvar HOOK_TRACE = false;\n");
}

#[test]
fn skipped_modules_are_left_out_and_named() {
    let whole = bundle("", agent(), &list(&["gold", "core", "absent"]), &none(), true, &none(), false);
    assert!(!whole.script.contains("60-gold.js"));
    assert!(whole.script.contains("10-core.js"), "core always loads");
    assert!(whole.script.contains("50-health.js"));
    assert_eq!(whole.skipped, vec!["gold"]);
}

#[test]
fn what_is_not_wanted_leaves_no_trace() {
    let all = bundle("", agent(), &list(&["gold", "health"]), &none(), true, &none(), false).script;
    let fewer: Vec<Source> = agent()
        .into_iter()
        .filter(|file| !file.name.contains("gold") && !file.name.contains("health"))
        .collect();
    assert_eq!(all, bundle("", fewer, &none(), &none(), true, &none(), false).script);
}

#[test]
fn picking_beats_skipping() {
    assert!(wanted("gold", &list(&["gold"]), &list(&["gold"])));
    assert!(!wanted("health", &none(), &list(&["gold"])));
    assert!(wanted("health", &none(), &none()));
    for required in ["core", "bus", "names"] {
        assert!(wanted(required, &list(&[required]), &list(&["gold"])));
    }
}

#[test]
fn a_module_is_named_without_its_number() {
    assert_eq!(module("50-health.js"), "health");
    assert_eq!(module("health.js"), "health");
    assert_eq!(module("7--x.js.js"), "x");
    assert_eq!(module("core"), "core");
    assert_eq!(module("10-.js"), "");
    assert_eq!(module("a-1.js"), "a-1");
}

#[test]
fn only_scripts_are_modules() {
    assert!(is_source("10-core.js"));
    assert!(is_source("..js"));
    assert!(!is_source(".js"));
    assert!(!is_source("js"));
    assert!(!is_source("core.json"));
    assert!(!is_source("core.JS"));
}

#[test]
fn the_load_order_is_the_order_of_the_names() {
    let names: Vec<String> = load_order(agent()).into_iter().map(|file| file.name).collect();
    assert_eq!(
        names,
        vec!["10-core.js", "20-bus.js", "30-names.js", "50-health.js", "60-gold.js"]
    );
}

#[test]
fn minified_modules_keep_their_names() {
    let files = vec![source("1-a.js", "// note\n  var a = 1; // one\n")];
    let small = minify(&files);
    assert_eq!(small[0].name, "1-a.js");
    assert_eq!(small[0].text, "var a = 1;\n");
}

#[test]
fn the_manifest_lists_the_modules_that_hook() {
    assert_eq!(
        manifest_text(agent()),
        "[{\"hooks\":[\"hpDamage\"],\"module\":\"health\"},\
          {\"hooks\":[\"goldEpilogue\"],\"module\":\"gold\"}]"
    );
    assert_eq!(manifest_text(Vec::new()), "[]");
}
