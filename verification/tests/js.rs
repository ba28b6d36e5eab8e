use protocol::js::{compact, opens_regex, sites, strip_comments};

#[test]
fn comments_go_and_code_stays() {
    let source = "// a note\nvar a = 1;  // trailing\n\n/* block\n   spanning */\nvar b = 2;\n";
    assert_eq!(compact(source), "var a = 1;\nvar b = 2;\n");
}

#[test]
fn a_slash_in_a_string_is_not_a_comment() {
    let source = "var url = \"https://ancaria.dev\"; // real\n";
    assert_eq!(compact(source), "var url = \"https://ancaria.dev\";\n");
}

#[test]
fn a_regex_survives_with_its_slashes() {
    let source = "var shape = /^TYPE_[A-Z0-9_/]+$/; // note\nvar half = 4 / 2;\n";
    assert_eq!(
        compact(source),
        "var shape = /^TYPE_[A-Z0-9_/]+$/;\nvar half = 4 / 2;\n"
    );
}

/// Every statement keeps its own line. Joining them would leave automatic
/// semicolon insertion deciding where one ends, which is a different program.
#[test]
fn lines_are_not_joined() {
    let source = "var a = 1\nvar b = 2\n";
    assert_eq!(compact(source), "var a = 1\nvar b = 2\n");
}

#[test]
fn indentation_goes_but_spacing_between_tokens_stays() {
    let source = "function f() {\n        return 1 + 2;\n}\n";
    assert_eq!(compact(source), "function f() {\nreturn 1 + 2;\n}\n");
}

#[test]
fn sites_are_read_off_the_calls() {
    let source = "hook(\"goldDelta\", RVA.goldDelta, {});\n\
                  attachHp(\"hpDamage\",\n    RVA.hpDamage, {});\n\
                  hook(\"goldDelta\", RVA.goldDelta, {});\n";
    assert_eq!(sites(source), vec!["goldDelta", "hpDamage"]);
}

/// A site named in a comment is not a site.
#[test]
fn sites_ignore_comments() {
    let source = "// hook(\"example\", RVA.example, ...)\nhook(\"real\", RVA.real, {});\n";
    assert_eq!(sites(source), vec!["real"]);
}

/// An address used without a name is not a site either: `at(RVA.x)` is a lookup,
/// not an attach.
#[test]
fn a_bare_address_is_not_a_site() {
    let source = "var fn = new NativeFunction(at(RVA.typeNameFn), \"pointer\");\n";
    assert!(sites(source).is_empty());
}

#[test]
fn a_site_needs_a_call_with_a_name() {
    assert!(sites("(\"a\", RVA.a)").is_empty());
    assert!(sites("f(\"9a\", RVA.a)").is_empty());
    assert!(sites("f(\"a b\", RVA.a)").is_empty());
    assert!(sites("f(\"\", RVA.a)").is_empty());
    assert!(sites("f(name, RVA.a)").is_empty());
    assert_eq!(sites("f ( \"a_1\" , RVA.a)"), Vec::<String>::new());
    assert_eq!(sites("f( \"a_1\" , RVA.a)"), vec!["a_1"]);
}

#[test]
fn stripping_leaves_the_layout() {
    let source = "function f() {\n    return 1;  // one\n\n}\n";
    assert_eq!(strip_comments(source), "function f() {\n    return 1;  \n\n}\n");
}

#[test]
fn compacting_twice_changes_nothing_more() {
    let source = "/* head */\n\n  var a = `x\n  // kept\n`;   // gone\n\n\nvar b = a / 2 / 3;\n";
    let once = compact(source);
    assert_eq!(once, "var a = `x\n  // kept\n`;\nvar b = a / 2 / 3;\n");
    assert_eq!(compact(&once), once);
}

#[test]
fn stripping_twice_changes_nothing_more() {
    let source = "var a = 1; /* x */ var b = '//'; // y\n";
    let once = strip_comments(source);
    assert_eq!(strip_comments(&once), once);
}

#[test]
fn an_open_comment_ends_with_the_source() {
    assert_eq!(compact("var a = 1; /* never closed"), "var a = 1;");
    assert_eq!(compact("// only a comment"), "");
    assert_eq!(compact(""), "");
}

#[test]
fn an_escaped_quote_does_not_end_a_literal() {
    let source = "var s = \"a\\\"// b\"; // c\n";
    assert_eq!(compact(source), "var s = \"a\\\"// b\";\n");
}

#[test]
fn a_slash_after_a_value_divides() {
    assert!(!opens_regex(')'));
    assert!(!opens_regex('a'));
    assert!(!opens_regex('4'));
    assert!(!opens_regex('é'), "a letter beyond ASCII ends a name");
    assert!(opens_regex('→'));
    assert!(opens_regex('='));
    assert!(opens_regex('('));
}

#[test]
fn minifying_keeps_the_sites() {
    let source = "/* hook(\"no\", RVA.no) */\n  hook(\"b\" ,\t\r\n\n   RVA.b, {});  \n\
                  \tattach(\n  \"a\", // first\n  RVA.a);\nvar s = 'f(\"c\",  RVA.c';\n\
                  f(\" d\", RVA.d); f (\"e\", RVA.e); f(\"b\", RVA.b);   ";
    assert_eq!(sites(source), vec!["b", "a", "c"]);
    assert_eq!(sites(&compact(source)), sites(source));
    assert_eq!(sites(&strip_comments(source)), sites(source));
}
