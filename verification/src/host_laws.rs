//! What the command line, the default places, the choice of the game and the
//! command and pipes of Coderpack come to, case by case.
use vstd::prelude::*;

use crate::config::{configured, unconfigured, ConfigView};
use crate::game::{
    find_process, game_of, game_processes, is_called, lower, lower_char, Process,
};
use crate::jvm::{arguments_of, ArgumentView};
use crate::number::decimal;
use crate::pipe::{base_of, failure_of, hex, hex_digit, Arrival};
use crate::places::{agent_places, dist_places, first_marked, PlaceView};
use crate::text::split;
use crate::text_laws::law_text_is_cut_at_separators;
use crate::wire_laws::worth;

verus! {

/// Every option sets what it is for to its value, and nothing else; what follows
/// the value is read as it would be alone.
pub proof fn law_options_set_their_values(
    config: ConfigView,
    value: Seq<char>,
    rest: Seq<Seq<char>>,
)
    ensures
        configured(config, seq!["--agent"@, value] + rest) == configured(
            ConfigView { agent: Some(value), ..config },
            rest,
        ),
        configured(config, seq!["--dist"@, value] + rest) == configured(
            ConfigView { dist: Some(value), ..config },
            rest,
        ),
        configured(config, seq!["--mods"@, value] + rest) == configured(
            ConfigView { mods: Some(value), ..config },
            rest,
        ),
        configured(config, seq!["--enable"@, value] + rest) == configured(
            ConfigView { enable: Some(value), ..config },
            rest,
        ),
        configured(config, seq!["--java"@, value] + rest) == configured(
            ConfigView { java: Some(value), ..config },
            rest,
        ),
        configured(config, seq!["--skip"@, value] + rest) == configured(
            ConfigView { skip: split(value, ','), ..config },
            rest,
        ),
        configured(config, seq!["--only"@, value] + rest) == configured(
            ConfigView { only: split(value, ','), ..config },
            rest,
        ),
        configured(config, seq!["--no-hook"@, value] + rest) == configured(
            ConfigView { no_hook: split(value, ','), ..config },
            rest,
        ),
{
    reveal_flags();
    lemma_two("--agent"@, value, rest);
    lemma_two("--dist"@, value, rest);
    lemma_two("--mods"@, value, rest);
    lemma_two("--enable"@, value, rest);
    lemma_two("--java"@, value, rest);
    lemma_two("--skip"@, value, rest);
    lemma_two("--only"@, value, rest);
    lemma_two("--no-hook"@, value, rest);
}

proof fn lemma_two(a: Seq<char>, b: Seq<char>, rest: Seq<Seq<char>>)
    ensures
        (seq![a, b] + rest)[0] == a,
        (seq![a, b] + rest)[1] == b,
        (seq![a, b] + rest).skip(2) == rest,
{
    assert((seq![a, b] + rest).skip(2) == rest);
}

proof fn lemma_three(a: Seq<char>, rest: Seq<Seq<char>>)
    ensures
        (seq![a] + rest)[0] == a,
        (seq![a] + rest).skip(1) == rest,
{
    assert((seq![a] + rest).skip(1) == rest);
}

/// No two of the options are the same.
proof fn reveal_flags()
    ensures
        "--agent"@ != "--trace"@ && "--agent"@ != "--hooks"@ && "--agent"@ != "--no-ask"@,
        "--dist"@ != "--trace"@ && "--dist"@ != "--hooks"@ && "--dist"@ != "--no-ask"@,
        "--mods"@ != "--trace"@ && "--mods"@ != "--hooks"@ && "--mods"@ != "--no-ask"@,
        "--enable"@ != "--trace"@ && "--enable"@ != "--hooks"@ && "--enable"@ != "--no-ask"@,
        "--java"@ != "--trace"@ && "--java"@ != "--hooks"@ && "--java"@ != "--no-ask"@,
        "--skip"@ != "--trace"@ && "--skip"@ != "--hooks"@ && "--skip"@ != "--no-ask"@,
        "--only"@ != "--trace"@ && "--only"@ != "--hooks"@ && "--only"@ != "--no-ask"@,
        "--no-hook"@ != "--trace"@ && "--no-hook"@ != "--hooks"@ && "--no-hook"@ != "--no-ask"@,
        "--trace"@ != "--hooks"@ && "--trace"@ != "--no-ask"@ && "--hooks"@ != "--no-ask"@,
        "--agent"@ != "--dist"@ && "--agent"@ != "--mods"@ && "--agent"@ != "--enable"@,
        "--agent"@ != "--java"@ && "--agent"@ != "--skip"@ && "--agent"@ != "--only"@,
        "--agent"@ != "--no-hook"@ && "--dist"@ != "--mods"@ && "--dist"@ != "--enable"@,
        "--dist"@ != "--java"@ && "--dist"@ != "--skip"@ && "--dist"@ != "--only"@,
        "--dist"@ != "--no-hook"@ && "--mods"@ != "--enable"@ && "--mods"@ != "--java"@,
        "--mods"@ != "--skip"@ && "--mods"@ != "--only"@ && "--mods"@ != "--no-hook"@,
        "--enable"@ != "--java"@ && "--enable"@ != "--skip"@ && "--enable"@ != "--only"@,
        "--enable"@ != "--no-hook"@ && "--java"@ != "--skip"@ && "--java"@ != "--only"@,
        "--java"@ != "--no-hook"@ && "--skip"@ != "--only"@ && "--skip"@ != "--no-hook"@,
        "--only"@ != "--no-hook"@,
{
    reveal_strlit("--agent");
    reveal_strlit("--dist");
    reveal_strlit("--mods");
    reveal_strlit("--enable");
    reveal_strlit("--java");
    reveal_strlit("--skip");
    reveal_strlit("--only");
    reveal_strlit("--no-hook");
    reveal_strlit("--trace");
    reveal_strlit("--hooks");
    reveal_strlit("--no-ask");
    assert("--agent"@[2] == 'a' && "--dist"@[2] == 'd' && "--mods"@[2] == 'm' && "--enable"@[2]
        == 'e' && "--java"@[2] == 'j' && "--skip"@[2] == 's' && "--only"@[2] == 'o'
        && "--no-hook"@[2] == 'n' && "--trace"@[2] == 't' && "--hooks"@[2] == 'h'
        && "--no-ask"@[2] == 'n');
    assert("--no-hook"@.len() != "--no-ask"@.len());
}

/// Every switch sets what it is for, and nothing else, wherever it stands; without
/// arguments nothing is set, and an option at the end has an empty value.
pub proof fn law_switches_stand_alone(config: ConfigView, rest: Seq<Seq<char>>)
    ensures
        configured(config, Seq::empty()) == Ok::<ConfigView, Seq<char>>(config),
        configured(config, seq!["--trace"@] + rest) == configured(
            ConfigView { trace: true, ..config },
            rest,
        ),
        configured(config, seq!["--no-ask"@] + rest) == configured(
            ConfigView { ask: false, ..config },
            rest,
        ),
        configured(config, seq!["--hooks"@] + rest) == configured(
            ConfigView { hooks: true, ..config },
            rest,
        ),
        configured(config, seq!["--agent"@]) == Ok::<ConfigView, Seq<char>>(
            ConfigView { agent: Some(Seq::empty()), ..config },
        ),
        configured(config, seq!["--dist"@]) == Ok::<ConfigView, Seq<char>>(
            ConfigView { dist: Some(Seq::empty()), ..config },
        ),
        configured(config, seq!["--mods"@]) == Ok::<ConfigView, Seq<char>>(
            ConfigView { mods: Some(Seq::empty()), ..config },
        ),
        configured(config, seq!["--enable"@]) == Ok::<ConfigView, Seq<char>>(
            ConfigView { enable: Some(Seq::empty()), ..config },
        ),
        configured(config, seq!["--java"@]) == Ok::<ConfigView, Seq<char>>(
            ConfigView { java: Some(Seq::empty()), ..config },
        ),
        configured(config, seq!["--skip"@]) == Ok::<ConfigView, Seq<char>>(
            ConfigView { skip: seq![Seq::empty()], ..config },
        ),
        configured(config, seq!["--only"@]) == Ok::<ConfigView, Seq<char>>(
            ConfigView { only: seq![Seq::empty()], ..config },
        ),
        configured(config, seq!["--no-hook"@]) == Ok::<ConfigView, Seq<char>>(
            ConfigView { no_hook: seq![Seq::empty()], ..config },
        ),
        unconfigured() == (ConfigView {
            agent: None,
            dist: None,
            mods: None,
            java: None,
            skip: Seq::empty(),
            only: Seq::empty(),
            ask: true,
            no_hook: Seq::empty(),
            trace: false,
            enable: None,
            hooks: false,
        }),
{
    reveal_flags();
    lemma_three("--trace"@, rest);
    lemma_three("--no-ask"@, rest);
    lemma_three("--hooks"@, rest);
    let none = Seq::<Seq<char>>::empty();
    law_text_is_cut_at_separators(Seq::empty(), ',', Seq::empty());
    assert(unconfigured().skip == none && unconfigured().only == none && unconfigured().no_hook
        == none);
}

/// What is none of the options and none of the switches is an error that names
/// it.
pub proof fn law_anything_else_is_an_error(
    config: ConfigView,
    argument: Seq<char>,
    rest: Seq<Seq<char>>,
)
    requires
        argument != "--agent"@ && argument != "--dist"@ && argument != "--mods"@,
        argument != "--enable"@ && argument != "--java"@ && argument != "--skip"@,
        argument != "--only"@ && argument != "--no-hook"@ && argument != "--trace"@,
        argument != "--no-ask"@ && argument != "--hooks"@,
    ensures
        configured(config, seq![argument] + rest) == Err::<ConfigView, Seq<char>>(
            "Unknown argument: "@ + argument,
        ),
{
    lemma_three(argument, rest);
}

/// The agent is looked for beside the executable, then next door, then in the
/// working tree, and is expected in `agent` where it is nowhere.
pub proof fn law_agent_is_looked_for(a: bool, b: bool, c: bool, otherwise: PlaceView)
    ensures
        first_marked(agent_places(), seq![a, b, c], otherwise) == (if a {
            PlaceView { beside_exe: true, path: "agent"@ }
        } else if b {
            PlaceView { beside_exe: false, path: "../coderpack/agent/src"@ }
        } else if c {
            PlaceView { beside_exe: false, path: "agent/src"@ }
        } else {
            otherwise
        }),
        first_marked(dist_places(), seq![a, b, c], otherwise) == (if a {
            PlaceView { beside_exe: true, path: ""@ }
        } else if b {
            PlaceView { beside_exe: false, path: "dist"@ }
        } else if c {
            PlaceView { beside_exe: false, path: "."@ }
        } else {
            otherwise
        }),
{
    let marks = seq![a, b, c];
    assert(marks.drop_first() == seq![b, c]);
    assert(seq![b, c].drop_first() == seq![c]);
    assert(seq![c].drop_first() == Seq::<bool>::empty());
    reveal_with_fuel(first_marked, 4);
    let p = agent_places();
    assert(p.drop_first()[0] == p[1] && p.drop_first().drop_first()[0] == p[2]);
    let d = dist_places();
    assert(d.drop_first()[0] == d[1] && d.drop_first().drop_first()[0] == d[2]);
}

/// Whether two characters are the same letter of the English alphabet, or the same
/// character.
pub open spec fn same_letter(a: char, b: char) -> bool {
    ||| a == b
    ||| 'A' <= a && a <= 'Z' && b as int == a as int + 32
    ||| 'A' <= b && b <= 'Z' && a as int == b as int + 32
}

/// Two names are the same where they have the same letters in the same places.
pub open spec fn same_letters(a: Seq<char>, b: Seq<char>) -> bool {
    a.len() == b.len() && forall|i: int|
        0 <= i < a.len() ==> same_letter(#[trigger] a[i], b[i])
}

/// A process has a name if its letters are the same but for their case.
pub proof fn law_case_does_not_count(process: Process, name: Seq<char>)
    ensures
        is_called(process, name) <==> same_letters(process.name@, name),
{
    let a = process.name@;
    let s = lower(a);
    let t = lower(name);
    if same_letters(a, name) {
        assert forall|i: int| 0 <= i < s.len() implies s[i] == t[i] by {
            assert(same_letter(a[i], name[i]));
            lemma_same_letter(a[i], name[i]);
        }
        assert(s == t);
    }
    if s == t {
        assert(s.len() == a.len() && t.len() == name.len());
        assert forall|i: int| 0 <= i < a.len() implies same_letter(#[trigger] a[i], name[i]) by {
            assert(s[i] == t[i]);
            assert(s[i] == lower_char(a[i]) && t[i] == lower_char(name[i]));
            lemma_same_letter(a[i], name[i]);
        }
    }
}

proof fn lemma_same_letter(a: char, b: char)
    ensures
        lower_char(a) == lower_char(b) <==> same_letter(a, b),
{
}

/// The first process of `pureHD.exe` is the game, if there is one; otherwise the
/// first of `Sacred.exe`, and otherwise the first of `Game.exe`.
pub proof fn law_game_has_one_of_three_names(list: Seq<Process>, i: int)
    requires
        0 <= i < list.len(),
        ({
            let a = same_letters(list[i].name@, "pureHD.exe"@);
            let b = same_letters(list[i].name@, "Sacred.exe"@);
            let c = same_letters(list[i].name@, "Game.exe"@);
            ||| a && no_other(list, "pureHD.exe"@, i)
            ||| b && no_other(list, "Sacred.exe"@, i) && no_other(
                list,
                "pureHD.exe"@,
                list.len() as int,
            )
            ||| c && no_other(list, "Game.exe"@, i) && no_other(
                list,
                "Sacred.exe"@,
                list.len() as int,
            ) && no_other(list, "pureHD.exe"@, list.len() as int)
        }),
    ensures
        game_of(list, game_processes()) == Some(list[i]),
{
    let names = game_processes();
    let p = "pureHD.exe"@;
    let s = "Sacred.exe"@;
    let g = "Game.exe"@;
    assert(names[0] == p && names[1] == s && names[2] == g);
    assert(names.drop_first() == seq![s, g]);
    assert(seq![s, g].drop_first() == seq![g]);
    reveal_with_fuel(game_of, 4);
    if same_letters(list[i].name@, p) && no_other(list, p, i) {
        lemma_finds(list, p, i);
    } else {
        lemma_finds_none(list, p);
        if same_letters(list[i].name@, s) && no_other(list, s, i) {
            lemma_finds(list, s, i);
        } else {
            lemma_finds_none(list, s);
            lemma_finds(list, g, i);
        }
    }
}

/// Where no process has one of the names, the game is not running.
pub proof fn law_nothing_else_is_the_game(list: Seq<Process>)
    requires
        no_other(list, "pureHD.exe"@, list.len() as int),
        no_other(list, "Sacred.exe"@, list.len() as int),
        no_other(list, "Game.exe"@, list.len() as int),
    ensures
        game_of(list, game_processes()) is None,
{
    let names = game_processes();
    let p = "pureHD.exe"@;
    let s = "Sacred.exe"@;
    let g = "Game.exe"@;
    assert(names.drop_first() == seq![s, g]);
    assert(seq![s, g].drop_first() == seq![g]);
    assert(seq![g].drop_first() == Seq::<Seq<char>>::empty());
    reveal_with_fuel(game_of, 4);
    lemma_finds_none(list, p);
    lemma_finds_none(list, s);
    lemma_finds_none(list, g);
}

/// Whether none of the first processes has a name.
pub open spec fn no_other(list: Seq<Process>, name: Seq<char>, end: int) -> bool {
    forall|j: int| 0 <= j < end ==> !same_letters((#[trigger] list[j]).name@, name)
}

proof fn lemma_finds(list: Seq<Process>, name: Seq<char>, i: int)
    requires
        0 <= i < list.len(),
        same_letters(list[i].name@, name),
        no_other(list, name, i),
    ensures
        find_process(list, name) == i,
    decreases list.len(),
{
    law_case_does_not_count(list[0], name);
    if i > 0 {
        assert(!same_letters(list[0].name@, name));
        let rest = list.drop_first();
        assert forall|j: int| 0 <= j < i - 1 implies !same_letters(
            (#[trigger] rest[j]).name@,
            name,
        ) by {
            assert(!same_letters(list[j + 1].name@, name));
        }
        lemma_finds(rest, name, i - 1);
    }
}

proof fn lemma_finds_none(list: Seq<Process>, name: Seq<char>)
    requires
        no_other(list, name, list.len() as int),
    ensures
        find_process(list, name) == list.len(),
    decreases list.len(),
{
    if list.len() > 0 {
        law_case_does_not_count(list[0], name);
        assert(!same_letters(list[0].name@, name));
        let rest = list.drop_first();
        assert forall|j: int| 0 <= j < rest.len() implies !same_letters(
            (#[trigger] rest[j]).name@,
            name,
        ) by {
            assert(!same_letters(list[j + 1].name@, name));
        }
        lemma_finds_none(rest, name);
    }
}

/// Coderpack is started with its classes, its main class and the folder of the
/// mods, in this order, then with the mods that are enabled, and then with the
/// pipe, each if there is one.
pub proof fn law_coderpack_is_started(classpath: Seq<char>, ids: Seq<char>, pipe: Seq<char>)
    ensures
        ({
            let start = seq![
                ArgumentView::Text("-cp"@),
                ArgumentView::Text(classpath),
                ArgumentView::Text("dev.ancaria.coderpack.zygote.Main"@),
                ArgumentView::Text("--mods"@),
                ArgumentView::Mods,
            ];
            let enabled = seq![ArgumentView::Text("--enable"@), ArgumentView::Text(ids)];
            let piped = seq![ArgumentView::Text("--pipe"@), ArgumentView::Text(pipe)];
            &&& arguments_of(classpath, None, None) == start
            &&& arguments_of(classpath, Some(ids), None) == start + enabled
            &&& arguments_of(classpath, None, Some(pipe)) == start + piped
            &&& arguments_of(classpath, Some(ids), Some(pipe)) == start + enabled + piped
        }),
{
    let start = seq![
        ArgumentView::Text("-cp"@),
        ArgumentView::Text(classpath),
        ArgumentView::Text("dev.ancaria.coderpack.zygote.Main"@),
        ArgumentView::Text("--mods"@),
        ArgumentView::Mods,
    ];
    let enabled = seq![ArgumentView::Text("--enable"@), ArgumentView::Text(ids)];
    let piped = seq![ArgumentView::Text("--pipe"@), ArgumentView::Text(pipe)];
    assert(arguments_of(classpath, None, None) == start);
    assert(arguments_of(classpath, Some(ids), None) == start + enabled);
    assert(arguments_of(classpath, None, Some(pipe)) == start + piped);
    assert(arguments_of(classpath, Some(ids), Some(pipe)) == start + enabled + piped);
}

/// What hexadecimal digits are worth, one after the other.
pub open spec fn worth_of(s: Seq<char>) -> int
    decreases s.len(),
{
    if s.len() == 0 {
        0
    } else {
        16 * worth_of(s.drop_last()) + worth(s.last())
    }
}

/// The name of the pipes is made of the number, in 32 small hexadecimal digits.
pub proof fn law_pipes_are_named_by_the_number(random: u128)
    ensures
        ({
            let start = "\\\\.\\pipe\\ancaria-"@;
            let digits = base_of(random).skip(start.len() as int);
            &&& base_of(random) == start + digits
            &&& digits.len() == 32
            &&& worth_of(digits) == random
            &&& forall|i: int|
                0 <= i < 32 ==> worth(#[trigger] digits[i]) >= 0 && !('A' <= digits[i] && digits[i]
                    <= 'F')
        }),
{
    let start = "\\\\.\\pipe\\ancaria-"@;
    let digits = hex(random as nat, 32);
    assert(base_of(random).skip(start.len() as int) == digits);
    lemma_hex_worth(random as nat, 32);
    lemma_power();
}

spec fn power(width: nat) -> nat
    decreases width,
{
    if width == 0 {
        1
    } else {
        16 * power((width - 1) as nat)
    }
}

proof fn lemma_power()
    ensures
        power(32) == 0x1_0000_0000_0000_0000_0000_0000_0000_0000,
{
    reveal_with_fuel(power, 33);
}

proof fn lemma_hex_worth(n: nat, width: nat)
    ensures
        hex(n, width).len() == width,
        n < power(width) ==> worth_of(hex(n, width)) == n,
        forall|i: int|
            0 <= i < width ==> worth(#[trigger] hex(n, width)[i]) >= 0 && !('A' <= hex(n, width)[i]
                && hex(n, width)[i] <= 'F'),
    decreases width,
{
    if width > 0 {
        let less = (width - 1) as nat;
        let s = hex(n, width);
        let t = hex(n / 16, less);
        lemma_hex_worth(n / 16, less);
        let d = (n % 16) as int;
        assert(s.drop_last() == t);
        assert(s.last() == hex_digit(d));
        assert(worth(hex_digit(d)) == d);
        assert forall|i: int| 0 <= i < width implies worth(#[trigger] s[i]) >= 0 && !('A' <= s[i]
            && s[i] <= 'F') by {
            if i < less {
                assert(s[i] == t[i]);
            }
        }
    }
}

/// Why the host gives up waiting for the JVM: the wait failed, the JVM is dead, or
/// the time has run out; otherwise it does not.
pub proof fn law_waiting_ends(base: Seq<char>, late: bool)
    ensures
        failure_of(base, Arrival::Answered(true)) is None,
        failure_of(base, Arrival::Answered(false)) == Some(
            "Coderpack could not be connected on "@ + base,
        ),
        failure_of(base, Arrival::Lost) == Some("Coderpack could not be connected on "@ + base),
        failure_of(base, Arrival::Nothing { running: false, late }) == Some(
            "Coderpack exited before it connected to the host. Its own output above says why"@,
        ),
        failure_of(base, Arrival::Nothing { running: true, late: true }) == Some(
            "Coderpack did not connect within "@ + seq!['6', '0']
                + " seconds. A Coderpack older than this host does not know how, so check that launcher/zygote.jar was upgraded with it"@,
        ),
        failure_of(base, Arrival::Nothing { running: true, late: false }) is None,
{
    reveal_with_fuel(decimal, 3);
    assert(decimal(60) == seq!['6', '0']);
}

} // verus!
