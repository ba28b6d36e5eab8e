use protocol::config::Config;
use protocol::game::{find_game, same_name, Process};
use protocol::jvm::{arguments, wire, Argument};
use protocol::pipe::{await_client, back, base_name, toward, Arrival, Wait, ARRIVAL};
use protocol::places::{
    agent_candidates, beside_exe, classpath, default_agent, default_dist, default_mods,
    dist_candidates, java_path, version, Java,
};

fn args(list: &[&str]) -> Vec<String> {
    list.iter().map(|argument| argument.to_string()).collect()
}

fn config(list: &[&str]) -> Config {
    match Config::from_args(&args(list)) {
        Ok(config) => config,
        Err(error) => panic!("{}", error),
    }
}

fn error(list: &[&str]) -> String {
    match Config::from_args(&args(list)) {
        Ok(_) => panic!("no error"),
        Err(error) => error,
    }
}

#[test]
fn no_arguments_are_needed() {
    let config = config(&[]);
    assert!(config.agent.is_none() && config.dist.is_none() && config.mods.is_none());
    assert!(config.java.is_none() && config.enable.is_none());
    assert!(config.skip.is_empty() && config.only.is_empty() && config.no_hook.is_empty());
    assert!(config.ask && !config.trace && !config.hooks);
}

#[test]
fn every_argument_is_known() {
    let config = config(&[
        "--agent", "a", "--dist", "d", "--mods", "m", "--enable", "x,y", "--java", "j",
        "--skip", "gold,position", "--only", "health", "--no-hook", "goldEpilogue",
        "--trace", "--no-ask", "--hooks",
    ]);
    assert_eq!(config.agent.as_deref(), Some("a"));
    assert_eq!(config.dist.as_deref(), Some("d"));
    assert_eq!(config.mods.as_deref(), Some("m"));
    assert_eq!(config.enable.as_deref(), Some("x,y"));
    assert_eq!(config.java.as_deref(), Some("j"));
    assert_eq!(config.skip, vec!["gold", "position"]);
    assert_eq!(config.only, vec!["health"]);
    assert_eq!(config.no_hook, vec!["goldEpilogue"]);
    assert!(!config.ask && config.trace && config.hooks);
}

#[test]
fn a_flag_may_stand_first() {
    let config = config(&["--trace", "--no-ask", "--agent", "x"]);
    assert!(config.trace && !config.ask);
    assert_eq!(config.agent.as_deref(), Some("x"));
}

#[test]
fn a_later_argument_overrides_an_earlier_one() {
    let config = config(&["--skip", "a,b", "--skip", "c", "--agent", "1", "--agent", "2"]);
    assert_eq!(config.skip, vec!["c"]);
    assert_eq!(config.agent.as_deref(), Some("2"));
}

#[test]
fn a_missing_value_is_empty() {
    assert_eq!(config(&["--agent"]).agent.as_deref(), Some(""));
    assert_eq!(config(&["--skip"]).skip, vec![""]);
    assert_eq!(config(&["--agent", "--trace"]).agent.as_deref(), Some("--trace"));
}

#[test]
fn an_unknown_argument_is_an_error() {
    assert_eq!(error(&["--what"]), "Unknown argument: --what");
    assert_eq!(error(&["--trace", "--agent", "a", "stray", "--no-ask"]), "Unknown argument: stray");
    assert_eq!(error(&[""]), "Unknown argument: ");
}

#[test]
fn the_agent_is_looked_for_in_order() {
    let shown = |marked: Vec<bool>| {
        let place = default_agent(&marked);
        (place.beside_exe, place.path)
    };
    assert_eq!(agent_candidates().len(), 3);
    assert_eq!(shown(vec![true, true, true]), (true, "agent".to_string()));
    assert_eq!(shown(vec![false, true, true]), (false, "../coderpack/agent/src".to_string()));
    assert_eq!(shown(vec![false, false, true]), (false, "agent/src".to_string()));
    assert_eq!(shown(vec![false, false, false]), (false, "agent".to_string()));
}

#[test]
fn the_jars_are_looked_for_in_order() {
    let shown = |marked: Vec<bool>| {
        let place = default_dist(&marked);
        (place.beside_exe, place.path)
    };
    assert_eq!(dist_candidates().len(), 3);
    assert_eq!(shown(vec![true, false, true]), (true, "".to_string()));
    assert_eq!(shown(vec![false, true, true]), (false, "dist".to_string()));
    assert_eq!(shown(vec![false, false, true]), (false, ".".to_string()));
    assert_eq!(shown(vec![false, false, false]), (false, "dist".to_string()));
}

#[test]
fn mods_belong_to_the_game() {
    assert_eq!(default_mods(true), "../mods");
    assert_eq!(default_mods(false), "mods");
}

#[test]
fn a_path_that_is_there_is_taken_as_it_is() {
    assert!(beside_exe(false, false));
    assert!(!beside_exe(true, false));
    assert!(!beside_exe(false, true));
}

#[test]
fn java_is_looked_for_in_order() {
    assert!(matches!(java_path(true, Some("C:/jdk")), Java::Beside));
    match java_path(false, Some("C:/jdk")) {
        Java::Home(home) => assert_eq!(home, "C:/jdk"),
        _ => panic!("the home directory"),
    }
    assert!(matches!(java_path(false, Some("")), Java::OnPath));
    assert!(matches!(java_path(false, None), Java::OnPath));
}

#[test]
fn the_classes_and_the_version() {
    assert_eq!(classpath("d/api.jar", "d/zygote.jar"), "d/api.jar;d/zygote.jar");
    assert_eq!(version(Some(" 1.2.3\r\n")), "1.2.3");
    assert_eq!(version(None), "dev");
}

fn process(pid: u32, name: &str) -> Process {
    Process { pid, name: name.to_string() }
}

#[test]
fn the_preferred_game_is_found() {
    let running = vec![
        process(1, "explorer.exe"),
        process(2, "game.EXE"),
        process(3, "SACRED.exe"),
        process(4, "sacred.exe"),
    ];
    assert_eq!(find_game(&running), Some((3, "SACRED.exe".to_string())));
    let more = vec![process(5, "Sacred.exe"), process(6, "purehd.exe")];
    assert_eq!(find_game(&more), Some((6, "purehd.exe".to_string())));
    assert_eq!(find_game(&vec![process(1, "Sacred.exe.bak")]), None);
    assert_eq!(find_game(&Vec::new()), None);
}

#[test]
fn the_case_of_a_name_does_not_count() {
    assert!(same_name("pureHD.exe", "PUREhd.EXE"));
    assert!(!same_name("pureHD.exe", "pureHD.ex"));
    assert!(!same_name("Ä", "ä"), "only the English letters");
    assert!(!same_name("[", "{"));
    assert!(!same_name("@", "`"));
}

fn shown(list: Vec<Argument>) -> Vec<String> {
    list.into_iter()
        .map(|argument| match argument {
            Argument::Text(text) => text,
            Argument::Mods => "<mods>".to_string(),
        })
        .collect()
}

#[test]
fn coderpack_is_started_with_its_arguments() {
    assert_eq!(
        shown(arguments("a;b", None, None)),
        vec!["-cp", "a;b", "dev.ancaria.coderpack.zygote.Main", "--mods", "<mods>"]
    );
    assert_eq!(
        shown(arguments("a;b", Some("x,y"), Some("p"))),
        vec![
            "-cp", "a;b", "dev.ancaria.coderpack.zygote.Main", "--mods", "<mods>", "--enable",
            "x,y", "--pipe", "p"
        ]
    );
    assert_eq!(shown(arguments("c", None, Some("p"))).len(), 7);
}

#[test]
fn a_line_ends_on_the_wire() {
    assert_eq!(wire("EVT 1 x"), "EVT 1 x\n");
}

#[test]
fn pipes_have_names_of_their_own() {
    assert_eq!(
        base_name(0x0123456789abcdef),
        "\\\\.\\pipe\\ancaria-00000000000000000123456789abcdef"
    );
    assert_eq!(
        base_name(u128::MAX),
        "\\\\.\\pipe\\ancaria-ffffffffffffffffffffffffffffffff"
    );
    assert_eq!(base_name(77), format!("\\\\.\\pipe\\ancaria-{:032x}", 77));
    assert_eq!(toward("b"), "b.in");
    assert_eq!(back("b"), "b.out");
}

fn why(arrival: Arrival) -> String {
    match await_client("b", arrival) {
        Wait::Failed(why) => why,
        _ => panic!("a failure"),
    }
}

#[test]
fn the_wait_for_the_jvm_ends() {
    assert!(matches!(await_client("b", Arrival::Answered(true)), Wait::Connected));
    assert!(matches!(
        await_client("b", Arrival::Nothing { running: true, late: false }),
        Wait::GoOn
    ));
    assert_eq!(why(Arrival::Answered(false)), "Coderpack could not be connected on b");
    assert_eq!(why(Arrival::Lost), "Coderpack could not be connected on b");
    assert_eq!(
        why(Arrival::Nothing { running: false, late: true }),
        "Coderpack exited before it connected to the host. Its own output above says why"
    );
    assert_eq!(
        why(Arrival::Nothing { running: true, late: true }),
        "Coderpack did not connect within 60 seconds. A Coderpack older than this host does not \
         know how, so check that launcher/zygote.jar was upgraded with it"
    );
    assert_eq!(ARRIVAL, 60);
}
