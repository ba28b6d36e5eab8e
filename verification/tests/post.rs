use protocol::post::{message, strings};
use protocol::pump::{pump, Wake};
use protocol::router::ToAgent;

fn pair(key: &str, value: &str) -> (String, String) {
    (key.to_string(), value.to_string())
}

#[test]
fn a_verdict_is_posted() {
    let work = ToAgent::Verdict {
        seq: 3,
        cancel: true,
        set: vec![pair("next", "19849"), pair("name", "a \"b\"")],
    };
    assert_eq!(
        message(&work),
        "{\"cancel\":true,\"seq\":3,\"set\":{\"name\":\"a \\\"b\\\"\",\"next\":\"19849\"},\
         \"type\":\"verdict\"}"
    );
}

#[test]
fn a_command_is_posted() {
    let work = ToAgent::Command {
        seq: u64::MAX,
        name: "player.teleport".to_string(),
        fields: vec![pair("x", "1"), pair("y", "2")],
    };
    assert_eq!(
        message(&work),
        "{\"f\":{\"x\":\"1\",\"y\":\"2\"},\"name\":\"player.teleport\",\
         \"seq\":18446744073709551615,\"type\":\"cmd\"}"
    );
}

#[test]
fn a_mode_is_posted() {
    assert_eq!(message(&ToAgent::Asking(false)), "{\"ask\":false,\"type\":\"mode\"}");
    assert_eq!(message(&ToAgent::Asking(true)), "{\"ask\":true,\"type\":\"mode\"}");
}

#[test]
fn the_last_field_of_a_key_stays() {
    let value = strings(&vec![pair("k", "1"), pair("l", "2"), pair("k", "3")]);
    assert_eq!(value.to_string(), "{\"k\":\"3\",\"l\":\"2\"}");
    assert_eq!(strings(&Vec::new()).to_string(), "{}");
}

#[test]
fn work_is_posted_and_the_loop_goes_on() {
    let reaction = pump(Wake::Work(ToAgent::Asking(true)));
    assert_eq!(reaction.posted, Some("{\"ask\":true,\"type\":\"mode\"}".to_string()));
    assert_eq!(reaction.told, None);
    assert!(reaction.goes_on);
}

#[test]
fn a_dead_coderpack_stops_the_questions() {
    let reaction = pump(Wake::Idle { detached: false, alive: false });
    assert_eq!(reaction.posted, Some("{\"ask\":false,\"type\":\"mode\"}".to_string()));
    assert_eq!(
        reaction.told,
        Some("[host] Coderpack stopped. Continuing in observe-only mode".to_string())
    );
    assert!(!reaction.goes_on);
}

#[test]
fn the_loop_ends_with_the_session() {
    for alive in [false, true] {
        let reaction = pump(Wake::Idle { detached: true, alive });
        assert_eq!((reaction.posted, reaction.told, reaction.goes_on), (None, None, false));
    }
    let reaction = pump(Wake::Abandoned);
    assert_eq!((reaction.posted, reaction.told, reaction.goes_on), (None, None, false));
    let reaction = pump(Wake::Idle { detached: false, alive: true });
    assert_eq!((reaction.posted, reaction.told, reaction.goes_on), (None, None, true));
}
