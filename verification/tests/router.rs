use protocol::codec::Frame;
use protocol::explain::{explain, other};
use protocol::flatten::{flatten, items_of, nested};
use protocol::pending::Pending;
use protocol::router::{
    expire, from_sal, hear, notice, proceed, too_late, Heard, Message, Payload, Router, ToAgent,
    VERDICT_DEADLINE, WATCH_INTERVAL,
};
use serde_json::Value;

fn json(text: &str) -> Value {
    serde_json::from_str(text).expect("JSON")
}

fn frame(line: &str) -> Frame {
    Frame::decode(line).expect("parses")
}

fn payload(kind: &str, id: u64, result: &str, returns: &str) -> Payload {
    Payload {
        kind: kind.to_string(),
        id,
        result: result.to_string(),
        returns: json(returns),
    }
}

fn pair(key: &str, value: &str) -> (String, String) {
    (key.to_string(), value.to_string())
}

#[test]
fn a_verdict_closes_its_question() {
    let mut pending = Pending::default();
    pending.open(3, 10);
    pending.open(4, 10);
    match from_sal(&frame("END 3 cancel=1"), &mut pending) {
        Some(ToAgent::Verdict { seq, cancel, set }) => {
            assert_eq!((seq, cancel), (3, true));
            assert!(set.is_empty());
        }
        _ => panic!("a verdict"),
    }
    assert_eq!(pending.overdue(1_000_000_000, 0), vec![4]);
}

#[test]
fn the_verdicts_of_the_protocol() {
    let mut pending = Pending::default();
    match from_sal(&frame("END 9 ok=1"), &mut pending) {
        Some(ToAgent::Verdict { seq: 9, cancel: false, set }) => assert!(set.is_empty()),
        _ => panic!("proceeds"),
    }
    match from_sal(&frame("END 9 cancel=0"), &mut pending) {
        Some(ToAgent::Verdict { cancel, .. }) => assert!(!cancel),
        _ => panic!("proceeds"),
    }
    match from_sal(&frame("END 5 set.ref=8901 set.type=a%20b x=1"), &mut pending) {
        Some(ToAgent::Verdict { seq: 5, cancel: false, set }) => {
            assert_eq!(set, vec![pair("ref", "8901"), pair("type", "a b")]);
        }
        _ => panic!("rewrites"),
    }
}

#[test]
fn a_command_goes_on_as_it_is() {
    let mut pending = Pending::default();
    match from_sal(&frame("CMD 7 player.teleport x=222850 y=137608"), &mut pending) {
        Some(ToAgent::Command { seq, name, fields }) => {
            assert_eq!((seq, name.as_str()), (7, "player.teleport"));
            assert_eq!(fields, vec![pair("x", "222850"), pair("y", "137608")]);
        }
        _ => panic!("a command"),
    }
}

#[test]
fn goodbye_stops_the_questions() {
    let mut pending = Pending::default();
    assert!(matches!(from_sal(&frame("BYE"), &mut pending), Some(ToAgent::Asking(false))));
}

#[test]
fn other_frames_are_reported() {
    let mut pending = Pending::default();
    let log = frame("LOG 0 warn text=slow%20mod");
    assert!(from_sal(&log, &mut pending).is_none());
    assert_eq!(notice(&log), Some("[coderpack] warn LOG 0 warn text=slow%20mod".to_string()));
    let odd = frame("FOO 1 bar");
    assert!(from_sal(&odd, &mut pending).is_none());
    assert_eq!(notice(&odd), Some("[coderpack] Unknown frame type: FOO".to_string()));
    assert_eq!(notice(&frame("END 1 ok=1")), None);
}

#[test]
fn a_line_is_work_or_a_notice() {
    let mut pending = Pending::default();
    pending.open(3, 0);
    assert!(matches!(
        hear("END 3 ok=1", &mut pending),
        Heard::Work(ToAgent::Verdict { seq: 3, cancel: false, .. })
    ));
    assert!(pending.overdue(u128::MAX, 0).is_empty());
    match hear("hello from a mod", &mut pending) {
        Heard::Notice(text) => {
            assert_eq!(text, "[coderpack] Could not parse Coderpack output: hello from a mod");
        }
        _ => panic!("a notice"),
    }
    match hear("FOO 1", &mut pending) {
        Heard::Notice(text) => assert_eq!(text, "[coderpack] Unknown frame type: FOO"),
        _ => panic!("a notice"),
    }
}

#[test]
fn a_question_is_overdue_once_it_is_older_than_the_deadline() {
    let mut pending = Pending::default();
    pending.open(1, 1_000);
    assert!(pending.overdue(1_000 + VERDICT_DEADLINE, VERDICT_DEADLINE).is_empty());
    assert_eq!(pending.overdue(1_001 + VERDICT_DEADLINE, VERDICT_DEADLINE), vec![1]);
    assert!(pending.overdue(0, 0).is_empty(), "asked later than now");
    pending.open(1, 2_000);
    assert!(pending.overdue(1_001 + VERDICT_DEADLINE, VERDICT_DEADLINE).is_empty());
    pending.close(1);
    assert!(pending.overdue(u128::MAX, 0).is_empty());
    pending.close(1);
}

#[test]
fn the_host_answers_what_is_overdue_once() {
    let mut pending = Pending::default();
    pending.open(1, 0);
    pending.open(2, 0);
    pending.open(3, 300_000_000);
    let mut late = expire(&mut pending, 300_000_000, VERDICT_DEADLINE);
    late.sort();
    assert_eq!(late, vec![1, 2]);
    assert!(expire(&mut pending, 300_000_000, VERDICT_DEADLINE).is_empty());
    assert_eq!(expire(&mut pending, 600_000_000, VERDICT_DEADLINE), vec![3]);
    match proceed(1) {
        ToAgent::Verdict { seq, cancel, set } => {
            assert_eq!((seq, cancel), (1, false));
            assert!(set.is_empty());
        }
        _ => panic!("a verdict"),
    }
    assert_eq!(
        too_late(1),
        "[host] Coderpack did not answer request 1 in time. Continuing"
    );
}

#[test]
fn the_watchdog_answers_within_375_milliseconds() {
    for since in [0u128, 1, 40_000_000, 124_999_999, 125_000_000] {
        let mut pending = Pending::default();
        pending.open(1, since);
        let mut now = 0;
        while expire(&mut pending, now, VERDICT_DEADLINE).is_empty() {
            now += WATCH_INTERVAL;
        }
        assert!(now - since > 250_000_000 && now - since <= 375_000_000);
    }
}

#[test]
fn fields_are_flat() {
    let value = json("{\"z\":null,\"b\":true,\"a\":false,\"n\":-5,\"s\":\"x y\",\"f\":1.5}");
    assert_eq!(
        flatten(&value),
        vec![
            pair("a", "0"),
            pair("b", "1"),
            pair("f", "1.5"),
            pair("n", "-5"),
            pair("s", "x y"),
        ]
    );
    assert!(flatten(&json("[1,2]")).is_empty());
    assert!(flatten(&json("\"text\"")).is_empty());
    assert!(flatten(&json("{}")).is_empty());
}

#[test]
fn nested_fields_are_json_text_and_named() {
    let value = json("{\"o\":{\"k\":[1, null]},\"l\":[true],\"p\":1}");
    assert_eq!(
        flatten(&value),
        vec![pair("l", "[true]"), pair("o", "{\"k\":[1,null]}"), pair("p", "1")]
    );
    assert_eq!(nested(&items_of(&value)), vec!["l", "o"]);
}

#[test]
fn messages_become_lines() {
    let mut router = Router::new(8);
    let told = router.dispatch(
        &payload("ask", 3, "health.damage", "{\"entity\":\"player\",\"damage\":553}"),
        5,
    );
    assert!(told.is_empty());
    assert_eq!(
        router.to_sal.next_line(),
        Some("ASK 3 health.damage damage=553 entity=player".to_string())
    );
    assert_eq!(router.pending.overdue(6, 0), vec![3]);
    router.dispatch(&payload("evt", 4, "entity.death", "{}"), 6);
    router.dispatch(&payload("res", 8, "", "{\"ok\":true,\"gold\":104233}"), 6);
    assert_eq!(router.to_sal.next_line(), Some("EVT 4 entity.death".to_string()));
    let res = router.to_sal.next_line().expect("a line");
    assert_eq!(res, "RES 8 gold=104233 ok=1");
    assert_eq!(frame(&res).field("gold"), Some("104233"));
    assert_eq!(router.to_sal.next_line(), None);
    assert_eq!(router.pending.overdue(7, 0), vec![3], "only questions are open");
}

#[test]
fn a_message_is_read_as_it_was_sent() {
    let mut router = Router::new(8);
    router.dispatch(&payload("evt", 2, "item.pickup", "{\"name\":\"a = 100%\\n\"}"), 0);
    let read = frame(&router.to_sal.next_line().expect("a line"));
    assert_eq!((read.verb.as_str(), read.seq, read.name.as_str()), ("EVT", 2, "item.pickup"));
    assert_eq!(read.fields, vec![pair("name", "a = 100%\n")]);
}

#[test]
fn nested_fields_are_reported() {
    let mut router = Router::new(8);
    let told = router.dispatch(&payload("evt", 1, "x", "{\"in\":{}}"), 0);
    assert_eq!(
        told,
        vec![
            "[agent] Field in is nested, but the protocol accepts only flat fields; \
             Coderpack will ignore its contents"
        ]
    );
}

#[test]
fn what_the_agent_logs_stays_with_the_host() {
    let mut router = Router::new(8);
    assert_eq!(router.dispatch(&payload("log", 1, "hello", "{}"), 0), vec!["[agent] hello"]);
    assert_eq!(
        router.dispatch(&payload("foo", 1, "hello", "{}"), 0),
        vec!["[agent] Unknown frame type: foo"]
    );
    assert_eq!(router.to_sal.next_line(), None);
}

#[test]
fn every_message_of_the_script_is_taken() {
    let mut router = Router::new(8);
    assert!(router.on_message(&Message::Send(payload("evt", 1, "x", "{}")), 0).is_empty());
    assert_eq!(router.to_sal.next_line(), Some("EVT 1 x".to_string()));
    assert_eq!(
        router.on_message(&Message::Log("note".to_string()), 0),
        vec!["[agent] note"]
    );
    let error = Message::Error {
        description: "TypeError: x".to_string(),
        file_name: "/sal.js".to_string(),
        line_number: 12,
    };
    assert_eq!(
        router.on_message(&error, 0),
        vec!["[agent] Error: TypeError: x at /sal.js:12"]
    );
    let thrown = json("{\"data\":\"{\\\"description\\\":\\\"boom\\\"}\"}");
    assert_eq!(router.on_message(&Message::Other(thrown), 0), vec!["[agent] boom"]);
}

#[test]
fn an_error_is_dug_out_of_its_message() {
    let message = |inner: &str| {
        let mut object = serde_json::Map::new();
        object.insert("data".to_string(), Value::from(inner));
        Value::Object(object)
    };
    assert_eq!(other(&json("{\"b\":1,\"a\":[2]}")), "{\"a\":[2],\"b\":1}");
    assert_eq!(other(&json("7")), "7");
    assert_eq!(other(&json("{\"data\":5}")), "{\"data\":5}");
    assert_eq!(other(&message("not JSON")), "not JSON");
    assert_eq!(other(&message("{\"stack\":\"s\"}")), "{\"stack\":\"s\"}");
    assert_eq!(other(&message("{\"description\":\"boom\"}")), "boom");
    assert_eq!(
        other(&message(
            "{\"description\":\"boom\",\"stack\":\"boom\\n   at a (x.js:1)  \\n\\n at b\\r\\n\"}"
        )),
        "boom\n    at a (x.js:1)\n    at b"
    );
}

#[test]
fn a_stack_stands_below_its_description() {
    assert_eq!(explain("raw", None, Some("s")), "raw");
    assert_eq!(explain("raw", Some("what"), None), "what");
    assert_eq!(explain("raw", Some("what"), Some("")), "what\n    ");
    assert_eq!(explain("raw", Some("what"), Some("one line")), "what\n    ");
    assert_eq!(explain("raw", Some("what"), Some("head\n a\nb ")), "what\n    a\n    b");
}
